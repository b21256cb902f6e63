use dagt_fonts::error::FontError;
use dagt_fonts::reader::Reader;

#[test]
fn new_reader_starts_at_zero() {
    let reader = Reader::new(vec![1, 2, 3]);
    assert_eq!(reader.cursor(), 0);
    assert_eq!(reader.len(), 3);
}

#[test]
fn read_u8_advances_by_one() {
    let mut reader = Reader::new(vec![0xAB, 0xCD]);
    assert_eq!(reader.read_u8(), Ok(0xAB));
    assert_eq!(reader.cursor(), 1);
    assert_eq!(reader.read_u8(), Ok(0xCD));
    assert_eq!(reader.cursor(), 2);
    assert_eq!(reader.read_u8(), Err(FontError::OutOfBounds));
    assert_eq!(reader.cursor(), 2);
}

#[test]
fn read_u16_is_big_endian() {
    let mut reader = Reader::new(vec![0x12, 0x34, 0x56]);
    assert_eq!(reader.read_u16(), Ok(0x1234));
    assert_eq!(reader.cursor(), 2);
    assert_eq!(reader.read_u16(), Err(FontError::OutOfBounds));
    assert_eq!(reader.cursor(), 2);
}

#[test]
fn read_u16_reads_largest_value() {
    let mut reader = Reader::new(vec![0xFF, 0xFF]);
    assert_eq!(reader.read_u16(), Ok(0xFFFF));
}

#[test]
fn read_i16_is_twos_complement() {
    let mut reader = Reader::new(vec![0xFF, 0xEC, 0x80, 0x00, 0x7F, 0xFF, 0x00, 0x14, 0xFF, 0xFF]);
    assert_eq!(reader.read_i16(), Ok(-20));
    assert_eq!(reader.read_i16(), Ok(-32768));
    assert_eq!(reader.read_i16(), Ok(32767));
    assert_eq!(reader.read_i16(), Ok(20));
    assert_eq!(reader.read_i16(), Ok(-1));
    assert_eq!(reader.cursor(), 10);
    assert_eq!(reader.read_i16(), Err(FontError::OutOfBounds));
}

#[test]
fn read_u32_is_big_endian() {
    let mut reader = Reader::new(vec![0x01, 0x02, 0x03, 0x04, 0xFF, 0xFF, 0xFF, 0xFF, 0x00]);
    assert_eq!(reader.read_u32(), Ok(0x0102_0304));
    assert_eq!(reader.cursor(), 4);
    assert_eq!(reader.read_u32(), Ok(0xFFFF_FFFF));
    assert_eq!(reader.cursor(), 8);
    assert_eq!(reader.read_u32(), Err(FontError::OutOfBounds));
    assert_eq!(reader.cursor(), 8);
}

#[test]
fn read_that_ends_at_buffer_end_succeeds() {
    let mut reader = Reader::new(vec![0, 0, 0, 0, 0, 7]);
    reader.goto(2);
    assert_eq!(reader.read_u32(), Ok(7));
    assert_eq!(reader.cursor(), 6);
}

#[test]
fn read_on_empty_buffer_fails() {
    let mut reader = Reader::new(Vec::new());
    assert_eq!(reader.read_u8(), Err(FontError::OutOfBounds));
    assert_eq!(reader.read_u16(), Err(FontError::OutOfBounds));
    assert_eq!(reader.read_i16(), Err(FontError::OutOfBounds));
    assert_eq!(reader.read_u32(), Err(FontError::OutOfBounds));
    assert_eq!(reader.cursor(), 0);
}

#[test]
fn goto_seeks_without_bounds_check() {
    let mut reader = Reader::new(vec![1, 2, 3]);
    reader.goto(100);
    assert_eq!(reader.cursor(), 100);
    assert_eq!(reader.read_u8(), Err(FontError::OutOfBounds));
    reader.goto(1);
    assert_eq!(reader.read_u8(), Ok(2));
}

#[test]
fn skip_moves_forward_also_past_the_end() {
    let mut reader = Reader::new(vec![1, 2, 3, 4]);
    assert_eq!(reader.skip(2), Ok(()));
    assert_eq!(reader.cursor(), 2);
    assert_eq!(reader.read_u8(), Ok(3));
    assert_eq!(reader.skip(10), Ok(()));
    assert_eq!(reader.cursor(), 13);
    assert_eq!(reader.read_u8(), Err(FontError::OutOfBounds));
}

#[test]
fn skip_past_what_usize_holds_fails() {
    let mut reader = Reader::new(vec![1, 2, 3, 4]);
    reader.goto(5);
    assert_eq!(reader.skip(usize::MAX), Err(FontError::OutOfBounds));
    assert_eq!(reader.cursor(), 5);
    assert_eq!(reader.skip(usize::MAX - 5), Ok(()));
    assert_eq!(reader.cursor(), usize::MAX);
    assert_eq!(reader.read_u8(), Err(FontError::OutOfBounds));
    assert_eq!(reader.read_u16(), Err(FontError::OutOfBounds));
    assert_eq!(reader.read_u32(), Err(FontError::OutOfBounds));
}

#[test]
fn read_string_reads_a_tag() {
    let mut reader = Reader::new(vec![b'g', b'l', b'y', b'f', b'x']);
    assert_eq!(reader.read_string(4), Ok(String::from("glyf")));
    assert_eq!(reader.cursor(), 4);
    assert_eq!(reader.read_string(2), Err(FontError::OutOfBounds));
    assert_eq!(reader.cursor(), 4);
    assert_eq!(reader.read_string(0), Ok(String::new()));
    assert_eq!(reader.cursor(), 4);
}

#[test]
fn read_string_decodes_utf8() {
    let mut reader = Reader::new(vec![0xC3, 0xA9, 0xE2, 0x82, 0xAC]);
    assert_eq!(reader.read_string(5), Ok(String::from("\u{E9}\u{20AC}")));
    assert_eq!(reader.cursor(), 5);
}

#[test]
fn read_u16_array_reads_in_order() {
    let mut reader = Reader::new(vec![0, 1, 0, 2, 1, 0, 9]);
    assert_eq!(reader.read_u16_array(3), Ok(vec![1, 2, 256]));
    assert_eq!(reader.cursor(), 6);
    assert_eq!(reader.read_u16_array(0), Ok(Vec::new()));
    assert_eq!(reader.cursor(), 6);
    assert_eq!(reader.read_u16_array(1), Err(FontError::OutOfBounds));
}

#[test]
fn read_string_refuses_bytes_that_are_no_utf8() {
    for bytes in [
        vec![0xFF, b'a'],
        vec![0xC3, 0x28],
        vec![0xE2, 0x82],
        vec![0xC0, 0x80],
        vec![0xED, 0xA0, 0x80],
        vec![0xF4, 0x90, 0x80, 0x80],
        vec![0x80],
    ] {
        let n = bytes.len();
        let mut reader = Reader::new(bytes);
        assert_eq!(reader.read_string(n), Err(FontError::OutOfBounds));
        assert_eq!(reader.cursor(), 0);
    }
    let mut reader = Reader::new(vec![b'o', b'k', 0xFF]);
    assert_eq!(reader.read_string(2), Ok(String::from("ok")));
    assert_eq!(reader.cursor(), 2);
    assert_eq!(reader.read_string(1), Err(FontError::OutOfBounds));
    assert_eq!(reader.cursor(), 2);
}

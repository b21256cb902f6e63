use dagt_fonts::error::FontError;
use dagt_fonts::loca::get_glyph_locations;
use dagt_fonts::reader::Reader;

#[test]
fn short_entries_are_doubled() {
    let bytes = vec![0xEE, 0x00, 0x00, 0x00, 0x05, 0xFF, 0xFF];
    let mut reader = Reader::new(bytes);
    assert_eq!(
        get_glyph_locations(&mut reader, 3, false, 1, 1000),
        Ok(vec![1000, 1010, 1000 + 2 * 0xFFFF])
    );
}

#[test]
fn long_entries_are_taken_as_they_are() {
    let bytes = vec![0x00, 0x00, 0x00, 0x00, 0x00, 0x00, 0x01, 0x00, 0x00, 0x01, 0x00, 0x01];
    let mut reader = Reader::new(bytes);
    assert_eq!(
        get_glyph_locations(&mut reader, 3, true, 0, 0x20),
        Ok(vec![0x20, 0x120, 0x1_0021])
    );
}

#[test]
fn no_glyphs_give_no_locations() {
    let mut reader = Reader::new(Vec::new());
    assert_eq!(get_glyph_locations(&mut reader, 0, true, 77, 88), Ok(Vec::new()));
}

#[test]
fn only_as_many_entries_as_glyphs_are_read() {
    let bytes = vec![0x00, 0x01, 0x00, 0x02];
    let mut reader = Reader::new(bytes.clone());
    assert_eq!(get_glyph_locations(&mut reader, 2, false, 0, 0), Ok(vec![2, 4]));
    let mut reader = Reader::new(bytes);
    assert_eq!(get_glyph_locations(&mut reader, 3, false, 0, 0), Err(FontError::OutOfBounds));
}

#[test]
fn truncated_long_entry_is_out_of_bounds() {
    let bytes = vec![0x00, 0x00, 0x00, 0x01, 0x00, 0x00, 0x00];
    let mut reader = Reader::new(bytes);
    assert_eq!(get_glyph_locations(&mut reader, 2, true, 0, 0), Err(FontError::OutOfBounds));
}

#[test]
fn location_past_thirty_two_bits_is_out_of_bounds() {
    let bytes = vec![0xFF, 0xFF, 0xFF, 0xFF];
    let mut reader = Reader::new(bytes.clone());
    assert_eq!(get_glyph_locations(&mut reader, 1, true, 0, 0), Ok(vec![u32::MAX]));
    let mut reader = Reader::new(bytes.clone());
    assert_eq!(get_glyph_locations(&mut reader, 1, true, 0, 1), Err(FontError::OutOfBounds));
    let mut reader = Reader::new(bytes);
    assert_eq!(
        get_glyph_locations(&mut reader, 1, false, 0, u32::MAX - 2 * 0xFFFF + 1),
        Err(FontError::OutOfBounds)
    );
}

#[test]
fn table_past_the_buffer_is_out_of_bounds() {
    let mut reader = Reader::new(vec![0; 8]);
    assert_eq!(
        get_glyph_locations(&mut reader, 1, false, u32::MAX, 0),
        Err(FontError::OutOfBounds)
    );
}

#[test]
fn cursor_stands_behind_the_last_entry() {
    let mut reader = Reader::new(vec![0; 20]);
    assert!(get_glyph_locations(&mut reader, 3, false, 2, 0).is_ok());
    assert_eq!(reader.cursor(), 2 + 2 * 3);
    assert!(get_glyph_locations(&mut reader, 4, true, 1, 0).is_ok());
    assert_eq!(reader.cursor(), 1 + 4 * 4);
    assert!(get_glyph_locations(&mut reader, 0, true, 1, 0).is_ok());
    assert_eq!(reader.cursor(), 17);
}

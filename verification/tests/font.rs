use dagt_fonts::error::FontError;
use dagt_fonts::font::Font;
use dagt_fonts::glyph::{GlyphData, Point};
use dagt_fonts::metrics::HorizontalMetric;

fn put_u16(bytes: &mut Vec<u8>, v: u16) {
    bytes.extend_from_slice(&v.to_be_bytes());
}

fn put_i16(bytes: &mut Vec<u8>, v: i16) {
    bytes.extend_from_slice(&v.to_be_bytes());
}

fn put_u32(bytes: &mut Vec<u8>, v: u32) {
    bytes.extend_from_slice(&v.to_be_bytes());
}

/// A font file with the given tables, in the given order.
fn sfnt(tables: &[(&str, Vec<u8>)]) -> Vec<u8> {
    let mut bytes = vec![0, 1, 0, 0];
    put_u16(&mut bytes, tables.len() as u16);
    bytes.extend_from_slice(&[0; 6]);
    let mut offset = 12 + 16 * tables.len() as u32;
    for (tag, table) in tables {
        bytes.extend_from_slice(tag.as_bytes());
        put_u32(&mut bytes, 0);
        put_u32(&mut bytes, offset);
        put_u32(&mut bytes, table.len() as u32);
        offset += table.len() as u32;
    }
    for (_, table) in tables {
        bytes.extend_from_slice(table);
    }
    bytes
}

fn head(units_per_em: u16, long_offsets: bool) -> Vec<u8> {
    let mut bytes = vec![0; 54];
    bytes[18..20].copy_from_slice(&units_per_em.to_be_bytes());
    bytes[51] = long_offsets as u8;
    bytes
}

fn maxp(glyphs: u16) -> Vec<u8> {
    let mut bytes = vec![0, 1, 0, 0];
    put_u16(&mut bytes, glyphs);
    bytes
}

fn hhea(long_metrics: u16) -> Vec<u8> {
    let mut bytes = vec![0; 34];
    put_u16(&mut bytes, long_metrics);
    bytes
}

fn hmtx(long: &[(u16, i16)], rest: &[i16]) -> Vec<u8> {
    let mut bytes = Vec::new();
    for (advance_width, left_side_bearing) in long {
        put_u16(&mut bytes, *advance_width);
        put_i16(&mut bytes, *left_side_bearing);
    }
    for left_side_bearing in rest {
        put_i16(&mut bytes, *left_side_bearing);
    }
    bytes
}

fn loca_short(offsets: &[u16]) -> Vec<u8> {
    let mut bytes = Vec::new();
    for offset in offsets {
        put_u16(&mut bytes, offset / 2);
    }
    bytes
}

fn loca_long(offsets: &[u32]) -> Vec<u8> {
    let mut bytes = Vec::new();
    for offset in offsets {
        put_u32(&mut bytes, *offset);
    }
    bytes
}

fn cmap12(groups: &[(u32, u32, u32)]) -> Vec<u8> {
    let mut bytes = vec![0, 0, 0, 1, 0, 0, 0, 4, 0, 0, 0, 12];
    put_u16(&mut bytes, 12);
    put_u16(&mut bytes, 0);
    put_u32(&mut bytes, 16 + 12 * groups.len() as u32);
    put_u32(&mut bytes, 0);
    put_u32(&mut bytes, groups.len() as u32);
    for (first, last, glyph) in groups {
        put_u32(&mut bytes, *first);
        put_u32(&mut bytes, *last);
        put_u32(&mut bytes, *glyph);
    }
    bytes
}

fn cmap4(segments: &[(u16, u16, u16)]) -> Vec<u8> {
    let mut bytes = vec![0, 0, 0, 1, 0, 3, 0, 1, 0, 0, 0, 12];
    put_u16(&mut bytes, 4);
    put_u16(&mut bytes, 16 + 8 * segments.len() as u16);
    put_u16(&mut bytes, 0);
    put_u16(&mut bytes, 2 * segments.len() as u16);
    bytes.extend_from_slice(&[0; 6]);
    for s in segments {
        put_u16(&mut bytes, s.1);
    }
    put_u16(&mut bytes, 0);
    for s in segments {
        put_u16(&mut bytes, s.0);
    }
    for s in segments {
        put_u16(&mut bytes, s.2);
    }
    for _ in segments {
        put_u16(&mut bytes, 0);
    }
    bytes
}

/// A glyph of one contour whose points lie at (base, base), (base + 1, base + 2), ...
fn outline(points: u16, base: u8) -> Vec<u8> {
    let mut bytes = Vec::new();
    put_i16(&mut bytes, 1);
    put_i16(&mut bytes, base as i16);
    put_i16(&mut bytes, base as i16);
    put_i16(&mut bytes, base as i16 + points as i16 - 1);
    put_i16(&mut bytes, base as i16 + 2 * (points as i16 - 1));
    put_u16(&mut bytes, points - 1);
    put_i16(&mut bytes, 0);
    for _ in 0..points {
        bytes.push(0x37);
    }
    bytes.push(base);
    for _ in 1..points {
        bytes.push(1);
    }
    bytes.push(base);
    for _ in 1..points {
        bytes.push(2);
    }
    if bytes.len() % 2 == 1 {
        bytes.push(0);
    }
    bytes
}

fn outline_glyph(points: u16, base: u8, unicode: u32, index: u32, metric: (u16, i16)) -> GlyphData {
    let base = base as i32;
    let last = points as i32 - 1;
    GlyphData {
        unicode,
        index,
        points: (0..points as i32)
            .map(|i| Point { x: base + i, y: base + 2 * i, on_curve: true })
            .collect(),
        contour_boundaries: vec![last],
        advance_width: metric.0 as i32,
        left_side_bearing: metric.1 as i32,
        min_x: base,
        max_x: base + last,
        min_y: base,
        max_y: base + 2 * last,
        width: last,
        height: 2 * last,
    }
}

fn composite() -> Vec<u8> {
    vec![0xFF, 0xFF, 0, 0, 0, 0, 0, 0, 0, 0, 0, 0, 0, 0, 0, 0]
}

/// The tables of a font with four glyphs: glyph 0 has 3 points, glyph 1 has
/// 4, glyph 2 is a composite, glyph 3 has 5. `A` to `C` are drawn with the
/// glyphs 1 to 3.
fn small_tables() -> Vec<(&'static str, Vec<u8>)> {
    let glyphs = [outline(3, 10), outline(4, 20), composite(), outline(5, 30)];
    let mut glyf = Vec::new();
    let mut offsets = Vec::new();
    for glyph in &glyphs {
        offsets.push(glyf.len() as u16);
        glyf.extend_from_slice(glyph);
    }
    vec![
        ("cmap", cmap12(&[(65, 67, 1)])),
        ("glyf", glyf),
        ("head", head(2048, false)),
        ("hhea", hhea(2)),
        ("hmtx", hmtx(&[(500, 10), (600, -20)], &[7, -8])),
        ("loca", loca_short(&offsets)),
        ("maxp", maxp(4)),
    ]
}

fn without(tables: Vec<(&'static str, Vec<u8>)>, tag: &str) -> Vec<(&'static str, Vec<u8>)> {
    tables.into_iter().filter(|t| t.0 != tag).collect()
}

fn replaced(
    tables: Vec<(&'static str, Vec<u8>)>,
    tag: &'static str,
    table: Vec<u8>,
) -> Vec<(&'static str, Vec<u8>)> {
    let mut tables = without(tables, tag);
    tables.push((tag, table));
    tables
}

#[test]
fn load() {
    let font = Font::load(sfnt(&small_tables()));
    assert!(font.is_ok());
}

#[test]
fn loaded_font_gives_units_per_em() {
    let font = Font::load(sfnt(&small_tables())).unwrap();
    assert_eq!(font.units_per_em(), 2048);
    let tables = replaced(small_tables(), "head", head(0xFFFF, false));
    assert_eq!(Font::load(sfnt(&tables)).unwrap().units_per_em(), 0xFFFF);
}

#[test]
fn mapped_code_points_show_their_glyphs_with_metrics() {
    let font = Font::load(sfnt(&small_tables())).unwrap();
    assert_eq!(font.get_glyph('A'), &outline_glyph(4, 20, 65, 1, (600, -20)));
    assert_eq!(font.get_glyph('C'), &outline_glyph(5, 30, 67, 3, (600, -8)));
}

#[test]
fn composite_glyph_shows_the_outline_and_metrics_of_glyph_zero() {
    let font = Font::load(sfnt(&small_tables())).unwrap();
    assert_eq!(font.get_glyph('B'), &outline_glyph(3, 10, 66, 0, (500, 10)));
}

#[test]
fn unmapped_code_point_shows_glyph_zero() {
    let font = Font::load(sfnt(&small_tables())).unwrap();
    assert_eq!(font.get_glyph('\u{FFFF}'), &outline_glyph(3, 10, 0xFFFF, 0, (500, 10)));
    for c in ['\0', '@', 'D', 'a', '\u{FFFE}', '\u{10000}', '\u{10FFFF}'] {
        assert_eq!(font.get_glyph(c).index, 0);
        assert_eq!(font.get_glyph(c), &outline_glyph(3, 10, 0xFFFF, 0, (500, 10)));
    }
}

#[test]
fn closing_entry_replaces_a_mapping_of_its_code_point() {
    let tables = replaced(small_tables(), "cmap", cmap12(&[(0xFFFE, 0xFFFF, 0)]));
    let font = Font::load(sfnt(&tables)).unwrap();
    assert_eq!(font.get_glyph('\u{FFFE}'), &outline_glyph(3, 10, 0xFFFE, 0, (500, 10)));
    assert_eq!(font.get_glyph('\u{FFFF}').index, 0);
    let tables = replaced(small_tables(), "cmap", cmap12(&[(0xFFFF, 0xFFFF, 3)]));
    let font = Font::load(sfnt(&tables)).unwrap();
    assert_eq!(font.get_glyph('\u{FFFF}'), &outline_glyph(3, 10, 0xFFFF, 0, (500, 10)));
}

#[test]
fn later_mapping_of_a_code_point_replaces_an_earlier_one() {
    let tables = replaced(small_tables(), "cmap", cmap12(&[(65, 66, 0), (66, 66, 3)]));
    let font = Font::load(sfnt(&tables)).unwrap();
    assert_eq!(font.get_glyph('A').index, 0);
    assert_eq!(font.get_glyph('A').unicode, 65);
    assert_eq!(font.get_glyph('B'), &outline_glyph(5, 30, 66, 3, (600, -8)));
}

#[test]
fn format_12_group_maps_c_to_glyph_102() {
    let glyph = outline(3, 10);
    let tables = vec![
        ("head", head(1000, true)),
        ("maxp", maxp(106)),
        ("loca", loca_long(&[0; 106])),
        ("cmap", cmap12(&[(65, 70, 100)])),
        ("glyf", glyph),
        ("hhea", hhea(1)),
        ("hmtx", hmtx(&[(512, 1)], &(0..105).collect::<Vec<i16>>())),
    ];
    let font = Font::load(sfnt(&tables)).unwrap();
    assert_eq!(font.get_glyph('C').index, 102);
    assert_eq!(font.get_glyph('A').index, 100);
    assert_eq!(font.get_glyph('F').index, 105);
    assert_eq!(font.get_glyph('G').index, 0);
    assert_eq!(font.get_glyph('@').index, 0);
    assert_eq!(font.get_glyph('C'), &outline_glyph(3, 10, 67, 102, (512, 101)));
    assert_eq!(font.get_glyph('F'), &outline_glyph(3, 10, 70, 105, (512, 104)));
    assert_eq!(font.get_glyph('\u{FFFF}'), &outline_glyph(3, 10, 0xFFFF, 0, (512, 1)));
}

#[test]
fn format_4_character_map_is_loaded() {
    let tables = replaced(small_tables(), "cmap", cmap4(&[(0x61, 0x62, 0xFFA0), (0xFFFF, 0xFFFF, 1)]));
    let font = Font::load(sfnt(&tables)).unwrap();
    assert_eq!(font.get_glyph('a'), &outline_glyph(4, 20, 0x61, 1, (600, -20)));
    assert_eq!(font.get_glyph('b').index, 0);
    assert_eq!(font.get_glyph('b'), &outline_glyph(3, 10, 0x62, 0, (500, 10)));
    assert_eq!(font.get_glyph('c').unicode, 0xFFFF);
}

#[test]
fn missing_glyf_table_is_reported() {
    let result = Font::load(sfnt(&without(small_tables(), "glyf")));
    assert_eq!(result.err(), Some(FontError::MissingTable("glyf")));
}

#[test]
fn each_missing_table_is_reported() {
    for tag in ["head", "maxp", "loca", "cmap", "glyf", "hhea", "hmtx"] {
        let result = Font::load(sfnt(&without(small_tables(), tag)));
        assert_eq!(result.err(), Some(FontError::MissingTable(tag)));
    }
    let result = Font::load(sfnt(&[]));
    assert_eq!(result.err(), Some(FontError::MissingTable("head")));
}

#[test]
fn truncated_file_is_out_of_bounds() {
    assert_eq!(Font::load(Vec::new()).err(), Some(FontError::OutOfBounds));
    assert_eq!(Font::load(vec![0, 1, 0, 0, 0]).err(), Some(FontError::OutOfBounds));
    let bytes = sfnt(&small_tables());
    assert_eq!(Font::load(bytes[..100].to_vec()).err(), Some(FontError::OutOfBounds));
    assert_eq!(Font::load(bytes[..bytes.len() - 1].to_vec()).err(), Some(FontError::OutOfBounds));
}

#[test]
fn every_truncation_fails_without_a_panic() {
    let bytes = sfnt(&small_tables());
    for len in 0..bytes.len() {
        assert!(Font::load(bytes[..len].to_vec()).is_err());
    }
}

#[test]
fn unsupported_character_map_is_reported() {
    let mut cmap = cmap12(&[(65, 67, 1)]);
    cmap[13] = 6;
    let tables = replaced(small_tables(), "cmap", cmap);
    assert_eq!(Font::load(sfnt(&tables)).err(), Some(FontError::UnsupportedCmapFormat(6)));
    let mut cmap = cmap12(&[(65, 67, 1)]);
    cmap[5] = 1;
    let tables = replaced(small_tables(), "cmap", cmap);
    assert_eq!(Font::load(sfnt(&tables)).err(), Some(FontError::NoSupportedEncoding));
}

#[test]
fn character_map_errors_come_before_metric_errors() {
    let mut cmap = cmap12(&[(65, 67, 1)]);
    cmap[13] = 6;
    let tables = replaced(small_tables(), "cmap", cmap);
    let tables = replaced(tables, "hmtx", Vec::new());
    assert_eq!(Font::load(sfnt(&tables)).err(), Some(FontError::UnsupportedCmapFormat(6)));
}

#[test]
fn glyph_past_the_glyph_count_is_out_of_bounds() {
    let tables = replaced(small_tables(), "cmap", cmap12(&[(65, 65, 4)]));
    assert_eq!(Font::load(sfnt(&tables)).err(), Some(FontError::OutOfBounds));
}

#[test]
fn composite_glyph_zero_is_a_missing_notdef() {
    let mut glyf = composite();
    glyf.extend_from_slice(&outline(3, 10));
    let tables = vec![
        ("head", head(1000, false)),
        ("maxp", maxp(2)),
        ("loca", loca_short(&[0, 16])),
        ("cmap", cmap12(&[(65, 65, 1)])),
        ("glyf", glyf),
        ("hhea", hhea(2)),
        ("hmtx", hmtx(&[(1, 1), (2, 2)], &[])),
    ];
    assert_eq!(Font::load(sfnt(&tables)).err(), Some(FontError::MissingNotdefGlyph));
}

#[test]
fn assemble_merges_metrics_by_glyph_index() {
    let glyphs = vec![
        outline_glyph(3, 1, 65, 2, (0, 0)),
        outline_glyph(4, 2, 66, 0, (0, 0)),
        outline_glyph(5, 3, 65, 1, (0, 0)),
    ];
    let metrics = vec![
        HorizontalMetric { advance_width: 100, left_side_bearing: -1 },
        HorizontalMetric { advance_width: 0xFFFF, left_side_bearing: -32768 },
        HorizontalMetric { advance_width: 300, left_side_bearing: 32767 },
    ];
    let font = Font::assemble(&glyphs, &metrics, 77).unwrap();
    assert_eq!(font.units_per_em(), 77);
    assert_eq!(font.get_glyph('A'), &outline_glyph(5, 3, 65, 1, (0xFFFF, -32768)));
    assert_eq!(font.get_glyph('B'), &outline_glyph(4, 2, 66, 0, (100, -1)));
    assert_eq!(font.get_glyph('C'), &outline_glyph(4, 2, 66, 0, (100, -1)));
}

#[test]
fn assemble_keeps_the_last_glyph_with_index_zero() {
    let glyphs = vec![
        outline_glyph(3, 1, 65, 0, (0, 0)),
        outline_glyph(4, 2, 66, 0, (0, 0)),
        outline_glyph(5, 3, 67, 1, (0, 0)),
    ];
    let metrics = vec![
        HorizontalMetric { advance_width: 1, left_side_bearing: 2 },
        HorizontalMetric { advance_width: 3, left_side_bearing: 4 },
    ];
    let font = Font::assemble(&glyphs, &metrics, 1).unwrap();
    assert_eq!(font.get_glyph('Z'), &outline_glyph(4, 2, 66, 0, (1, 2)));
}

#[test]
fn assemble_without_glyph_zero_fails() {
    let glyphs = vec![outline_glyph(3, 1, 65, 1, (0, 0))];
    let metrics = vec![HorizontalMetric { advance_width: 1, left_side_bearing: 2 }; 2];
    assert_eq!(Font::assemble(&glyphs, &metrics, 1).err(), Some(FontError::MissingNotdefGlyph));
    assert_eq!(Font::assemble(&Vec::new(), &metrics, 1).err(), Some(FontError::MissingNotdefGlyph));
}

#[test]
fn assemble_without_metrics_for_a_glyph_fails() {
    let glyphs = vec![outline_glyph(3, 1, 65, 0, (0, 0)), outline_glyph(3, 1, 66, 2, (0, 0))];
    let metrics = vec![HorizontalMetric { advance_width: 1, left_side_bearing: 2 }; 2];
    assert_eq!(Font::assemble(&glyphs, &metrics, 1).err(), Some(FontError::OutOfBounds));
}

#[test]
fn cloned_font_shows_the_same_glyphs() {
    let font = Font::load(sfnt(&small_tables())).unwrap();
    let copy = font.clone();
    assert_eq!(copy.units_per_em(), font.units_per_em());
    for c in ['A', 'B', 'C', 'D', '\u{FFFF}'] {
        assert_eq!(copy.get_glyph(c), font.get_glyph(c));
    }
}

#[test]
fn changed_bytes_never_make_the_load_panic() {
    let tables = small_tables();
    let bytes = sfnt(&tables);
    let cmap_at = 12 + 16 * tables.len();
    // The two high bytes of the group's last code point: a change there asks
    // for millions of glyphs.
    let group_end = cmap_at + 12 + 16 + 4;
    let mut loaded = 0;
    let mut failed = 0;
    for at in 0..bytes.len() {
        if at == group_end || at == group_end + 1 {
            continue;
        }
        for value in [0x00, 0x01, 0x7F, 0x80, 0xFF, bytes[at] ^ 0x01, bytes[at].wrapping_add(1)] {
            let mut changed = bytes.clone();
            changed[at] = value;
            match Font::load(changed) {
                Ok(font) => {
                    loaded += 1;
                    assert_eq!(font.get_glyph('\u{FFFF}').index, 0);
                    assert_eq!(font.get_glyph('\u{10FFFF}').index, 0);
                    let glyph = font.get_glyph('A');
                    assert!(glyph.contour_boundaries.iter().all(|end| (*end as usize) < glyph.points.len()));
                }
                Err(error) => {
                    failed += 1;
                    assert!(!matches!(error, FontError::Io(_)));
                }
            }
        }
    }
    assert!(loaded > 0);
    assert!(failed > 0);
}

#[test]
fn mapped_glyph_carries_its_code_point() {
    let font = Font::load(sfnt(&small_tables())).unwrap();
    for c in ['A', 'B', 'C', '\u{FFFF}'] {
        assert_eq!(font.get_glyph(c).unicode, c as u32);
    }
    let glyphs = vec![
        outline_glyph(3, 1, 65, 0, (0, 0)),
        outline_glyph(4, 2, 66, 0, (0, 0)),
        outline_glyph(5, 3, 65, 1, (0, 0)),
    ];
    let metrics = vec![HorizontalMetric { advance_width: 1, left_side_bearing: 2 }; 2];
    let font = Font::assemble(&glyphs, &metrics, 1).unwrap();
    assert_eq!(font.get_glyph('A').unicode, 65);
    assert_eq!(font.get_glyph('B').unicode, 66);
    assert_eq!(font.get_glyph('C').unicode, 66);
}

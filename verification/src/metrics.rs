use vstd::prelude::*;
use crate::error::FontError;
use crate::reader::{be_i16, be_u16, readable, Reader};

verus! {

/// What the `head` table tells the loader.
#[derive(Debug, Clone, Copy, PartialEq, Eq)]
pub struct Head {
    /// The number of design units per em.
    pub units_per_em: u16,
    /// Whether `loca` holds four-byte entries (else two-byte ones).
    pub long_offsets: bool,
}

/// The horizontal metrics of one glyph, in design units.
#[derive(Debug, Clone, Copy, PartialEq, Eq)]
pub struct HorizontalMetric {
    pub advance_width: u16,
    pub left_side_bearing: i16,
}

/// Whether the two fields of `head` that the loader reads lie inside the
/// buffer.
pub open spec fn head_readable(b: Seq<u8>, head: int) -> bool {
    readable(b, head + 50, 2)
}

/// The design units per em that the `head` table at `head` gives.
pub open spec fn head_units_per_em(b: Seq<u8>, head: int) -> int {
    be_u16(b, head + 18)
}

/// Whether the `head` table at `head` asks for four-byte `loca` entries: its
/// format flag is not zero.
pub open spec fn head_long_offsets(b: Seq<u8>, head: int) -> bool {
    be_i16(b, head + 50) != 0
}

/// Reads units per em and the `loca` format flag from the `head` table that
/// starts at `head`.
pub fn read_head(reader: &mut Reader, head: u32) -> (r: Result<Head, FontError>)
    ensures
        final(reader).bytes() == old(reader).bytes(),
        match r {
            Ok(h) => {
                &&& head_readable(old(reader).bytes(), head as int)
                &&& h.units_per_em == head_units_per_em(old(reader).bytes(), head as int)
                &&& h.long_offsets == head_long_offsets(old(reader).bytes(), head as int)
                &&& final(reader).position() == head + 52
            },
            Err(e) => e == FontError::OutOfBounds && !head_readable(
                old(reader).bytes(),
                head as int,
            ),
        },
{
    reader.goto(head as usize);
    match reader.skip(18) {
        Ok(_) => {},
        Err(e) => return Err(e),
    }
    let units_per_em = match reader.read_u16() {
        Ok(v) => v,
        Err(e) => return Err(e),
    };
    match reader.skip(30) {
        Ok(_) => {},
        Err(e) => return Err(e),
    }
    let format = match reader.read_i16() {
        Ok(v) => v,
        Err(e) => return Err(e),
    };
    Ok(Head { units_per_em, long_offsets: format != 0 })
}

/// The number of glyphs that the `maxp` table at `maxp` gives.
pub open spec fn maxp_glyph_count(b: Seq<u8>, maxp: int) -> int {
    be_u16(b, maxp + 4)
}

/// Reads the glyph count from the `maxp` table that starts at `maxp`.
pub fn read_glyph_count(reader: &mut Reader, maxp: u32) -> (r: Result<u16, FontError>)
    ensures
        final(reader).bytes() == old(reader).bytes(),
        match r {
            Ok(n) => {
                &&& readable(old(reader).bytes(), maxp + 4, 2)
                &&& n == maxp_glyph_count(old(reader).bytes(), maxp as int)
                &&& final(reader).position() == maxp + 6
            },
            Err(e) => e == FontError::OutOfBounds && !readable(old(reader).bytes(), maxp + 4, 2),
        },
{
    reader.goto(maxp as usize);
    match reader.skip(4) {
        Ok(_) => {},
        Err(e) => return Err(e),
    }
    reader.read_u16()
}

/// The number of long metric records that the `hhea` table at `hhea` gives.
pub open spec fn hhea_long_metric_count(b: Seq<u8>, hhea: int) -> int {
    be_u16(b, hhea + 34)
}

/// Reads the number of long metric records from the `hhea` table that starts
/// at `hhea`.
pub fn read_long_metric_count(reader: &mut Reader, hhea: u32) -> (r: Result<u16, FontError>)
    ensures
        final(reader).bytes() == old(reader).bytes(),
        match r {
            Ok(n) => {
                &&& readable(old(reader).bytes(), hhea + 34, 2)
                &&& n == hhea_long_metric_count(old(reader).bytes(), hhea as int)
                &&& final(reader).position() == hhea + 36
            },
            Err(e) => e == FontError::OutOfBounds && !readable(old(reader).bytes(), hhea + 34, 2),
        },
{
    reader.goto(hhea as usize);
    match reader.skip(8) {
        Ok(_) => {},
        Err(e) => return Err(e),
    }
    let _line_gap = match reader.read_i16() {
        Ok(v) => v,
        Err(e) => return Err(e),
    };
    let _advance_width_max = match reader.read_i16() {
        Ok(v) => v,
        Err(e) => return Err(e),
    };
    match reader.skip(22) {
        Ok(_) => {},
        Err(e) => return Err(e),
    }
    reader.read_u16()
}

/// How many glyph indices have metrics: every glyph, and every long record.
pub open spec fn metric_count(long_count: int, glyph_count: int) -> int {
    if long_count > glyph_count {
        long_count
    } else {
        glyph_count
    }
}

/// The number of bytes of `hmtx` that hold metrics: four per long record,
/// two per glyph after them.
pub open spec fn metrics_extent(long_count: int, glyph_count: int) -> int {
    4 * long_count + 2 * (metric_count(long_count, glyph_count) - long_count)
}

/// Whether all the metrics lie inside the buffer.
pub open spec fn metrics_readable(b: Seq<u8>, hmtx: int, long_count: int, glyph_count: int) -> bool {
    metrics_extent(long_count, glyph_count) > 0 ==> readable(
        b,
        hmtx,
        metrics_extent(long_count, glyph_count),
    )
}

/// The advance width of glyph `g`: that of its own long record, or, past the
/// long records, that of the last of them (0 where there is none).
pub open spec fn advance_width_at(b: Seq<u8>, hmtx: int, long_count: int, g: int) -> int {
    if g < long_count {
        be_u16(b, hmtx + 4 * g)
    } else if long_count > 0 {
        be_u16(b, hmtx + 4 * (long_count - 1))
    } else {
        0
    }
}

/// The left side bearing of glyph `g`: that of its own long record, or, past
/// the long records, its own entry in the array that follows them.
pub open spec fn left_side_bearing_at(b: Seq<u8>, hmtx: int, long_count: int, g: int) -> int {
    if g < long_count {
        be_i16(b, hmtx + 4 * g + 2)
    } else {
        be_i16(b, hmtx + 4 * long_count + 2 * (g - long_count))
    }
}

/// A glyph past the long records has the advance width of the last long
/// record and the left side bearing that was read for it alone.
pub proof fn lemma_trailing_metrics(b: Seq<u8>, hmtx: int, long_count: int, g: int)
    requires
        0 < long_count <= g,
    ensures
        advance_width_at(b, hmtx, long_count, g) == advance_width_at(
            b,
            hmtx,
            long_count,
            long_count - 1,
        ),
        left_side_bearing_at(b, hmtx, long_count, g) == be_i16(
            b,
            hmtx + 4 * long_count + 2 * (g - long_count),
        ),
{
}

/// Reads the horizontal metrics of every glyph from the `hmtx` table that
/// starts at `hmtx`: `long_count` records of advance width and left side
/// bearing, then one left side bearing for each glyph that is left.
pub fn read_metrics(reader: &mut Reader, hmtx: u32, long_count: u16, glyph_count: u16) -> (r:
    Result<Vec<HorizontalMetric>, FontError>)
    ensures
        final(reader).bytes() == old(reader).bytes(),
        match r {
            Ok(v) => {
                &&& metrics_readable(
                    old(reader).bytes(),
                    hmtx as int,
                    long_count as int,
                    glyph_count as int,
                )
                &&& v.len() == metric_count(long_count as int, glyph_count as int)
                &&& final(reader).position() == hmtx + metrics_extent(
                    long_count as int,
                    glyph_count as int,
                )
                &&& forall|g: int|
                    0 <= g < v.len() ==> (#[trigger] v[g]).advance_width == advance_width_at(
                        old(reader).bytes(),
                        hmtx as int,
                        long_count as int,
                        g,
                    ) && v[g].left_side_bearing == left_side_bearing_at(
                        old(reader).bytes(),
                        hmtx as int,
                        long_count as int,
                        g,
                    )
            },
            Err(e) => e == FontError::OutOfBounds && !metrics_readable(
                old(reader).bytes(),
                hmtx as int,
                long_count as int,
                glyph_count as int,
            ),
        },
{
    let ghost b = reader.bytes();
    let mut metrics: Vec<HorizontalMetric> = Vec::new();
    reader.goto(hmtx as usize);
    let mut last_advance_width: u16 = 0;
    let mut i: u16 = 0;
    while i < long_count
        invariant
            0 <= i <= long_count,
            b == old(reader).bytes(),
            reader.bytes() == b,
            reader.position() == hmtx + 4 * i,
            i > 0 ==> readable(b, hmtx as int, 4 * i),
            metrics.len() == i,
            last_advance_width == advance_width_at(b, hmtx as int, i as int, i as int),
            forall|g: int|
                0 <= g < i ==> (#[trigger] metrics[g]).advance_width == advance_width_at(
                    b,
                    hmtx as int,
                    long_count as int,
                    g,
                ) && metrics[g].left_side_bearing == left_side_bearing_at(
                    b,
                    hmtx as int,
                    long_count as int,
                    g,
                ),
        decreases long_count - i,
    {
        let advance_width = match reader.read_u16() {
            Ok(v) => v,
            Err(e) => return Err(e),
        };
        let left_side_bearing = match reader.read_i16() {
            Ok(v) => v,
            Err(e) => return Err(e),
        };
        last_advance_width = advance_width;
        metrics.push(HorizontalMetric { advance_width, left_side_bearing });
        i = i + 1;
    }
    let mut g: u16 = long_count;
    while g < glyph_count
        invariant
            long_count <= g,
            g <= metric_count(long_count as int, glyph_count as int),
            b == old(reader).bytes(),
            reader.bytes() == b,
            reader.position() == hmtx + 4 * long_count + 2 * (g - long_count),
            g > 0 ==> readable(b, hmtx as int, 4 * long_count + 2 * (g - long_count)),
            metrics.len() == g,
            last_advance_width == advance_width_at(
                b,
                hmtx as int,
                long_count as int,
                long_count as int,
            ),
            forall|k: int|
                0 <= k < g ==> (#[trigger] metrics[k]).advance_width == advance_width_at(
                    b,
                    hmtx as int,
                    long_count as int,
                    k,
                ) && metrics[k].left_side_bearing == left_side_bearing_at(
                    b,
                    hmtx as int,
                    long_count as int,
                    k,
                ),
        decreases glyph_count - g,
    {
        let left_side_bearing = match reader.read_i16() {
            Ok(v) => v,
            Err(e) => return Err(e),
        };
        metrics.push(HorizontalMetric { advance_width: last_advance_width, left_side_bearing });
        g = g + 1;
    }
    Ok(metrics)
}

} // verus!

use vstd::prelude::*;
use crate::error::FontError;
use crate::reader::{be_u16, be_u32, readable, Reader};

verus! {

/// The width in bytes of one `loca` entry: four in the long form, two in the
/// short one.
pub open spec fn loca_entry_size(long_offsets: bool) -> int {
    if long_offsets {
        4
    } else {
        2
    }
}

/// Where the `loca` entry of glyph `g` starts.
pub open spec fn loca_entry_start(loca: int, long_offsets: bool, g: int) -> int {
    if long_offsets {
        loca + 4 * g
    } else {
        loca + 2 * g
    }
}

/// The offset into `glyf` that the `loca` entry of glyph `g` gives: the entry
/// itself in the long form, twice the entry in the short one.
pub open spec fn loca_entry(b: Seq<u8>, loca: int, long_offsets: bool, g: int) -> int {
    if long_offsets {
        be_u32(b, loca_entry_start(loca, long_offsets, g))
    } else {
        2 * be_u16(b, loca_entry_start(loca, long_offsets, g))
    }
}

/// Where the outline of glyph `g` starts, counted from the start of the
/// buffer.
pub open spec fn glyph_location(b: Seq<u8>, loca: int, glyf: int, long_offsets: bool, g: int) -> int {
    glyf + loca_entry(b, loca, long_offsets, g)
}

/// Whether glyph `g` can be located: its `loca` entry lies inside the buffer
/// and its location is an offset that 32 bits can hold.
pub open spec fn glyph_locatable(
    b: Seq<u8>,
    loca: int,
    glyf: int,
    long_offsets: bool,
    g: int,
) -> bool {
    &&& readable(b, loca_entry_start(loca, long_offsets, g), loca_entry_size(long_offsets))
    &&& glyph_location(b, loca, glyf, long_offsets, g) <= u32::MAX
}

/// Resolves the `loca` table that starts at `loca_table` into one absolute
/// offset per glyph index below `glyphs_num`, and leaves the cursor behind the
/// last entry read.
pub fn get_glyph_locations(
    reader: &mut Reader,
    glyphs_num: u16,
    long_offsets: bool,
    loca_table: u32,
    glyf_table: u32,
) -> (r: Result<Vec<u32>, FontError>)
    ensures
        final(reader).bytes() == old(reader).bytes(),
        match r {
            Ok(v) => {
                &&& v.len() == glyphs_num
                &&& final(reader).position() == if glyphs_num == 0 {
                    old(reader).position() as int
                } else {
                    loca_entry_start(loca_table as int, long_offsets, glyphs_num as int)
                }
                &&& forall|g: int|
                    0 <= g < glyphs_num ==> #[trigger] glyph_locatable(
                        old(reader).bytes(),
                        loca_table as int,
                        glyf_table as int,
                        long_offsets,
                        g,
                    )
                &&& forall|g: int|
                    0 <= g < glyphs_num ==> #[trigger] v[g] == glyph_location(
                        old(reader).bytes(),
                        loca_table as int,
                        glyf_table as int,
                        long_offsets,
                        g,
                    )
            },
            Err(e) => e == FontError::OutOfBounds && exists|g: int|
                0 <= g < glyphs_num && !#[trigger] glyph_locatable(
                    old(reader).bytes(),
                    loca_table as int,
                    glyf_table as int,
                    long_offsets,
                    g,
                ),
        },
{
    let ghost b = reader.bytes();
    let mut glyph_locs: Vec<u32> = Vec::new();
    let mut i: u16 = 0;
    while i < glyphs_num
        invariant
            0 <= i <= glyphs_num,
            b == old(reader).bytes(),
            reader.bytes() == b,
            reader.position() == if i == 0 {
                old(reader).position() as int
            } else {
                loca_entry_start(loca_table as int, long_offsets, i as int)
            },
            glyph_locs.len() == i,
            forall|g: int|
                0 <= g < i ==> #[trigger] glyph_locatable(
                    b,
                    loca_table as int,
                    glyf_table as int,
                    long_offsets,
                    g,
                ),
            forall|g: int|
                0 <= g < i ==> #[trigger] glyph_locs[g] == glyph_location(
                    b,
                    loca_table as int,
                    glyf_table as int,
                    long_offsets,
                    g,
                ),
        decreases glyphs_num - i,
    {
        let ghost failed = !glyph_locatable(
            b,
            loca_table as int,
            glyf_table as int,
            long_offsets,
            i as int,
        );
        let entry_start: u64 = if long_offsets {
            loca_table as u64 + i as u64 * 4
        } else {
            loca_table as u64 + i as u64 * 2
        };
        if entry_start > usize::MAX as u64 {
            proof {
                reader.lemma_limits();
                assert(failed);
            }
            return Err(FontError::OutOfBounds);
        }
        reader.goto(entry_start as usize);
        let data_offset: u64 = if long_offsets {
            match reader.read_u32() {
                Ok(v) => v as u64,
                Err(e) => {
                    assert(failed);
                    return Err(e);
                },
            }
        } else {
            match reader.read_u16() {
                Ok(v) => v as u64 * 2,
                Err(e) => {
                    assert(failed);
                    return Err(e);
                },
            }
        };
        let location: u64 = glyf_table as u64 + data_offset;
        if location > u32::MAX as u64 {
            assert(failed);
            return Err(FontError::OutOfBounds);
        }
        glyph_locs.push(location as u32);
        i = i + 1;
    }
    Ok(glyph_locs)
}

} // verus!

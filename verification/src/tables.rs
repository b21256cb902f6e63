use vstd::prelude::*;
use std::collections::HashMap;
use crate::error::FontError;
use crate::reader::{be_u16, be_u32, readable, Reader};

verus! {

broadcast use vstd::std_specs::hash::group_hash_axioms;

/// The tag `head`, read as a big-endian number.
pub const TAG_HEAD: u32 = 0x6865_6164;

/// The tag `maxp`, read as a big-endian number.
pub const TAG_MAXP: u32 = 0x6d61_7870;

/// The tag `loca`, read as a big-endian number.
pub const TAG_LOCA: u32 = 0x6c6f_6361;

/// The tag `cmap`, read as a big-endian number.
pub const TAG_CMAP: u32 = 0x636d_6170;

/// The tag `glyf`, read as a big-endian number.
pub const TAG_GLYF: u32 = 0x676c_7966;

/// The tag `hhea`, read as a big-endian number.
pub const TAG_HHEA: u32 = 0x6868_6561;

/// The tag `hmtx`, read as a big-endian number.
pub const TAG_HMTX: u32 = 0x686d_7478;

/// The number of table records that the directory starting at `start`
/// announces.
pub open spec fn table_count(b: Seq<u8>, start: int) -> int {
    be_u16(b, start + 4)
}

/// Where record `i` of the directory starts.
pub open spec fn record_start(start: int, i: int) -> int {
    start + 12 + 16 * i
}

/// The tag of record `i`, its four bytes read as a big-endian number.
pub open spec fn record_tag(b: Seq<u8>, start: int, i: int) -> int {
    be_u32(b, record_start(start, i))
}

/// The byte offset that record `i` gives for its table.
pub open spec fn record_offset(b: Seq<u8>, start: int, i: int) -> int {
    be_u32(b, record_start(start, i) + 8)
}

/// Whether the table count and every record that it announces lie inside
/// the buffer.
pub open spec fn directory_readable(b: Seq<u8>, start: int) -> bool {
    &&& readable(b, start + 4, 2)
    &&& table_count(b, start) > 0 ==> readable(b, start + 12, 16 * table_count(b, start))
}

/// Where the directory ends: behind its twelve-byte header and its records.
pub open spec fn directory_end(b: Seq<u8>, start: int) -> int {
    start + 12 + 16 * table_count(b, start)
}

/// Tag to offset after the first `k` records: a later record replaces an
/// earlier one with the same tag.
pub open spec fn directory_prefix(b: Seq<u8>, start: int, k: nat) -> Map<u32, u32>
    decreases k,
{
    if k == 0 {
        Map::empty()
    } else {
        directory_prefix(b, start, (k - 1) as nat).insert(
            record_tag(b, start, k - 1) as u32,
            record_offset(b, start, k - 1) as u32,
        )
    }
}

/// Tag to offset for the whole directory.
pub open spec fn directory(b: Seq<u8>, start: int) -> Map<u32, u32> {
    directory_prefix(b, start, table_count(b, start) as nat)
}

/// A tag is in the directory exactly when some record carries it, and it
/// maps to the offset of the last such record.
pub proof fn lemma_directory_prefix(b: Seq<u8>, start: int, k: nat, tag: u32)
    ensures
        directory_prefix(b, start, k).contains_key(tag) <==> exists|i: int|
            0 <= i < k && #[trigger] record_tag(b, start, i) as u32 == tag,
        forall|i: int|
            0 <= i < k && #[trigger] record_tag(b, start, i) as u32 == tag && (forall|j: int|
                i < j < k ==> #[trigger] record_tag(b, start, j) as u32 != tag)
                ==> directory_prefix(b, start, k)[tag] == record_offset(b, start, i) as u32,
    decreases k,
{
    if k > 0 {
        lemma_directory_prefix(b, start, (k - 1) as nat, tag);
        if record_tag(b, start, k - 1) as u32 != tag {
            assert forall|i: int|
                0 <= i < k && #[trigger] record_tag(b, start, i) as u32 == tag && (forall|j: int|
                    i < j < k ==> #[trigger] record_tag(b, start, j) as u32 != tag)
                    implies directory_prefix(b, start, k)[tag] == record_offset(
                b,
                start,
                i,
            ) as u32 by {
                assert(i < k - 1);
            }
        }
    }
}

/// Reads the table directory that starts at the cursor: a four-byte version
/// tag, the table count, six bytes of search hints, then one sixteen-byte
/// record per table (tag, checksum, offset, length). Returns tag to offset
/// and leaves the cursor behind the last record. The six bytes of search
/// hints are skipped, not read: an empty directory may end past the end of
/// the buffer, as long as `usize` can hold the position.
pub fn read_table_locations(reader: &mut Reader) -> (r: Result<HashMap<u32, u32>, FontError>)
    ensures
        final(reader).bytes() == old(reader).bytes(),
        match r {
            Ok(m) => {
                &&& directory_readable(old(reader).bytes(), old(reader).position() as int)
                &&& m@ == directory(old(reader).bytes(), old(reader).position() as int)
                &&& final(reader).position() == directory_end(
                    old(reader).bytes(),
                    old(reader).position() as int,
                )
            },
            Err(e) => e == FontError::OutOfBounds && (!directory_readable(
                old(reader).bytes(),
                old(reader).position() as int,
            ) || directory_end(old(reader).bytes(), old(reader).position() as int) > usize::MAX),
        },
{
    let ghost b = reader.bytes();
    let ghost start = reader.position() as int;
    let mut locations: HashMap<u32, u32> = HashMap::new();
    match reader.skip(4) {
        Ok(_) => {},
        Err(e) => return Err(e),
    }
    let table_num = match reader.read_u16() {
        Ok(v) => v,
        Err(e) => return Err(e),
    };
    match reader.skip(6) {
        Ok(_) => {},
        Err(e) => return Err(e),
    }
    let mut i: u16 = 0;
    while i < table_num
        invariant
            0 <= i <= table_num,
            table_num == table_count(b, start),
            readable(b, start + 4, 2),
            b == old(reader).bytes(),
            start == old(reader).position(),
            reader.bytes() == b,
            reader.position() == record_start(start, i as int),
            i > 0 ==> readable(b, start + 12, 16 * i),
            locations@ == directory_prefix(b, start, i as nat),
        decreases table_num - i,
    {
        let tag = match reader.read_u32() {
            Ok(v) => v,
            Err(e) => return Err(e),
        };
        let _checksum = match reader.read_u32() {
            Ok(v) => v,
            Err(e) => return Err(e),
        };
        let offset = match reader.read_u32() {
            Ok(v) => v,
            Err(e) => return Err(e),
        };
        let _length = match reader.read_u32() {
            Ok(v) => v,
            Err(e) => return Err(e),
        };
        locations.insert(tag, offset);
        i = i + 1;
    }
    Ok(locations)
}

/// The offsets of the seven tables that a font cannot do without.
#[derive(Debug, Clone, Copy, PartialEq, Eq)]
pub struct TableOffsets {
    pub head: u32,
    pub maxp: u32,
    pub loca: u32,
    pub cmap: u32,
    pub glyf: u32,
    pub hhea: u32,
    pub hmtx: u32,
}

/// The offsets of the required tables in `m`, or the first of `head`,
/// `maxp`, `loca`, `cmap`, `glyf`, `hhea`, `hmtx` that `m` lacks.
pub open spec fn required_tables(m: Map<u32, u32>) -> Result<TableOffsets, FontError> {
    if !m.contains_key(TAG_HEAD) {
        Err(FontError::MissingTable("head"))
    } else if !m.contains_key(TAG_MAXP) {
        Err(FontError::MissingTable("maxp"))
    } else if !m.contains_key(TAG_LOCA) {
        Err(FontError::MissingTable("loca"))
    } else if !m.contains_key(TAG_CMAP) {
        Err(FontError::MissingTable("cmap"))
    } else if !m.contains_key(TAG_GLYF) {
        Err(FontError::MissingTable("glyf"))
    } else if !m.contains_key(TAG_HHEA) {
        Err(FontError::MissingTable("hhea"))
    } else if !m.contains_key(TAG_HMTX) {
        Err(FontError::MissingTable("hmtx"))
    } else {
        Ok(
            TableOffsets {
                head: m[TAG_HEAD],
                maxp: m[TAG_MAXP],
                loca: m[TAG_LOCA],
                cmap: m[TAG_CMAP],
                glyf: m[TAG_GLYF],
                hhea: m[TAG_HHEA],
                hmtx: m[TAG_HMTX],
            },
        )
    }
}

/// Looks one table up; `name` is what the error carries when it is absent.
pub fn table_offset(locations: &HashMap<u32, u32>, tag: u32, name: &'static str) -> (r: Result<
    u32,
    FontError,
>)
    ensures
        match r {
            Ok(offset) => locations@.contains_key(tag) && offset == locations@[tag],
            Err(e) => !locations@.contains_key(tag) && e == FontError::MissingTable(name),
        },
{
    match locations.get(&tag) {
        Some(offset) => Ok(*offset),
        None => Err(FontError::MissingTable(name)),
    }
}

/// Looks the seven required tables up, in the order `head`, `maxp`, `loca`,
/// `cmap`, `glyf`, `hhea`, `hmtx`.
pub fn required_table_offsets(locations: &HashMap<u32, u32>) -> (r: Result<
    TableOffsets,
    FontError,
>)
    ensures
        r == required_tables(locations@),
{
    let head = match table_offset(locations, TAG_HEAD, "head") {
        Ok(v) => v,
        Err(e) => return Err(e),
    };
    let maxp = match table_offset(locations, TAG_MAXP, "maxp") {
        Ok(v) => v,
        Err(e) => return Err(e),
    };
    let loca = match table_offset(locations, TAG_LOCA, "loca") {
        Ok(v) => v,
        Err(e) => return Err(e),
    };
    let cmap = match table_offset(locations, TAG_CMAP, "cmap") {
        Ok(v) => v,
        Err(e) => return Err(e),
    };
    let glyf = match table_offset(locations, TAG_GLYF, "glyf") {
        Ok(v) => v,
        Err(e) => return Err(e),
    };
    let hhea = match table_offset(locations, TAG_HHEA, "hhea") {
        Ok(v) => v,
        Err(e) => return Err(e),
    };
    let hmtx = match table_offset(locations, TAG_HMTX, "hmtx") {
        Ok(v) => v,
        Err(e) => return Err(e),
    };
    Ok(TableOffsets { head, maxp, loca, cmap, glyf, hhea, hmtx })
}

} // verus!

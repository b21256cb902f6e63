use vstd::prelude::*;
use crate::error::FontError;
use crate::reader::{be_u16, be_u32, readable, Reader};

verus! {

/// One entry of the character map: the code point `unicode` is drawn with
/// the glyph `index`.
#[derive(Debug, Clone, Copy, PartialEq, Eq)]
pub struct GlyphMap {
    pub index: u32,
    pub unicode: u32,
}

/// The number of encoding records that the `cmap` table at `cmap` announces.
pub open spec fn encoding_count(b: Seq<u8>, cmap: int) -> int {
    be_u16(b, cmap + 2)
}

/// Where encoding record `i` starts.
pub open spec fn encoding_start(cmap: int, i: int) -> int {
    cmap + 4 + 8 * i
}

/// The platform of encoding record `i`.
pub open spec fn encoding_platform(b: Seq<u8>, cmap: int, i: int) -> int {
    be_u16(b, encoding_start(cmap, i))
}

/// The platform-specific encoding of encoding record `i`.
pub open spec fn encoding_specific(b: Seq<u8>, cmap: int, i: int) -> int {
    be_u16(b, encoding_start(cmap, i) + 2)
}

/// The offset of the subtable of encoding record `i`, counted from the start
/// of `cmap`.
pub open spec fn encoding_offset(b: Seq<u8>, cmap: int, i: int) -> int {
    be_u32(b, encoding_start(cmap, i) + 4)
}

/// Whether the table's header and every encoding record that it announces
/// lie inside the buffer.
pub open spec fn encodings_readable(b: Seq<u8>, cmap: int) -> bool {
    &&& readable(b, cmap, 4)
    &&& encoding_count(b, cmap) > 0 ==> readable(b, cmap + 4, 8 * encoding_count(b, cmap))
}

/// The subtable picked so far: its offset (0 while none is picked) and the
/// encoding of the best Unicode-platform record seen (-1 while none is).
pub struct Selection {
    pub offset: int,
    pub unicode_version: int,
}

/// The Unicode-platform encodings that are understood.
pub open spec fn unicode_encoding(specific: int) -> bool {
    specific == 0 || specific == 1 || specific == 3 || specific == 4
}

/// The Microsoft-platform encodings that are understood: the basic plane and
/// full Unicode.
pub open spec fn microsoft_encoding(specific: int) -> bool {
    specific == 1 || specific == 10
}

/// The selection after one more record. A Unicode-platform record wins when
/// its encoding is understood and beats the best seen; a Microsoft-platform
/// record is taken only while no Unicode-platform record was.
pub open spec fn select_step(sel: Selection, platform: int, specific: int, offset: int) -> Selection {
    if platform == 0 && specific > sel.unicode_version {
        if unicode_encoding(specific) {
            Selection { offset, unicode_version: specific }
        } else {
            sel
        }
    } else if platform == 3 && sel.unicode_version == -1 {
        if microsoft_encoding(specific) {
            Selection { offset, unicode_version: -1 }
        } else {
            sel
        }
    } else {
        sel
    }
}

/// The selection after the first `k` encoding records.
pub open spec fn selection_after(b: Seq<u8>, cmap: int, k: nat) -> Selection
    decreases k,
{
    if k == 0 {
        Selection { offset: 0, unicode_version: -1 }
    } else {
        select_step(
            selection_after(b, cmap, (k - 1) as nat),
            encoding_platform(b, cmap, k - 1),
            encoding_specific(b, cmap, k - 1),
            encoding_offset(b, cmap, k - 1),
        )
    }
}

/// The offset of the subtable that the whole table selects, 0 if none.
pub open spec fn selected_offset(b: Seq<u8>, cmap: int) -> int {
    selection_after(b, cmap, encoding_count(b, cmap) as nat).offset
}

/// Whether encoding record `i` is a Unicode-platform record in an encoding
/// that is understood.
pub open spec fn unicode_record(b: Seq<u8>, cmap: int, i: int) -> bool {
    encoding_platform(b, cmap, i) == 0 && unicode_encoding(encoding_specific(b, cmap, i))
}

/// Whether encoding record `i` is a Microsoft-platform record in an encoding
/// that is understood.
pub open spec fn microsoft_record(b: Seq<u8>, cmap: int, i: int) -> bool {
    encoding_platform(b, cmap, i) == 3 && microsoft_encoding(encoding_specific(b, cmap, i))
}

/// Among the first `k` records, the selection is the first Unicode-platform
/// record with the highest encoding that is understood; where there is no
/// such record, it is the last Microsoft-platform record in an encoding that
/// is understood; where there is none either, nothing is selected.
pub proof fn lemma_selection(b: Seq<u8>, cmap: int, k: nat)
    ensures
        forall|i: int|
            0 <= i < k && #[trigger] unicode_record(b, cmap, i) ==> encoding_specific(b, cmap, i)
                <= selection_after(b, cmap, k).unicode_version,
        selection_after(b, cmap, k).unicode_version >= 0 ==> exists|i: int|
            {
                &&& 0 <= i < k
                &&& #[trigger] unicode_record(b, cmap, i)
                &&& encoding_specific(b, cmap, i) == selection_after(b, cmap, k).unicode_version
                &&& encoding_offset(b, cmap, i) == selection_after(b, cmap, k).offset
                &&& forall|j: int|
                    0 <= j < i && #[trigger] unicode_record(b, cmap, j) ==> encoding_specific(
                        b,
                        cmap,
                        j,
                    ) < encoding_specific(b, cmap, i)
            },
        selection_after(b, cmap, k).unicode_version < 0 ==> {
            &&& selection_after(b, cmap, k).unicode_version == -1
            &&& forall|i: int| 0 <= i < k ==> !#[trigger] unicode_record(b, cmap, i)
            &&& (forall|i: int| 0 <= i < k ==> !#[trigger] microsoft_record(b, cmap, i))
                ==> selection_after(b, cmap, k).offset == 0
            &&& (exists|i: int| 0 <= i < k && #[trigger] microsoft_record(b, cmap, i))
                ==> exists|i: int|
                {
                    &&& 0 <= i < k
                    &&& #[trigger] microsoft_record(b, cmap, i)
                    &&& encoding_offset(b, cmap, i) == selection_after(b, cmap, k).offset
                    &&& forall|j: int| i < j < k ==> !#[trigger] microsoft_record(b, cmap, j)
                }
        },
    decreases k,
{
    if k > 0 {
        let last = k - 1;
        let before = selection_after(b, cmap, last as nat);
        let after = selection_after(b, cmap, k);
        lemma_selection(b, cmap, last as nat);
        if unicode_record(b, cmap, last) && encoding_specific(b, cmap, last)
            > before.unicode_version {
            assert(unicode_record(b, cmap, last) && encoding_offset(b, cmap, last) == after.offset);
        } else if after.unicode_version >= 0 {
            let i = choose|i: int|
                {
                    &&& 0 <= i < last
                    &&& #[trigger] unicode_record(b, cmap, i)
                    &&& encoding_specific(b, cmap, i) == before.unicode_version
                    &&& encoding_offset(b, cmap, i) == before.offset
                    &&& forall|j: int|
                        0 <= j < i && #[trigger] unicode_record(b, cmap, j) ==> encoding_specific(
                            b,
                            cmap,
                            j,
                        ) < encoding_specific(b, cmap, i)
                };
            assert(unicode_record(b, cmap, i) && encoding_offset(b, cmap, i) == after.offset);
        } else if microsoft_record(b, cmap, last) {
            assert(microsoft_record(b, cmap, last) && encoding_offset(b, cmap, last)
                == after.offset);
        } else if exists|i: int| 0 <= i < k && #[trigger] microsoft_record(b, cmap, i) {
            let w = choose|i: int| 0 <= i < k && #[trigger] microsoft_record(b, cmap, i);
            assert(0 <= w < last && microsoft_record(b, cmap, w));
            let i = choose|i: int|
                {
                    &&& 0 <= i < last
                    &&& #[trigger] microsoft_record(b, cmap, i)
                    &&& encoding_offset(b, cmap, i) == before.offset
                    &&& forall|j: int| i < j < last ==> !#[trigger] microsoft_record(b, cmap, j)
                };
            assert(microsoft_record(b, cmap, i) && encoding_offset(b, cmap, i) == after.offset);
        }
    }
}

/// Picks the subtable to decode from the `cmap` table that starts at
/// `cmap_table` and returns its offset from the start of the table.
pub fn select_subtable(reader: &mut Reader, cmap_table: u32) -> (r: Result<u32, FontError>)
    ensures
        final(reader).bytes() == old(reader).bytes(),
        match r {
            Ok(offset) => {
                &&& encodings_readable(old(reader).bytes(), cmap_table as int)
                &&& offset == selected_offset(old(reader).bytes(), cmap_table as int)
                &&& offset != 0
                &&& final(reader).position() == encoding_start(
                    cmap_table as int,
                    encoding_count(old(reader).bytes(), cmap_table as int),
                )
            },
            Err(e) => if encodings_readable(old(reader).bytes(), cmap_table as int) {
                e == FontError::NoSupportedEncoding && selected_offset(
                    old(reader).bytes(),
                    cmap_table as int,
                ) == 0
            } else {
                e == FontError::OutOfBounds
            },
        },
{
    let ghost b = reader.bytes();
    let ghost cmap = cmap_table as int;
    reader.goto(cmap_table as usize);
    let _version = match reader.read_u16() {
        Ok(v) => v,
        Err(e) => return Err(e),
    };
    let subtable_num = match reader.read_u16() {
        Ok(v) => v,
        Err(e) => return Err(e),
    };
    let mut subtable_offset: u32 = 0;
    let mut unicode_version: i32 = -1;
    let mut i: u16 = 0;
    while i < subtable_num
        invariant
            0 <= i <= subtable_num,
            subtable_num == encoding_count(b, cmap),
            b == old(reader).bytes(),
            cmap == cmap_table,
            reader.bytes() == b,
            readable(b, cmap, 4),
            reader.position() == encoding_start(cmap, i as int),
            i > 0 ==> readable(b, cmap + 4, 8 * i),
            -1 <= unicode_version <= 4,
            selection_after(b, cmap, i as nat) == (Selection {
                offset: subtable_offset as int,
                unicode_version: unicode_version as int,
            }),
        decreases subtable_num - i,
    {
        let platform_id = match reader.read_u16() {
            Ok(v) => v,
            Err(e) => return Err(e),
        };
        let platform_specific_id = match reader.read_u16() {
            Ok(v) => v,
            Err(e) => return Err(e),
        };
        let offset = match reader.read_u32() {
            Ok(v) => v,
            Err(e) => return Err(e),
        };
        if platform_id == 0 && platform_specific_id as i32 > unicode_version {
            if platform_specific_id == 0 || platform_specific_id == 1 || platform_specific_id == 3
                || platform_specific_id == 4 {
                subtable_offset = offset;
                unicode_version = platform_specific_id as i32;
            }
        } else if platform_id == 3 && unicode_version == -1 {
            if platform_specific_id == 1 || platform_specific_id == 10 {
                subtable_offset = offset;
            }
        }
        i = i + 1;
    }
    if subtable_offset == 0 {
        return Err(FontError::NoSupportedEncoding);
    }
    Ok(subtable_offset)
}

/// The entries for `count` code points in a row: the code point `first_code
/// + k` is drawn with the glyph `first_glyph + k`.
pub open spec fn run_mappings(first_code: int, first_glyph: int, count: nat) -> Seq<GlyphMap> {
    Seq::new(
        count,
        |k: int| GlyphMap { index: (first_glyph + k) as u32, unicode: (first_code + k) as u32 },
    )
}

/// Appends to `maps` the entries for the code points `first_code` to
/// `last_code`, both included, the first of which is drawn with
/// `first_glyph` and each next one with the next glyph.
fn push_run(maps: &mut Vec<GlyphMap>, first_code: u32, last_code: u32, first_glyph: u32)
    requires
        first_code <= last_code,
        first_glyph + (last_code - first_code) <= u32::MAX,
    ensures
        final(maps)@ == old(maps)@ + run_mappings(
            first_code as int,
            first_glyph as int,
            (last_code - first_code + 1) as nat,
        ),
{
    let count: u64 = (last_code - first_code) as u64 + 1;
    let mut k: u64 = 0;
    while k < count
        invariant
            0 <= k <= count,
            count == last_code - first_code + 1,
            first_glyph + (last_code - first_code) <= u32::MAX,
            maps@ == old(maps)@ + run_mappings(first_code as int, first_glyph as int, k as nat),
        decreases count - k,
    {
        let unicode = (first_code as u64 + k) as u32;
        let index = (first_glyph as u64 + k) as u32;
        maps.push(GlyphMap { index, unicode });
        k = k + 1;
    }
}

/// The number of groups that the format-12 subtable at `sub` announces.
pub open spec fn group_count(b: Seq<u8>, sub: int) -> int {
    be_u32(b, sub + 12)
}

/// Where group `g` starts.
pub open spec fn group_start(sub: int, g: int) -> int {
    sub + 16 + 12 * g
}

/// The first code point of group `g`.
pub open spec fn group_first_code(b: Seq<u8>, sub: int, g: int) -> int {
    be_u32(b, group_start(sub, g))
}

/// The last code point of group `g`.
pub open spec fn group_last_code(b: Seq<u8>, sub: int, g: int) -> int {
    be_u32(b, group_start(sub, g) + 4)
}

/// The glyph of the first code point of group `g`.
pub open spec fn group_first_glyph(b: Seq<u8>, sub: int, g: int) -> int {
    be_u32(b, group_start(sub, g) + 8)
}

/// The number of code points in group `g`; a group whose last code point
/// lies before its first holds none.
pub open spec fn group_len(b: Seq<u8>, sub: int, g: int) -> nat {
    if group_first_code(b, sub, g) <= group_last_code(b, sub, g) {
        (group_last_code(b, sub, g) - group_first_code(b, sub, g) + 1) as nat
    } else {
        0
    }
}

/// Whether every glyph index of group `g` is one that 32 bits can hold.
pub open spec fn group_fits(b: Seq<u8>, sub: int, g: int) -> bool {
    group_len(b, sub, g) > 0 ==> group_first_glyph(b, sub, g) + group_len(b, sub, g) - 1
        <= u32::MAX
}

/// The entries of group `g`, by rising code point.
pub open spec fn group_mappings(b: Seq<u8>, sub: int, g: int) -> Seq<GlyphMap> {
    run_mappings(group_first_code(b, sub, g), group_first_glyph(b, sub, g), group_len(b, sub, g))
}

/// The entries of the first `n` groups, group after group.
pub open spec fn groups_mappings(b: Seq<u8>, sub: int, n: nat) -> Seq<GlyphMap>
    decreases n,
{
    if n == 0 {
        Seq::empty()
    } else {
        groups_mappings(b, sub, (n - 1) as nat) + group_mappings(b, sub, n - 1)
    }
}

/// Every code point of a group is among the entries, with the glyph that
/// stands as far behind the group's first glyph as the code point stands
/// behind the group's first code point.
pub proof fn lemma_group_is_mapped(b: Seq<u8>, sub: int, n: nat, g: int, code: int)
    requires
        0 <= g < n,
        group_first_code(b, sub, g) <= code <= group_last_code(b, sub, g),
    ensures
        groups_mappings(b, sub, n).contains(
            GlyphMap {
                index: (group_first_glyph(b, sub, g) + (code - group_first_code(b, sub, g))) as u32,
                unicode: code as u32,
            },
        ),
    decreases n,
{
    let front = groups_mappings(b, sub, (n - 1) as nat);
    let back = group_mappings(b, sub, n - 1);
    let entry = GlyphMap {
        index: (group_first_glyph(b, sub, g) + (code - group_first_code(b, sub, g))) as u32,
        unicode: code as u32,
    };
    if g == n - 1 {
        let k = code - group_first_code(b, sub, g);
        assert((front + back)[front.len() + k] == entry);
    } else {
        lemma_group_is_mapped(b, sub, (n - 1) as nat, g, code);
        let i = choose|i: int| 0 <= i < front.len() && front[i] == entry;
        assert((front + back)[i] == entry);
    }
}

/// Whether the group count and every group that it announces lie inside the
/// buffer.
pub open spec fn format12_readable(b: Seq<u8>, sub: int) -> bool {
    &&& readable(b, sub + 12, 4)
    &&& group_count(b, sub) > 0 ==> readable(b, sub + 16, 12 * group_count(b, sub))
}

/// What the format-12 subtable at `sub` maps: the entries of all its groups
/// in order, unless a part of it lies outside the buffer or a glyph index
/// does not fit.
pub open spec fn format12_mappings(b: Seq<u8>, sub: int) -> Result<Seq<GlyphMap>, FontError> {
    if format12_readable(b, sub) && (forall|g: int|
        0 <= g < group_count(b, sub) ==> #[trigger] group_fits(b, sub, g)) {
        Ok(groups_mappings(b, sub, group_count(b, sub) as nat))
    } else {
        Err(FontError::OutOfBounds)
    }
}

/// Decodes the format-12 subtable that starts at `subtable`.
pub fn read_format12(reader: &mut Reader, subtable: usize) -> (r: Result<Vec<GlyphMap>, FontError>)
    ensures
        final(reader).bytes() == old(reader).bytes(),
        match r {
            Ok(maps) => {
                &&& format12_mappings(old(reader).bytes(), subtable as int) == Ok::<
                    Seq<GlyphMap>,
                    FontError,
                >(maps@)
                &&& final(reader).position() == group_start(
                    subtable as int,
                    group_count(old(reader).bytes(), subtable as int),
                )
            },
            Err(e) => format12_mappings(old(reader).bytes(), subtable as int) == Err::<
                Seq<GlyphMap>,
                FontError,
            >(e),
        },
{
    let ghost b = reader.bytes();
    let ghost sub = subtable as int;
    let mut maps: Vec<GlyphMap> = Vec::new();
    reader.goto(subtable);
    match reader.skip(12) {
        Ok(_) => {},
        Err(e) => return Err(e),
    }
    let n_groups = match reader.read_u32() {
        Ok(v) => v,
        Err(e) => return Err(e),
    };
    let remaining = reader.len() - reader.cursor();
    if n_groups as u64 * 12 > remaining as u64 {
        return Err(FontError::OutOfBounds);
    }
    let mut g: u32 = 0;
    while g < n_groups
        invariant
            0 <= g <= n_groups,
            n_groups == group_count(b, sub),
            b == old(reader).bytes(),
            sub == subtable,
            reader.bytes() == b,
            format12_readable(b, sub),
            reader.position() == group_start(sub, g as int),
            forall|j: int| 0 <= j < g ==> #[trigger] group_fits(b, sub, j),
            maps@ == groups_mappings(b, sub, g as nat),
        decreases n_groups - g,
    {
        let start_char_code = match reader.read_u32() {
            Ok(v) => v,
            Err(e) => return Err(e),
        };
        let end_char_code = match reader.read_u32() {
            Ok(v) => v,
            Err(e) => return Err(e),
        };
        let start_glyph_code = match reader.read_u32() {
            Ok(v) => v,
            Err(e) => return Err(e),
        };
        if start_char_code <= end_char_code {
            if start_glyph_code as u64 + (end_char_code - start_char_code) as u64 > u32::MAX as u64 {
                assert(!group_fits(b, sub, g as int));
                return Err(FontError::OutOfBounds);
            }
            push_run(&mut maps, start_char_code, end_char_code, start_glyph_code);
        }
        g = g + 1;
    }
    Ok(maps)
}

/// The number of segments that the format-4 subtable at `sub` announces:
/// half of the doubled count that it stores.
pub open spec fn segment_count(b: Seq<u8>, sub: int) -> int {
    be_u16(b, sub + 6) / 2
}

/// The last code point of segment `i`.
pub open spec fn segment_end_code(b: Seq<u8>, sub: int, i: int) -> int {
    be_u16(b, sub + 14 + 2 * i)
}

/// The first code point of segment `i`.
pub open spec fn segment_start_code(b: Seq<u8>, sub: int, i: int) -> int {
    be_u16(b, sub + 16 + 2 * segment_count(b, sub) + 2 * i)
}

/// The delta of segment `i`.
pub open spec fn segment_id_delta(b: Seq<u8>, sub: int, i: int) -> int {
    be_u16(b, sub + 16 + 4 * segment_count(b, sub) + 2 * i)
}

/// Where the range offset of segment `i` stands.
pub open spec fn segment_range_offset_at(b: Seq<u8>, sub: int, i: int) -> int {
    sub + 16 + 6 * segment_count(b, sub) + 2 * i
}

/// The range offset of segment `i`.
pub open spec fn segment_range_offset(b: Seq<u8>, sub: int, i: int) -> int {
    be_u16(b, segment_range_offset_at(b, sub, i))
}

/// Whether the header and the four arrays of the segments lie inside the
/// buffer.
pub open spec fn format4_readable(b: Seq<u8>, sub: int) -> bool {
    &&& readable(b, sub + 2, 6)
    &&& segment_count(b, sub) > 0 ==> readable(b, sub + 14, 2 + 8 * segment_count(b, sub))
}

/// The number of code points that a segment from `start_code` to `end_code`
/// maps. The code point 0xFFFF only marks the end of the segments and is
/// never mapped by one.
pub open spec fn segment_len(start_code: int, end_code: int) -> nat {
    if end_code < 0xFFFF {
        if start_code <= end_code {
            (end_code - start_code + 1) as nat
        } else {
            0
        }
    } else {
        (0xFFFF - start_code) as nat
    }
}

/// Where the glyph of `code` stands in the glyph array, for a segment with a
/// range offset other than 0: the range offset is counted from where it
/// stands itself, at `at`.
pub open spec fn glyph_id_at(at: int, range_offset: int, start_code: int, code: int) -> int {
    at + range_offset + 2 * (code - start_code)
}

/// Whether the glyph of `code` can be found: a segment with a range offset
/// other than 0 must find it inside the buffer.
pub open spec fn mapped_glyph_readable(
    b: Seq<u8>,
    at: int,
    range_offset: int,
    start_code: int,
    code: int,
) -> bool {
    range_offset != 0 ==> readable(b, glyph_id_at(at, range_offset, start_code, code), 2)
}

/// The glyph of `code`. With range offset 0 it is the code point plus the
/// delta, modulo 65536. Otherwise it is looked up in the glyph array, where 0
/// stands for no glyph and any other value has the delta added, modulo
/// 65536.
pub open spec fn mapped_glyph(
    b: Seq<u8>,
    at: int,
    range_offset: int,
    id_delta: int,
    start_code: int,
    code: int,
) -> int {
    if range_offset == 0 {
        (code + id_delta) % 0x1_0000
    } else if be_u16(b, glyph_id_at(at, range_offset, start_code, code)) == 0 {
        0
    } else {
        (be_u16(b, glyph_id_at(at, range_offset, start_code, code)) + id_delta) % 0x1_0000
    }
}

/// The entries of one segment for the `count` code points from `start_code`
/// on.
pub open spec fn segment_run(
    b: Seq<u8>,
    at: int,
    range_offset: int,
    id_delta: int,
    start_code: int,
    count: nat,
) -> Seq<GlyphMap> {
    Seq::new(
        count,
        |k: int|
            GlyphMap {
                index: mapped_glyph(b, at, range_offset, id_delta, start_code, start_code + k) as u32,
                unicode: (start_code + k) as u32,
            },
    )
}

/// Whether the glyphs of the `count` code points from `start_code` on can
/// all be found.
pub open spec fn segment_run_readable(
    b: Seq<u8>,
    at: int,
    range_offset: int,
    start_code: int,
    count: nat,
) -> bool {
    forall|k: int|
        0 <= k < count ==> #[trigger] mapped_glyph_readable(
            b,
            at,
            range_offset,
            start_code,
            start_code + k,
        )
}

/// Appends to `maps` the entries of one segment: one for each code point
/// from `start_code` to `end_code`, the code point 0xFFFF left out.
/// `range_offset_at` is where the segment's range offset stands.
pub fn push_segment(
    reader: &mut Reader,
    maps: &mut Vec<GlyphMap>,
    range_offset_at: usize,
    range_offset: u16,
    id_delta: u16,
    start_code: u16,
    end_code: u16,
) -> (r: Result<(), FontError>)
    ensures
        final(reader).bytes() == old(reader).bytes(),
        match r {
            Ok(_) => {
                &&& segment_run_readable(
                    old(reader).bytes(),
                    range_offset_at as int,
                    range_offset as int,
                    start_code as int,
                    segment_len(start_code as int, end_code as int),
                )
                &&& final(maps)@ == old(maps)@ + segment_run(
                    old(reader).bytes(),
                    range_offset_at as int,
                    range_offset as int,
                    id_delta as int,
                    start_code as int,
                    segment_len(start_code as int, end_code as int),
                )
            },
            Err(e) => {
                &&& e == FontError::OutOfBounds
                &&& !segment_run_readable(
                    old(reader).bytes(),
                    range_offset_at as int,
                    range_offset as int,
                    start_code as int,
                    segment_len(start_code as int, end_code as int),
                )
                &&& old(maps)@.is_prefix_of(final(maps)@)
            },
        },
{
    let ghost b = reader.bytes();
    let count: u32 = if end_code < 0xFFFF {
        if start_code <= end_code {
            (end_code - start_code) as u32 + 1
        } else {
            0
        }
    } else {
        (0xFFFF - start_code) as u32
    };
    let mut k: u32 = 0;
    while k < count
        invariant
            0 <= k <= count,
            count == segment_len(start_code as int, end_code as int),
            start_code + count <= 0xFFFF,
            b == old(reader).bytes(),
            reader.bytes() == b,
            segment_run_readable(
                b,
                range_offset_at as int,
                range_offset as int,
                start_code as int,
                k as nat,
            ),
            maps@ == old(maps)@ + segment_run(
                b,
                range_offset_at as int,
                range_offset as int,
                id_delta as int,
                start_code as int,
                k as nat,
            ),
        decreases count - k,
    {
        let code: u32 = start_code as u32 + k;
        let ghost found = mapped_glyph_readable(
            b,
            range_offset_at as int,
            range_offset as int,
            start_code as int,
            start_code + k,
        );
        let index: u32 = if range_offset == 0 {
            (code + id_delta as u32) % 0x1_0000
        } else {
            reader.goto(range_offset_at);
            match reader.skip(range_offset as usize) {
                Ok(_) => {},
                Err(e) => {
                    assert(!found);
                    return Err(e);
                },
            }
            match reader.skip((2 * k) as usize) {
                Ok(_) => {},
                Err(e) => {
                    assert(!found);
                    return Err(e);
                },
            }
            let raw = match reader.read_u16() {
                Ok(v) => v,
                Err(e) => {
                    assert(!found);
                    return Err(e);
                },
            };
            if raw == 0 {
                0
            } else {
                (raw as u32 + id_delta as u32) % 0x1_0000
            }
        };
        maps.push(GlyphMap { index, unicode: code });
        k = k + 1;
    }
    Ok(())
}

/// The entries of segment `i`.
pub open spec fn segment_mappings(b: Seq<u8>, sub: int, i: int) -> Seq<GlyphMap> {
    segment_run(
        b,
        segment_range_offset_at(b, sub, i),
        segment_range_offset(b, sub, i),
        segment_id_delta(b, sub, i),
        segment_start_code(b, sub, i),
        segment_len(segment_start_code(b, sub, i), segment_end_code(b, sub, i)),
    )
}

/// Whether the glyph of every code point of segment `i` can be found.
pub open spec fn segment_readable(b: Seq<u8>, sub: int, i: int) -> bool {
    segment_run_readable(
        b,
        segment_range_offset_at(b, sub, i),
        segment_range_offset(b, sub, i),
        segment_start_code(b, sub, i),
        segment_len(segment_start_code(b, sub, i), segment_end_code(b, sub, i)),
    )
}

/// The entries of the first `n` segments, segment after segment.
pub open spec fn segments_mappings(b: Seq<u8>, sub: int, n: nat) -> Seq<GlyphMap>
    decreases n,
{
    if n == 0 {
        Seq::empty()
    } else {
        segments_mappings(b, sub, (n - 1) as nat) + segment_mappings(b, sub, n - 1)
    }
}

/// Every code point of a segment but 0xFFFF is among the entries, with the
/// glyph that the segment gives it.
pub proof fn lemma_segment_is_mapped(b: Seq<u8>, sub: int, n: nat, i: int, code: int)
    requires
        0 <= i < n,
        segment_start_code(b, sub, i) <= code <= segment_end_code(b, sub, i),
        code != 0xFFFF,
    ensures
        segments_mappings(b, sub, n).contains(
            GlyphMap {
                index: mapped_glyph(
                    b,
                    segment_range_offset_at(b, sub, i),
                    segment_range_offset(b, sub, i),
                    segment_id_delta(b, sub, i),
                    segment_start_code(b, sub, i),
                    code,
                ) as u32,
                unicode: code as u32,
            },
        ),
    decreases n,
{
    let front = segments_mappings(b, sub, (n - 1) as nat);
    let back = segment_mappings(b, sub, n - 1);
    let entry = GlyphMap {
        index: mapped_glyph(
            b,
            segment_range_offset_at(b, sub, i),
            segment_range_offset(b, sub, i),
            segment_id_delta(b, sub, i),
            segment_start_code(b, sub, i),
            code,
        ) as u32,
        unicode: code as u32,
    };
    if i == n - 1 {
        let k = code - segment_start_code(b, sub, i);
        assert((front + back)[front.len() + k] == entry);
    } else {
        lemma_segment_is_mapped(b, sub, (n - 1) as nat, i, code);
        let j = choose|j: int| 0 <= j < front.len() && front[j] == entry;
        assert((front + back)[j] == entry);
    }
}

/// What the format-4 subtable at `sub` maps: the entries of all its segments
/// in order, unless a part of it, or a glyph that it points to, lies outside
/// the buffer.
pub open spec fn format4_mappings(b: Seq<u8>, sub: int) -> Result<Seq<GlyphMap>, FontError> {
    if format4_readable(b, sub) && (forall|i: int|
        0 <= i < segment_count(b, sub) ==> #[trigger] segment_readable(b, sub, i)) {
        Ok(segments_mappings(b, sub, segment_count(b, sub) as nat))
    } else {
        Err(FontError::OutOfBounds)
    }
}

/// Decodes the format-4 subtable that starts at `subtable`.
pub fn read_format4(reader: &mut Reader, subtable: usize) -> (r: Result<Vec<GlyphMap>, FontError>)
    ensures
        final(reader).bytes() == old(reader).bytes(),
        match r {
            Ok(maps) => format4_mappings(old(reader).bytes(), subtable as int) == Ok::<
                Seq<GlyphMap>,
                FontError,
            >(maps@),
            Err(e) => format4_mappings(old(reader).bytes(), subtable as int) == Err::<
                Seq<GlyphMap>,
                FontError,
            >(e),
        },
{
    let ghost b = reader.bytes();
    let ghost sub = subtable as int;
    let mut maps: Vec<GlyphMap> = Vec::new();
    reader.goto(subtable);
    match reader.skip(2) {
        Ok(_) => {},
        Err(e) => return Err(e),
    }
    let _length = match reader.read_u16() {
        Ok(v) => v,
        Err(e) => return Err(e),
    };
    let _language = match reader.read_u16() {
        Ok(v) => v,
        Err(e) => return Err(e),
    };
    let seg_count_x2 = match reader.read_u16() {
        Ok(v) => v,
        Err(e) => return Err(e),
    };
    let seg_count: u16 = seg_count_x2 / 2;
    if seg_count == 0 {
        return Ok(maps);
    }
    match reader.skip(6) {
        Ok(_) => {},
        Err(e) => return Err(e),
    }
    let end_code = match reader.read_u16_array(seg_count) {
        Ok(v) => v,
        Err(e) => return Err(e),
    };
    match reader.skip(2) {
        Ok(_) => {},
        Err(e) => return Err(e),
    }
    let start_code = match reader.read_u16_array(seg_count) {
        Ok(v) => v,
        Err(e) => return Err(e),
    };
    let id_delta = match reader.read_u16_array(seg_count) {
        Ok(v) => v,
        Err(e) => return Err(e),
    };
    let range_offsets_at = reader.cursor();
    let id_range_offset = match reader.read_u16_array(seg_count) {
        Ok(v) => v,
        Err(e) => return Err(e),
    };
    proof {
        reader.lemma_limits();
    }
    let mut i: u16 = 0;
    while i < seg_count
        invariant
            0 <= i <= seg_count,
            seg_count == segment_count(b, sub),
            range_offsets_at + 2 * seg_count <= usize::MAX,
            b == old(reader).bytes(),
            sub == subtable,
            reader.bytes() == b,
            format4_readable(b, sub),
            range_offsets_at == segment_range_offset_at(b, sub, 0),
            end_code.len() == seg_count,
            start_code.len() == seg_count,
            id_delta.len() == seg_count,
            id_range_offset.len() == seg_count,
            forall|j: int| 0 <= j < seg_count ==> #[trigger] end_code[j] == segment_end_code(b, sub, j),
            forall|j: int|
                0 <= j < seg_count ==> #[trigger] start_code[j] == segment_start_code(b, sub, j),
            forall|j: int| 0 <= j < seg_count ==> #[trigger] id_delta[j] == segment_id_delta(b, sub, j),
            forall|j: int|
                0 <= j < seg_count ==> #[trigger] id_range_offset[j] == segment_range_offset(
                    b,
                    sub,
                    j,
                ),
            forall|j: int| 0 <= j < i ==> #[trigger] segment_readable(b, sub, j),
            maps@ == segments_mappings(b, sub, i as nat),
        decreases seg_count - i,
    {
        match push_segment(
            reader,
            &mut maps,
            range_offsets_at + 2 * (i as usize),
            id_range_offset[i as usize],
            id_delta[i as usize],
            start_code[i as usize],
            end_code[i as usize],
        ) {
            Ok(_) => {},
            Err(e) => {
                assert(!segment_readable(b, sub, i as int));
                return Err(e);
            },
        }
        i = i + 1;
    }
    Ok(maps)
}

/// Where the selected subtable starts, counted from the start of the
/// buffer.
pub open spec fn subtable_start(b: Seq<u8>, cmap: int) -> int {
    cmap + selected_offset(b, cmap)
}

/// The format of the selected subtable.
pub open spec fn subtable_format(b: Seq<u8>, cmap: int) -> int {
    be_u16(b, subtable_start(b, cmap))
}

/// The entry that closes every character map: the code point 0xFFFF is
/// drawn with glyph 0.
pub open spec fn notdef_sentinel() -> GlyphMap {
    GlyphMap { index: 0, unicode: 0xFFFF }
}

/// `decoded` with the closing entry behind it.
pub open spec fn with_sentinel(decoded: Result<Seq<GlyphMap>, FontError>) -> Result<
    Seq<GlyphMap>,
    FontError,
> {
    match decoded {
        Ok(maps) => Ok(maps.push(notdef_sentinel())),
        Err(e) => Err(e),
    }
}

/// What the `cmap` table at `cmap` maps, in the order of the selected
/// subtable, with the closing entry last. It fails with `OutOfBounds` where
/// something to read lies outside the buffer, with `NoSupportedEncoding`
/// where no subtable is selected, and with `UnsupportedCmapFormat` where the
/// selected subtable has a format other than 4 or 12.
pub open spec fn cmap_mappings(b: Seq<u8>, cmap: int) -> Result<Seq<GlyphMap>, FontError> {
    if !encodings_readable(b, cmap) {
        Err(FontError::OutOfBounds)
    } else if selected_offset(b, cmap) == 0 {
        Err(FontError::NoSupportedEncoding)
    } else if !readable(b, subtable_start(b, cmap), 2) {
        Err(FontError::OutOfBounds)
    } else if subtable_format(b, cmap) == 4 {
        with_sentinel(format4_mappings(b, subtable_start(b, cmap)))
    } else if subtable_format(b, cmap) == 12 {
        with_sentinel(format12_mappings(b, subtable_start(b, cmap)))
    } else {
        Err(FontError::UnsupportedCmapFormat(subtable_format(b, cmap) as u16))
    }
}

/// A character map fails in one of three ways only.
pub proof fn lemma_cmap_errors(b: Seq<u8>, cmap: int)
    ensures
        cmap_mappings(b, cmap) matches Err(e) ==> e is OutOfBounds || e is NoSupportedEncoding
            || e is UnsupportedCmapFormat,
{
}

/// A character map that decodes ends with the closing entry.
pub proof fn lemma_sentinel_last(b: Seq<u8>, cmap: int)
    requires
        cmap_mappings(b, cmap) is Ok,
    ensures
        cmap_mappings(b, cmap).unwrap().len() > 0,
        cmap_mappings(b, cmap).unwrap().last() == notdef_sentinel(),
{
}

/// Decodes the character map of the `cmap` table that starts at
/// `cmap_table`: the entries of the selected subtable in their order, then
/// the closing entry for the code point 0xFFFF.
pub fn get_maps(reader: &mut Reader, cmap_table: u32) -> (r: Result<Vec<GlyphMap>, FontError>)
    ensures
        final(reader).bytes() == old(reader).bytes(),
        match r {
            Ok(maps) => cmap_mappings(old(reader).bytes(), cmap_table as int) == Ok::<
                Seq<GlyphMap>,
                FontError,
            >(maps@),
            Err(e) => cmap_mappings(old(reader).bytes(), cmap_table as int) == Err::<
                Seq<GlyphMap>,
                FontError,
            >(e),
        },
{
    let subtable_offset = match select_subtable(reader, cmap_table) {
        Ok(v) => v,
        Err(e) => return Err(e),
    };
    reader.goto(cmap_table as usize);
    match reader.skip(subtable_offset as usize) {
        Ok(_) => {},
        Err(e) => return Err(e),
    }
    let subtable = reader.cursor();
    let format = match reader.read_u16() {
        Ok(v) => v,
        Err(e) => return Err(e),
    };
    let decoded = if format == 4 {
        read_format4(reader, subtable)
    } else if format == 12 {
        read_format12(reader, subtable)
    } else {
        return Err(FontError::UnsupportedCmapFormat(format));
    };
    match decoded {
        Ok(mut maps) => {
            maps.push(GlyphMap { index: 0, unicode: 0xFFFF });
            Ok(maps)
        },
        Err(e) => Err(e),
    }
}

} // verus!

use vstd::prelude::*;
use crate::cmap::GlyphMap;
use crate::error::FontError;
use crate::reader::{be_i16, be_u16, readable, Reader};

verus! {

/// One point of an outline, in design units.
#[derive(Debug, Clone, Copy, PartialEq, Eq)]
pub struct Point {
    pub x: i32,
    pub y: i32,
    /// Whether the point lies on the outline; if not, it is the control
    /// point of a quadratic curve.
    pub on_curve: bool,
}

/// One decoded glyph.
#[derive(Debug, PartialEq, Eq)]
pub struct GlyphData {
    pub unicode: u32,
    pub index: u32,
    /// The points of all contours, in absolute coordinates.
    pub points: Vec<Point>,
    /// For each contour the index in `points` of its last point.
    pub contour_boundaries: Vec<i32>,
    pub advance_width: i32,
    pub left_side_bearing: i32,
    pub min_x: i32,
    pub max_x: i32,
    pub min_y: i32,
    pub max_y: i32,
    pub width: i32,
    pub height: i32,
}

/// What a `GlyphData` holds, as plain mathematical values.
pub struct GlyphView {
    pub unicode: u32,
    pub index: u32,
    pub points: Seq<Point>,
    pub contour_boundaries: Seq<i32>,
    pub advance_width: i32,
    pub left_side_bearing: i32,
    pub min_x: i32,
    pub max_x: i32,
    pub min_y: i32,
    pub max_y: i32,
    pub width: i32,
    pub height: i32,
}

impl View for GlyphData {
    type V = GlyphView;

    open spec fn view(&self) -> GlyphView {
        GlyphView {
            unicode: self.unicode,
            index: self.index,
            points: self.points@,
            contour_boundaries: self.contour_boundaries@,
            advance_width: self.advance_width,
            left_side_bearing: self.left_side_bearing,
            min_x: self.min_x,
            max_x: self.max_x,
            min_y: self.min_y,
            max_y: self.max_y,
            width: self.width,
            height: self.height,
        }
    }
}

impl Clone for GlyphData {
    fn clone(&self) -> (r: Self)
        ensures
            r@ == self@,
    {
        let mut points: Vec<Point> = Vec::new();
        let mut i: usize = 0;
        while i < self.points.len()
            invariant
                0 <= i <= self.points.len(),
                points@ == self.points@.take(i as int),
            decreases self.points.len() - i,
        {
            points.push(self.points[i]);
            i = i + 1;
        }
        let mut contour_boundaries: Vec<i32> = Vec::new();
        let mut k: usize = 0;
        while k < self.contour_boundaries.len()
            invariant
                0 <= k <= self.contour_boundaries.len(),
                contour_boundaries@ == self.contour_boundaries@.take(k as int),
            decreases self.contour_boundaries.len() - k,
        {
            contour_boundaries.push(self.contour_boundaries[k]);
            k = k + 1;
        }
        assert(points@ =~= self.points@);
        assert(contour_boundaries@ =~= self.contour_boundaries@);
        GlyphData {
            unicode: self.unicode,
            index: self.index,
            points,
            contour_boundaries,
            advance_width: self.advance_width,
            left_side_bearing: self.left_side_bearing,
            min_x: self.min_x,
            max_x: self.max_x,
            min_y: self.min_y,
            max_y: self.max_y,
            width: self.width,
            height: self.height,
        }
    }
}

impl Default for GlyphData {
    /// The empty glyph: no points, every number 0.
    fn default() -> (r: Self)
        ensures
            r@ == (GlyphView {
                unicode: 0,
                index: 0,
                points: Seq::empty(),
                contour_boundaries: Seq::empty(),
                advance_width: 0,
                left_side_bearing: 0,
                min_x: 0,
                max_x: 0,
                min_y: 0,
                max_y: 0,
                width: 0,
                height: 0,
            }),
    {
        GlyphData {
            unicode: 0,
            index: 0,
            points: Vec::new(),
            contour_boundaries: Vec::new(),
            advance_width: 0,
            left_side_bearing: 0,
            min_x: 0,
            max_x: 0,
            min_y: 0,
            max_y: 0,
            width: 0,
            height: 0,
        }
    }
}

/// The bits of a point's flag byte, from the least significant one up.
#[derive(Debug, Clone, Copy, PartialEq, Eq)]
pub enum FlagBit {
    /// The point lies on the outline.
    OnCurve,
    /// The x delta is one unsigned byte.
    XShort,
    /// The y delta is one unsigned byte.
    YShort,
    /// The next byte says how many more points have this flag.
    Repeat,
    /// With `XShort`: the x delta is positive. Without: x is unchanged.
    XInstruction,
    /// With `YShort`: the y delta is positive. Without: y is unchanged.
    YInstruction,
}

impl FlagBit {
    /// How far the bit stands from the least significant one.
    pub open spec fn shift(self) -> u8 {
        match self {
            FlagBit::OnCurve => 0,
            FlagBit::XShort => 1,
            FlagBit::YShort => 2,
            FlagBit::Repeat => 3,
            FlagBit::XInstruction => 4,
            FlagBit::YInstruction => 5,
        }
    }

    /// How far the bit stands from the least significant one.
    pub fn position(self) -> (r: u8)
        ensures
            r == self.shift(),
    {
        match self {
            FlagBit::OnCurve => 0,
            FlagBit::XShort => 1,
            FlagBit::YShort => 2,
            FlagBit::Repeat => 3,
            FlagBit::XInstruction => 4,
            FlagBit::YInstruction => 5,
        }
    }
}

/// Whether `bit` is set in the flag byte `flag`.
pub open spec fn flag_bit(flag: u8, bit: FlagBit) -> bool {
    (flag >> bit.shift()) & 1 == 1
}

/// The flag byte of one point.
#[derive(Debug, Clone, Copy, PartialEq, Eq)]
pub struct Flag {
    flag: u8,
}

impl Flag {
    /// The byte that the flag was made from.
    pub closed spec fn byte(&self) -> u8 {
        self.flag
    }

    /// The flag that the byte `flag` holds.
    pub fn new(flag: u8) -> (r: Flag)
        ensures
            r.byte() == flag,
    {
        Flag { flag }
    }

    /// Whether `bit` is set in the flag.
    pub fn bit_is_set(&self, bit: FlagBit) -> (r: bool)
        ensures
            r == flag_bit(self.byte(), bit),
    {
        (self.flag >> bit.position()) & 1 == 1
    }
}

/// `prefix` put before the flags of `rest`, where there are any.
pub open spec fn prepend_flags(prefix: Seq<u8>, rest: Option<(Seq<u8>, int)>) -> Option<
    (Seq<u8>, int),
> {
    match rest {
        Some((flags, end)) => Some((prefix + flags, end)),
        None => None,
    }
}

/// The flag `flag`, `count` times.
pub open spec fn repeated_flag(flag: u8, count: nat) -> Seq<u8> {
    Seq::new(count, |i: int| flag)
}

/// How many points the flag byte at `pos` stands for, when `count` points
/// are still without a flag: one, or, if its repeat bit is set, one more
/// than the byte behind it says, but never more than `count`.
pub open spec fn flag_run(b: Seq<u8>, pos: int, count: nat) -> nat {
    if !flag_bit(b[pos], FlagBit::Repeat) {
        1
    } else if b[pos + 1] as nat + 1 < count {
        b[pos + 1] as nat + 1
    } else {
        count
    }
}

/// How many bytes the flag byte at `pos` takes up: one, or two with its
/// repeat count.
pub open spec fn flag_width(b: Seq<u8>, pos: int) -> int {
    if flag_bit(b[pos], FlagBit::Repeat) {
        2
    } else {
        1
    }
}

/// The flags of `count` points, decoded from the bytes that start at `pos`,
/// and where the bytes behind them start; `None` where the flags run past
/// the end of the buffer.
pub open spec fn flags_from(b: Seq<u8>, pos: int, count: nat) -> Option<(Seq<u8>, int)>
    decreases count,
{
    if count == 0 {
        Some((Seq::empty(), pos))
    } else if !readable(b, pos, flag_width(b, pos)) {
        None
    } else {
        prepend_flags(
            repeated_flag(b[pos], flag_run(b, pos, count)),
            flags_from(b, pos + flag_width(b, pos), (count - flag_run(b, pos, count)) as nat),
        )
    }
}

/// A flag byte with the repeat bit set, followed by the count `n`, stands
/// for `n + 1` points with that flag and takes up two bytes of the stream.
pub proof fn lemma_repeated_flags(b: Seq<u8>, pos: int, count: nat)
    requires
        readable(b, pos, 2),
        flag_bit(b[pos], FlagBit::Repeat),
        b[pos + 1] < count,
        flags_from(b, pos, count) is Some,
    ensures
        flags_from(b, pos, count).unwrap().0.len() == count,
        forall|i: int|
            0 <= i <= b[pos + 1] ==> #[trigger] flags_from(b, pos, count).unwrap().0[i] == b[pos],
        flags_from(b, pos, count) == prepend_flags(
            repeated_flag(b[pos], (b[pos + 1] + 1) as nat),
            flags_from(b, pos + 2, (count - (b[pos + 1] + 1)) as nat),
        ),
{
    lemma_flags_len(b, pos, count);
}

/// Decoding gives one flag for each point that was asked for.
pub proof fn lemma_flags_len(b: Seq<u8>, pos: int, count: nat)
    ensures
        flags_from(b, pos, count) matches Some((flags, end)) ==> flags.len() == count && end >= pos,
    decreases count,
{
    if count > 0 && readable(b, pos, flag_width(b, pos)) {
        lemma_flags_len(
            b,
            pos + flag_width(b, pos),
            (count - flag_run(b, pos, count)) as nat,
        );
    }
}

/// Reads the flags of `count` points from the cursor on. A flag byte whose
/// repeat bit is set is followed by a byte that says how many more points
/// have the same flag.
pub fn decode_flags(reader: &mut Reader, count: u32) -> (r: Result<Vec<u8>, FontError>)
    ensures
        final(reader).bytes() == old(reader).bytes(),
        match r {
            Ok(flags) => flags_from(
                old(reader).bytes(),
                old(reader).position() as int,
                count as nat,
            ) == Some((flags@, final(reader).position() as int)),
            Err(e) => e == FontError::OutOfBounds && flags_from(
                old(reader).bytes(),
                old(reader).position() as int,
                count as nat,
            ) is None,
        },
{
    let ghost b = reader.bytes();
    let ghost start = reader.position() as int;
    let mut flags: Vec<u8> = Vec::new();
    let mut done: u32 = 0;
    assert(prepend_flags(flags@, flags_from(b, start, count as nat)) == flags_from(
        b,
        start,
        count as nat,
    )) by {
        match flags_from(b, start, count as nat) {
            Some((rest, end)) => {
                assert(flags@ + rest =~= rest);
            },
            None => {},
        }
    }
    while done < count
        invariant
            0 <= done <= count,
            flags.len() == done,
            b == old(reader).bytes(),
            start == old(reader).position(),
            reader.bytes() == b,
            flags_from(b, start, count as nat) == prepend_flags(
                flags@,
                flags_from(b, reader.position() as int, (count - done) as nat),
            ),
        decreases count - done,
    {
        let ghost pos = reader.position() as int;
        let ghost before = flags@;
        let byte = match reader.read_u8() {
            Ok(v) => v,
            Err(e) => return Err(e),
        };
        let flag = Flag::new(byte);
        let run: u32 = if flag.bit_is_set(FlagBit::Repeat) {
            let repeat_count = match reader.read_u8() {
                Ok(v) => v,
                Err(e) => return Err(e),
            };
            if (repeat_count as u32) + 1 < count - done {
                repeat_count as u32 + 1
            } else {
                count - done
            }
        } else {
            1
        };
        assert(run == flag_run(b, pos, (count - done) as nat));
        let mut j: u32 = 0;
        while j < run
            invariant
                0 <= j <= run,
                done + run <= count,
                flags.len() == done + j,
                flags@ == before + repeated_flag(byte, j as nat),
            decreases run - j,
        {
            flags.push(byte);
            j = j + 1;
        }
        proof {
            let rest = flags_from(b, reader.position() as int, (count - done - run) as nat);
            match rest {
                Some((tail, end)) => {
                    assert(before + (repeated_flag(byte, run as nat) + tail) =~= (before
                        + repeated_flag(byte, run as nat)) + tail);
                },
                None => {},
            }
        }
        done = done + run;
    }
    assert(flags@ + Seq::<u8>::empty() =~= flags@);
    Ok(flags)
}

/// How many bytes the delta of a point with the flag `flag` takes up: one
/// if the short bit is set, none if the coordinate stays the same, else two.
pub open spec fn coord_width(flag: u8, short_bit: FlagBit, same_bit: FlagBit) -> int {
    if flag_bit(flag, short_bit) {
        1
    } else if !flag_bit(flag, same_bit) {
        2
    } else {
        0
    }
}

/// The delta of a point with the flag `flag`, read at `pos`. With the short
/// bit set it is the byte there, added if the other bit is set and taken
/// away if not. Without the short bit it is a signed 16-bit value, unless
/// the other bit says that the coordinate stays the same.
pub open spec fn coord_delta(
    b: Seq<u8>,
    pos: int,
    flag: u8,
    short_bit: FlagBit,
    same_bit: FlagBit,
) -> int {
    if flag_bit(flag, short_bit) {
        if flag_bit(flag, same_bit) {
            b[pos] as int
        } else {
            -(b[pos] as int)
        }
    } else if !flag_bit(flag, same_bit) {
        be_i16(b, pos)
    } else {
        0
    }
}

/// Where the delta of point `k` stands, when the deltas start at `start`.
pub open spec fn coord_pos(
    start: int,
    flags: Seq<u8>,
    short_bit: FlagBit,
    same_bit: FlagBit,
    k: nat,
) -> int
    decreases k,
{
    if k == 0 {
        start
    } else {
        coord_pos(start, flags, short_bit, same_bit, (k - 1) as nat) + coord_width(
            flags[k - 1],
            short_bit,
            same_bit,
        )
    }
}

/// The sum of the deltas of the first `k` points: the coordinate of point
/// `k - 1`.
pub open spec fn coord_value(
    b: Seq<u8>,
    start: int,
    flags: Seq<u8>,
    short_bit: FlagBit,
    same_bit: FlagBit,
    k: nat,
) -> int
    decreases k,
{
    if k == 0 {
        0
    } else {
        coord_value(b, start, flags, short_bit, same_bit, (k - 1) as nat) + coord_delta(
            b,
            coord_pos(start, flags, short_bit, same_bit, (k - 1) as nat),
            flags[k - 1],
            short_bit,
            same_bit,
        )
    }
}

/// Whether the delta of point `k` lies inside the buffer.
pub open spec fn coord_readable(
    b: Seq<u8>,
    start: int,
    flags: Seq<u8>,
    short_bit: FlagBit,
    same_bit: FlagBit,
    k: int,
) -> bool {
    coord_width(flags[k], short_bit, same_bit) > 0 ==> readable(
        b,
        coord_pos(start, flags, short_bit, same_bit, k as nat),
        coord_width(flags[k], short_bit, same_bit),
    )
}

/// Whether the deltas of all points lie inside the buffer.
pub open spec fn coords_readable(
    b: Seq<u8>,
    start: int,
    flags: Seq<u8>,
    short_bit: FlagBit,
    same_bit: FlagBit,
) -> bool {
    forall|k: int|
        0 <= k < flags.len() ==> #[trigger] coord_readable(b, start, flags, short_bit, same_bit, k)
}

/// A coordinate stays within what 16-bit deltas can add up to.
pub proof fn lemma_coord_value_bounds(
    b: Seq<u8>,
    start: int,
    flags: Seq<u8>,
    short_bit: FlagBit,
    same_bit: FlagBit,
    k: nat,
)
    ensures
        -0x8000 * k <= coord_value(b, start, flags, short_bit, same_bit, k) <= 0x7FFF * k,
    decreases k,
{
    if k > 0 {
        lemma_coord_value_bounds(b, start, flags, short_bit, same_bit, (k - 1) as nat);
    }
}

/// Reads one coordinate of every point from the cursor on: the deltas that
/// `flags` describe, summed up point by point. `short_bit` and `same_bit`
/// are the two flag bits of the coordinate. No more than 65536 points, so
/// that the sums fit.
pub fn read_coordinates(
    reader: &mut Reader,
    flags: &Vec<u8>,
    short_bit: FlagBit,
    same_bit: FlagBit,
) -> (r: Result<Vec<i32>, FontError>)
    requires
        flags.len() <= 0x1_0000,
    ensures
        final(reader).bytes() == old(reader).bytes(),
        match r {
            Ok(v) => {
                &&& coords_readable(
                    old(reader).bytes(),
                    old(reader).position() as int,
                    flags@,
                    short_bit,
                    same_bit,
                )
                &&& v.len() == flags.len()
                &&& forall|i: int|
                    0 <= i < v.len() ==> #[trigger] v[i] == coord_value(
                        old(reader).bytes(),
                        old(reader).position() as int,
                        flags@,
                        short_bit,
                        same_bit,
                        (i + 1) as nat,
                    )
                &&& final(reader).position() == coord_pos(
                    old(reader).position() as int,
                    flags@,
                    short_bit,
                    same_bit,
                    flags.len() as nat,
                )
            },
            Err(e) => e == FontError::OutOfBounds && !coords_readable(
                old(reader).bytes(),
                old(reader).position() as int,
                flags@,
                short_bit,
                same_bit,
            ),
        },
{
    let ghost b = reader.bytes();
    let ghost start = reader.position() as int;
    let mut values: Vec<i32> = Vec::new();
    let mut coord_val: i32 = 0;
    let mut i: usize = 0;
    while i < flags.len()
        invariant
            0 <= i <= flags.len() <= 0x1_0000,
            b == old(reader).bytes(),
            start == old(reader).position(),
            reader.bytes() == b,
            reader.position() == coord_pos(start, flags@, short_bit, same_bit, i as nat),
            coord_val == coord_value(b, start, flags@, short_bit, same_bit, i as nat),
            values.len() == i,
            forall|k: int|
                0 <= k < i ==> #[trigger] coord_readable(b, start, flags@, short_bit, same_bit, k),
            forall|k: int|
                0 <= k < i ==> #[trigger] values[k] == coord_value(
                    b,
                    start,
                    flags@,
                    short_bit,
                    same_bit,
                    (k + 1) as nat,
                ),
        decreases flags.len() - i,
    {
        let flag = Flag::new(flags[i]);
        let ghost found = coord_readable(b, start, flags@, short_bit, same_bit, i as int);
        proof {
            lemma_coord_value_bounds(b, start, flags@, short_bit, same_bit, i as nat);
            lemma_coord_value_bounds(b, start, flags@, short_bit, same_bit, (i + 1) as nat);
        }
        if flag.bit_is_set(short_bit) {
            let offset = match reader.read_u8() {
                Ok(v) => v,
                Err(e) => {
                    assert(!found);
                    return Err(e);
                },
            };
            if flag.bit_is_set(same_bit) {
                coord_val = coord_val + offset as i32;
            } else {
                coord_val = coord_val - offset as i32;
            }
        } else if !flag.bit_is_set(same_bit) {
            let delta = match reader.read_i16() {
                Ok(v) => v,
                Err(e) => {
                    assert(!found);
                    return Err(e);
                },
            };
            coord_val = coord_val + delta as i32;
        }
        values.push(coord_val);
        i = i + 1;
    }
    Ok(values)
}

/// The number of contours of the glyph at `loc`; below 0 for a glyph that
/// is composed of other glyphs.
pub open spec fn contour_count(b: Seq<u8>, loc: int) -> int {
    be_i16(b, loc)
}

/// The index of the last point of contour `k` of the glyph at `loc`.
pub open spec fn contour_end(b: Seq<u8>, loc: int, k: int) -> int {
    be_u16(b, loc + 10 + 2 * k)
}

/// The largest of the first `n` contour ends, -1 if `n` is 0.
pub open spec fn max_contour_end(b: Seq<u8>, loc: int, n: nat) -> int
    decreases n,
{
    if n == 0 {
        -1
    } else if max_contour_end(b, loc, (n - 1) as nat) < contour_end(b, loc, n - 1) {
        contour_end(b, loc, n - 1)
    } else {
        max_contour_end(b, loc, (n - 1) as nat)
    }
}

/// The number of points of the simple glyph at `loc`: one more than its
/// largest contour end.
pub open spec fn point_count(b: Seq<u8>, loc: int) -> nat {
    (max_contour_end(b, loc, contour_count(b, loc) as nat) + 1) as nat
}

/// The length of the instructions of the simple glyph at `loc`.
pub open spec fn instruction_length(b: Seq<u8>, loc: int) -> int {
    be_i16(b, loc + 10 + 2 * contour_count(b, loc))
}

/// Where the flags of the simple glyph at `loc` start: behind its
/// instructions.
pub open spec fn flags_start(b: Seq<u8>, loc: int) -> int {
    loc + 12 + 2 * contour_count(b, loc) + instruction_length(b, loc)
}

/// Whether the simple glyph at `loc` lies inside the buffer from its contour
/// count to its instruction length.
pub open spec fn glyph_header_readable(b: Seq<u8>, loc: int) -> bool {
    readable(b, loc, 2) && readable(b, loc, 12 + 2 * contour_count(b, loc))
}

/// The largest contour end is at least -1 and below 65536, and no contour
/// end is larger.
pub proof fn lemma_max_contour_end(b: Seq<u8>, loc: int, n: nat)
    ensures
        -1 <= max_contour_end(b, loc, n) < 0x1_0000,
        forall|k: int| 0 <= k < n ==> #[trigger] contour_end(b, loc, k) <= max_contour_end(b, loc, n),
    decreases n,
{
    if n > 0 {
        lemma_max_contour_end(b, loc, (n - 1) as nat);
    }
}

/// Where contour ends rise strictly, the last one is the largest.
pub proof fn lemma_rising_contour_ends(b: Seq<u8>, loc: int, n: nat)
    requires
        n > 0,
        forall|i: int, j: int|
            0 <= i < j < n ==> #[trigger] contour_end(b, loc, i) < #[trigger] contour_end(b, loc, j),
    ensures
        max_contour_end(b, loc, n) == contour_end(b, loc, n - 1),
    decreases n,
{
    if n > 1 {
        lemma_rising_contour_ends(b, loc, (n - 1) as nat);
        assert(contour_end(b, loc, n - 2) < contour_end(b, loc, n - 1));
    } else {
        assert(max_contour_end(b, loc, 0) == -1);
    }
}

/// The outline of the simple glyph at `loc`, given the flags of its points
/// and where its x deltas start. Code point and metrics are left at 0.
pub open spec fn outline_of(b: Seq<u8>, loc: int, index: u32, flags: Seq<u8>, xs: int) -> GlyphView {
    let ys = coord_pos(xs, flags, FlagBit::XShort, FlagBit::XInstruction, flags.len());
    GlyphView {
        unicode: 0,
        index,
        points: Seq::new(
            flags.len(),
            |i: int|
                Point {
                    x: coord_value(
                        b,
                        xs,
                        flags,
                        FlagBit::XShort,
                        FlagBit::XInstruction,
                        (i + 1) as nat,
                    ) as i32,
                    y: coord_value(
                        b,
                        ys,
                        flags,
                        FlagBit::YShort,
                        FlagBit::YInstruction,
                        (i + 1) as nat,
                    ) as i32,
                    on_curve: flag_bit(flags[i], FlagBit::OnCurve),
                },
        ),
        contour_boundaries: Seq::new(
            contour_count(b, loc) as nat,
            |k: int| contour_end(b, loc, k) as i32,
        ),
        advance_width: 0,
        left_side_bearing: 0,
        min_x: be_i16(b, loc + 2) as i32,
        max_x: be_i16(b, loc + 6) as i32,
        min_y: be_i16(b, loc + 4) as i32,
        max_y: be_i16(b, loc + 8) as i32,
        width: (be_i16(b, loc + 6) - be_i16(b, loc + 2)) as i32,
        height: (be_i16(b, loc + 8) - be_i16(b, loc + 4)) as i32,
    }
}

/// The simple glyph at `loc` decoded, or `OutOfBounds` where a part of it
/// lies outside the buffer or its instruction length is below 0. Only for a
/// glyph whose contour count is not below 0.
#[verifier::opaque]
pub open spec fn simple_glyph(b: Seq<u8>, loc: int, index: u32) -> Result<GlyphView, FontError> {
    if !glyph_header_readable(b, loc) || instruction_length(b, loc) < 0 {
        Err(FontError::OutOfBounds)
    } else {
        match flags_from(b, flags_start(b, loc), point_count(b, loc)) {
            None => Err(FontError::OutOfBounds),
            Some((flags, xs)) => if coords_readable(
                b,
                xs,
                flags,
                FlagBit::XShort,
                FlagBit::XInstruction,
            ) && coords_readable(
                b,
                coord_pos(xs, flags, FlagBit::XShort, FlagBit::XInstruction, flags.len()),
                flags,
                FlagBit::YShort,
                FlagBit::YInstruction,
            ) {
                Ok(outline_of(b, loc, index, flags, xs))
            } else {
                Err(FontError::OutOfBounds)
            },
        }
    }
}

/// A decoded simple glyph has the index it was asked for, one boundary for
/// each contour and one point for each flag; every boundary is the index of
/// one of its points.
pub proof fn lemma_simple_glyph(b: Seq<u8>, loc: int, index: u32)
    requires
        contour_count(b, loc) >= 0,
        simple_glyph(b, loc, index) is Ok,
    ensures
        simple_glyph(b, loc, index).unwrap().index == index,
        simple_glyph(b, loc, index).unwrap().unicode == 0,
        simple_glyph(b, loc, index).unwrap().points.len() == point_count(b, loc),
        simple_glyph(b, loc, index).unwrap().contour_boundaries.len() == contour_count(b, loc),
        forall|k: int|
            0 <= k < contour_count(b, loc) ==> 0 <= #[trigger] simple_glyph(
                b,
                loc,
                index,
            ).unwrap().contour_boundaries[k] < point_count(b, loc),
        forall|k: int|
            0 <= k < contour_count(b, loc) ==> #[trigger] simple_glyph(
                b,
                loc,
                index,
            ).unwrap().contour_boundaries[k] == contour_end(b, loc, k),
{
    reveal(simple_glyph);
    lemma_flags_len(b, flags_start(b, loc), point_count(b, loc));
    lemma_max_contour_end(b, loc, contour_count(b, loc) as nat);
}

/// Where the contour ends of a simple glyph rise strictly, so do its
/// boundaries, and the last boundary is the index of its last point.
pub proof fn lemma_contour_boundaries(b: Seq<u8>, loc: int, index: u32)
    requires
        contour_count(b, loc) >= 1,
        forall|i: int, j: int|
            0 <= i < j < contour_count(b, loc) ==> #[trigger] contour_end(b, loc, i)
                < #[trigger] contour_end(b, loc, j),
        simple_glyph(b, loc, index) is Ok,
    ensures
        simple_glyph(b, loc, index).unwrap().contour_boundaries.last() == simple_glyph(
            b,
            loc,
            index,
        ).unwrap().points.len() - 1,
        forall|i: int, j: int|
            0 <= i < j < simple_glyph(b, loc, index).unwrap().contour_boundaries.len()
                ==> #[trigger] simple_glyph(b, loc, index).unwrap().contour_boundaries[i]
                < #[trigger] simple_glyph(b, loc, index).unwrap().contour_boundaries[j],
{
    lemma_simple_glyph(b, loc, index);
    lemma_rising_contour_ends(b, loc, contour_count(b, loc) as nat);
    let g = simple_glyph(b, loc, index).unwrap();
    assert forall|i: int, j: int| 0 <= i < j < g.contour_boundaries.len() implies #[trigger] g.contour_boundaries[i]
        < #[trigger] g.contour_boundaries[j] by {
        assert(contour_end(b, loc, i) < contour_end(b, loc, j));
    }
}

/// The glyph `index` decoded as a simple glyph, given where each glyph
/// starts; `OutOfBounds` also where `locations` has no entry for it.
pub open spec fn located_simple_glyph(b: Seq<u8>, locations: Seq<u32>, index: u32) -> Result<
    GlyphView,
    FontError,
> {
    if index >= locations.len() {
        Err(FontError::OutOfBounds)
    } else {
        simple_glyph(b, locations[index as int] as int, index)
    }
}

/// Decodes the simple glyph `glyph_index`: bounding box, contour ends,
/// flags, and the coordinates of its points. The glyph must not be a
/// composite one.
pub fn read_simple_glyph(reader: &mut Reader, glyph_locations: &[u32], glyph_index: u32) -> (r:
    Result<GlyphData, FontError>)
    requires
        glyph_index < glyph_locations@.len() && readable(
            old(reader).bytes(),
            glyph_locations@[glyph_index as int] as int,
            2,
        ) ==> contour_count(old(reader).bytes(), glyph_locations@[glyph_index as int] as int) >= 0,
    ensures
        final(reader).bytes() == old(reader).bytes(),
        match r {
            Ok(g) => located_simple_glyph(old(reader).bytes(), glyph_locations@, glyph_index)
                == Ok::<GlyphView, FontError>(g@),
            Err(e) => located_simple_glyph(old(reader).bytes(), glyph_locations@, glyph_index)
                == Err::<GlyphView, FontError>(e),
        },
{
    reveal(simple_glyph);
    let ghost b = reader.bytes();
    if glyph_index as usize >= glyph_locations.len() {
        return Err(FontError::OutOfBounds);
    }
    let location = glyph_locations[glyph_index as usize];
    let ghost loc = location as int;
    reader.goto(location as usize);
    let contours = match reader.read_i16() {
        Ok(v) => v,
        Err(e) => return Err(e),
    };
    let min_x = match reader.read_i16() {
        Ok(v) => v as i32,
        Err(e) => return Err(e),
    };
    let min_y = match reader.read_i16() {
        Ok(v) => v as i32,
        Err(e) => return Err(e),
    };
    let max_x = match reader.read_i16() {
        Ok(v) => v as i32,
        Err(e) => return Err(e),
    };
    let max_y = match reader.read_i16() {
        Ok(v) => v as i32,
        Err(e) => return Err(e),
    };
    let contour_ends = match reader.read_u16_array(contours as u16) {
        Ok(v) => v,
        Err(e) => return Err(e),
    };
    let mut points_num: u32 = 0;
    let mut contour_boundaries: Vec<i32> = Vec::new();
    let mut k: usize = 0;
    while k < contour_ends.len()
        invariant
            0 <= k <= contour_ends.len(),
            contour_ends.len() == contour_count(b, loc),
            forall|j: int| 0 <= j < contour_ends.len() ==> #[trigger] contour_ends[j] == contour_end(b, loc, j),
            points_num == max_contour_end(b, loc, k as nat) + 1,
            contour_boundaries.len() == k,
            forall|j: int| 0 <= j < k ==> #[trigger] contour_boundaries[j] == contour_end(b, loc, j),
        decreases contour_ends.len() - k,
    {
        let contour_end_index = contour_ends[k];
        if points_num < contour_end_index as u32 + 1 {
            points_num = contour_end_index as u32 + 1;
        }
        contour_boundaries.push(contour_end_index as i32);
        k = k + 1;
    }
    let instructions_len = match reader.read_i16() {
        Ok(v) => v,
        Err(e) => return Err(e),
    };
    if instructions_len < 0 {
        return Err(FontError::OutOfBounds);
    }
    let mut points: Vec<Point> = Vec::new();
    if points_num > 0 {
        match reader.skip(instructions_len as usize) {
            Ok(_) => {},
            Err(e) => return Err(e),
        }
        let flags = match decode_flags(reader, points_num) {
            Ok(v) => v,
            Err(e) => return Err(e),
        };
        let ghost xs = reader.position() as int;
        proof {
            lemma_flags_len(b, flags_start(b, loc), point_count(b, loc));
            lemma_max_contour_end(b, loc, contour_count(b, loc) as nat);
        }
        let x = match read_coordinates(reader, &flags, FlagBit::XShort, FlagBit::XInstruction) {
            Ok(v) => v,
            Err(e) => return Err(e),
        };
        let y = match read_coordinates(reader, &flags, FlagBit::YShort, FlagBit::YInstruction) {
            Ok(v) => v,
            Err(e) => return Err(e),
        };
        let mut i: usize = 0;
        while i < flags.len()
            invariant
                0 <= i <= flags.len(),
                x.len() == flags.len(),
                y.len() == flags.len(),
                points.len() == i,
                forall|j: int|
                    0 <= j < i ==> #[trigger] points[j] == (Point {
                        x: x[j],
                        y: y[j],
                        on_curve: flag_bit(flags[j], FlagBit::OnCurve),
                    }),
            decreases flags.len() - i,
        {
            let on_curve = Flag::new(flags[i]).bit_is_set(FlagBit::OnCurve);
            points.push(Point { x: x[i], y: y[i], on_curve });
            i = i + 1;
        }
        assert(points@ =~= outline_of(b, loc, glyph_index, flags@, xs).points);
    } else {
        assert(points@ =~= outline_of(b, loc, glyph_index, Seq::empty(), flags_start(b, loc)).points);
    }
    let glyph_data = GlyphData {
        unicode: 0,
        index: glyph_index,
        points,
        contour_boundaries,
        advance_width: 0,
        left_side_bearing: 0,
        min_x,
        max_x,
        min_y,
        max_y,
        width: max_x - min_x,
        height: max_y - min_y,
    };
    proof {
        let flags_and_end = flags_from(b, flags_start(b, loc), point_count(b, loc)).unwrap();
        assert(glyph_data@.contour_boundaries =~= outline_of(
            b,
            loc,
            glyph_index,
            flags_and_end.0,
            flags_and_end.1,
        ).contour_boundaries);
    }
    Ok(glyph_data)
}

/// What stands in for a composite glyph: the outline of glyph 0, under index
/// 0. `MissingNotdefGlyph` where glyph 0 is a composite glyph itself.
pub open spec fn placeholder_outline(b: Seq<u8>, locations: Seq<u32>) -> Result<
    GlyphView,
    FontError,
> {
    if locations.len() == 0 || !readable(b, locations[0] as int, 2) {
        Err(FontError::OutOfBounds)
    } else if contour_count(b, locations[0] as int) < 0 {
        Err(FontError::MissingNotdefGlyph)
    } else {
        simple_glyph(b, locations[0] as int, 0)
    }
}

/// The outline of glyph `index`: decoded if the glyph is a simple one, the
/// placeholder if it is a composite one.
pub open spec fn glyph_outline(b: Seq<u8>, locations: Seq<u32>, index: u32) -> Result<
    GlyphView,
    FontError,
> {
    if index >= locations.len() || !readable(b, locations[index as int] as int, 2) {
        Err(FontError::OutOfBounds)
    } else if contour_count(b, locations[index as int] as int) >= 0 {
        simple_glyph(b, locations[index as int] as int, index)
    } else {
        placeholder_outline(b, locations)
    }
}

/// An outline has the index of the glyph that was asked for, or index 0
/// where it stands in for a composite glyph.
pub proof fn lemma_outline_index(b: Seq<u8>, locations: Seq<u32>, index: u32)
    requires
        glyph_outline(b, locations, index) is Ok,
    ensures
        glyph_outline(b, locations, index).unwrap().index == index || glyph_outline(
            b,
            locations,
            index,
        ).unwrap().index == 0,
        contour_count(b, locations[index as int] as int) >= 0 ==> glyph_outline(
            b,
            locations,
            index,
        ).unwrap().index == index,
{
    if contour_count(b, locations[index as int] as int) >= 0 {
        lemma_simple_glyph(b, locations[index as int] as int, index);
    } else {
        lemma_simple_glyph(b, locations[0] as int, 0);
    }
}

/// An outline fails in one of two ways only.
pub proof fn lemma_outline_errors(b: Seq<u8>, locations: Seq<u32>, index: u32)
    ensures
        glyph_outline(b, locations, index) matches Err(e) ==> e is OutOfBounds
            || e is MissingNotdefGlyph,
{
    reveal(simple_glyph);
}

/// Reads the contour count of glyph `glyph_index`.
fn read_contour_count(reader: &mut Reader, glyph_locations: &[u32], glyph_index: u32) -> (r: Result<
    i16,
    FontError,
>)
    ensures
        final(reader).bytes() == old(reader).bytes(),
        match r {
            Ok(n) => glyph_index < glyph_locations@.len() && readable(
                old(reader).bytes(),
                glyph_locations@[glyph_index as int] as int,
                2,
            ) && n == contour_count(
                old(reader).bytes(),
                glyph_locations@[glyph_index as int] as int,
            ),
            Err(e) => e == FontError::OutOfBounds && !(glyph_index < glyph_locations@.len()
                && readable(old(reader).bytes(), glyph_locations@[glyph_index as int] as int, 2)),
        },
{
    if glyph_index as usize >= glyph_locations.len() {
        return Err(FontError::OutOfBounds);
    }
    reader.goto(glyph_locations[glyph_index as usize] as usize);
    reader.read_i16()
}

/// Stands in for a composite glyph, which is not decoded: returns the
/// outline of glyph 0, under index 0.
pub fn read_compound_glyph(reader: &mut Reader, glyph_locations: &[u32]) -> (r: Result<
    GlyphData,
    FontError,
>)
    ensures
        final(reader).bytes() == old(reader).bytes(),
        match r {
            Ok(g) => placeholder_outline(old(reader).bytes(), glyph_locations@) == Ok::<
                GlyphView,
                FontError,
            >(g@),
            Err(e) => placeholder_outline(old(reader).bytes(), glyph_locations@) == Err::<
                GlyphView,
                FontError,
            >(e),
        },
{
    let contours = match read_contour_count(reader, glyph_locations, 0) {
        Ok(v) => v,
        Err(e) => return Err(e),
    };
    if contours < 0 {
        return Err(FontError::MissingNotdefGlyph);
    }
    read_simple_glyph(reader, glyph_locations, 0)
}

/// Reads the outline of glyph `glyph_index`, whose start `glyph_locations`
/// gives.
pub fn read_glyph(reader: &mut Reader, glyph_locations: &[u32], glyph_index: u32) -> (r: Result<
    GlyphData,
    FontError,
>)
    ensures
        final(reader).bytes() == old(reader).bytes(),
        match r {
            Ok(g) => glyph_outline(old(reader).bytes(), glyph_locations@, glyph_index) == Ok::<
                GlyphView,
                FontError,
            >(g@),
            Err(e) => glyph_outline(old(reader).bytes(), glyph_locations@, glyph_index) == Err::<
                GlyphView,
                FontError,
            >(e),
        },
{
    let contours = match read_contour_count(reader, glyph_locations, glyph_index) {
        Ok(v) => v,
        Err(e) => return Err(e),
    };
    if contours >= 0 {
        read_simple_glyph(reader, glyph_locations, glyph_index)
    } else {
        read_compound_glyph(reader, glyph_locations)
    }
}

/// `g` under the code point `unicode`.
pub open spec fn with_unicode(g: GlyphView, unicode: u32) -> GlyphView {
    GlyphView { unicode, ..g }
}

/// The views of the glyphs of `glyphs`, in their order.
pub open spec fn glyph_views(glyphs: Seq<GlyphData>) -> Seq<GlyphView> {
    Seq::new(glyphs.len(), |i: int| glyphs[i]@)
}

/// One glyph for each entry of `maps`, in their order: the outline of the
/// entry's glyph under the entry's code point. It fails where the outline of
/// an entry fails, with the error of the first such entry.
pub open spec fn glyph_list(b: Seq<u8>, locations: Seq<u32>, maps: Seq<GlyphMap>) -> Result<
    Seq<GlyphView>,
    FontError,
>
    decreases maps.len(),
{
    if maps.len() == 0 {
        Ok(Seq::empty())
    } else {
        match glyph_list(b, locations, maps.drop_last()) {
            Err(e) => Err(e),
            Ok(glyphs) => match glyph_outline(b, locations, maps.last().index) {
                Err(e) => Err(e),
                Ok(g) => Ok(glyphs.push(with_unicode(g, maps.last().unicode))),
            },
        }
    }
}

/// Where the glyphs of the first `k` entries fail, the glyphs of all entries
/// fail in the same way.
pub proof fn lemma_glyph_list_fails(
    b: Seq<u8>,
    locations: Seq<u32>,
    maps: Seq<GlyphMap>,
    k: int,
)
    requires
        0 <= k <= maps.len(),
        glyph_list(b, locations, maps.take(k)) is Err,
    ensures
        glyph_list(b, locations, maps) == glyph_list(b, locations, maps.take(k)),
    decreases maps.len() - k,
{
    if k < maps.len() {
        assert(maps.take(k + 1).drop_last() =~= maps.take(k));
        lemma_glyph_list_fails(b, locations, maps, k + 1);
    } else {
        assert(maps.take(k) =~= maps);
    }
}

/// A list of glyphs fails in one of two ways only.
pub proof fn lemma_glyph_list_errors(b: Seq<u8>, locations: Seq<u32>, maps: Seq<GlyphMap>)
    ensures
        glyph_list(b, locations, maps) matches Err(e) ==> e is OutOfBounds
            || e is MissingNotdefGlyph,
    decreases maps.len(),
{
    if maps.len() > 0 {
        lemma_glyph_list_errors(b, locations, maps.drop_last());
        lemma_outline_errors(b, locations, maps.last().index);
    }
}

/// Where the glyphs of all entries are had, there is one for each entry, and
/// glyph `i` is the outline of entry `i` under its code point.
pub proof fn lemma_glyph_list(b: Seq<u8>, locations: Seq<u32>, maps: Seq<GlyphMap>)
    requires
        glyph_list(b, locations, maps) is Ok,
    ensures
        glyph_list(b, locations, maps).unwrap().len() == maps.len(),
        forall|i: int|
            0 <= i < maps.len() ==> (#[trigger] glyph_outline(b, locations, maps[i].index)) is Ok,
        forall|i: int|
            0 <= i < maps.len() ==> #[trigger] glyph_list(b, locations, maps).unwrap()[i]
                == with_unicode(
                glyph_outline(b, locations, maps[i].index).unwrap(),
                maps[i].unicode,
            ),
    decreases maps.len(),
{
    if maps.len() > 0 {
        let front = maps.drop_last();
        lemma_glyph_list(b, locations, front);
        let glyphs = glyph_list(b, locations, front).unwrap();
        let g = glyph_outline(b, locations, maps.last().index).unwrap();
        assert(glyph_list(b, locations, maps).unwrap() == glyphs.push(
            with_unicode(g, maps.last().unicode),
        ));
        assert forall|i: int| 0 <= i < maps.len() implies (#[trigger] glyph_outline(
            b,
            locations,
            maps[i].index,
        )) is Ok by {
            if i < front.len() {
                assert(front[i] == maps[i]);
            } else {
                assert(maps[i] == maps.last());
            }
        }
        assert forall|i: int| 0 <= i < maps.len() implies #[trigger] glyph_list(
            b,
            locations,
            maps,
        ).unwrap()[i] == with_unicode(
            glyph_outline(b, locations, maps[i].index).unwrap(),
            maps[i].unicode,
        ) by {
            if i < front.len() {
                assert(front[i] == maps[i]);
                assert(glyphs.push(with_unicode(g, maps.last().unicode))[i] == glyphs[i]);
            } else {
                assert(maps[i] == maps.last());
            }
        }
    }
}

/// Reads one glyph for each entry of `maps`, in their order, and puts it
/// under the entry's code point.
pub fn read_glyphs(reader: &mut Reader, glyph_locations: &[u32], maps: &[GlyphMap]) -> (r: Result<
    Vec<GlyphData>,
    FontError,
>)
    ensures
        final(reader).bytes() == old(reader).bytes(),
        match r {
            Ok(glyphs) => glyph_list(old(reader).bytes(), glyph_locations@, maps@) == Ok::<
                Seq<GlyphView>,
                FontError,
            >(glyph_views(glyphs@)),
            Err(e) => glyph_list(old(reader).bytes(), glyph_locations@, maps@) == Err::<
                Seq<GlyphView>,
                FontError,
            >(e),
        },
{
    let ghost b = reader.bytes();
    let mut glyphs: Vec<GlyphData> = Vec::new();
    let mut i: usize = 0;
    assert(glyph_views(glyphs@) =~= Seq::<GlyphView>::empty());
    while i < maps.len()
        invariant
            0 <= i <= maps.len(),
            b == old(reader).bytes(),
            reader.bytes() == b,
            glyph_list(b, glyph_locations@, maps@.take(i as int)) == Ok::<
                Seq<GlyphView>,
                FontError,
            >(glyph_views(glyphs@)),
        decreases maps.len() - i,
    {
        let map = maps[i];
        let ghost before = glyph_views(glyphs@);
        proof {
            assert(maps@.take(i + 1).drop_last() =~= maps@.take(i as int));
        }
        let mut glyph_data = match read_glyph(reader, glyph_locations, map.index) {
            Ok(v) => v,
            Err(e) => {
                proof {
                    lemma_glyph_list_fails(b, glyph_locations@, maps@, i + 1);
                }
                return Err(e);
            },
        };
        glyph_data.unicode = map.unicode;
        glyphs.push(glyph_data);
        assert(glyph_views(glyphs@) =~= before.push(glyph_data@));
        i = i + 1;
    }
    assert(maps@.take(i as int) =~= maps@);
    Ok(glyphs)
}

} // verus!

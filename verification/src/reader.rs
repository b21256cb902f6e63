use vstd::prelude::*;
use vstd::slice::slice_subrange;
use vstd::utf8::{decode_utf8, valid_utf8};
use crate::error::FontError;

verus! {

/// Whether the `width` bytes that start at `at` all lie inside `b`.
pub open spec fn readable(b: Seq<u8>, at: int, width: int) -> bool {
    0 <= at && at + width <= b.len()
}

/// The unsigned big-endian value of the two bytes of `b` that start at `at`.
pub open spec fn be_u16(b: Seq<u8>, at: int) -> int {
    b[at] as int * 0x100 + b[at + 1] as int
}

/// The two's-complement big-endian value of the two bytes of `b` that start
/// at `at`.
pub open spec fn be_i16(b: Seq<u8>, at: int) -> int {
    if be_u16(b, at) >= 0x8000 {
        be_u16(b, at) - 0x1_0000
    } else {
        be_u16(b, at)
    }
}

/// The unsigned big-endian value of the four bytes of `b` that start at `at`.
pub open spec fn be_u32(b: Seq<u8>, at: int) -> int {
    b[at] as int * 0x100_0000 + b[at + 1] as int * 0x1_0000 + b[at + 2] as int * 0x100 + b[at
        + 3] as int
}

/// A cursor over a byte buffer held in memory. Reads are big-endian and move
/// the cursor forward by the width of what was read; seeks move it freely,
/// also past the end of the buffer.
pub struct Reader {
    buffer: Vec<u8>,
    cursor: usize,
}

/// Decodes `bytes` with `std::str::from_utf8`. Trusted: the result is a
/// string exactly when the bytes are well-formed UTF-8, and the string then
/// holds the characters that the bytes encode.
#[verifier::external_body]
fn str_from_utf8<'a>(bytes: &'a [u8]) -> (r: Option<&'a str>)
    ensures
        r is Some <==> valid_utf8(bytes@),
        r matches Some(s) ==> s@ == decode_utf8(bytes@),
{
    match std::str::from_utf8(bytes) {
        Ok(s) => Some(s),
        Err(_) => None,
    }
}

impl Reader {
    /// The bytes under the cursor's feet: the whole buffer.
    pub closed spec fn bytes(&self) -> Seq<u8> {
        self.buffer@
    }

    /// Where the cursor stands, counted in bytes from the start of the buffer.
    pub closed spec fn position(&self) -> nat {
        self.cursor as nat
    }

    /// The buffer is no longer than `usize` can count, and the cursor is a
    /// `usize`.
    pub proof fn lemma_limits(&self)
        ensures
            self.bytes().len() <= usize::MAX,
            self.position() <= usize::MAX,
    {
        assert(self.buffer@.len() == self.buffer.len());
    }

    /// A reader over `buffer` with the cursor at its start.
    pub fn new(buffer: Vec<u8>) -> (r: Reader)
        ensures
            r.bytes() == buffer@,
            r.position() == 0,
    {
        Reader { buffer, cursor: 0 }
    }

    /// Where the cursor stands.
    pub fn cursor(&self) -> (c: usize)
        ensures
            c == self.position(),
    {
        self.cursor
    }

    /// The length of the buffer.
    pub fn len(&self) -> (n: usize)
        ensures
            n == self.bytes().len(),
    {
        self.buffer.len()
    }

    /// Moves the cursor `val` bytes forward. The new position may lie past
    /// the end of the buffer; it must only be a position that `usize` can
    /// hold, else the cursor stays and `OutOfBounds` is returned.
    pub fn skip(&mut self, val: usize) -> (r: Result<(), FontError>)
        ensures
            final(self).bytes() == old(self).bytes(),
            match r {
                Ok(_) => final(self).position() == old(self).position() + val,
                Err(e) => e == FontError::OutOfBounds && old(self).bytes().len() <= usize::MAX
                    < old(self).position() + val && final(self).position() == old(
                    self,
                ).position(),
            },
    {
        if val > usize::MAX - self.cursor {
            proof {
                self.lemma_limits();
            }
            return Err(FontError::OutOfBounds);
        }
        self.cursor = self.cursor + val;
        Ok(())
    }

    /// Moves the cursor to `val`, wherever that is.
    pub fn goto(&mut self, val: usize)
        ensures
            final(self).bytes() == old(self).bytes(),
            final(self).position() == val,
    {
        self.cursor = val;
    }

    /// Reads one byte and moves the cursor behind it.
    pub fn read_u8(&mut self) -> (r: Result<u8, FontError>)
        ensures
            final(self).bytes() == old(self).bytes(),
            match r {
                Ok(v) => readable(old(self).bytes(), old(self).position() as int, 1) && v == old(
                    self,
                ).bytes()[old(self).position() as int] && final(self).position() == old(
                    self,
                ).position() + 1,
                Err(e) => e == FontError::OutOfBounds && !readable(
                    old(self).bytes(),
                    old(self).position() as int,
                    1,
                ) && final(self).position() == old(self).position(),
            },
    {
        if self.cursor >= self.buffer.len() {
            return Err(FontError::OutOfBounds);
        }
        let val = self.buffer[self.cursor];
        self.cursor = self.cursor + 1;
        Ok(val)
    }

    /// Reads an unsigned big-endian 16-bit value and moves the cursor behind
    /// it.
    pub fn read_u16(&mut self) -> (r: Result<u16, FontError>)
        ensures
            final(self).bytes() == old(self).bytes(),
            match r {
                Ok(v) => readable(old(self).bytes(), old(self).position() as int, 2) && v == be_u16(
                    old(self).bytes(),
                    old(self).position() as int,
                ) && final(self).position() == old(self).position() + 2,
                Err(e) => e == FontError::OutOfBounds && !readable(
                    old(self).bytes(),
                    old(self).position() as int,
                    2,
                ) && final(self).position() == old(self).position(),
            },
    {
        let len = self.buffer.len();
        if self.cursor > len || len - self.cursor < 2 {
            return Err(FontError::OutOfBounds);
        }
        let hi = self.buffer[self.cursor] as u16;
        let lo = self.buffer[self.cursor + 1] as u16;
        self.cursor = self.cursor + 2;
        Ok(hi * 0x100 + lo)
    }

    /// Reads a signed big-endian 16-bit value and moves the cursor behind it.
    pub fn read_i16(&mut self) -> (r: Result<i16, FontError>)
        ensures
            final(self).bytes() == old(self).bytes(),
            match r {
                Ok(v) => readable(old(self).bytes(), old(self).position() as int, 2) && v == be_i16(
                    old(self).bytes(),
                    old(self).position() as int,
                ) && final(self).position() == old(self).position() + 2,
                Err(e) => e == FontError::OutOfBounds && !readable(
                    old(self).bytes(),
                    old(self).position() as int,
                    2,
                ) && final(self).position() == old(self).position(),
            },
    {
        let len = self.buffer.len();
        if self.cursor > len || len - self.cursor < 2 {
            return Err(FontError::OutOfBounds);
        }
        let hi = self.buffer[self.cursor] as i32;
        let lo = self.buffer[self.cursor + 1] as i32;
        self.cursor = self.cursor + 2;
        let unsigned: i32 = hi * 0x100 + lo;
        if unsigned >= 0x8000 {
            Ok((unsigned - 0x1_0000) as i16)
        } else {
            Ok(unsigned as i16)
        }
    }

    /// Reads an unsigned big-endian 32-bit value and moves the cursor behind
    /// it.
    pub fn read_u32(&mut self) -> (r: Result<u32, FontError>)
        ensures
            final(self).bytes() == old(self).bytes(),
            match r {
                Ok(v) => readable(old(self).bytes(), old(self).position() as int, 4) && v == be_u32(
                    old(self).bytes(),
                    old(self).position() as int,
                ) && final(self).position() == old(self).position() + 4,
                Err(e) => e == FontError::OutOfBounds && !readable(
                    old(self).bytes(),
                    old(self).position() as int,
                    4,
                ) && final(self).position() == old(self).position(),
            },
    {
        let len = self.buffer.len();
        if self.cursor > len || len - self.cursor < 4 {
            return Err(FontError::OutOfBounds);
        }
        let b0 = self.buffer[self.cursor] as u32;
        let b1 = self.buffer[self.cursor + 1] as u32;
        let b2 = self.buffer[self.cursor + 2] as u32;
        let b3 = self.buffer[self.cursor + 3] as u32;
        self.cursor = self.cursor + 4;
        Ok(b0 * 0x100_0000 + b1 * 0x1_0000 + b2 * 0x100 + b3)
    }

    /// Reads `bytes` bytes as a UTF-8 string and moves the cursor behind them.
    /// Bytes that are not well-formed UTF-8 are no string: they are refused
    /// like bytes that lie outside the buffer, and the cursor stays.
    pub fn read_string(&mut self, bytes: usize) -> (r: Result<String, FontError>)
        ensures
            final(self).bytes() == old(self).bytes(),
            match r {
                Ok(s) => {
                    &&& readable(old(self).bytes(), old(self).position() as int, bytes as int)
                    &&& valid_utf8(
                        old(self).bytes().subrange(
                            old(self).position() as int,
                            old(self).position() + bytes as int,
                        ),
                    )
                    &&& s@ == decode_utf8(
                        old(self).bytes().subrange(
                            old(self).position() as int,
                            old(self).position() + bytes as int,
                        ),
                    )
                    &&& final(self).position() == old(self).position() + bytes
                },
                Err(e) => {
                    &&& e == FontError::OutOfBounds
                    &&& !readable(old(self).bytes(), old(self).position() as int, bytes as int)
                        || !valid_utf8(
                        old(self).bytes().subrange(
                            old(self).position() as int,
                            old(self).position() + bytes as int,
                        ),
                    )
                    &&& final(self).position() == old(self).position()
                },
            },
    {
        let len = self.buffer.len();
        if self.cursor > len || len - self.cursor < bytes {
            return Err(FontError::OutOfBounds);
        }
        let end = self.cursor + bytes;
        let slice = slice_subrange(self.buffer.as_slice(), self.cursor, end);
        match str_from_utf8(slice) {
            Some(s) => {
                self.cursor = end;
                Ok(s.to_owned())
            },
            None => Err(FontError::OutOfBounds),
        }
    }

    /// Reads `count` unsigned 16-bit values that stand one after the other.
    pub fn read_u16_array(&mut self, count: u16) -> (r: Result<Vec<u16>, FontError>)
        ensures
            final(self).bytes() == old(self).bytes(),
            match r {
                Ok(v) => {
                    &&& count > 0 ==> readable(
                        old(self).bytes(),
                        old(self).position() as int,
                        2 * count,
                    )
                    &&& v.len() == count
                    &&& forall|i: int|
                        0 <= i < count ==> #[trigger] v[i] == be_u16(
                            old(self).bytes(),
                            old(self).position() + 2 * i,
                        )
                    &&& final(self).position() == old(self).position() + 2 * count
                },
                Err(e) => e == FontError::OutOfBounds && !readable(
                    old(self).bytes(),
                    old(self).position() as int,
                    2 * count,
                ),
            },
    {
        let mut values: Vec<u16> = Vec::new();
        let mut i: u16 = 0;
        while i < count
            invariant
                0 <= i <= count,
                self.bytes() == old(self).bytes(),
                self.position() == old(self).position() + 2 * i,
                i > 0 ==> readable(old(self).bytes(), old(self).position() as int, 2 * i),
                values.len() == i,
                forall|j: int|
                    0 <= j < i ==> #[trigger] values[j] == be_u16(
                        old(self).bytes(),
                        old(self).position() + 2 * j,
                    ),
            decreases count - i,
        {
            let value = match self.read_u16() {
                Ok(v) => v,
                Err(e) => return Err(e),
            };
            values.push(value);
            i = i + 1;
        }
        Ok(values)
    }
}

} // verus!

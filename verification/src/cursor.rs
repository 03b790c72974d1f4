use vstd::prelude::*;
use vstd::utf8::*;

use crate::error::{JunctionError, Result};
use crate::text::utf8_str;

verus! {

/// Little-endian 16-bit value of `s[i..i + 2]`.
pub open spec fn le16(s: Seq<u8>, i: int) -> u16 {
    (s[i] as int + 256 * (s[i + 1] as int)) as u16
}

/// Little-endian 24-bit value of `s[i..i + 3]`.
pub open spec fn le24(s: Seq<u8>, i: int) -> u32 {
    (s[i] as int + 256 * (s[i + 1] as int) + 65536 * (s[i + 2] as int)) as u32
}

/// Little-endian 32-bit value of `s[i..i + 4]`.
pub open spec fn le32(s: Seq<u8>, i: int) -> u32 {
    (le16(s, i) as int + 65536 * (le16(s, i + 2) as int)) as u32
}

/// Little-endian 64-bit value of `s[i..i + 8]`.
pub open spec fn le64(s: Seq<u8>, i: int) -> u64 {
    (le32(s, i) as int + 0x1_0000_0000 * (le32(s, i + 4) as int)) as u64
}

/// The error a read of `needed` bytes gives when only `remaining` are left.
pub open spec fn truncated(needed: int, remaining: int) -> JunctionError {
    JunctionError::Truncated { needed: needed as usize, remaining: remaining as usize }
}

/// Value of the unsigned LEB128 integer (at most five bytes) that starts at `p`,
/// after `i` bytes were already read into `acc`; with the position after it.
pub open spec fn var_u32_at(s: Seq<u8>, p: int, i: nat, acc: u32) -> (Result<u32>, int)
    decreases 5 - i,
{
    if i >= 5 {
        (Err(JunctionError::InvalidVarint), p)
    } else if p >= s.len() {
        (Err(truncated(1, 0)), p)
    } else {
        let byte = s[p];
        let next = acc | (((byte & 0x7f) as u32) << ((7 * i) as u32));
        if byte & 0x80 == 0 {
            (Ok(next), p + 1)
        } else {
            var_u32_at(s, p + 1, i + 1, next)
        }
    }
}

/// A read position over a borrowed byte slice.
pub struct Cursor<'a> {
    data: &'a [u8],
    offset: usize,
}

impl<'a> Clone for Cursor<'a> {
    fn clone(&self) -> (c: Self)
        ensures
            c == *self,
    {
        proof {
            use_type_invariant(self);
        }
        Cursor { data: self.data, offset: self.offset }
    }
}

impl<'a> Cursor<'a> {
    /// The bytes read from.
    pub closed spec fn bytes(&self) -> Seq<u8> {
        self.data@
    }

    /// The position of the next byte to read.
    pub closed spec fn pos(&self) -> int {
        self.offset as int
    }

    /// How many bytes are left to read.
    pub open spec fn rest(&self) -> int {
        self.bytes().len() - self.pos()
    }

    /// `next` reads the same bytes as `prev`, `n` bytes further on.
    pub open spec fn moved(prev: Cursor<'a>, next: Cursor<'a>, n: int) -> bool {
        &&& next.bytes() == prev.bytes()
        &&& next.pos() == prev.pos() + n
        &&& 0 <= next.pos() <= next.bytes().len()
    }

    #[verifier::type_invariant]
    closed spec fn inv(&self) -> bool {
        self.offset <= self.data@.len()
    }

    pub fn new(data: &'a [u8]) -> (c: Self)
        ensures
            c.bytes() == data@,
            c.pos() == 0,
    {
        Self { data, offset: 0 }
    }

    pub fn remaining(&self) -> (r: usize)
        ensures
            r == self.rest(),
            0 <= self.pos() <= self.bytes().len(),
    {
        proof {
            use_type_invariant(self);
        }
        self.data.len() - self.offset
    }

    pub fn position(&self) -> (r: usize)
        ensures
            r == self.pos(),
            0 <= self.pos() <= self.bytes().len(),
    {
        proof {
            use_type_invariant(self);
        }
        self.offset
    }

    pub fn is_empty(&self) -> (r: bool)
        ensures
            r == (self.rest() == 0),
            0 <= self.pos() <= self.bytes().len(),
    {
        self.remaining() == 0
    }

    pub fn read_u8(&mut self) -> (r: Result<u8>)
        ensures
            match r {
                Ok(v) => old(self).rest() >= 1 && v == old(self).bytes()[old(self).pos()]
                    && Self::moved(*old(self), *final(self), 1),
                Err(e) => old(self).rest() < 1 && e == truncated(1, old(self).rest())
                    && Self::moved(*old(self), *final(self), 0),
            },
    {
        proof {
            use_type_invariant(&*self);
        }
        if self.remaining() < 1 {
            return Err(JunctionError::Truncated { needed: 1, remaining: self.remaining() });
        }
        let out = self.data[self.offset];
        self.offset = self.offset + 1;
        Ok(out)
    }

    pub fn read_i8(&mut self) -> (r: Result<i8>)
        ensures
            match r {
                Ok(v) => old(self).rest() >= 1 && v == old(self).bytes()[old(self).pos()] as i8
                    && Self::moved(*old(self), *final(self), 1),
                Err(e) => old(self).rest() < 1 && e == truncated(1, old(self).rest())
                    && Self::moved(*old(self), *final(self), 0),
            },
    {
        let b = self.read_u8()?;
        Ok(b as i8)
    }

    pub fn read_bytes(&mut self, len: usize) -> (r: Result<&'a [u8]>)
        ensures
            match r {
                Ok(b) => old(self).rest() >= len && b@ == old(self).bytes().subrange(
                    old(self).pos(),
                    old(self).pos() + len,
                ) && Self::moved(*old(self), *final(self), len as int),
                Err(e) => old(self).rest() < len && e == truncated(len as int, old(self).rest())
                    && Self::moved(*old(self), *final(self), 0),
            },
    {
        proof {
            use_type_invariant(&*self);
        }
        if self.data.len() - self.offset < len {
            return Err(JunctionError::Truncated { needed: len, remaining: self.remaining() });
        }
        let start = self.offset;
        self.offset = self.offset + len;
        Ok(vstd::slice::slice_subrange(self.data, start, start + len))
    }

    pub fn read_u16(&mut self) -> (r: Result<u16>)
        ensures
            match r {
                Ok(v) => old(self).rest() >= 2 && v == le16(old(self).bytes(), old(self).pos())
                    && Self::moved(*old(self), *final(self), 2),
                Err(e) => old(self).rest() < 2 && e == truncated(2, old(self).rest())
                    && Self::moved(*old(self), *final(self), 0),
            },
    {
        let bytes = self.read_bytes(2)?;
        Ok(bytes[0] as u16 + (bytes[1] as u16) * 256)
    }

    pub fn read_i16(&mut self) -> (r: Result<i16>)
        ensures
            match r {
                Ok(v) => old(self).rest() >= 2 && v == le16(old(self).bytes(), old(self).pos()) as i16
                    && Self::moved(*old(self), *final(self), 2),
                Err(e) => old(self).rest() < 2 && e == truncated(2, old(self).rest())
                    && Self::moved(*old(self), *final(self), 0),
            },
    {
        let v = self.read_u16()?;
        Ok(v as i16)
    }

    pub fn read_u24(&mut self) -> (r: Result<u32>)
        ensures
            match r {
                Ok(v) => old(self).rest() >= 3 && v == le24(old(self).bytes(), old(self).pos())
                    && Self::moved(*old(self), *final(self), 3),
                Err(e) => old(self).rest() < 3 && e == truncated(3, old(self).rest())
                    && Self::moved(*old(self), *final(self), 0),
            },
    {
        let bytes = self.read_bytes(3)?;
        Ok(bytes[0] as u32 + (bytes[1] as u32) * 256 + (bytes[2] as u32) * 65536)
    }

    pub fn read_u32(&mut self) -> (r: Result<u32>)
        ensures
            match r {
                Ok(v) => old(self).rest() >= 4 && v == le32(old(self).bytes(), old(self).pos())
                    && Self::moved(*old(self), *final(self), 4),
                Err(e) => old(self).rest() < 4 && e == truncated(4, old(self).rest())
                    && Self::moved(*old(self), *final(self), 0),
            },
    {
        let bytes = self.read_bytes(4)?;
        let lo: u32 = bytes[0] as u32 + (bytes[1] as u32) * 256;
        let hi: u32 = bytes[2] as u32 + (bytes[3] as u32) * 256;
        Ok(lo + hi * 65536)
    }

    pub fn read_u64(&mut self) -> (r: Result<u64>)
        ensures
            match r {
                Ok(v) => old(self).rest() >= 8 && v == le64(old(self).bytes(), old(self).pos())
                    && Self::moved(*old(self), *final(self), 8),
                Err(e) => old(self).rest() < 8 && e == truncated(8, old(self).rest())
                    && Self::moved(*old(self), *final(self), 0),
            },
    {
        let bytes = self.read_bytes(8)?;
        let w0: u64 = bytes[0] as u64 + (bytes[1] as u64) * 256;
        let w1: u64 = bytes[2] as u64 + (bytes[3] as u64) * 256;
        let w2: u64 = bytes[4] as u64 + (bytes[5] as u64) * 256;
        let w3: u64 = bytes[6] as u64 + (bytes[7] as u64) * 256;
        let lo: u64 = w0 + w1 * 65536;
        let hi: u64 = w2 + w3 * 65536;
        Ok(lo + hi * 0x1_0000_0000)
    }

    pub fn read_vec(&mut self, len: usize) -> (r: Result<Vec<u8>>)
        ensures
            match r {
                Ok(b) => old(self).rest() >= len && b@ == old(self).bytes().subrange(
                    old(self).pos(),
                    old(self).pos() + len,
                ) && Self::moved(*old(self), *final(self), len as int),
                Err(e) => old(self).rest() < len && e == truncated(len as int, old(self).rest())
                    && Self::moved(*old(self), *final(self), 0),
            },
    {
        let bytes = self.read_bytes(len)?;
        Ok(vstd::slice::slice_to_vec(bytes))
    }

    /// Reads `len` bytes as UTF-8 text. A short read fails before a bad encoding does.
    pub fn read_text(&mut self, len: usize) -> (r: Result<String>)
        ensures
            old(self).rest() < len ==> r == Err::<String, JunctionError>(
                truncated(len as int, old(self).rest()),
            ) && Self::moved(*old(self), *final(self), 0),
            old(self).rest() >= len ==> {
                let b = old(self).bytes().subrange(old(self).pos(), old(self).pos() + len);
                &&& Self::moved(*old(self), *final(self), len as int)
                &&& match r {
                    Ok(s) => valid_utf8(b) && s@ == decode_utf8(b),
                    Err(e) => !valid_utf8(b) && e == JunctionError::InvalidUtf8,
                }
            },
    {
        let bytes = self.read_bytes(len)?;
        match utf8_str(bytes) {
            Some(s) => Ok(s.to_owned()),
            None => Err(JunctionError::InvalidUtf8),
        }
    }

    /// Reads an unsigned LEB128 integer of at most five bytes. The bytes read before
    /// a failure stay consumed.
    pub fn read_var_u32(&mut self) -> (r: Result<u32>)
        ensures
            r == var_u32_at(old(self).bytes(), old(self).pos(), 0, 0).0,
            Self::moved(
                *old(self),
                *final(self),
                var_u32_at(old(self).bytes(), old(self).pos(), 0, 0).1 - old(self).pos(),
            ),
    {
        let mut value: u32 = 0;
        let mut shift: u32 = 0;
        let mut i: usize = 0;
        let ghost start = *old(self);
        proof {
            use_type_invariant(&*self);
        }
        while i < 5
            invariant
                i <= 5,
                shift == 7 * i,
                start == *old(self),
                self.bytes() == start.bytes(),
                self.pos() <= self.bytes().len(),
                start.pos() <= self.pos(),
                var_u32_at(start.bytes(), start.pos(), 0, 0) == var_u32_at(
                    self.bytes(),
                    self.pos(),
                    i as nat,
                    value,
                ),
            decreases 5 - i,
        {
            let ghost p = self.pos();
            let ghost acc = value;
            let byte = match self.read_u8() {
                Ok(b) => b,
                Err(e) => {
                    assert(var_u32_at(start.bytes(), start.pos(), 0, 0) == (
                        Err::<u32, JunctionError>(e),
                        p,
                    ));
                    return Err(e);
                },
            };
            value = value | (((byte & 0x7f) as u32) << shift);
            assert(shift == (7 * i) as u32);
            if byte & 0x80 == 0 {
                assert(var_u32_at(start.bytes(), start.pos(), 0, 0) == (
                    Ok::<u32, JunctionError>(value),
                    p + 1,
                ));
                return Ok(value);
            }
            shift = shift + 7;
            i = i + 1;
        }
        Err(JunctionError::InvalidVarint)
    }

    pub fn take_until_end(&mut self) -> (r: &'a [u8])
        ensures
            r@ == old(self).bytes().subrange(old(self).pos(), old(self).bytes().len() as int),
            Self::moved(*old(self), *final(self), old(self).rest()),
    {
        proof {
            use_type_invariant(&*self);
        }
        let start = self.offset;
        self.offset = self.data.len();
        vstd::slice::slice_subrange(self.data, start, self.data.len())
    }

    /// Reads `len` bytes and gives a new cursor over them.
    pub fn fork_for(&mut self, len: usize) -> (r: Result<Cursor<'a>>)
        ensures
            match r {
                Ok(c) => old(self).rest() >= len && c.bytes() == old(self).bytes().subrange(
                    old(self).pos(),
                    old(self).pos() + len,
                ) && c.pos() == 0 && Self::moved(*old(self), *final(self), len as int),
                Err(e) => old(self).rest() < len && e == truncated(len as int, old(self).rest())
                    && Self::moved(*old(self), *final(self), 0),
            },
    {
        let bytes = self.read_bytes(len)?;
        Ok(Cursor::new(bytes))
    }
}

} // verus!

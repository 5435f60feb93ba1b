//! Binary primitive codec: fixed-width big-endian integers and
//! length-prefixed UTF-8 strings, read from and written to byte buffers.

use vstd::prelude::*;

verus! {

use crate::PakError;
use vstd::utf8::{valid_utf8, decode_utf8, encode_utf8};
use vstd::string::StrSliceExecFns;

// ---------------------------------------------------------------------------
// Big-endian encodings of the fixed-width integers used by the format.
// ---------------------------------------------------------------------------

/// The two big-endian bytes of `n`.
pub open spec fn u16_be(n: u16) -> Seq<u8> {
    seq![((n >> 8) & 0xff) as u8, (n & 0xff) as u8]
}

/// The value read from two big-endian bytes.
pub open spec fn u16_of(b0: u8, b1: u8) -> u16 {
    ((b0 as u16) << 8) | (b1 as u16)
}

/// The four big-endian bytes of `x` (two's complement).
pub open spec fn i32_be(x: i32) -> Seq<u8> {
    seq![
        (((x as u32) >> 24) & 0xff) as u8,
        (((x as u32) >> 16) & 0xff) as u8,
        (((x as u32) >> 8) & 0xff) as u8,
        ((x as u32) & 0xff) as u8,
    ]
}

/// The value read from four big-endian bytes (two's complement).
pub open spec fn i32_of(b0: u8, b1: u8, b2: u8, b3: u8) -> i32 {
    (((b0 as u32) << 24) | ((b1 as u32) << 16) | ((b2 as u32) << 8) | (b3 as u32)) as i32
}

/// Decoding the two bytes of `u16_be(n)` yields `n` again.
pub proof fn lemma_u16_roundtrip(n: u16)
    ensures
        u16_of(u16_be(n)[0], u16_be(n)[1]) == n,
{
    assert(((((n >> 8) & 0xff) as u8 as u16) << 8) | ((n & 0xff) as u8 as u16) == n)
        by (bit_vector);
}

/// Decoding the four bytes of `i32_be(x)` yields `x` again.
pub proof fn lemma_i32_roundtrip(x: i32)
    ensures
        i32_of(i32_be(x)[0], i32_be(x)[1], i32_be(x)[2], i32_be(x)[3]) == x,
{
    assert((((((x as u32) >> 24) & 0xff) as u8 as u32) << 24
        | ((((x as u32) >> 16) & 0xff) as u8 as u32) << 16
        | ((((x as u32) >> 8) & 0xff) as u8 as u32) << 8
        | (((x as u32) & 0xff) as u8 as u32)) as i32 == x) by (bit_vector);
}

// ---------------------------------------------------------------------------
// What a read at a given position yields: the specification the stream's
// read methods are proved against.
// ---------------------------------------------------------------------------

/// One byte read at `pos`.
pub open spec fn parse_u8(d: Seq<u8>, pos: int) -> Result<(u8, int), PakError> {
    if 0 <= pos && pos + 1 <= d.len() {
        Ok((d[pos], pos + 1))
    } else {
        Err(PakError::TruncatedStream)
    }
}

/// A big-endian `u16` read at `pos`.
pub open spec fn parse_u16(d: Seq<u8>, pos: int) -> Result<(u16, int), PakError> {
    if 0 <= pos && pos + 2 <= d.len() {
        Ok((u16_of(d[pos], d[pos + 1]), pos + 2))
    } else {
        Err(PakError::TruncatedStream)
    }
}

/// A big-endian `i32` read at `pos`.
pub open spec fn parse_i32(d: Seq<u8>, pos: int) -> Result<(i32, int), PakError> {
    if 0 <= pos && pos + 4 <= d.len() {
        Ok((i32_of(d[pos], d[pos + 1], d[pos + 2], d[pos + 3]), pos + 4))
    } else {
        Err(PakError::TruncatedStream)
    }
}

/// A length-prefixed UTF-8 string read at `pos`.
pub open spec fn parse_string(d: Seq<u8>, pos: int) -> Result<(Seq<char>, int), PakError> {
    match parse_u16(d, pos) {
        Err(e) => Err(e),
        Ok((n, p)) => if p + n > d.len() {
            Err(PakError::TruncatedStream)
        } else {
            let payload = d.subrange(p, p + n);
            if valid_utf8(payload) {
                Ok((decode_utf8(payload), p + n))
            } else {
                Err(PakError::InvalidEncoding)
            }
        },
    }
}

/// Whether the UTF-8 encoding of `s` fits the format's two-byte length
/// prefix.
pub open spec fn encodable_str(s: Seq<char>) -> bool {
    encode_utf8(s).len() <= 0xffff
}

/// The on-disk form of one length-prefixed string.
pub open spec fn string_block(s: Seq<char>) -> Seq<u8> {
    u16_be(encode_utf8(s).len() as u16) + encode_utf8(s)
}

// ---------------------------------------------------------------------------
// The stream the decoder reads from.
// ---------------------------------------------------------------------------

/// An in-memory byte stream with a read position, standing in for the
/// seekable handle that a segment is read from.
pub struct PakStream {
    pub data: Vec<u8>,
    pub pos: u64,
}

impl PakStream {
    /// Wraps a byte buffer as a stream positioned at its start.
    pub fn new(data: Vec<u8>) -> (r: PakStream)
        ensures
            r.data@ == data@,
            r.pos == 0,
    {
        PakStream { data, pos: 0 }
    }

    /// Returns the underlying buffer.
    pub fn into_bytes(self) -> (r: Vec<u8>)
        ensures
            r@ == self.data@,
    {
        self.data
    }

    /// Moves the read position to `pos`, counted from the start.
    pub fn set_pos(&mut self, pos: u64)
        ensures
            final(self).data@ == old(self).data@,
            final(self).pos == pos,
    {
        self.pos = pos;
    }

    /// Reads one byte at the current position.
    pub fn read_u8(&mut self) -> (r: Result<u8, PakError>)
        ensures
            final(self).data@ == old(self).data@,
            match r {
                Ok(x) => parse_u8(old(self).data@, old(self).pos as int)
                    == Ok::<(u8, int), PakError>((x, final(self).pos as int)),
                Err(e) => parse_u8(old(self).data@, old(self).pos as int)
                    == Err::<(u8, int), PakError>(e) && final(self).pos == old(self).pos,
            },
    {
        let len: u64 = self.data.len() as u64;
        if self.pos >= len {
            return Err(PakError::TruncatedStream);
        }
        let p: usize = self.pos as usize;
        let b: u8 = self.data[p];
        self.pos = self.pos + 1;
        Ok(b)
    }

    /// Reads a big-endian `u16` at the current position.
    pub fn read_u16(&mut self) -> (r: Result<u16, PakError>)
        ensures
            final(self).data@ == old(self).data@,
            match r {
                Ok(x) => parse_u16(old(self).data@, old(self).pos as int)
                    == Ok::<(u16, int), PakError>((x, final(self).pos as int)),
                Err(e) => parse_u16(old(self).data@, old(self).pos as int)
                    == Err::<(u16, int), PakError>(e) && final(self).pos == old(self).pos,
            },
    {
        let len: u64 = self.data.len() as u64;
        if self.pos >= len || len - self.pos < 2 {
            return Err(PakError::TruncatedStream);
        }
        let p: usize = self.pos as usize;
        let b0: u8 = self.data[p];
        let b1: u8 = self.data[p + 1];
        let x: u16 = ((b0 as u16) << 8) | (b1 as u16);
        self.pos = self.pos + 2;
        Ok(x)
    }

    /// Reads a big-endian `i32` at the current position.
    pub fn read_i32(&mut self) -> (r: Result<i32, PakError>)
        ensures
            final(self).data@ == old(self).data@,
            match r {
                Ok(x) => parse_i32(old(self).data@, old(self).pos as int)
                    == Ok::<(i32, int), PakError>((x, final(self).pos as int)),
                Err(e) => parse_i32(old(self).data@, old(self).pos as int)
                    == Err::<(i32, int), PakError>(e) && final(self).pos == old(self).pos,
            },
    {
        let len: u64 = self.data.len() as u64;
        if self.pos >= len || len - self.pos < 4 {
            return Err(PakError::TruncatedStream);
        }
        let p: usize = self.pos as usize;
        let b0: u8 = self.data[p];
        let b1: u8 = self.data[p + 1];
        let b2: u8 = self.data[p + 2];
        let b3: u8 = self.data[p + 3];
        let x: i32 = #[verifier::truncate] ((((b0 as u32) << 24) | ((b1 as u32) << 16)
            | ((b2 as u32) << 8) | (b3 as u32)) as i32);
        self.pos = self.pos + 4;
        Ok(x)
    }

    /// Reads a length-prefixed UTF-8 string at the current position.
    pub fn read_string(&mut self) -> (r: Result<String, PakError>)
        ensures
            final(self).data@ == old(self).data@,
            match r {
                Ok(s) => parse_string(old(self).data@, old(self).pos as int)
                    == Ok::<(Seq<char>, int), PakError>((s@, final(self).pos as int)),
                Err(e) => parse_string(old(self).data@, old(self).pos as int)
                    == Err::<(Seq<char>, int), PakError>(e)
                    && final(self).pos == old(self).pos,
            },
    {
        let save: u64 = self.pos;
        let n: u16 = match self.read_u16() {
            Ok(v) => v,
            Err(e) => {
                return Err(e);
            },
        };
        let len: u64 = self.data.len() as u64;
        let need: u64 = n as u64;
        if need > len - self.pos {
            self.pos = save;
            return Err(PakError::TruncatedStream);
        }
        let start: usize = self.pos as usize;
        let mut payload: Vec<u8> = Vec::new();
        let mut i: usize = 0;
        while i < n as usize
            invariant
                i <= n,
                start + n <= self.data@.len(),
                self.data@.len() <= usize::MAX,
                self.data@ == old(self).data@,
                self.pos == start,
                payload@ == self.data@.subrange(start as int, start as int + i as int),
            decreases n as usize - i,
        {
            let b: u8 = self.data[start + i];
            payload.push(b);
            proof {
                assert(payload@ =~= self.data@.subrange(start as int, start as int + i as int + 1));
            }
            i = i + 1;
        }
        match decode_string(payload) {
            Some(s) => {
                self.pos = self.pos + need;
                Ok(s)
            },
            None => {
                self.pos = save;
                Err(PakError::InvalidEncoding)
            },
        }
    }
}

// ---------------------------------------------------------------------------
// Writing.
// ---------------------------------------------------------------------------

/// Appends one byte to `w`.
pub fn write_u8(w: &mut Vec<u8>, x: u8)
    ensures
        final(w)@ == old(w)@ + seq![x],
{
    w.push(x);
    proof {
        assert(w@ =~= old(w)@ + seq![x]);
    }
}

/// Appends the two big-endian bytes of `n` to `w`.
pub fn write_u16(w: &mut Vec<u8>, n: u16)
    ensures
        final(w)@ == old(w)@ + u16_be(n),
{
    proof {
        assert((n >> 8) & 0xff < 256 && n & 0xff < 256) by (bit_vector);
    }
    w.push(((n >> 8) & 0xff) as u8);
    w.push((n & 0xff) as u8);
    proof {
        assert(w@ =~= old(w)@ + u16_be(n));
    }
}

/// Appends the four big-endian bytes of `x` to `w`.
pub fn write_i32(w: &mut Vec<u8>, x: i32)
    ensures
        final(w)@ == old(w)@ + i32_be(x),
{
    let u: u32 = #[verifier::truncate] (x as u32);
    proof {
        assert((u >> 24) & 0xff < 256 && (u >> 16) & 0xff < 256 && (u >> 8) & 0xff < 256
            && u & 0xff < 256) by (bit_vector);
    }
    w.push(((u >> 24) & 0xff) as u8);
    w.push(((u >> 16) & 0xff) as u8);
    w.push(((u >> 8) & 0xff) as u8);
    w.push((u & 0xff) as u8);
    proof {
        assert(w@ =~= old(w)@ + i32_be(x));
    }
}

/// Appends a `u16` byte length followed by the UTF-8 bytes of `s`; fails
/// when the encoding does not fit the two-byte length prefix.
pub fn write_string(w: &mut Vec<u8>, s: &str) -> (r: Result<(), PakError>)
    ensures
        match r {
            Ok(()) => encodable_str(s@) && final(w)@ == old(w)@ + string_block(s@),
            Err(e) => e == PakError::InvalidEncoding && !encodable_str(s@)
                && final(w)@ == old(w)@,
        },
{
    let bytes: Vec<u8> = s.as_bytes_vec();
    if bytes.len() > 0xffff {
        return Err(PakError::InvalidEncoding);
    }
    write_u16(w, bytes.len() as u16);
    let mut i: usize = 0;
    while i < bytes.len()
        invariant
            i <= bytes.len(),
            bytes@ == encode_utf8(s@),
            bytes@.len() <= 0xffff,
            w@ == old(w)@ + u16_be(bytes@.len() as u16) + bytes@.subrange(0, i as int),
        decreases bytes.len() - i,
    {
        w.push(bytes[i]);
        proof {
            assert(w@ =~= old(w)@ + u16_be(bytes@.len() as u16)
                + bytes@.subrange(0, i as int + 1));
        }
        i = i + 1;
    }
    proof {
        assert(bytes@.subrange(0, bytes@.len() as int) =~= bytes@);
        assert(w@ =~= old(w)@ + string_block(s@));
    }
    Ok(())
}

// ---------------------------------------------------------------------------
// The one call outside verified code: UTF-8 decoding.
// ---------------------------------------------------------------------------

/// Relies on `String::from_utf8`: it succeeds exactly on input that is
/// valid UTF-8, and the characters of the resulting string are the decoded
/// Unicode scalar values of that input.
#[verifier::external_body]
fn decode_string(bytes: Vec<u8>) -> (r: Option<String>)
    ensures
        match r {
            Some(s) => valid_utf8(bytes@) && s@ == decode_utf8(bytes@),
            None => !valid_utf8(bytes@),
        },
{
    String::from_utf8(bytes).ok()
}

} // verus!

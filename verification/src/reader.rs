use vstd::prelude::*;

use vstd::arithmetic::power2::{pow2, lemma2_to64, lemma2_to64_rest};

use crate::endian::{
    be_value, le_value, signed_of, decode_be, decode_le, lemma_be_value_bound,
    lemma_le_value_bound,
};
use crate::errors::{KError, KResult, Needed};

use crate::bitread::{
    bits_avail, be_bits_val, be_bits_next, le_bits_val, le_bits_next, ceil_bytes,
    lemma_ceil_bytes,
};

verus! {

/// Mutable cursor state of a stream reader: byte position, residual bit
/// buffer, and the number of significant bits in that buffer.
#[derive(Debug, Clone)]
pub struct ReaderState {
    pos: usize,
    bits: u64,
    bits_left: i64,
}

/// A random-access byte/bit reader over an in-memory byte buffer.
#[derive(Debug)]
pub struct BytesReader {
    state: ReaderState,
    buf: Vec<u8>,
}

/// Mathematical model of a reader: the underlying bytes and the cursor
/// state.
pub ghost struct ReaderView {
    pub bytes: Seq<u8>,
    pub pos: int,
    pub bits: nat,
    pub bits_left: int,
}

impl ReaderView {
    /// The byte cursor lies inside the buffer.
    pub open spec fn pos_ok(self) -> bool {
        0 <= self.pos <= self.bytes.len()
    }

    /// The residual bit buffer holds between zero and seven significant
    /// bits, and nothing above them.
    pub open spec fn bits_ok(self) -> bool {
        &&& 0 <= self.bits_left <= 7
        &&& self.bits < pow2(self.bits_left as nat)
    }

    pub open spec fn wf(self) -> bool {
        self.pos_ok() && self.bits_ok()
    }

    /// End of stream: every byte consumed and no residual bits.
    pub open spec fn at_eof(self) -> bool {
        self.bits_left == 0 && self.pos == self.bytes.len()
    }
}

/// Index of the first occurrence of `term` in `bytes` at or after `pos`,
/// or the length of `bytes` when there is none.
pub open spec fn term_index(bytes: Seq<u8>, pos: int, term: u8) -> int
    recommends
        0 <= pos <= bytes.len(),
    decreases bytes.len() - pos
        when 0 <= pos <= bytes.len()
{
    if pos >= bytes.len() {
        bytes.len() as int
    } else if bytes[pos] == term {
        pos
    } else {
        term_index(bytes, pos + 1, term)
    }
}

pub proof fn lemma_term_index(bytes: Seq<u8>, pos: int, term: u8)
    requires
        0 <= pos <= bytes.len(),
    ensures
        pos <= term_index(bytes, pos, term) <= bytes.len(),
        term_index(bytes, pos, term) < bytes.len() ==> bytes[term_index(bytes, pos, term)]
            == term,
        forall|j: int| pos <= j < term_index(bytes, pos, term) ==> bytes[j] != term,
    decreases bytes.len() - pos,
{
    if pos < bytes.len() && bytes[pos] != term {
        lemma_term_index(bytes, pos + 1, term);
    }
}

impl View for BytesReader {
    type V = ReaderView;

    closed spec fn view(&self) -> ReaderView {
        ReaderView {
            bytes: self.buf@,
            pos: self.state.pos as int,
            bits: self.state.bits as nat,
            bits_left: self.state.bits_left as int,
        }
    }
}

impl BytesReader {
    /// Construct a reader over an in-memory buffer, cursor at the start.
    pub fn from_buffer(bytes: Vec<u8>) -> (r: BytesReader)
        ensures
            r@.bytes == bytes@,
            r@.pos == 0,
            r@.bits == 0,
            r@.bits_left == 0,
            r@.wf(),
    {
        proof {
            lemma2_to64();
        }
        BytesReader { state: ReaderState { pos: 0, bits: 0, bits_left: 0 }, buf: bytes }
    }

    /// A new reader over the same bytes, with its own cursor reset to the
    /// defaults. The buffer is copied, not shared: for this read-only
    /// source the two are indistinguishable, at a memory cost per clone.
    pub fn clone(&self) -> (r: BytesReader)
        ensures
            r@.bytes == self@.bytes,
            r@.pos == 0,
            r@.bits == 0,
            r@.bits_left == 0,
            r@.wf(),
    {
        let b = self.buf.clone();
        proof {
            assert(b@ =~= self.buf@);
        }
        BytesReader::from_buffer(b)
    }

    /// Total number of bytes in the source.
    pub fn size(&self) -> (r: usize)
        ensures
            r == self@.bytes.len(),
    {
        self.buf.len()
    }

    /// Current byte cursor.
    pub fn pos(&self) -> (r: usize)
        ensures
            r == self@.pos,
    {
        self.state.pos
    }

    /// True iff the cursor is at the end and no residual bits remain.
    pub fn is_eof(&self) -> (r: bool)
        ensures
            r == self@.at_eof(),
    {
        if self.state.bits_left != 0 {
            return false;
        }
        self.pos() == self.size()
    }

    /// Set the byte cursor to `position`; the bit buffer is deliberately
    /// left alone. Fails without changing anything when `position` lies
    /// beyond the end.
    pub fn seek(&mut self, position: usize) -> (r: KResult<()>)
        requires
            old(self)@.pos_ok(),
        ensures
            final(self)@.bytes == old(self)@.bytes,
            final(self)@.bits == old(self)@.bits,
            final(self)@.bits_left == old(self)@.bits_left,
            position <= old(self)@.bytes.len() <==> r is Ok,
            r is Ok ==> final(self)@.pos == position,
            r matches Err(e) ==> final(self)@.pos == old(self)@.pos && e == KError::Incomplete(
                Needed::Size((position - old(self)@.pos) as usize),
            ),
    {
        if position > self.size() {
            return Err(KError::Incomplete(Needed::Size(position - self.pos())));
        }
        self.state.pos = position;
        Ok(())
    }

    /// Discard the residual bit buffer.
    pub fn align_to_byte(&mut self) -> (r: KResult<()>)
        ensures
            final(self)@.bytes == old(self)@.bytes,
            final(self)@.pos == old(self)@.pos,
            final(self)@.bits == 0,
            final(self)@.bits_left == 0,
            final(self)@.bits_ok(),
            r is Ok,
    {
        self.state.bits = 0;
        self.state.bits_left = 0;
        proof {
            lemma2_to64();
        }
        Ok(())
    }

    /// Read exactly `len` bytes at the cursor, advancing it. Fails without
    /// changing anything when fewer than `len` bytes remain.
    pub fn read_bytes(&mut self, len: usize) -> (r: KResult<Vec<u8>>)
        requires
            old(self)@.pos_ok(),
        ensures
            final(self)@.bytes == old(self)@.bytes,
            final(self)@.bits == old(self)@.bits,
            final(self)@.bits_left == old(self)@.bits_left,
            final(self)@.pos_ok(),
            old(self)@.pos + len <= old(self)@.bytes.len() <==> r is Ok,
            r matches Ok(v) ==> v@ == old(self)@.bytes.subrange(
                old(self)@.pos,
                old(self)@.pos + len,
            ) && final(self)@.pos == old(self)@.pos + len,
            r matches Err(e) ==> final(self)@.pos == old(self)@.pos && e == KError::Incomplete(
                Needed::Size((old(self)@.pos + len - old(self)@.bytes.len()) as usize),
            ),
    {
        let pos = self.state.pos;
        let size = self.buf.len();
        if len > size - pos {
            return Err(KError::Incomplete(Needed::Size(len - (size - pos))));
        }
        let mut out: Vec<u8> = Vec::new();
        let mut i: usize = 0;
        proof {
            assert(out@ =~= self.buf@.subrange(pos as int, pos as int));
        }
        while i < len
            invariant
                i <= len,
                pos + len <= self.buf.len(),
                out@ == self.buf@.subrange(pos as int, pos + i),
            decreases len - i,
        {
            out.push(self.buf[pos + i]);
            i += 1;
            proof {
                assert(out@ =~= self.buf@.subrange(pos as int, pos + i));
            }
        }
        self.state.pos = pos + len;
        Ok(out)
    }

    /// Read every byte from the cursor to the end, leaving the cursor at
    /// the end.
    pub fn read_bytes_full(&mut self) -> (r: KResult<Vec<u8>>)
        requires
            old(self)@.pos_ok(),
        ensures
            final(self)@.bytes == old(self)@.bytes,
            final(self)@.bits == old(self)@.bits,
            final(self)@.bits_left == old(self)@.bits_left,
            final(self)@.pos == final(self)@.bytes.len(),
            r matches Ok(v) && v@ == old(self)@.bytes.subrange(
                old(self)@.pos,
                old(self)@.bytes.len() as int,
            ),
    {
        let pos = self.pos();
        let size = self.size();
        self.read_bytes(size - pos)
    }

    /// Scan forward for the byte `term`. When it is found, `include_term`
    /// decides whether the terminator is part of the returned bytes and
    /// `consume` whether the cursor moves past it (otherwise the cursor
    /// rests on it). When the end of the stream comes first, the collected
    /// bytes are returned, or `EncounteredEOF` if `eos_error` is set; the
    /// cursor ends at the end of the stream either way.
    pub fn read_bytes_term(
        &mut self,
        term: u8,
        include_term: bool,
        consume: bool,
        eos_error: bool,
    ) -> (r: KResult<Vec<u8>>)
        requires
            old(self)@.pos_ok(),
        ensures
            final(self)@.bytes == old(self)@.bytes,
            final(self)@.bits == old(self)@.bits,
            final(self)@.bits_left == old(self)@.bits_left,
            final(self)@.pos_ok(),
            ({
                let t = term_index(old(self)@.bytes, old(self)@.pos, term);
                let found = t < old(self)@.bytes.len();
                &&& (r is Ok <==> (found || !eos_error))
                &&& found ==> final(self)@.pos == (if consume {
                    t + 1
                } else {
                    t
                })
                &&& found ==> (r matches Ok(v) && v@ == (if include_term {
                    old(self)@.bytes.subrange(old(self)@.pos, t).push(term)
                } else {
                    old(self)@.bytes.subrange(old(self)@.pos, t)
                }))
                &&& !found ==> final(self)@.pos == old(self)@.bytes.len()
                &&& (!found && !eos_error) ==> (r matches Ok(v) && v@ == old(
                    self,
                )@.bytes.subrange(old(self)@.pos, old(self)@.bytes.len() as int))
                &&& (!found && eos_error) ==> (r matches Err(e) && e == KError::EncounteredEOF)
            }),
    {
        let ghost bytes = self@.bytes;
        let ghost pos0 = self@.pos;
        let ghost t = term_index(bytes, pos0, term);
        proof {
            lemma_term_index(bytes, pos0, term);
        }
        let size = self.buf.len();
        let mut i = self.state.pos;
        while i < size && self.buf[i] != term
            invariant
                self@.bytes == bytes,
                self@.pos == pos0,
                0 <= pos0 <= bytes.len(),
                size == bytes.len(),
                pos0 <= i <= t,
                t == term_index(bytes, pos0, term),
                t <= bytes.len(),
                t < bytes.len() ==> bytes[t] == term,
                forall|j: int| pos0 <= j < t ==> bytes[j] != term,
            decreases size - i,
        {
            proof {
                assert(i < t);
            }
            i += 1;
        }
        proof {
            if i < size {
                assert(bytes[i as int] == term);
                assert(i == t);
            } else {
                assert(i == t);
            }
        }
        let n = i - self.state.pos;
        let mut out = match self.read_bytes(n) {
            Ok(v) => v,
            Err(e) => {
                return Err(e);
            },
        };
        if i == size {
            if eos_error {
                return Err(KError::EncounteredEOF);
            }
            Ok(out)
        } else {
            if consume {
                self.state.pos = self.state.pos + 1;
            }
            if include_term {
                out.push(term);
            }
            Ok(out)
        }
    }

    /// Read one byte as an unsigned integer.
    pub fn read_u1(&mut self) -> (r: KResult<u8>)
        requires
            old(self)@.pos_ok(),
        ensures
            final(self)@.bytes == old(self)@.bytes,
            final(self)@.bits == old(self)@.bits,
            final(self)@.bits_left == old(self)@.bits_left,
            final(self)@.pos_ok(),
            old(self)@.pos + 1 <= old(self)@.bytes.len() <==> r is Ok,
            r matches Ok(v) ==> v == old(self)@.bytes[old(self)@.pos] && final(self)@.pos == old(
                self,
            )@.pos + 1,
            r matches Err(e) ==> final(self)@.pos == old(self)@.pos && e == KError::Incomplete(
                Needed::Size((old(self)@.pos + 1 - old(self)@.bytes.len()) as usize),
            ),
    {
        let v = match self.read_bytes(1) {
            Ok(v) => v,
            Err(e) => {
                return Err(e);
            },
        };
        Ok(v[0])
    }

    /// Read one byte as a signed integer (two's complement).
    pub fn read_s1(&mut self) -> (r: KResult<i8>)
        requires
            old(self)@.pos_ok(),
        ensures
            final(self)@.bytes == old(self)@.bytes,
            final(self)@.bits == old(self)@.bits,
            final(self)@.bits_left == old(self)@.bits_left,
            final(self)@.pos_ok(),
            old(self)@.pos + 1 <= old(self)@.bytes.len() <==> r is Ok,
            r matches Ok(v) ==> v as int == signed_of(old(self)@.bytes[old(self)@.pos] as nat, 1)
                && final(self)@.pos == old(self)@.pos + 1,
            r matches Err(e) ==> final(self)@.pos == old(self)@.pos && e == KError::Incomplete(
                Needed::Size((old(self)@.pos + 1 - old(self)@.bytes.len()) as usize),
            ),
    {
        let b = match self.read_u1() {
            Ok(v) => v,
            Err(e) => {
                return Err(e);
            },
        };
        proof {
            lemma2_to64();
        }
        if b < 0x80 {
            Ok(b as i8)
        } else {
            Ok(((b as i16) - 0x100i16) as i8)
        }
    }

    /// Read a 2-byte big-endian unsigned integer.
    pub fn read_u2be(&mut self) -> (r: KResult<u16>)
        requires
            old(self)@.pos_ok(),
        ensures
            final(self)@.bytes == old(self)@.bytes,
            final(self)@.bits == old(self)@.bits,
            final(self)@.bits_left == old(self)@.bits_left,
            final(self)@.pos_ok(),
            old(self)@.pos + 2 <= old(self)@.bytes.len() <==> r is Ok,
            r matches Ok(v) ==> v == be_value(old(self)@.bytes.subrange(old(self)@.pos, old(self)@.pos + 2)) && final(self)@.pos == old(self)@.pos + 2,
            r matches Err(e) ==> final(self)@.pos == old(self)@.pos && e == KError::Incomplete(
                Needed::Size((old(self)@.pos + 2 - old(self)@.bytes.len()) as usize),
            ),
    {
        let v = match self.read_bytes(2) {
            Ok(v) => v,
            Err(e) => {
                return Err(e);
            },
        };
        proof {
            lemma_be_value_bound(v@);
            lemma2_to64();
            lemma2_to64_rest();
        }
        Ok(decode_be(&v) as u16)
    }

    /// Read a 4-byte big-endian unsigned integer.
    pub fn read_u4be(&mut self) -> (r: KResult<u32>)
        requires
            old(self)@.pos_ok(),
        ensures
            final(self)@.bytes == old(self)@.bytes,
            final(self)@.bits == old(self)@.bits,
            final(self)@.bits_left == old(self)@.bits_left,
            final(self)@.pos_ok(),
            old(self)@.pos + 4 <= old(self)@.bytes.len() <==> r is Ok,
            r matches Ok(v) ==> v == be_value(old(self)@.bytes.subrange(old(self)@.pos, old(self)@.pos + 4)) && final(self)@.pos == old(self)@.pos + 4,
            r matches Err(e) ==> final(self)@.pos == old(self)@.pos && e == KError::Incomplete(
                Needed::Size((old(self)@.pos + 4 - old(self)@.bytes.len()) as usize),
            ),
    {
        let v = match self.read_bytes(4) {
            Ok(v) => v,
            Err(e) => {
                return Err(e);
            },
        };
        proof {
            lemma_be_value_bound(v@);
            lemma2_to64();
            lemma2_to64_rest();
        }
        Ok(decode_be(&v) as u32)
    }

    /// Read a 8-byte big-endian unsigned integer.
    pub fn read_u8be(&mut self) -> (r: KResult<u64>)
        requires
            old(self)@.pos_ok(),
        ensures
            final(self)@.bytes == old(self)@.bytes,
            final(self)@.bits == old(self)@.bits,
            final(self)@.bits_left == old(self)@.bits_left,
            final(self)@.pos_ok(),
            old(self)@.pos + 8 <= old(self)@.bytes.len() <==> r is Ok,
            r matches Ok(v) ==> v == be_value(old(self)@.bytes.subrange(old(self)@.pos, old(self)@.pos + 8)) && final(self)@.pos == old(self)@.pos + 8,
            r matches Err(e) ==> final(self)@.pos == old(self)@.pos && e == KError::Incomplete(
                Needed::Size((old(self)@.pos + 8 - old(self)@.bytes.len()) as usize),
            ),
    {
        let v = match self.read_bytes(8) {
            Ok(v) => v,
            Err(e) => {
                return Err(e);
            },
        };
        proof {
            lemma_be_value_bound(v@);
            lemma2_to64();
            lemma2_to64_rest();
        }
        Ok(decode_be(&v))
    }

    /// Read a 2-byte little-endian unsigned integer.
    pub fn read_u2le(&mut self) -> (r: KResult<u16>)
        requires
            old(self)@.pos_ok(),
        ensures
            final(self)@.bytes == old(self)@.bytes,
            final(self)@.bits == old(self)@.bits,
            final(self)@.bits_left == old(self)@.bits_left,
            final(self)@.pos_ok(),
            old(self)@.pos + 2 <= old(self)@.bytes.len() <==> r is Ok,
            r matches Ok(v) ==> v == le_value(old(self)@.bytes.subrange(old(self)@.pos, old(self)@.pos + 2)) && final(self)@.pos == old(self)@.pos + 2,
            r matches Err(e) ==> final(self)@.pos == old(self)@.pos && e == KError::Incomplete(
                Needed::Size((old(self)@.pos + 2 - old(self)@.bytes.len()) as usize),
            ),
    {
        let v = match self.read_bytes(2) {
            Ok(v) => v,
            Err(e) => {
                return Err(e);
            },
        };
        proof {
            lemma_le_value_bound(v@);
            lemma2_to64();
            lemma2_to64_rest();
        }
        Ok(decode_le(&v) as u16)
    }

    /// Read a 4-byte little-endian unsigned integer.
    pub fn read_u4le(&mut self) -> (r: KResult<u32>)
        requires
            old(self)@.pos_ok(),
        ensures
            final(self)@.bytes == old(self)@.bytes,
            final(self)@.bits == old(self)@.bits,
            final(self)@.bits_left == old(self)@.bits_left,
            final(self)@.pos_ok(),
            old(self)@.pos + 4 <= old(self)@.bytes.len() <==> r is Ok,
            r matches Ok(v) ==> v == le_value(old(self)@.bytes.subrange(old(self)@.pos, old(self)@.pos + 4)) && final(self)@.pos == old(self)@.pos + 4,
            r matches Err(e) ==> final(self)@.pos == old(self)@.pos && e == KError::Incomplete(
                Needed::Size((old(self)@.pos + 4 - old(self)@.bytes.len()) as usize),
            ),
    {
        let v = match self.read_bytes(4) {
            Ok(v) => v,
            Err(e) => {
                return Err(e);
            },
        };
        proof {
            lemma_le_value_bound(v@);
            lemma2_to64();
            lemma2_to64_rest();
        }
        Ok(decode_le(&v) as u32)
    }

    /// Read a 8-byte little-endian unsigned integer.
    pub fn read_u8le(&mut self) -> (r: KResult<u64>)
        requires
            old(self)@.pos_ok(),
        ensures
            final(self)@.bytes == old(self)@.bytes,
            final(self)@.bits == old(self)@.bits,
            final(self)@.bits_left == old(self)@.bits_left,
            final(self)@.pos_ok(),
            old(self)@.pos + 8 <= old(self)@.bytes.len() <==> r is Ok,
            r matches Ok(v) ==> v == le_value(old(self)@.bytes.subrange(old(self)@.pos, old(self)@.pos + 8)) && final(self)@.pos == old(self)@.pos + 8,
            r matches Err(e) ==> final(self)@.pos == old(self)@.pos && e == KError::Incomplete(
                Needed::Size((old(self)@.pos + 8 - old(self)@.bytes.len()) as usize),
            ),
    {
        let v = match self.read_bytes(8) {
            Ok(v) => v,
            Err(e) => {
                return Err(e);
            },
        };
        proof {
            lemma_le_value_bound(v@);
            lemma2_to64();
            lemma2_to64_rest();
        }
        Ok(decode_le(&v))
    }

    /// Read a 2-byte big-endian signed integer
    /// (two's complement).
    pub fn read_s2be(&mut self) -> (r: KResult<i16>)
        requires
            old(self)@.pos_ok(),
        ensures
            final(self)@.bytes == old(self)@.bytes,
            final(self)@.bits == old(self)@.bits,
            final(self)@.bits_left == old(self)@.bits_left,
            final(self)@.pos_ok(),
            old(self)@.pos + 2 <= old(self)@.bytes.len() <==> r is Ok,
            r matches Ok(v) ==> v as int == signed_of(be_value(old(self)@.bytes.subrange(old(self)@.pos, old(self)@.pos + 2)), 2) && final(self)@.pos == old(self)@.pos + 2,
            r matches Err(e) ==> final(self)@.pos == old(self)@.pos && e == KError::Incomplete(
                Needed::Size((old(self)@.pos + 2 - old(self)@.bytes.len()) as usize),
            ),
    {
        let v = match self.read_bytes(2) {
            Ok(v) => v,
            Err(e) => {
                return Err(e);
            },
        };
        proof {
            lemma_be_value_bound(v@);
            lemma2_to64();
            lemma2_to64_rest();
        }
        let raw = decode_be(&v);
        if raw < 0x8000 {
            Ok(raw as i16)
        } else {
            Ok(((raw as i64) - 0x10000i64) as i16)
        }
    }

    /// Read a 4-byte big-endian signed integer
    /// (two's complement).
    pub fn read_s4be(&mut self) -> (r: KResult<i32>)
        requires
            old(self)@.pos_ok(),
        ensures
            final(self)@.bytes == old(self)@.bytes,
            final(self)@.bits == old(self)@.bits,
            final(self)@.bits_left == old(self)@.bits_left,
            final(self)@.pos_ok(),
            old(self)@.pos + 4 <= old(self)@.bytes.len() <==> r is Ok,
            r matches Ok(v) ==> v as int == signed_of(be_value(old(self)@.bytes.subrange(old(self)@.pos, old(self)@.pos + 4)), 4) && final(self)@.pos == old(self)@.pos + 4,
            r matches Err(e) ==> final(self)@.pos == old(self)@.pos && e == KError::Incomplete(
                Needed::Size((old(self)@.pos + 4 - old(self)@.bytes.len()) as usize),
            ),
    {
        let v = match self.read_bytes(4) {
            Ok(v) => v,
            Err(e) => {
                return Err(e);
            },
        };
        proof {
            lemma_be_value_bound(v@);
            lemma2_to64();
            lemma2_to64_rest();
        }
        let raw = decode_be(&v);
        if raw < 0x8000_0000 {
            Ok(raw as i32)
        } else {
            Ok(((raw as i64) - 0x1_0000_0000i64) as i32)
        }
    }

    /// Read a 8-byte big-endian signed integer
    /// (two's complement).
    pub fn read_s8be(&mut self) -> (r: KResult<i64>)
        requires
            old(self)@.pos_ok(),
        ensures
            final(self)@.bytes == old(self)@.bytes,
            final(self)@.bits == old(self)@.bits,
            final(self)@.bits_left == old(self)@.bits_left,
            final(self)@.pos_ok(),
            old(self)@.pos + 8 <= old(self)@.bytes.len() <==> r is Ok,
            r matches Ok(v) ==> v as int == signed_of(be_value(old(self)@.bytes.subrange(old(self)@.pos, old(self)@.pos + 8)), 8) && final(self)@.pos == old(self)@.pos + 8,
            r matches Err(e) ==> final(self)@.pos == old(self)@.pos && e == KError::Incomplete(
                Needed::Size((old(self)@.pos + 8 - old(self)@.bytes.len()) as usize),
            ),
    {
        let v = match self.read_bytes(8) {
            Ok(v) => v,
            Err(e) => {
                return Err(e);
            },
        };
        proof {
            lemma_be_value_bound(v@);
            lemma2_to64();
            lemma2_to64_rest();
        }
        let raw = decode_be(&v);
        if raw < 0x8000_0000_0000_0000 {
            Ok(raw as i64)
        } else {
            Ok(((raw as i128) - 0x1_0000_0000_0000_0000i128) as i64)
        }
    }

    /// Read a 2-byte little-endian signed integer
    /// (two's complement).
    pub fn read_s2le(&mut self) -> (r: KResult<i16>)
        requires
            old(self)@.pos_ok(),
        ensures
            final(self)@.bytes == old(self)@.bytes,
            final(self)@.bits == old(self)@.bits,
            final(self)@.bits_left == old(self)@.bits_left,
            final(self)@.pos_ok(),
            old(self)@.pos + 2 <= old(self)@.bytes.len() <==> r is Ok,
            r matches Ok(v) ==> v as int == signed_of(le_value(old(self)@.bytes.subrange(old(self)@.pos, old(self)@.pos + 2)), 2) && final(self)@.pos == old(self)@.pos + 2,
            r matches Err(e) ==> final(self)@.pos == old(self)@.pos && e == KError::Incomplete(
                Needed::Size((old(self)@.pos + 2 - old(self)@.bytes.len()) as usize),
            ),
    {
        let v = match self.read_bytes(2) {
            Ok(v) => v,
            Err(e) => {
                return Err(e);
            },
        };
        proof {
            lemma_le_value_bound(v@);
            lemma2_to64();
            lemma2_to64_rest();
        }
        let raw = decode_le(&v);
        if raw < 0x8000 {
            Ok(raw as i16)
        } else {
            Ok(((raw as i64) - 0x10000i64) as i16)
        }
    }

    /// Read a 4-byte little-endian signed integer
    /// (two's complement).
    pub fn read_s4le(&mut self) -> (r: KResult<i32>)
        requires
            old(self)@.pos_ok(),
        ensures
            final(self)@.bytes == old(self)@.bytes,
            final(self)@.bits == old(self)@.bits,
            final(self)@.bits_left == old(self)@.bits_left,
            final(self)@.pos_ok(),
            old(self)@.pos + 4 <= old(self)@.bytes.len() <==> r is Ok,
            r matches Ok(v) ==> v as int == signed_of(le_value(old(self)@.bytes.subrange(old(self)@.pos, old(self)@.pos + 4)), 4) && final(self)@.pos == old(self)@.pos + 4,
            r matches Err(e) ==> final(self)@.pos == old(self)@.pos && e == KError::Incomplete(
                Needed::Size((old(self)@.pos + 4 - old(self)@.bytes.len()) as usize),
            ),
    {
        let v = match self.read_bytes(4) {
            Ok(v) => v,
            Err(e) => {
                return Err(e);
            },
        };
        proof {
            lemma_le_value_bound(v@);
            lemma2_to64();
            lemma2_to64_rest();
        }
        let raw = decode_le(&v);
        if raw < 0x8000_0000 {
            Ok(raw as i32)
        } else {
            Ok(((raw as i64) - 0x1_0000_0000i64) as i32)
        }
    }

    /// Read a 8-byte little-endian signed integer
    /// (two's complement).
    pub fn read_s8le(&mut self) -> (r: KResult<i64>)
        requires
            old(self)@.pos_ok(),
        ensures
            final(self)@.bytes == old(self)@.bytes,
            final(self)@.bits == old(self)@.bits,
            final(self)@.bits_left == old(self)@.bits_left,
            final(self)@.pos_ok(),
            old(self)@.pos + 8 <= old(self)@.bytes.len() <==> r is Ok,
            r matches Ok(v) ==> v as int == signed_of(le_value(old(self)@.bytes.subrange(old(self)@.pos, old(self)@.pos + 8)), 8) && final(self)@.pos == old(self)@.pos + 8,
            r matches Err(e) ==> final(self)@.pos == old(self)@.pos && e == KError::Incomplete(
                Needed::Size((old(self)@.pos + 8 - old(self)@.bytes.len()) as usize),
            ),
    {
        let v = match self.read_bytes(8) {
            Ok(v) => v,
            Err(e) => {
                return Err(e);
            },
        };
        proof {
            lemma_le_value_bound(v@);
            lemma2_to64();
            lemma2_to64_rest();
        }
        let raw = decode_le(&v);
        if raw < 0x8000_0000_0000_0000 {
            Ok(raw as i64)
        } else {
            Ok(((raw as i128) - 0x1_0000_0000_0000_0000i128) as i64)
        }
    }

    /// Read `n` bits, most significant bit first, returning them
    /// right-justified in a `u64`. Residual bits of an earlier bit read
    /// are consumed before any new byte.
    #[verifier::rlimit(60)]
    pub fn read_bits_int_be(&mut self, n: usize) -> (r: KResult<u64>)
        requires
            old(self)@.wf(),
        ensures
            final(self)@.bytes == old(self)@.bytes,
            n > 64 ==> (r matches Err(e) && e == (KError::ReadBitsTooLarge { requested: n })
                && final(self)@ == old(self)@),
            n <= 64 && bits_avail(old(self)@, n as int) ==> (r matches Ok(v) && v == be_bits_val(
                old(self)@,
                n as int,
            ) && final(self)@ == be_bits_next(old(self)@, n as int) && final(self)@.wf()),
            n <= 64 && !bits_avail(old(self)@, n as int) ==> (r matches Err(e) && e
                == KError::Incomplete(
                Needed::Size(
                    (old(self)@.pos + ceil_bytes(n - old(self)@.bits_left)
                        - old(self)@.bytes.len()) as usize,
                ),
            ) && final(self)@.pos == old(self)@.pos && final(self)@.bits == old(self)@.bits
                && final(self)@.bits_left == 8 * ceil_bytes(n - old(self)@.bits_left) - (n - old(
                self,
            )@.bits_left)),
    {
        if n > 64 {
            return Err(KError::ReadBitsTooLarge { requested: n });
        }
        let bl = self.state.bits_left;
        if (n as i64) <= bl {
            // served entirely from the residual buffer
            let shift = (bl - n as i64) as u64;
            proof {
                lemma2_to64();
                vstd::bits::lemma_u64_shr_is_div(self.state.bits, shift);
                vstd::bits::lemma_u64_shl_is_mul(1u64, shift);
                vstd::bits::lemma_u64_low_bits_mask_is_mod(self.state.bits, shift as nat);
                vstd::arithmetic::power2::lemma_pow2_pos(shift as nat);
            }
            let res = self.state.bits >> shift;
            let kept = self.state.bits & ((1u64 << shift) - 1);
            proof {
                assert((1u64 << shift) - 1 == vstd::bits::low_bits_mask(shift as nat));
            }
            self.state.bits = kept;
            self.state.bits_left = bl - n as i64;
            Ok(res)
        } else {
            let bl_us = bl as usize;
            let needed = n - bl_us;
            let bn = (needed - 1) / 8 + 1;
            let nbl = 8 * bn - needed;
            proof {
                lemma_ceil_bytes(needed as int);
            }
            let hi = self.state.bits;
            // the new residual count is recorded before the byte read, so
            // a short read leaves it behind
            self.state.bits_left = nbl as i64;
            let buf = match self.read_bytes(bn) {
                Ok(v) => v,
                Err(e) => {
                    return Err(e);
                },
            };
            let chunk = decode_be(&buf);
            proof {
                lemma_be_value_bound(buf@);
                lemma2_to64();
                lemma2_to64_rest();
                vstd::bits::lemma_u64_shr_is_div(chunk, nbl as u64);
                vstd::arithmetic::power2::lemma_pow2_pos(nbl as nat);
                vstd::arithmetic::power2::lemma_pow2_adds(needed as nat, nbl as nat);
                assert(8 * buf@.len() == (needed + nbl) as nat);
                assert(chunk < pow2(nbl as nat) * pow2(needed as nat)) by (nonlinear_arith)
                    requires
                        chunk < pow2((needed + nbl) as nat),
                        pow2((needed + nbl) as nat) == pow2(needed as nat) * pow2(nbl as nat),
                ;
                vstd::arithmetic::div_mod::lemma_multiply_divide_lt(
                    chunk as int,
                    pow2(nbl as nat) as int,
                    pow2(needed as nat) as int,
                );
            }
            let low = chunk >> (nbl as u64);
            proof {
                vstd::arithmetic::power2::lemma_pow2_adds(bl as nat, needed as nat);
                assert(hi * pow2(needed as nat) + pow2(needed as nat) <= pow2(bl as nat) * pow2(
                    needed as nat,
                )) by (nonlinear_arith)
                    requires
                        hi < pow2(bl as nat),
                        pow2(needed as nat) > 0,
                ;
            }
            let res = if needed < 64 {
                proof {
                    vstd::bits::lemma_u64_shl_is_mul(hi, needed as u64);
                }
                (hi << (needed as u64)) + low
            } else {
                low
            };
            proof {
                vstd::bits::lemma_u64_shl_is_mul(1u64, nbl as u64);
                vstd::bits::lemma_u64_low_bits_mask_is_mod(chunk, nbl as nat);
            }
            let kept = chunk & ((1u64 << (nbl as u64)) - 1);
            proof {
                assert((1u64 << (nbl as u64)) - 1 == vstd::bits::low_bits_mask(nbl as nat));
            }
            self.state.bits = kept;
            Ok(res)
        }
    }

    /// Read `n` bits, least significant bit first, returning them
    /// right-justified in a `u64`. Residual bits of an earlier bit read
    /// are consumed before any new byte.
    #[verifier::rlimit(60)]
    pub fn read_bits_int_le(&mut self, n: usize) -> (r: KResult<u64>)
        requires
            old(self)@.wf(),
        ensures
            final(self)@.bytes == old(self)@.bytes,
            n > 64 ==> (r matches Err(e) && e == (KError::ReadBitsTooLarge { requested: n })
                && final(self)@ == old(self)@),
            n <= 64 && bits_avail(old(self)@, n as int) ==> (r matches Ok(v) && v == le_bits_val(
                old(self)@,
                n as int,
            ) && final(self)@ == le_bits_next(old(self)@, n as int) && final(self)@.wf()),
            n <= 64 && !bits_avail(old(self)@, n as int) ==> (r matches Err(e) && e
                == KError::Incomplete(
                Needed::Size(
                    (old(self)@.pos + ceil_bytes(n - old(self)@.bits_left)
                        - old(self)@.bytes.len()) as usize,
                ),
            ) && final(self)@ == old(self)@),
    {
        if n > 64 {
            return Err(KError::ReadBitsTooLarge { requested: n });
        }
        let bl = self.state.bits_left;
        if (n as i64) <= bl {
            // served entirely from the residual buffer
            let shift = n as u64;
            proof {
                lemma2_to64();
                vstd::bits::lemma_u64_shr_is_div(self.state.bits, shift);
                vstd::bits::lemma_u64_shl_is_mul(1u64, shift);
                vstd::bits::lemma_u64_low_bits_mask_is_mod(self.state.bits, shift as nat);
                vstd::arithmetic::power2::lemma_pow2_pos(shift as nat);
                vstd::arithmetic::power2::lemma_pow2_adds(n as nat, (bl - n) as nat);
                assert(self.state.bits < pow2(n as nat) * pow2((bl - n) as nat));
                vstd::arithmetic::div_mod::lemma_multiply_divide_lt(
                    self.state.bits as int,
                    pow2(n as nat) as int,
                    pow2((bl - n) as nat) as int,
                );
            }
            let res = self.state.bits & ((1u64 << shift) - 1);
            let kept = self.state.bits >> shift;
            proof {
                assert((1u64 << shift) - 1 == vstd::bits::low_bits_mask(shift as nat));
            }
            self.state.bits = kept;
            self.state.bits_left = bl - n as i64;
            Ok(res)
        } else {
            let bl_us = bl as usize;
            let needed = n - bl_us;
            let bn = (needed - 1) / 8 + 1;
            let nbl = 8 * bn - needed;
            proof {
                lemma_ceil_bytes(needed as int);
            }
            let buf = match self.read_bytes(bn) {
                Ok(v) => v,
                Err(e) => {
                    return Err(e);
                },
            };
            let chunk = decode_le(&buf);
            proof {
                lemma_le_value_bound(buf@);
                lemma2_to64();
                lemma2_to64_rest();
                vstd::arithmetic::power2::lemma_pow2_pos(needed as nat);
                vstd::arithmetic::power2::lemma_pow2_pos(nbl as nat);
                vstd::arithmetic::power2::lemma_pow2_adds(needed as nat, nbl as nat);
                assert(8 * buf@.len() == (needed + nbl) as nat);
                assert(chunk < pow2(needed as nat) * pow2(nbl as nat)) by (nonlinear_arith)
                    requires
                        chunk < pow2((needed + nbl) as nat),
                        pow2((needed + nbl) as nat) == pow2(needed as nat) * pow2(nbl as nat),
                ;
                vstd::arithmetic::div_mod::lemma_multiply_divide_lt(
                    chunk as int,
                    pow2(needed as nat) as int,
                    pow2(nbl as nat) as int,
                );
            }
            let new_bits = if needed < 64 {
                proof {
                    vstd::bits::lemma_u64_shr_is_div(chunk, needed as u64);
                }
                chunk >> (needed as u64)
            } else {
                proof {
                    vstd::arithmetic::div_mod::lemma_basic_div_specific_divisor(
                        pow2(64) as int,
                    );
                    assert(chunk as int / pow2(64) as int == 0) by {
                        vstd::arithmetic::div_mod::lemma_basic_div(
                            chunk as int,
                            pow2(64) as int,
                        );
                    }
                }
                0u64
            };
            let low = if needed < 64 {
                proof {
                    vstd::bits::lemma_u64_shl_is_mul(1u64, needed as u64);
                    vstd::bits::lemma_u64_low_bits_mask_is_mod(chunk, needed as nat);
                    assert((1u64 << (needed as u64)) - 1 == vstd::bits::low_bits_mask(
                        needed as nat,
                    ));
                }
                chunk & ((1u64 << (needed as u64)) - 1)
            } else {
                proof {
                    vstd::arithmetic::div_mod::lemma_small_mod(chunk as nat, pow2(64));
                }
                chunk
            };
            proof {
                vstd::arithmetic::power2::lemma_pow2_adds(needed as nat, bl as nat);
                vstd::arithmetic::power2::lemma_pow2_pos(bl as nat);
                assert(low * pow2(bl as nat) + pow2(bl as nat) <= pow2(needed as nat) * pow2(
                    bl as nat,
                )) by (nonlinear_arith)
                    requires
                        low < pow2(needed as nat),
                        pow2(bl as nat) > 0,
                ;
                vstd::bits::lemma_u64_shl_is_mul(low, bl as u64);
            }
            let res = (low << (bl as u64)) + self.state.bits;
            self.state.bits = new_bits;
            self.state.bits_left = nbl as i64;
            Ok(res)
        }
    }
}

/// With the bit buffer discarded, end-of-stream is exactly the byte
/// cursor standing at the end of the source.
pub proof fn lemma_eof_after_align(v: ReaderView)
    requires
        v.bits_left == 0,
    ensures
        v.at_eof() <==> v.pos == v.bytes.len(),
{
}

impl From<Vec<u8>> for BytesReader {
    fn from(bytes: Vec<u8>) -> (r: BytesReader) {
        BytesReader { state: ReaderState { pos: 0, bits: 0, bits_left: 0 }, buf: bytes }
    }
}

impl vstd::std_specs::convert::FromSpecImpl<Vec<u8>> for BytesReader {
    closed spec fn obeys_from_spec() -> bool {
        true
    }

    closed spec fn from_spec(v: Vec<u8>) -> Self {
        BytesReader { state: ReaderState { pos: 0, bits: 0, bits_left: 0 }, buf: v }
    }
}

} // verus!

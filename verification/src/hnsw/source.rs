//! Sources of serialized bytes.

use crate::bytes::{from_le, get_le, lemma_byte_ranges, lemma_from_le_bound};
use crate::text::{decimal, push_decimal};
use vstd::prelude::*;
use vstd::slice::slice_subrange;

verus! {

/// Errors from decoding a serialized graph.
#[derive(Debug, Clone, Copy, PartialEq, Eq)]
pub enum HnswDecodeError {
    /// The input ended before the encoding said it would.
    Truncated,
    /// The input doesn't start with the serialized-graph magic.
    BadMagic,
    /// The format version is one this build doesn't understand.
    UnsupportedVersion { got: u16 },
    /// A structurally impossible value.
    Invalid(&'static str),
}

impl HnswDecodeError {
    /// The text a user sees.
    pub open spec fn text(self) -> Seq<char> {
        match self {
            HnswDecodeError::Truncated => "serialized graph is truncated"@,
            HnswDecodeError::BadMagic => "not a serialized graph (bad magic)"@,
            HnswDecodeError::UnsupportedVersion { got } => "unsupported graph format version "@
                + decimal(got as nat),
            HnswDecodeError::Invalid(what) => "invalid serialized graph: "@ + what@,
        }
    }

    /// The text a user sees.
    pub fn message(&self) -> (s: String)
        ensures
            s@ == self.text(),
    {
        let mut s = String::new();
        match self {
            HnswDecodeError::Truncated => {
                s.append("serialized graph is truncated");
            },
            HnswDecodeError::BadMagic => {
                s.append("not a serialized graph (bad magic)");
            },
            HnswDecodeError::UnsupportedVersion { got } => {
                s.append("unsupported graph format version ");
                push_decimal(&mut s, *got as u64);
            },
            HnswDecodeError::Invalid(what) => {
                s.append("invalid serialized graph: ");
                s.append(what);
            },
        }
        assert(s@ =~= self.text());
        s
    }
}

/// A value read off the front of some bytes, with the bytes left over.
pub type Parsed<T> = Result<(T, Seq<u8>), HnswDecodeError>;

/// A little-endian number of `width` bytes off the front.
pub open spec fn take_le(bytes: Seq<u8>, width: nat) -> Parsed<nat> {
    if bytes.len() < width {
        Err(HnswDecodeError::Truncated)
    } else {
        Ok((from_le(bytes.take(width as int)), bytes.skip(width as int)))
    }
}

/// An eight-byte number that must fit in `usize`.
pub open spec fn take_len(bytes: Seq<u8>) -> Parsed<nat> {
    match take_le(bytes, 8) {
        Ok((value, rest)) => if value > usize::MAX {
            Err(HnswDecodeError::Invalid("value exceeds address space"))
        } else {
            Ok((value, rest))
        },
        Err(e) => Err(e),
    }
}

/// The serialized bytes of a graph, consumed strictly front to back.
///
/// A stored graph may span more pages than can be held at once, so its bytes are
/// delivered a buffer at a time. One decoder serves a plain slice and a page
/// walk alike.
pub trait GraphBytes {
    /// The bytes still to come.
    spec fn bytes(&self) -> Seq<u8>;

    /// How many more bytes there are said to be. A source may turn out to hold
    /// fewer; a read past what it holds fails.
    spec fn declared(&self) -> nat;

    /// What lies past the declared bytes. No read touches it.
    spec fn beyond(&self) -> Seq<u8>;

    /// The source is in a state to be read from.
    spec fn readable(&self) -> bool;

    /// Fill `out` completely, or fail if fewer bytes remain.
    fn read_exact(&mut self, out: &mut [u8]) -> (r: Result<(), HnswDecodeError>)
        requires
            old(self).readable(),
            old(self).bytes().len() <= old(self).declared(),
        ensures
            final(out)@.len() == old(out)@.len(),
            r is Ok ==> final(self).beyond() == old(self).beyond(),
            match r {
                Ok(_) => {
                    &&& old(out)@.len() <= old(self).bytes().len()
                    &&& final(out)@ == old(self).bytes().take(old(out)@.len() as int)
                    &&& final(self).readable()
                    &&& final(self).bytes() == old(self).bytes().skip(old(out)@.len() as int)
                    &&& final(self).declared() == old(self).declared() - old(out)@.len()
                },
                Err(e) => {
                    &&& e == HnswDecodeError::Truncated
                    &&& old(out)@.len() > old(self).bytes().len()
                },
            },
    ;

    /// Bytes not yet consumed, as far as the source knows. The decoder bounds
    /// what it allocates by this.
    fn remaining(&self) -> (r: usize)
        requires
            self.readable(),
        ensures
            r == self.declared(),
    ;

    /// Read one byte.
    fn u8(&mut self) -> (r: Result<u8, HnswDecodeError>)
        requires
            old(self).readable(),
            old(self).bytes().len() <= old(self).declared(),
        ensures
            r is Ok ==> final(self).beyond() == old(self).beyond(),
            match (r, take_le(old(self).bytes(), 1)) {
                (Ok(v), Ok((value, rest))) => {
                    &&& v == value
                    &&& final(self).readable()
                    &&& final(self).bytes() == rest
                    &&& final(self).declared() == old(self).declared() - 1
                },
                (Err(e), Err(f)) => e == f,
                _ => false,
            },
    {
        let mut b: [u8; 1] = [0u8; 1];
        self.read_exact(&mut b)?;
        proof {
            lemma_from_le_bound(b@);
            lemma_byte_ranges();
            assert(b@ =~= old(self).bytes().take(1));
        }
        let v: u64 = get_le(&b);
        Ok(v as u8)
    }

    /// Read a little-endian `u16`.
    fn u16(&mut self) -> (r: Result<u16, HnswDecodeError>)
        requires
            old(self).readable(),
            old(self).bytes().len() <= old(self).declared(),
        ensures
            r is Ok ==> final(self).beyond() == old(self).beyond(),
            match (r, take_le(old(self).bytes(), 2)) {
                (Ok(v), Ok((value, rest))) => {
                    &&& v == value
                    &&& final(self).readable()
                    &&& final(self).bytes() == rest
                    &&& final(self).declared() == old(self).declared() - 2
                },
                (Err(e), Err(f)) => e == f,
                _ => false,
            },
    {
        let mut b: [u8; 2] = [0u8; 2];
        self.read_exact(&mut b)?;
        proof {
            lemma_from_le_bound(b@);
            lemma_byte_ranges();
            assert(b@ =~= old(self).bytes().take(2));
        }
        let v: u64 = get_le(&b);
        Ok(v as u16)
    }

    /// Read a little-endian `u32`.
    fn u32(&mut self) -> (r: Result<u32, HnswDecodeError>)
        requires
            old(self).readable(),
            old(self).bytes().len() <= old(self).declared(),
        ensures
            r is Ok ==> final(self).beyond() == old(self).beyond(),
            match (r, take_le(old(self).bytes(), 4)) {
                (Ok(v), Ok((value, rest))) => {
                    &&& v == value
                    &&& final(self).readable()
                    &&& final(self).bytes() == rest
                    &&& final(self).declared() == old(self).declared() - 4
                },
                (Err(e), Err(f)) => e == f,
                _ => false,
            },
    {
        let mut b: [u8; 4] = [0u8; 4];
        self.read_exact(&mut b)?;
        proof {
            lemma_from_le_bound(b@);
            lemma_byte_ranges();
            assert(b@ =~= old(self).bytes().take(4));
        }
        let v: u64 = get_le(&b);
        Ok(v as u32)
    }

    /// Read a little-endian `u64`.
    fn u64(&mut self) -> (r: Result<u64, HnswDecodeError>)
        requires
            old(self).readable(),
            old(self).bytes().len() <= old(self).declared(),
        ensures
            r is Ok ==> final(self).beyond() == old(self).beyond(),
            match (r, take_le(old(self).bytes(), 8)) {
                (Ok(v), Ok((value, rest))) => {
                    &&& v == value
                    &&& final(self).readable()
                    &&& final(self).bytes() == rest
                    &&& final(self).declared() == old(self).declared() - 8
                },
                (Err(e), Err(f)) => e == f,
                _ => false,
            },
    {
        let mut b: [u8; 8] = [0u8; 8];
        self.read_exact(&mut b)?;
        proof {
            assert(b@ =~= old(self).bytes().take(8));
        }
        Ok(get_le(&b))
    }

    /// Read a `u64` that must fit in `usize`: a count, an id, a size.
    fn read_len(&mut self) -> (r: Result<usize, HnswDecodeError>)
        requires
            old(self).readable(),
            old(self).bytes().len() <= old(self).declared(),
        ensures
            r is Ok ==> final(self).beyond() == old(self).beyond(),
            match (r, take_len(old(self).bytes())) {
                (Ok(v), Ok((value, rest))) => {
                    &&& v == value
                    &&& final(self).readable()
                    &&& final(self).bytes() == rest
                    &&& final(self).declared() == old(self).declared() - 8
                },
                (Err(e), Err(f)) => e == f,
                _ => false,
            },
    {
        let v: u64 = self.u64()?;
        if v > usize::MAX as u64 {
            return Err(HnswDecodeError::Invalid("value exceeds address space"));
        }
        Ok(v as usize)
    }

    /// Whether every byte has been consumed.
    fn done(&self) -> (r: bool)
        requires
            self.readable(),
        ensures
            r == (self.declared() == 0),
    {
        self.remaining() == 0
    }
}

/// Bounds-checked reader over a slice.
pub struct ByteReader<'a> {
    buf: &'a [u8],
    pos: usize,
}

impl<'a> ByteReader<'a> {
    /// The slice read from.
    pub closed spec fn buffer(&self) -> Seq<u8> {
        self.buf@
    }

    /// How many of its bytes have been read.
    pub closed spec fn position(&self) -> nat {
        self.pos as nat
    }

    /// Read from the start of `buf`.
    pub fn new(buf: &'a [u8]) -> (r: Self)
        ensures
            r.buffer() == buf@,
            r.position() == 0,
            r.readable(),
            r.bytes() == buf@,
            r.declared() == buf@.len(),
    {
        let r = ByteReader { buf, pos: 0 };
        assert(r.bytes() =~= buf@);
        r
    }

    /// The next `n` bytes. Fails, reading nothing, when fewer are left.
    pub fn take(&mut self, n: usize) -> (r: Result<&'a [u8], HnswDecodeError>)
        requires
            old(self).readable(),
        ensures
            final(self).readable(),
            final(self).buffer() == old(self).buffer(),
            match r {
                Ok(s) => {
                    &&& n <= old(self).bytes().len()
                    &&& s@ == old(self).bytes().take(n as int)
                    &&& final(self).bytes() == old(self).bytes().skip(n as int)
                    &&& final(self).position() == old(self).position() + n
                    &&& final(self).declared() == old(self).declared() - n
                },
                Err(e) => {
                    &&& e == HnswDecodeError::Truncated
                    &&& n > old(self).bytes().len()
                    &&& final(self).position() == old(self).position()
                    &&& final(self).bytes() == old(self).bytes()
                },
            },
    {
        if n > self.buf.len() - self.pos {
            return Err(HnswDecodeError::Truncated);
        }
        let end: usize = self.pos + n;
        let s = slice_subrange(self.buf, self.pos, end);
        self.pos = end;
        proof {
            assert(s@ =~= old(self).bytes().take(n as int));
            assert(self.bytes() =~= old(self).bytes().skip(n as int));
        }
        Ok(s)
    }
}

/// Copy `from` over `out`.
pub(crate) fn copy_bytes(from: &[u8], out: &mut [u8])
    requires
        from@.len() == old(out)@.len(),
    ensures
        final(out)@ == from@,
{
    let mut i: usize = 0;
    while i < from.len()
        invariant
            i <= from@.len(),
            out@.len() == from@.len(),
            forall|k: int| 0 <= k < i ==> #[trigger] out@[k] == from@[k],
        decreases from@.len() - i,
    {
        out[i] = from[i];
        i += 1;
    }
    assert(out@ =~= from@);
}

impl<'a> GraphBytes for ByteReader<'a> {
    closed spec fn bytes(&self) -> Seq<u8> {
        self.buf@.skip(self.pos as int)
    }

    closed spec fn declared(&self) -> nat {
        (self.buf@.len() - self.pos) as nat
    }

    open spec fn beyond(&self) -> Seq<u8> {
        Seq::empty()
    }

    closed spec fn readable(&self) -> bool {
        self.pos <= self.buf@.len()
    }

    fn read_exact(&mut self, out: &mut [u8]) -> (r: Result<(), HnswDecodeError>) {
        let from = self.take(out.len())?;
        copy_bytes(from, out);
        Ok(())
    }

    fn remaining(&self) -> (r: usize) {
        self.buf.len() - self.pos
    }
}

impl<'a> ByteReader<'a> {
    /// What is left to read is the buffer from the position on.
    pub proof fn lemma_left(&self)
        requires
            self.readable(),
        ensures
            self.position() <= self.buffer().len(),
            self.bytes() == self.buffer().skip(self.position() as int),
            self.declared() == self.buffer().len() - self.position(),
    {
    }
}

impl GraphBytes for &[u8] {
    open spec fn bytes(&self) -> Seq<u8> {
        self@
    }

    open spec fn declared(&self) -> nat {
        self@.len()
    }

    open spec fn beyond(&self) -> Seq<u8> {
        Seq::empty()
    }

    open spec fn readable(&self) -> bool {
        true
    }

    fn read_exact(&mut self, out: &mut [u8]) -> (r: Result<(), HnswDecodeError>) {
        if out.len() > self.len() {
            return Err(HnswDecodeError::Truncated);
        }
        let head = slice_subrange(*self, 0, out.len());
        let tail = slice_subrange(*self, out.len(), self.len());
        copy_bytes(head, out);
        *self = tail;
        Ok(())
    }

    fn remaining(&self) -> (r: usize) {
        self.len()
    }
}

} // verus!

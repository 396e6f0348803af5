use crate::error::{DbError, ErrorKind};
use vstd::bytes::*;
use vstd::prelude::*;

verus! {

/// Appends one byte.
pub fn push_u8(buf: &mut Vec<u8>, v: u8)
    ensures
        final(buf)@ == old(buf)@.push(v),
{
    buf.push(v);
}

/// Appends bytes.
pub fn push_bytes(buf: &mut Vec<u8>, data: &[u8])
    ensures
        final(buf)@ == old(buf)@ + data@,
{
    let mut i: usize = 0;
    while i < data.len()
        invariant
            i <= data@.len(),
            buf@ == old(buf)@ + data@.subrange(0, i as int),
        decreases data@.len() - i,
    {
        buf.push(data[i]);
        i = i + 1;
        assert(buf@ =~= old(buf)@ + data@.subrange(0, i as int));
    }
    assert(data@.subrange(0, data@.len() as int) =~= data@);
}

/// Appends a little-endian `u16`.
pub fn push_u16(buf: &mut Vec<u8>, v: u16)
    ensures
        final(buf)@ == old(buf)@ + spec_u16_to_le_bytes(v),
{
    let b = u16_to_le_bytes(v);
    push_bytes(buf, b.as_slice());
}

/// Appends a little-endian `u32`.
pub fn push_u32(buf: &mut Vec<u8>, v: u32)
    ensures
        final(buf)@ == old(buf)@ + spec_u32_to_le_bytes(v),
{
    let b = u32_to_le_bytes(v);
    push_bytes(buf, b.as_slice());
}

/// Appends a little-endian `u64`.
pub fn push_u64(buf: &mut Vec<u8>, v: u64)
    ensures
        final(buf)@ == old(buf)@ + spec_u64_to_le_bytes(v),
{
    let b = u64_to_le_bytes(v);
    push_bytes(buf, b.as_slice());
}

/// The little-endian `u16` at `pos`.
pub fn read_u16_at(data: &[u8], pos: usize) -> (r: u16)
    requires
        pos + 2 <= data@.len(),
    ensures
        r == spec_u16_from_le_bytes(data@.subrange(pos as int, pos + 2)),
{
    let _n = data.len();
    u16_from_le_bytes(&data[pos..pos + 2])
}

/// The little-endian `u32` at `pos`.
pub fn read_u32_at(data: &[u8], pos: usize) -> (r: u32)
    requires
        pos + 4 <= data@.len(),
    ensures
        r == spec_u32_from_le_bytes(data@.subrange(pos as int, pos + 4)),
{
    let _n = data.len();
    u32_from_le_bytes(&data[pos..pos + 4])
}

/// The little-endian `u64` at `pos`.
pub fn read_u64_at(data: &[u8], pos: usize) -> (r: u64)
    requires
        pos + 8 <= data@.len(),
    ensures
        r == spec_u64_from_le_bytes(data@.subrange(pos as int, pos + 8)),
{
    let _n = data.len();
    u64_from_le_bytes(&data[pos..pos + 8])
}

/// Overwrites `buf[pos..pos + data.len()]` with `data`.
pub fn write_at(buf: &mut Vec<u8>, pos: usize, data: &[u8])
    requires
        pos + data@.len() <= old(buf)@.len(),
    ensures
        final(buf)@ == old(buf)@.subrange(0, pos as int) + data@ + old(buf)@.subrange(
            pos + data@.len(),
            old(buf)@.len() as int,
        ),
{
    let n = buf.len();
    let mut i: usize = 0;
    while i < data.len()
        invariant
            n == old(buf)@.len(),
            pos + data@.len() <= old(buf)@.len(),
            i <= data@.len(),
            buf@.len() == old(buf)@.len(),
            forall|k: int| 0 <= k < pos ==> buf@[k] == old(buf)@[k],
            forall|k: int| pos <= k < pos + i ==> buf@[k] == data@[k - pos],
            forall|k: int| pos + i <= k < buf@.len() ==> buf@[k] == old(buf)@[k],
        decreases data@.len() - i,
    {
        buf.set(pos + i, data[i]);
        i = i + 1;
    }
    assert(buf@ =~= old(buf)@.subrange(0, pos as int) + data@ + old(buf)@.subrange(
        pos + data@.len(),
        old(buf)@.len() as int,
    ));
}

/// A copy of `data[start..end]`.
pub fn copy_range(data: &[u8], start: usize, end: usize) -> (r: Vec<u8>)
    requires
        start <= end <= data@.len(),
    ensures
        r@ == data@.subrange(start as int, end as int),
{
    vstd::slice::slice_to_vec(&data[start..end])
}

/// Decoding the encoding of an integer gives it back, at every width.
pub proof fn lemma_le_roundtrip()
    ensures
        forall|x: u16| #![trigger spec_u16_to_le_bytes(x)] spec_u16_to_le_bytes(x).len() == 2 && spec_u16_from_le_bytes(spec_u16_to_le_bytes(x)) == x,
        forall|x: u32| #![trigger spec_u32_to_le_bytes(x)] spec_u32_to_le_bytes(x).len() == 4 && spec_u32_from_le_bytes(spec_u32_to_le_bytes(x)) == x,
        forall|x: u64| #![trigger spec_u64_to_le_bytes(x)] spec_u64_to_le_bytes(x).len() == 8 && spec_u64_from_le_bytes(spec_u64_to_le_bytes(x)) == x,
{
    lemma_auto_spec_u16_to_from_le_bytes();
    lemma_auto_spec_u32_to_from_le_bytes();
    lemma_auto_spec_u64_to_from_le_bytes();
}


/// What reading a `T` from the front of some bytes gives: the value and the
/// count of bytes it took, or the kind of error.
pub type Parsed<T> = Result<(T, int), ErrorKind>;

/// One byte; running out of input is an I/O error (an unexpected end of file).
pub open spec fn parse_u8(s: Seq<u8>) -> Parsed<u8> {
    if s.len() >= 1 {
        Ok((s[0], 1))
    } else {
        Err(ErrorKind::Io)
    }
}

pub open spec fn parse_u32(s: Seq<u8>) -> Parsed<u32> {
    if s.len() >= 4 {
        Ok((spec_u32_from_le_bytes(s.subrange(0, 4)), 4))
    } else {
        Err(ErrorKind::Io)
    }
}

pub open spec fn parse_u64(s: Seq<u8>) -> Parsed<u64> {
    if s.len() >= 8 {
        Ok((spec_u64_from_le_bytes(s.subrange(0, 8)), 8))
    } else {
        Err(ErrorKind::Io)
    }
}

/// A byte string written as its `u64` length, then its bytes.
pub open spec fn parse_bytes(s: Seq<u8>) -> Parsed<Seq<u8>> {
    match parse_u64(s) {
        Err(e) => Err(e),
        Ok((n, _)) => if s.len() - 8 >= n {
            Ok((s.subrange(8, 8 + n), 8 + n))
        } else {
            Err(ErrorKind::Io)
        },
    }
}

/// The bytes that [`parse_bytes`] reads back as `b`.
pub open spec fn bytes_field(b: Seq<u8>) -> Seq<u8> {
    spec_u64_to_le_bytes(b.len() as u64) + b
}

pub proof fn lemma_parse_bytes_field(b: Seq<u8>, rest: Seq<u8>)
    requires
        b.len() <= u64::MAX,
    ensures
        parse_bytes(bytes_field(b) + rest) == Ok::<(Seq<u8>, int), ErrorKind>((b, 8 + b.len() as int)),
{
    lemma_le_roundtrip();
    let s = bytes_field(b) + rest;
    assert(s.subrange(0, 8) =~= spec_u64_to_le_bytes(b.len() as u64));
    assert(s.subrange(8, 8 + b.len() as int) =~= b);
}

/// Reads bytes front to back.
pub struct Reader<'a> {
    data: &'a [u8],
    pos: usize,
}

impl<'a> Reader<'a> {
    /// The bytes being read.
    pub closed spec fn input(&self) -> Seq<u8> {
        self.data@
    }

    /// How many bytes have been read.
    pub closed spec fn position(&self) -> int {
        self.pos as int
    }

    pub closed spec fn wf(&self) -> bool {
        self.pos <= self.data@.len()
    }

    /// The bytes not read yet.
    pub open spec fn rest(&self) -> Seq<u8> {
        self.input().subrange(self.position(), self.input().len() as int)
    }

    pub fn new(data: &'a [u8]) -> (r: Self)
        ensures
            r.wf(),
            r.input() == data@,
            r.position() == 0,
            r.rest() == data@,
    {
        let r = Reader { data, pos: 0 };
        assert(r.rest() =~= data@);
        r
    }

    /// How many bytes are left to read.
    pub fn remaining(&self) -> (r: usize)
        requires
            self.wf(),
        ensures
            r == self.rest().len(),
    {
        self.data.len() - self.pos
    }

    /// How many bytes have been read.
    pub fn offset(&self) -> (r: usize)
        ensures
            r == self.position(),
    {
        self.pos
    }

    pub proof fn lemma_rest(&self, n: int)
        requires
            self.wf(),
            0 <= n <= self.rest().len(),
        ensures
            self.rest().subrange(n, self.rest().len() as int) == self.input().subrange(
                self.position() + n,
                self.input().len() as int,
            ),
            self.position() + self.rest().len() == self.input().len(),
    {
        assert(self.rest().subrange(n, self.rest().len() as int) =~= self.input().subrange(
            self.position() + n,
            self.input().len() as int,
        ));
    }

    pub fn read_u8(&mut self) -> (r: Result<u8, DbError>)
        requires
            old(self).wf(),
        ensures
            final(self).wf(),
            final(self).input() == old(self).input(),
            old(self).position() <= final(self).position(),
            match parse_u8(old(self).rest()) {
                Ok((v, n)) => (r matches Ok(x) && x == v && final(self).position() == old(self).position() + n),
                Err(k) => (r matches Err(e) && e.kind() == k),
            },
    {
        if self.pos >= self.data.len() {
            return Err(DbError::io("failed to fill whole buffer"));
        }
        let v = self.data[self.pos];
        self.pos = self.pos + 1;
        Ok(v)
    }

    pub fn read_u32(&mut self) -> (r: Result<u32, DbError>)
        requires
            old(self).wf(),
        ensures
            final(self).wf(),
            final(self).input() == old(self).input(),
            old(self).position() <= final(self).position(),
            match parse_u32(old(self).rest()) {
                Ok((v, n)) => (r matches Ok(x) && x == v && final(self).position() == old(self).position() + n),
                Err(k) => (r matches Err(e) && e.kind() == k),
            },
    {
        if self.data.len() - self.pos < 4 {
            return Err(DbError::io("failed to fill whole buffer"));
        }
        let v = read_u32_at(self.data, self.pos);
        assert(self.rest().subrange(0, 4) =~= self.data@.subrange(self.pos as int, self.pos + 4));
        self.pos = self.pos + 4;
        Ok(v)
    }

    pub fn read_u64(&mut self) -> (r: Result<u64, DbError>)
        requires
            old(self).wf(),
        ensures
            final(self).wf(),
            final(self).input() == old(self).input(),
            old(self).position() <= final(self).position(),
            match parse_u64(old(self).rest()) {
                Ok((v, n)) => (r matches Ok(x) && x == v && final(self).position() == old(self).position() + n),
                Err(k) => (r matches Err(e) && e.kind() == k),
            },
    {
        if self.data.len() - self.pos < 8 {
            return Err(DbError::io("failed to fill whole buffer"));
        }
        let v = read_u64_at(self.data, self.pos);
        assert(self.rest().subrange(0, 8) =~= self.data@.subrange(self.pos as int, self.pos + 8));
        self.pos = self.pos + 8;
        Ok(v)
    }

    /// The next `len` bytes.
    pub fn read_exact(&mut self, len: u64) -> (r: Result<Vec<u8>, DbError>)
        requires
            old(self).wf(),
        ensures
            final(self).wf(),
            final(self).input() == old(self).input(),
            old(self).position() <= final(self).position(),
            r is Ok <==> old(self).rest().len() >= len,
            r matches Ok(v) ==> v@ == old(self).rest().subrange(0, len as int) && final(self).position()
                == old(self).position() + len,
            r matches Err(e) ==> e is Io,
    {
        if ((self.data.len() - self.pos) as u64) < len {
            return Err(DbError::io("failed to fill whole buffer"));
        }
        let end = self.pos + len as usize;
        let v = copy_range(self.data, self.pos, end);
        assert(v@ =~= self.rest().subrange(0, len as int));
        self.pos = end;
        Ok(v)
    }

    /// A byte string written as its `u64` length, then its bytes.
    pub fn read_bytes(&mut self) -> (r: Result<Vec<u8>, DbError>)
        requires
            old(self).wf(),
        ensures
            final(self).wf(),
            final(self).input() == old(self).input(),
            old(self).position() <= final(self).position(),
            match parse_bytes(old(self).rest()) {
                Ok((v, n)) => (r matches Ok(x) && x@ == v && final(self).position() == old(self).position() + n),
                Err(k) => (r matches Err(e) && e.kind() == k),
            },
    {
        let len = self.read_u64()?;
        let ghost mid = *self;
        proof {
            mid.lemma_rest(0);
            old(self).lemma_rest(8);
        }
        let v = self.read_exact(len)?;
        proof {
            assert(old(self).rest().subrange(8, 8 + len) =~= mid.rest().subrange(0, len as int));
        }
        Ok(v)
    }
}

} // verus!

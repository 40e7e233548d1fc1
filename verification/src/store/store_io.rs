//! A byte store held in memory: what the index files hold while they are
//! read or written.
use crate::codec::Record;
use crate::store::error::{EncodingError, Error};
use vstd::prelude::*;
use vstd::slice::{slice_subrange, slice_to_vec};

verus! {

/// `s` after `buf` is written at `off`: the store grows to hold it, and a gap
/// between its old end and `off` is filled with zeros.
pub open spec fn written(s: Seq<u8>, off: int, buf: Seq<u8>) -> Seq<u8> {
    let n = if s.len() >= off + buf.len() {
        s.len() as int
    } else {
        off + buf.len()
    };
    Seq::new(
        n as nat,
        |i: int|
            if off <= i < off + buf.len() {
                buf[i - off]
            } else if i < s.len() {
                s[i]
            } else {
                0u8
            },
    )
}

/// Writing inside the store keeps its length and all the bytes outside what
/// was written.
pub proof fn lemma_written_inside(s: Seq<u8>, off: int, buf: Seq<u8>)
    requires
        0 <= off,
        off + buf.len() <= s.len(),
    ensures
        written(s, off, buf).len() == s.len(),
        written(s, off, buf).subrange(off, off + buf.len()) == buf,
        forall|p: int|
            0 <= p < s.len() && !(off <= p < off + buf.len()) ==> #[trigger] written(s, off, buf)[p]
                == s[p],
{
    assert(written(s, off, buf).subrange(off, off + buf.len()) =~= buf);
}

/// What a store gives back of a write: the bytes of a value written at `off`
/// read back as that value, wherever the store's bytes end.
pub proof fn lemma_read_written<T: Record>(s: Seq<u8>, off: int, v: T::V)
    requires
        0 <= off,
        s.len() <= u64::MAX,
        off + T::spec_encode(v).len() <= u64::MAX,
    ensures
        T::spec_decode(written(s, off, T::spec_encode(v)), off) == Some((v, off + T::spec_encode(v).len())),
{
    let buf = T::spec_encode(v);
    let t = written(s, off, buf);
    assert(t.subrange(off, off + buf.len()) =~= buf);
    T::lemma_decode_encoded(v, t, off);
}

/// Where the `size` bytes from `offset` start and end in bytes of length
/// `len`, if they all lie inside.
pub fn byte_range(len: usize, offset: u64, size: u64) -> (r: Option<(usize, usize)>)
    ensures
        r == if offset + size <= len {
            Some((offset as usize, (offset + size) as usize))
        } else {
            None::<(usize, usize)>
        },
{
    let len64 = len as u64;
    if offset > len64 || size > len64 - offset {
        None
    } else {
        Some((offset as usize, (offset + size) as usize))
    }
}

/// A store that can be read.
pub trait ReadableStore {
    /// The bytes the store holds.
    spec fn spec_bytes(&self) -> Seq<u8>;

    /// The `size` bytes from `offset`, if the store holds them all.
    fn read_bytes(&self, offset: u64, size: u64) -> (r: Result<Vec<u8>, Error>)
        ensures
            match r {
                Ok(b) => offset + size <= self.spec_bytes().len() && b@ == self.spec_bytes().subrange(
                    offset as int,
                    offset + size,
                ),
                Err(e) => offset + size > self.spec_bytes().len() && e == Error::OutOfRange,
            },
    ;
}

/// A store that can be written.
pub trait WriteableStore: ReadableStore {
    /// Writes `buf` at `offset`, growing the store where it ends before `buf` does.
    fn write_bytes(&mut self, buf: &[u8], offset: u64) -> (r: Result<(), Error>)
        ensures
            match r {
                Ok(()) => offset + buf@.len() <= usize::MAX && final(self).spec_bytes().len() <= usize::MAX
                    && final(self).spec_bytes() == written(
                    old(self).spec_bytes(),
                    offset as int,
                    buf@,
                ),
                Err(e) => offset + buf@.len() > usize::MAX && e == Error::OutOfRange
                    && final(self).spec_bytes() == old(self).spec_bytes(),
            },
    ;

    /// Writes `buf` at the end of the store and returns where it starts.
    fn append_bytes(&mut self, buf: &[u8]) -> (r: Result<u64, Error>)
        ensures
            match r {
                Ok(off) => off == old(self).spec_bytes().len() && final(self).spec_bytes()
                    == old(self).spec_bytes() + buf@ && final(self).spec_bytes().len() <= usize::MAX,
                Err(e) => old(self).spec_bytes().len() + buf@.len() > usize::MAX && e
                    == Error::OutOfRange && final(self).spec_bytes() == old(self).spec_bytes(),
            },
    ;
}

/// The bytes of an index file, held in memory.
#[derive(Debug)]
pub struct MemStore {
    bytes: Vec<u8>,
}

impl View for MemStore {
    type V = Seq<u8>;

    open spec fn view(&self) -> Seq<u8> {
        self.spec_bytes()
    }
}

impl MemStore {
    /// An empty store.
    pub fn new() -> (r: MemStore)
        ensures
            r@ == Seq::<u8>::empty(),
    {
        MemStore { bytes: Vec::new() }
    }

    /// A store that holds `bytes`.
    pub fn from_bytes(bytes: Vec<u8>) -> (r: MemStore)
        ensures
            r@ == bytes@,
    {
        MemStore { bytes }
    }

    /// The bytes the store holds.
    pub fn as_bytes(&self) -> (r: &[u8])
        ensures
            r@ == self@,
    {
        self.bytes.as_slice()
    }

    /// The bytes the store holds, taken out of it.
    pub fn into_bytes(self) -> (r: Vec<u8>)
        ensures
            r@ == self@,
    {
        self.bytes
    }

    /// The number of bytes the store holds.
    pub fn len(&self) -> (r: u64)
        ensures
            r == self@.len(),
            self@.len() <= usize::MAX,
    {
        self.bytes.len() as u64
    }

    /// The value stored at `offset`. As for a mapped file, `offset` must lie
    /// inside the store.
    pub fn read<T: Record>(&self, offset: u64) -> (r: Result<T, Error>)
        ensures
            match r {
                Ok(v) => offset < self@.len() && T::spec_decode(self@, offset as int) is Some
                    && T::spec_decode(self@, offset as int).unwrap().0 == v@,
                Err(e) => {
                    ||| offset >= self@.len() && e == Error::OutOfRange
                    ||| offset < self@.len() && T::spec_decode(self@, offset as int) is None && e
                        is Encoding
                },
            },
    {
        let len = self.bytes.len();
        if offset >= len as u64 {
            return Err(Error::OutOfRange);
        }
        match T::decode(self.bytes.as_slice(), offset as usize) {
            Ok((v, _)) => Ok(v),
            Err(e) => Err(Error::Encoding(EncodingError::Decode(e))),
        }
    }

    /// Writes the bytes of `data` at `offset`.
    pub fn write<T: Record>(&mut self, data: &T, offset: u64) -> (r: Result<(), Error>)
        ensures
            match r {
                Ok(()) => final(self)@ == written(old(self)@, offset as int, T::spec_encode(data@))
                    && final(self)@.len() <= usize::MAX,
                Err(e) => e == Error::OutOfRange && final(self)@ == old(self)@ && offset
                    + T::spec_encode(data@).len() > usize::MAX,
            },
    {
        let mut buf: Vec<u8> = Vec::new();
        data.encode_into(&mut buf);
        proof {
            assert(buf@ =~= T::spec_encode(data@));
        }
        self.write_bytes(buf.as_slice(), offset)
    }

    /// Writes the bytes of `data` at the end of the store and returns where they start.
    pub fn append<T: Record>(&mut self, data: &T) -> (r: Result<u64, Error>)
        ensures
            match r {
                Ok(off) => off == old(self)@.len() && final(self)@ == old(self)@ + T::spec_encode(
                    data@,
                ) && final(self)@.len() <= usize::MAX,
                Err(e) => e == Error::OutOfRange && final(self)@ == old(self)@ && old(self)@.len()
                    + T::spec_encode(data@).len() > usize::MAX,
            },
    {
        let mut buf: Vec<u8> = Vec::new();
        data.encode_into(&mut buf);
        proof {
            assert(buf@ =~= T::spec_encode(data@));
        }
        self.append_bytes(buf.as_slice())
    }
}

impl ReadableStore for MemStore {
    closed spec fn spec_bytes(&self) -> Seq<u8> {
        self.bytes@
    }

    fn read_bytes(&self, offset: u64, size: u64) -> (r: Result<Vec<u8>, Error>) {
        match byte_range(self.bytes.len(), offset, size) {
            Some((start, end)) => {
                let part = slice_subrange(self.bytes.as_slice(), start, end);
                Ok(slice_to_vec(part))
            },
            None => Err(Error::OutOfRange),
        }
    }
}

impl WriteableStore for MemStore {
    fn write_bytes(&mut self, buf: &[u8], offset: u64) -> (r: Result<(), Error>) {
        let n = buf.len();
        if offset > (usize::MAX - n) as u64 {
            return Err(Error::OutOfRange);
        }
        let off = offset as usize;
        let ghost s0 = self.bytes@;
        let _ = self.bytes.len();
        while self.bytes.len() < off
            invariant
                self.bytes@.len() <= off || self.bytes@ == s0,
                forall|i: int| 0 <= i < self.bytes@.len() ==> #[trigger] self.bytes@[i] == if i < s0.len() {
                    s0[i]
                } else {
                    0u8
                },
                self.bytes@.len() >= s0.len(),
            decreases off - self.bytes@.len(),
        {
            self.bytes.push(0u8);
        }
        let ghost s1 = self.bytes@;
        let mut i: usize = 0;
        while i < n
            invariant
                n == buf@.len(),
                off + n <= usize::MAX,
                i <= n,
                s1.len() >= off,
                s1.len() >= s0.len(),
                forall|j: int| 0 <= j < s1.len() ==> #[trigger] s1[j] == if j < s0.len() {
                    s0[j]
                } else {
                    0u8
                },
                self.bytes@.len() == if s1.len() >= off + i {
                    s1.len() as int
                } else {
                    off + i
                },
                forall|j: int|
                    0 <= j < self.bytes@.len() ==> #[trigger] self.bytes@[j] == if off <= j < off
                        + i {
                        buf@[j - off]
                    } else {
                        s1[j]
                    },
            decreases n - i,
        {
            let pos = off + i;
            if pos < self.bytes.len() {
                self.bytes.set(pos, buf[i]);
            } else {
                self.bytes.push(buf[i]);
            }
            i = i + 1;
        }
        proof {
            assert(self.bytes@ =~= written(s0, off as int, buf@));
        }
        Ok(())
    }

    fn append_bytes(&mut self, buf: &[u8]) -> (r: Result<u64, Error>) {
        let len = self.bytes.len();
        if buf.len() > usize::MAX - len {
            return Err(Error::OutOfRange);
        }
        let offset = len as u64;
        let ghost s0 = self.bytes@;
        let r = self.write_bytes(buf, offset);
        proof {
            assert(r is Ok);
            assert(self.bytes@ =~= s0 + buf@);
        }
        Ok(offset)
    }
}

} // verus!

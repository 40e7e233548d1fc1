//! The byte layout of everything the index stores: little-endian, fixed-width
//! integers; a sequence is its length as a `u64` followed by its elements; a
//! fixed-size array is its elements alone; a struct is its fields in order.
use vstd::bytes::*;
use vstd::prelude::*;
use vstd::slice::slice_subrange;

verus! {

/// Why a value could not be read back from bytes.
#[derive(Debug, Clone, Copy, PartialEq, Eq)]
pub enum DecodeError {
    /// The bytes end before the value does.
    UnexpectedEnd,
}

/// The message that describes `e`: the name of what went wrong. How many
/// bytes were missing is not kept.
pub open spec fn decode_error_text(e: DecodeError) -> Seq<char> {
    match e {
        DecodeError::UnexpectedEnd => "UnexpectedEnd"@,
    }
}

impl DecodeError {
    /// The message that describes the error.
    pub fn message(&self) -> (r: String)
        ensures
            r@ == decode_error_text(*self),
    {
        let s = String::from_str("UnexpectedEnd");
        proof {
            reveal_strlit("UnexpectedEnd");
        }
        s
    }
}

/// The `u64` stored little-endian at `s[p..p + 8]`.
pub open spec fn u64_at(s: Seq<u8>, p: int) -> u64 {
    spec_u64_from_le_bytes(s.subrange(p, p + 8))
}

/// The `u16` stored little-endian at `s[p..p + 2]`.
pub open spec fn u16_at(s: Seq<u8>, p: int) -> u16 {
    spec_u16_from_le_bytes(s.subrange(p, p + 2))
}

/// The encodings of the elements of `v`, one after the other.
pub open spec fn concat_map<A>(v: Seq<A>, f: spec_fn(A) -> Seq<u8>) -> Seq<u8>
    decreases v.len(),
{
    if v.len() == 0 {
        Seq::empty()
    } else {
        concat_map(v.drop_last(), f) + f(v.last())
    }
}

/// Where every element encodes to `size` bytes, element `k` stands at `k * size`.
pub proof fn lemma_concat_map_fixed<A>(v: Seq<A>, f: spec_fn(A) -> Seq<u8>, size: nat)
    requires
        forall|a: A| #[trigger] f(a).len() == size,
    ensures
        concat_map(v, f).len() == v.len() * size,
        forall|k: int|
            0 <= k < v.len() ==> concat_map(v, f).subrange(k * size, k * size + size) == f(
                #[trigger] v[k],
            ),
    decreases v.len(),
{
    if v.len() > 0 {
        let init = v.drop_last();
        lemma_concat_map_fixed(init, f, size);
        let n = v.len();
        assert(init.len() * size + size == n * size) by (nonlinear_arith)
            requires
                init.len() + 1 == n,
        ;
        assert forall|k: int| 0 <= k < v.len() implies concat_map(v, f).subrange(
            k * size,
            k * size + size,
        ) == f(#[trigger] v[k]) by {
            let c = concat_map(v, f);
            let ci = concat_map(init, f);
            assert(c == ci + f(v.last()));
            if k < n - 1 {
                assert(k * size + size <= init.len() * size) by (nonlinear_arith)
                    requires
                        k + 1 <= init.len(),
                ;
                assert(0 <= k * size) by (nonlinear_arith)
                    requires
                        0 <= k,
                ;
                assert(c.subrange(k * size, k * size + size) =~= ci.subrange(
                    k * size,
                    k * size + size,
                ));
                assert(init[k] == v[k]);
            } else {
                assert(k * size == init.len() * size);
                assert(c.subrange(k * size, k * size + size) =~= f(v.last()));
            }
        }
    }
}

/// Where `s[p..]` starts with `e1 + e2`, it starts at `p + e1.len()` with `e2`.
pub proof fn lemma_subrange_split(s: Seq<u8>, p: int, e1: Seq<u8>, e2: Seq<u8>)
    requires
        0 <= p,
        p + e1.len() + e2.len() <= s.len(),
        s.subrange(p, p + e1.len() + e2.len()) == e1 + e2,
    ensures
        s.subrange(p, p + e1.len()) == e1,
        s.subrange(p + e1.len(), p + e1.len() + e2.len()) == e2,
{
    let whole = s.subrange(p, p + e1.len() + e2.len());
    assert(s.subrange(p, p + e1.len()) =~= whole.subrange(0, e1.len() as int));
    assert((e1 + e2).subrange(0, e1.len() as int) =~= e1);
    assert(s.subrange(p + e1.len(), p + e1.len() + e2.len()) =~= whole.subrange(
        e1.len() as int,
        (e1.len() + e2.len()) as int,
    ));
    assert((e1 + e2).subrange(e1.len() as int, (e1.len() + e2.len()) as int) =~= e2);
}

/// Where `s[p..]` starts with `e`, it starts with any part of `e` at that part's place.
pub proof fn lemma_subrange_inner(s: Seq<u8>, p: int, e: Seq<u8>, a: int, b: int)
    requires
        0 <= p,
        p + e.len() <= s.len(),
        s.subrange(p, p + e.len()) == e,
        0 <= a <= b <= e.len(),
    ensures
        s.subrange(p + a, p + b) == e.subrange(a, b),
{
    assert(s.subrange(p + a, p + b) =~= s.subrange(p, p + e.len()).subrange(a, b));
}

/// The bytes of `x` little-endian.
pub open spec fn enc_u64(x: u64) -> Seq<u8> {
    spec_u64_to_le_bytes(x)
}

/// The bytes of `x` little-endian.
pub open spec fn enc_u16(x: u16) -> Seq<u8> {
    spec_u16_to_le_bytes(x)
}

pub proof fn lemma_enc_u64(x: u64)
    ensures
        enc_u64(x).len() == 8,
        spec_u64_from_le_bytes(enc_u64(x)) == x,
{
    lemma_auto_spec_u64_to_from_le_bytes();
    assert(spec_u64_to_le_bytes(x).len() == 8);
}

pub proof fn lemma_enc_u16(x: u16)
    ensures
        enc_u16(x).len() == 2,
        spec_u16_from_le_bytes(enc_u16(x)) == x,
{
    lemma_auto_spec_u16_to_from_le_bytes();
    assert(spec_u16_to_le_bytes(x).len() == 2);
}

/// Reading back a stored `u64`.
pub proof fn lemma_u64_at(s: Seq<u8>, p: int, x: u64)
    requires
        0 <= p,
        p + 8 <= s.len(),
        s.subrange(p, p + 8) == enc_u64(x),
    ensures
        u64_at(s, p) == x,
{
    lemma_enc_u64(x);
}

/// Reading back a stored `u16`.
pub proof fn lemma_u16_at(s: Seq<u8>, p: int, x: u16)
    requires
        0 <= p,
        p + 2 <= s.len(),
        s.subrange(p, p + 2) == enc_u16(x),
    ensures
        u16_at(s, p) == x,
{
    lemma_enc_u16(x);
}

/// Appends the encoding of `x`.
pub fn push_u64(out: &mut Vec<u8>, x: u64)
    ensures
        final(out)@ == old(out)@ + enc_u64(x),
{
    let b = u64_to_le_bytes(x);
    out.extend_from_slice(b.as_slice());
}

/// Appends the encoding of `x`.
pub fn push_u16(out: &mut Vec<u8>, x: u16)
    ensures
        final(out)@ == old(out)@ + enc_u16(x),
{
    let b = u16_to_le_bytes(x);
    out.extend_from_slice(b.as_slice());
}

/// Reads the `u64` at `s[p..p + 8]`.
pub fn read_u64(s: &[u8], p: usize) -> (r: Result<u64, DecodeError>)
    ensures
        match r {
            Ok(x) => p + 8 <= s@.len() <= usize::MAX && x == u64_at(s@, p as int),
            Err(_) => p + 8 > s@.len(),
        },
{
    if p > s.len() || s.len() - p < 8 {
        return Err(DecodeError::UnexpectedEnd);
    }
    let b = slice_subrange(s, p, p + 8);
    Ok(u64_from_le_bytes(b))
}

/// Reads the `u16` at `s[p..p + 2]`.
pub fn read_u16(s: &[u8], p: usize) -> (r: Result<u16, DecodeError>)
    ensures
        match r {
            Ok(x) => p + 2 <= s@.len() <= usize::MAX && x == u16_at(s@, p as int),
            Err(_) => p + 2 > s@.len(),
        },
{
    if p > s.len() || s.len() - p < 2 {
        return Err(DecodeError::UnexpectedEnd);
    }
    let b = slice_subrange(s, p, p + 2);
    Ok(u16_from_le_bytes(b))
}

/// A value with a byte layout of its own, read back from any place in a byte
/// sequence that holds it.
pub trait Record: View + Sized {
    /// The bytes of a value whose view is `v`.
    spec fn spec_encode(v: Self::V) -> Seq<u8>;

    /// The view of the value stored at `s[p..]` and the position where it ends, if
    /// the bytes there hold one.
    spec fn spec_decode(s: Seq<u8>, p: int) -> Option<(Self::V, int)>;

    /// A stored value is read back as it was.
    proof fn lemma_decode_encoded(v: Self::V, s: Seq<u8>, p: int)
        requires
            0 <= p,
            p + Self::spec_encode(v).len() <= s.len(),
            s.len() <= u64::MAX,
            s.subrange(p, p + Self::spec_encode(v).len()) == Self::spec_encode(v),
        ensures
            Self::spec_decode(s, p) == Some((v, p + Self::spec_encode(v).len())),
    ;

    /// Appends the bytes of `self`.
    fn encode_into(&self, out: &mut Vec<u8>)
        ensures
            final(out)@ == old(out)@ + Self::spec_encode(self@),
    ;

    /// Reads the value stored at `s[p..]`.
    fn decode(s: &[u8], p: usize) -> (r: Result<(Self, usize), DecodeError>)
        ensures
            match r {
                Ok((v, e)) => Self::spec_decode(s@, p as int) == Some((v@, e as int)) && p <= e
                    <= s@.len(),
                Err(_) => Self::spec_decode(s@, p as int) is None,
            },
    ;
}

impl Record for i64 {
    open spec fn spec_encode(v: i64) -> Seq<u8> {
        enc_u64(v as u64)
    }

    open spec fn spec_decode(s: Seq<u8>, p: int) -> Option<(i64, int)> {
        if 0 <= p && p + 8 <= s.len() {
            Some((u64_at(s, p) as i64, p + 8))
        } else {
            None
        }
    }

    proof fn lemma_decode_encoded(v: i64, s: Seq<u8>, p: int) {
        lemma_enc_u64(v as u64);
        lemma_u64_at(s, p, v as u64);
        assert((v as u64) as i64 == v) by (bit_vector);
    }

    fn encode_into(&self, out: &mut Vec<u8>) {
        let x: u64 = *self as u64;
        push_u64(out, x);
    }

    fn decode(s: &[u8], p: usize) -> (r: Result<(i64, usize), DecodeError>) {
        let x = read_u64(s, p)?;
        Ok((#[verifier::truncate] (x as i64), p + 8))
    }
}

impl Record for u64 {
    open spec fn spec_encode(v: u64) -> Seq<u8> {
        enc_u64(v)
    }

    open spec fn spec_decode(s: Seq<u8>, p: int) -> Option<(u64, int)> {
        if 0 <= p && p + 8 <= s.len() {
            Some((u64_at(s, p), p + 8))
        } else {
            None
        }
    }

    proof fn lemma_decode_encoded(v: u64, s: Seq<u8>, p: int) {
        lemma_enc_u64(v);
        lemma_u64_at(s, p, v);
    }

    fn encode_into(&self, out: &mut Vec<u8>) {
        push_u64(out, *self);
    }

    fn decode(s: &[u8], p: usize) -> (r: Result<(u64, usize), DecodeError>) {
        let x = read_u64(s, p)?;
        Ok((x, p + 8))
    }
}

} // verus!

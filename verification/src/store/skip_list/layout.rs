//! How a skip list lies in a store: a metadata record with the list's first and
//! last node on every level, and one record per node with its data and its
//! links to the nodes before and after it on each of its levels.
use crate::codec::{
    concat_map, enc_u64, lemma_concat_map_fixed, lemma_enc_u64, lemma_subrange_inner,
    lemma_subrange_split, lemma_u64_at, push_u64, read_u64, u64_at, Record,
};
use crate::store::error::{EncodingError, Error};
use vstd::bytes::spec_u64_to_le_bytes_to_open;
use vstd::prelude::*;

verus! {

/// The highest number of levels a node can have.
pub const MAX_LEVEL: u8 = 32;

/// The number of bytes of the metadata record.
pub const META_SIZE: u64 = 521;

/// The links of a node on one level: the offsets of the nodes before and after
/// it there, 0 where there is none.
#[derive(Debug, Clone, Copy, PartialEq, Eq, Structural)]
pub struct Level {
    pub backward: u64,
    pub forward: u64,
}

impl Level {
    /// A level with no links.
    pub fn empty() -> (r: Level)
        ensures
            r.backward == 0 && r.forward == 0,
    {
        Level { backward: 0, forward: 0 }
    }
}

/// The metadata of a skip list, as its record holds it.
pub struct MetaV {
    pub heads: Seq<Level>,
    pub len: u64,
    pub level: u8,
}

/// The metadata record: for each of the `MAX_LEVEL` levels the first node
/// (`forward`) and the last node (`backward`), the number of nodes, and the
/// highest level any node has.
#[derive(Debug)]
pub struct MetaData {
    pub heads: Vec<Level>,
    pub len: u64,
    pub level: u8,
}

impl View for MetaData {
    type V = MetaV;

    open spec fn view(&self) -> MetaV {
        MetaV { heads: self.heads@, len: self.len, level: self.level }
    }
}

/// The metadata of a list with no node: no links, no node, level 0.
pub open spec fn empty_meta() -> MetaV {
    MetaV {
        heads: Seq::new(MAX_LEVEL as nat, |i: int| Level { backward: 0, forward: 0 }),
        len: 0,
        level: 0,
    }
}

impl MetaData {
    /// The metadata of a list with no node.
    pub fn empty() -> (r: MetaData)
        ensures
            r@ == empty_meta(),
            r@.heads.len() == MAX_LEVEL,
            forall|i: int| 0 <= i < MAX_LEVEL ==> #[trigger] r@.heads[i] == (Level { backward: 0, forward: 0 }),
            r@.len == 0,
            r@.level == 0,
    {
        let mut heads: Vec<Level> = Vec::new();
        let mut i: u8 = 0;
        while i < MAX_LEVEL
            invariant
                i <= MAX_LEVEL,
                heads@.len() == i,
                forall|k: int| 0 <= k < i ==> #[trigger] heads@[k] == (Level { backward: 0, forward: 0 }),
            decreases MAX_LEVEL - i,
        {
            heads.push(Level::empty());
            i = i + 1;
        }
        proof {
            assert(heads@ =~= empty_meta().heads);
        }
        MetaData { heads, len: 0, level: 0 }
    }
}

/// A node as its record holds it.
pub struct NodeV<V> {
    pub data: V,
    pub levels: Seq<Level>,
}

/// A node record: the data and one `Level` for each of the node's levels.
#[derive(Debug)]
pub struct Node<T> {
    pub data: T,
    pub levels: Vec<Level>,
}

impl<T: View> View for Node<T> {
    type V = NodeV<T::V>;

    open spec fn view(&self) -> NodeV<T::V> {
        NodeV { data: self.data@, levels: self.levels@ }
    }
}

pub open spec fn enc_level(l: Level) -> Seq<u8> {
    enc_u64(l.backward) + enc_u64(l.forward)
}

/// The `Level` stored at `s[q..q + 16]`.
pub open spec fn level_at(s: Seq<u8>, q: int) -> Level {
    Level { backward: u64_at(s, q), forward: u64_at(s, q + 8) }
}

pub open spec fn enc_levels(ls: Seq<Level>) -> Seq<u8> {
    concat_map(ls, |l: Level| enc_level(l))
}

/// The bytes of the metadata record.
pub open spec fn enc_meta(m: MetaV) -> Seq<u8> {
    enc_levels(m.heads) + enc_u64(m.len) + seq![m.level]
}

/// The metadata stored at `s[p..]`, if the store holds a whole record there.
pub open spec fn dec_meta(s: Seq<u8>, p: int) -> Option<MetaV> {
    if 0 <= p && p + META_SIZE <= s.len() {
        Some(
            MetaV {
                heads: Seq::new(MAX_LEVEL as nat, |k: int| level_at(s, p + 16 * k)),
                len: u64_at(s, p + 512),
                level: s[p + 520],
            },
        )
    } else {
        None
    }
}

/// The bytes of a node record.
pub open spec fn enc_node<T: Record>(n: NodeV<T::V>) -> Seq<u8> {
    T::spec_encode(n.data) + enc_u64(n.levels.len() as u64) + enc_levels(n.levels)
}

/// The node stored at `s[p..]` and where its record ends, if the bytes there hold one.
pub open spec fn dec_node<T: Record>(s: Seq<u8>, p: int) -> Option<(NodeV<T::V>, int)> {
    match T::spec_decode(s, p) {
        Some((d, q)) => {
            if 0 <= q && q + 8 <= s.len() && q + 8 + 16 * u64_at(s, q) <= s.len() {
                Some(
                    (
                        NodeV {
                            data: d,
                            levels: Seq::new(u64_at(s, q) as nat, |k: int| level_at(s, q + 8 + 16 * k)),
                        },
                        q + 8 + 16 * u64_at(s, q),
                    ),
                )
            } else {
                None
            }
        },
        None => None,
    }
}

pub proof fn lemma_enc_level(l: Level)
    ensures
        enc_level(l).len() == 16,
{
    lemma_enc_u64(l.backward);
    lemma_enc_u64(l.forward);
}

pub proof fn lemma_level_at(s: Seq<u8>, q: int, l: Level)
    requires
        0 <= q,
        q + 16 <= s.len(),
        s.subrange(q, q + 16) == enc_level(l),
    ensures
        level_at(s, q) == l,
{
    lemma_enc_u64(l.backward);
    lemma_enc_u64(l.forward);
    lemma_subrange_split(s, q, enc_u64(l.backward), enc_u64(l.forward));
    lemma_u64_at(s, q, l.backward);
    lemma_u64_at(s, q + 8, l.forward);
}

pub proof fn lemma_enc_levels(ls: Seq<Level>)
    ensures
        enc_levels(ls).len() == ls.len() * 16,
        forall|k: int|
            0 <= k < ls.len() ==> enc_levels(ls).subrange(k * 16, k * 16 + 16) == enc_level(
                #[trigger] ls[k],
            ),
{
    let f = |l: Level| enc_level(l);
    assert forall|a: Level| #[trigger] f(a).len() == 16 by {
        lemma_enc_level(a);
    }
    lemma_concat_map_fixed(ls, f, 16);
}

/// The levels stored one after the other from `q` are read back as they were.
pub proof fn lemma_levels_at(s: Seq<u8>, q: int, ls: Seq<Level>)
    requires
        0 <= q,
        q + ls.len() * 16 <= s.len(),
        s.subrange(q, q + ls.len() * 16) == enc_levels(ls),
    ensures
        Seq::new(ls.len(), |k: int| level_at(s, q + 16 * k)) == ls,
{
    lemma_enc_levels(ls);
    let d = Seq::new(ls.len(), |k: int| level_at(s, q + 16 * k));
    assert forall|k: int| 0 <= k < ls.len() implies d[k] == ls[k] by {
        assert(0 <= k * 16) by (nonlinear_arith)
            requires
                0 <= k,
        ;
        assert(k * 16 + 16 <= ls.len() * 16) by (nonlinear_arith)
            requires
                k < ls.len(),
        ;
        lemma_subrange_inner(s, q, enc_levels(ls), k * 16, k * 16 + 16);
        lemma_level_at(s, q + 16 * k, ls[k]);
    }
    assert(d =~= ls);
}

pub proof fn lemma_enc_meta_len(m: MetaV)
    requires
        m.heads.len() == MAX_LEVEL,
    ensures
        enc_meta(m).len() == META_SIZE,
{
    lemma_enc_levels(m.heads);
    lemma_enc_u64(m.len);
}

/// The metadata record of a list with no node holds only zero bytes.
pub proof fn lemma_empty_meta_zeros()
    ensures
        enc_meta(empty_meta()) == Seq::new(META_SIZE as nat, |i: int| 0u8),
{
    let zero: u64 = 0;
    assert(enc_u64(zero) =~= Seq::new(8, |i: int| 0u8)) by {
        spec_u64_to_le_bytes_to_open(zero);
        assert((zero & 0xff) as u8 == 0 && ((zero >> 8) & 0xff) as u8 == 0 && ((zero >> 16) & 0xff) as u8
            == 0 && ((zero >> 24) & 0xff) as u8 == 0 && ((zero >> 32) & 0xff) as u8 == 0 && ((zero >> 40)
            & 0xff) as u8 == 0 && ((zero >> 48) & 0xff) as u8 == 0 && ((zero >> 56) & 0xff) as u8 == 0)
            by (bit_vector)
            requires
                zero == 0,
        ;
    }
    let e = Level { backward: 0, forward: 0 };
    assert(enc_level(e) =~= Seq::new(16, |i: int| 0u8));
    let heads = empty_meta().heads;
    lemma_enc_levels(heads);
    let c = enc_levels(heads);
    assert forall|i: int| 0 <= i < 512 implies c[i] == 0u8 by {
        let k = i / 16;
        assert(0 <= k < 32 && 16 * k <= i < 16 * k + 16) by (nonlinear_arith)
            requires
                0 <= i < 512,
                k == i / 16,
        ;
        assert(heads[k] == e);
        assert(c.subrange(k * 16, k * 16 + 16) == enc_level(heads[k]));
        assert(c[i] == c.subrange(k * 16, k * 16 + 16)[i - k * 16]);
    }
    assert(enc_meta(empty_meta()) =~= Seq::new(META_SIZE as nat, |i: int| 0u8));
}

/// A stored metadata record is read back as it was.
pub proof fn lemma_dec_meta(s: Seq<u8>, p: int, m: MetaV)
    requires
        m.heads.len() == MAX_LEVEL,
        0 <= p,
        p + META_SIZE <= s.len(),
        s.subrange(p, p + META_SIZE) == enc_meta(m),
    ensures
        dec_meta(s, p) == Some(m),
{
    lemma_enc_levels(m.heads);
    lemma_enc_u64(m.len);
    let a = enc_levels(m.heads);
    let b = enc_u64(m.len);
    let c = seq![m.level];
    lemma_subrange_split(s, p, a + b, c);
    lemma_subrange_split(s, p, a, b);
    lemma_levels_at(s, p, m.heads);
    lemma_u64_at(s, p + 512, m.len);
    assert(s.subrange(p + 520, p + 521)[0] == s[p + 520]);
    let d = dec_meta(s, p).unwrap();
    assert(d.heads =~= m.heads);
}

pub proof fn lemma_enc_node_len<T: Record>(n: NodeV<T::V>)
    ensures
        enc_node::<T>(n).len() == T::spec_encode(n.data).len() + 8 + n.levels.len() * 16,
{
    lemma_enc_levels(n.levels);
    lemma_enc_u64(n.levels.len() as u64);
}

/// A stored node record is read back as it was.
pub proof fn lemma_dec_node<T: Record>(s: Seq<u8>, p: int, n: NodeV<T::V>)
    requires
        n.levels.len() <= MAX_LEVEL,
        0 <= p,
        p + enc_node::<T>(n).len() <= s.len(),
        s.len() <= u64::MAX,
        s.subrange(p, p + enc_node::<T>(n).len()) == enc_node::<T>(n),
    ensures
        dec_node::<T>(s, p) == Some((n, p + enc_node::<T>(n).len())),
{
    lemma_enc_node_len::<T>(n);
    lemma_enc_u64(n.levels.len() as u64);
    lemma_enc_levels(n.levels);
    let a = T::spec_encode(n.data);
    let b = enc_u64(n.levels.len() as u64);
    let c = enc_levels(n.levels);
    lemma_subrange_split(s, p, a + b, c);
    lemma_subrange_split(s, p, a, b);
    T::lemma_decode_encoded(n.data, s, p);
    let q = p + a.len();
    lemma_u64_at(s, q, n.levels.len() as u64);
    lemma_levels_at(s, q + 8, n.levels);
    let (d, e) = dec_node::<T>(s, p).unwrap();
    assert(d.levels =~= n.levels);
}

/// Appends the bytes of `l`.
pub fn push_level(out: &mut Vec<u8>, l: &Level)
    ensures
        final(out)@ == old(out)@ + enc_level(*l),
{
    push_u64(out, l.backward);
    push_u64(out, l.forward);
    proof {
        assert(final(out)@ =~= old(out)@ + enc_level(*l));
    }
}

/// Appends the bytes of each of `ls`.
pub fn push_levels(out: &mut Vec<u8>, ls: &Vec<Level>)
    ensures
        final(out)@ == old(out)@ + enc_levels(ls@),
{
    let ghost start = out@;
    let n = ls.len();
    let mut i: usize = 0;
    while i < n
        invariant
            n == ls@.len(),
            i <= n,
            out@ == start + enc_levels(ls@.take(i as int)),
        decreases n - i,
    {
        push_level(out, &ls[i]);
        proof {
            let t = ls@.take(i as int + 1);
            assert(t.drop_last() =~= ls@.take(i as int));
            assert(out@ =~= start + enc_levels(ls@.take(i as int)) + enc_level(ls@[i as int]));
        }
        i = i + 1;
    }
    proof {
        assert(ls@.take(n as int) =~= ls@);
    }
}

/// Reads `count` levels stored one after the other from `q`.
pub fn read_levels(s: &[u8], q: usize, count: usize) -> (r: Vec<Level>)
    requires
        q + 16 * count <= s@.len(),
    ensures
        r@ == Seq::new(count as nat, |k: int| level_at(s@, q + 16 * k)),
{
    let mut ls: Vec<Level> = Vec::new();
    let mut k: usize = 0;
    let mut at: usize = q;
    while k < count
        invariant
            q + 16 * count <= s@.len(),
            k <= count,
            at == q + 16 * k,
            ls@ =~= Seq::new(k as nat, |j: int| level_at(s@, q + 16 * j)),
        decreases count - k,
    {
        let b = read_u64(s, at);
        let f = read_u64(s, at + 8);
        let l = match (b, f) {
            (Ok(backward), Ok(forward)) => Level { backward, forward },
            _ => {
                proof {
                    assert(false);
                }
                Level::empty()
            },
        };
        ls.push(l);
        k = k + 1;
        at = at + 16;
    }
    ls
}

/// The bytes of the metadata record.
pub fn encode_meta(m: &MetaData) -> (r: Vec<u8>)
    ensures
        r@ == enc_meta(m@),
{
    let mut out: Vec<u8> = Vec::new();
    push_levels(&mut out, &m.heads);
    push_u64(&mut out, m.len);
    out.push(m.level);
    proof {
        assert(out@ =~= enc_meta(m@));
    }
    out
}

/// Reads the metadata record at `p`.
pub fn read_meta(s: &[u8], p: u64) -> (r: Result<MetaData, Error>)
    ensures
        match r {
            Ok(m) => dec_meta(s@, p as int) == Some(m@),
            Err(_) => dec_meta(s@, p as int) is None,
        },
{
    let len = s.len();
    if p > len as u64 || (len as u64) - p < META_SIZE {
        return Err(Error::OutOfRange);
    }
    let at = p as usize;
    let heads = read_levels(s, at, 32);
    let n = read_u64(s, at + 512);
    match n {
        Ok(n) => {
            let level = s[at + 520];
            let m = MetaData { heads, len: n, level };
            proof {
                assert(m@.heads =~= dec_meta(s@, p as int).unwrap().heads);
            }
            Ok(m)
        },
        Err(e) => {
            proof {
                assert(false);
            }
            Err(Error::Encoding(EncodingError::Decode(e)))
        },
    }
}

/// The bytes of a node record.
pub fn encode_node<T: Record>(n: &Node<T>) -> (r: Vec<u8>)
    ensures
        r@ == enc_node::<T>(n@),
{
    let mut out: Vec<u8> = Vec::new();
    n.data.encode_into(&mut out);
    push_u64(&mut out, n.levels.len() as u64);
    push_levels(&mut out, &n.levels);
    proof {
        assert(out@ =~= enc_node::<T>(n@));
    }
    out
}

/// Reads the node record at `p`.
pub fn read_node<T: Record>(s: &[u8], p: u64) -> (r: Result<Node<T>, Error>)
    ensures
        match r {
            Ok(n) => dec_node::<T>(s@, p as int) is Some && dec_node::<T>(s@, p as int).unwrap().0
                == n@,
            Err(_) => p > s@.len() || dec_node::<T>(s@, p as int) is None,
        },
{
    let len = s.len();
    if p > len as u64 {
        return Err(Error::OutOfRange);
    }
    read_node_at::<T>(s, p as usize)
}

fn read_node_at<T: Record>(s: &[u8], p: usize) -> (r: Result<Node<T>, Error>)
    ensures
        match r {
            Ok(n) => dec_node::<T>(s@, p as int) is Some && dec_node::<T>(s@, p as int).unwrap().0
                == n@,
            Err(_) => dec_node::<T>(s@, p as int) is None,
        },
{
    let (data, q) = match T::decode(s, p) {
        Ok(x) => x,
        Err(e) => return Err(Error::Encoding(EncodingError::Decode(e))),
    };
    let count = match read_u64(s, q) {
        Ok(c) => c,
        Err(e) => return Err(Error::Encoding(EncodingError::Decode(e))),
    };
    let room = s.len() - q - 8;
    if count > (room / 16) as u64 {
        proof {
            assert(16 * count > room) by (nonlinear_arith)
                requires
                    count > room / 16,
                    room >= 0,
            ;
        }
        return Err(Error::OutOfRange);
    }
    proof {
        assert(16 * count <= room) by (nonlinear_arith)
            requires
                count <= room / 16,
                room >= 0,
        ;
    }
    let levels = read_levels(s, q + 8, count as usize);
    Ok(Node { data, levels })
}

} // verus!

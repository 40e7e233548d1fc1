//! What the index keeps for each occurrence of a term: the document and how
//! often the term appears in it.
use crate::codec::{
    concat_map, enc_u16, enc_u64, lemma_concat_map_fixed, lemma_enc_u16, lemma_enc_u64, lemma_subrange_inner,
    lemma_subrange_split, lemma_u16_at, lemma_u64_at, push_u16, push_u64, read_u16, read_u64, u16_at,
    u64_at, DecodeError, Record,
};
use vstd::prelude::*;

verus! {

/// How many postings of a term are gathered before they go to its skip list.
pub const POSTING_BLOCK_MAX_SIZE: usize = 128;

/// The number of bytes of one stored posting.
pub const POSTINGS_INFO_SIZE: usize = 18;

/// One document that holds a term.
#[derive(Debug, Clone, Copy, PartialEq, Eq, Structural)]
pub struct PostingsInfo {
    /// The document's number in the order documents were added, from 1.
    pub id: u64,
    /// The caller's own number for the document.
    pub external_id: u64,
    /// The term's frequency in the document, scaled to `u16::MAX`.
    pub tf: u16,
}

impl View for PostingsInfo {
    type V = PostingsInfo;

    open spec fn view(&self) -> PostingsInfo {
        *self
    }
}

/// The bytes of a posting: `id`, `external_id`, `tf`.
pub open spec fn enc_info(i: PostingsInfo) -> Seq<u8> {
    enc_u64(i.id) + enc_u64(i.external_id) + enc_u16(i.tf)
}

/// The posting stored at `s[q..q + 18]`.
pub open spec fn info_at(s: Seq<u8>, q: int) -> PostingsInfo {
    PostingsInfo { id: u64_at(s, q), external_id: u64_at(s, q + 8), tf: u16_at(s, q + 16) }
}

/// The encoding of a sequence of postings, without its length.
pub open spec fn enc_infos(v: Seq<PostingsInfo>) -> Seq<u8> {
    concat_map(v, |i: PostingsInfo| enc_info(i))
}

pub proof fn lemma_enc_info_len(i: PostingsInfo)
    ensures
        enc_info(i).len() == 18,
{
    lemma_enc_u64(i.id);
    lemma_enc_u64(i.external_id);
    lemma_enc_u16(i.tf);
}

pub proof fn lemma_info_at(s: Seq<u8>, q: int, i: PostingsInfo)
    requires
        0 <= q,
        q + 18 <= s.len(),
        s.subrange(q, q + 18) == enc_info(i),
    ensures
        info_at(s, q) == i,
{
    lemma_enc_info_len(i);
    lemma_enc_u64(i.id);
    lemma_enc_u64(i.external_id);
    lemma_enc_u16(i.tf);
    let a = enc_u64(i.id);
    let b = enc_u64(i.external_id);
    let c = enc_u16(i.tf);
    lemma_subrange_split(s, q, a + b, c);
    lemma_subrange_split(s, q, a, b);
    lemma_u64_at(s, q, i.id);
    lemma_u64_at(s, q + 8, i.external_id);
    lemma_u16_at(s, q + 16, i.tf);
}

pub proof fn lemma_enc_infos(v: Seq<PostingsInfo>)
    ensures
        enc_infos(v).len() == v.len() * 18,
        forall|k: int|
            0 <= k < v.len() ==> enc_infos(v).subrange(k * 18, k * 18 + 18) == enc_info(
                #[trigger] v[k],
            ),
{
    let f = |i: PostingsInfo| enc_info(i);
    assert forall|a: PostingsInfo| #[trigger] f(a).len() == 18 by {
        lemma_enc_info_len(a);
    }
    lemma_concat_map_fixed(v, f, 18);
}

/// Appends the bytes of `i`.
pub fn push_info(out: &mut Vec<u8>, i: &PostingsInfo)
    ensures
        final(out)@ == old(out)@ + enc_info(*i),
{
    push_u64(out, i.id);
    push_u64(out, i.external_id);
    push_u16(out, i.tf);
    proof {
        assert(final(out)@ =~= old(out)@ + enc_info(*i));
    }
}

/// Reads the posting at `s[q..q + 18]`.
pub fn read_info(s: &[u8], q: usize) -> (r: PostingsInfo)
    requires
        q + 18 <= s@.len(),
    ensures
        r == info_at(s@, q as int),
{
    let id = read_u64(s, q);
    let external_id = read_u64(s, q + 8);
    let tf = read_u16(s, q + 16);
    match (id, external_id, tf) {
        (Ok(id), Ok(external_id), Ok(tf)) => PostingsInfo { id, external_id, tf },
        _ => {
            proof {
                assert(false);
            }
            PostingsInfo { id: 0, external_id: 0, tf: 0 }
        },
    }
}

/// A run of postings of one term, stored as one element of its skip list.
#[derive(Debug)]
pub struct PostingsBlock {
    pub postings: Vec<PostingsInfo>,
}

impl View for PostingsBlock {
    type V = Seq<PostingsInfo>;

    open spec fn view(&self) -> Seq<PostingsInfo> {
        self.postings@
    }
}

impl Record for PostingsBlock {
    open spec fn spec_encode(v: Seq<PostingsInfo>) -> Seq<u8> {
        enc_u64(v.len() as u64) + enc_infos(v)
    }

    open spec fn spec_decode(s: Seq<u8>, p: int) -> Option<(Seq<PostingsInfo>, int)> {
        if 0 <= p && p + 8 <= s.len() && p + 8 + 18 * u64_at(s, p) <= s.len() {
            Some(
                (
                    Seq::new(u64_at(s, p) as nat, |k: int| info_at(s, p + 8 + 18 * k)),
                    p + 8 + 18 * u64_at(s, p),
                ),
            )
        } else {
            None
        }
    }

    proof fn lemma_decode_encoded(v: Seq<PostingsInfo>, s: Seq<u8>, p: int) {
        lemma_enc_u64(v.len() as u64);
        lemma_enc_infos(v);
        let e = Self::spec_encode(v);
        lemma_subrange_split(s, p, enc_u64(v.len() as u64), enc_infos(v));
        lemma_u64_at(s, p, v.len() as u64);
        assert(v.len() <= u64::MAX) by (nonlinear_arith)
            requires
                e.len() == 8 + v.len() * 18,
                p + e.len() <= s.len(),
                s.len() <= u64::MAX,
                0 <= p,
        ;
        let d = Seq::new(u64_at(s, p) as nat, |k: int| info_at(s, p + 8 + 18 * k));
        assert forall|k: int| 0 <= k < v.len() implies d[k] == v[k] by {
            assert(0 <= k * 18) by (nonlinear_arith)
                requires
                    0 <= k,
            ;
            assert(k * 18 + 18 <= v.len() * 18) by (nonlinear_arith)
                requires
                    k < v.len(),
            ;
            lemma_subrange_inner(s, p + 8, enc_infos(v), k * 18, k * 18 + 18);
            lemma_info_at(s, p + 8 + 18 * k, v[k]);
        }
        assert(d =~= v);
    }

    fn encode_into(&self, out: &mut Vec<u8>) {
        let n = self.postings.len();
        push_u64(out, n as u64);
        let ghost start = out@;
        let mut i: usize = 0;
        while i < n
            invariant
                n == self.postings@.len(),
                i <= n,
                out@ == start + enc_infos(self.postings@.take(i as int)),
            decreases n - i,
        {
            push_info(out, &self.postings[i]);
            proof {
                let t = self.postings@.take(i as int + 1);
                assert(t.drop_last() =~= self.postings@.take(i as int));
                assert(t.last() == self.postings@[i as int]);
            }
            i = i + 1;
        }
        proof {
            assert(self.postings@.take(n as int) =~= self.postings@);
        }
    }

    fn decode(s: &[u8], p: usize) -> (r: Result<(PostingsBlock, usize), DecodeError>) {
        let n = read_u64(s, p)?;
        let len = s.len();
        let room = len - p - 8;
        if n > (room / 18) as u64 {
            proof {
                assert(18 * n > room) by (nonlinear_arith)
                    requires
                        n > room / 18,
                        room >= 0,
                ;
            }
            return Err(DecodeError::UnexpectedEnd);
        }
        proof {
            assert(18 * n <= room) by (nonlinear_arith)
                requires
                    n <= room / 18,
                    room >= 0,
            ;
        }
        let count = n as usize;
        let mut postings: Vec<PostingsInfo> = Vec::new();
        let mut k: usize = 0;
        let mut q: usize = p + 8;
        while k < count
            invariant
                count == n,
                p + 8 + 18 * n <= s@.len(),
                s@.len() <= usize::MAX,
                k <= count,
                q == p + 8 + 18 * k,
                postings@ =~= Seq::new(k as nat, |j: int| info_at(s@, p + 8 + 18 * j)),
            decreases count - k,
        {
            let info = read_info(s, q);
            postings.push(info);
            k = k + 1;
            q = q + 18;
        }
        Ok((PostingsBlock { postings }, q))
    }
}

} // verus!

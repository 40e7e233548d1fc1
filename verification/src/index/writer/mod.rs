//! Building the index: the postings of each term are gathered and, once
//! `POSTING_BLOCK_MAX_SIZE` of them are waiting, appended as one block to the
//! term's skip list in the term file. Finishing writes the last blocks, the
//! header and an FST from each term to its skip list.
pub mod config;
pub mod error;

use crate::analyzer::char_filter::CharFilter;
use crate::analyzer::token_filter::TokenFilter;
use crate::analyzer::tokenizer::Tokenizer;
use crate::analyzer::analyzer::{count_in, counts_ok};
use crate::analyzer::Analyzer;
use crate::index::document::Document;
use crate::codec::{enc_u64, lemma_enc_u64, Record};
use crate::fst_map::{entries_ascending, entry_map, fst_build, fst_built, fst_bytes_entries};
use crate::index::constants::TERM_FILE_MAGIC_NUMBER;
use crate::index::postings::{PostingsBlock, PostingsInfo, POSTING_BLOCK_MAX_SIZE};
use crate::index::term_index::{Header, HEADER_SIZE};
use crate::store::error::Error as StoreError;

use crate::store::skip_list::model::{
    in_footprint, is_list, lemma_footprint_inside, lemma_frame, list_of,
};
use crate::store::skip_list::writer::Writer as ListWriter;
use crate::store::store_io::{lemma_written_inside, written, MemStore};
use crate::terms::{
    key_of, keys_sorted, lemma_insert_sorted, lemma_key_injective, lemma_lex_irreflexive, search,
    Keyed,
};
pub use error::{Error, Result};
use crate::query::documents::doc_added;
use vstd::prelude::*;
use vstd::string::StringExecFns;

verus! {

broadcast use vstd::string::group_string_axioms;

/// Room a flush may need in the store: a new list's metadata and a node with a
/// full block at the highest level, rounded up.
pub const FLUSH_ROOM: usize = 4096;

/// The postings of a term that have not gone to its skip list yet, and where
/// that list lies (0 while it has none).
#[derive(Debug)]
struct TermData {
    offset: u64,
    postings: Vec<PostingsInfo>,
    doc_num: u64,
}

impl TermData {
    fn new() -> (r: Self)
        ensures
            r.offset == 0,
            r.postings@ == Seq::<PostingsInfo>::empty(),
            r.doc_num == 0,
    {
        Self { offset: 0, postings: Vec::with_capacity(POSTING_BLOCK_MAX_SIZE), doc_num: 0 }
    }
}

/// A term of the dictionary with its data.
#[derive(Debug)]
struct TermEntry {
    term: String,
    data: TermData,
}

impl Keyed for TermEntry {
    closed spec fn key(&self) -> Seq<u8> {
        key_of(self.term@)
    }

    fn key_bytes(&self) -> (r: &[u8]) {
        self.term.as_str().as_bytes()
    }
}

/// The postings of the blocks `v`, one after the other.
pub open spec fn concat_blocks(v: Seq<Seq<PostingsInfo>>) -> Seq<PostingsInfo>
    decreases v.len(),
{
    if v.len() == 0 {
        Seq::empty()
    } else {
        concat_blocks(v.drop_last()) + v.last()
    }
}

/// The postings stored in the skip list at `off` of `s` (none where `off` is 0).
pub open spec fn stored_postings(s: Seq<u8>, off: u64) -> Seq<PostingsInfo> {
    if off == 0 {
        Seq::empty()
    } else {
        concat_blocks(list_of::<PostingsBlock>(s, off as int))
    }
}

/// The blocks of the skip list at `off` of `s`; none where `off` is 0.
pub open spec fn stored_blocks(s: Seq<u8>, off: u64) -> Seq<Seq<PostingsInfo>> {
    if off == 0 {
        Seq::empty()
    } else {
        list_of::<PostingsBlock>(s, off as int)
    }
}

/// Appending a block to a list of blocks appends its postings.
pub proof fn lemma_concat_push(v: Seq<Seq<PostingsInfo>>, b: Seq<PostingsInfo>)
    ensures
        concat_blocks(v.push(b)) == concat_blocks(v) + b,
{
    assert(v.push(b).drop_last() =~= v);
}

/// No block of `blocks` holds more than `POSTING_BLOCK_MAX_SIZE` postings.
pub open spec fn blocks_bounded(blocks: Seq<Seq<PostingsInfo>>) -> bool {
    forall|b: int| 0 <= b < blocks.len() ==> #[trigger] blocks[b].len() <= POSTING_BLOCK_MAX_SIZE
}

/// The blocks of a term once its waiting postings `waiting`, if any, went to
/// its skip list as one more block after `blocks`.
pub open spec fn finished_blocks(blocks: Seq<Seq<PostingsInfo>>, waiting: Seq<PostingsInfo>) -> Seq<Seq<PostingsInfo>> {
    if waiting.len() > 0 {
        blocks.push(waiting)
    } else {
        blocks
    }
}

/// A term's skip list, if it has one, lies in `s` after the header and holds
/// blocks of at most `POSTING_BLOCK_MAX_SIZE` postings, and the term's
/// document count counts all its postings, stored or waiting.
spec fn data_ok(s: Seq<u8>, d: TermData) -> bool {
    &&& d.offset == 0 || (HEADER_SIZE <= d.offset && is_list::<PostingsBlock>(s, d.offset as int)
        && blocks_bounded(list_of::<PostingsBlock>(s, d.offset as int)))
    &&& d.doc_num == stored_postings(s, d.offset).len() + d.postings@.len()
}

/// Byte `p` of `s` belongs to the skip list of `d`.
spec fn owns(s: Seq<u8>, d: TermData, p: int) -> bool {
    d.offset != 0 && in_footprint::<PostingsBlock>(s, d.offset as int, p)
}

/// The dictionary and the term file agree: the terms are in key order, the
/// header's magic number stands at the start, and the skip lists lie after
/// the header, none overlapping another.
spec fn dict_core(s: Seq<u8>, d: Seq<TermEntry>) -> bool {
    &&& keys_sorted(d)
    &&& HEADER_SIZE <= s.len() <= usize::MAX
    &&& s.subrange(0, 8) == enc_u64(TERM_FILE_MAGIC_NUMBER)
    &&& forall|e: int| 0 <= e < d.len() ==> #[trigger] data_ok(s, d[e].data)
    &&& forall|e: int, p: int| 0 <= e < d.len() && #[trigger] owns(s, d[e].data, p) ==> HEADER_SIZE <= p
    &&& forall|a: int, b: int, p: int|
        0 <= a < d.len() && 0 <= b < d.len() && a != b && #[trigger] owns(s, d[a].data, p) ==> !#[trigger] owns(
            s,
            d[b].data,
            p,
        )
}

/// Fewer than a block of postings wait, and the term is in between one and
/// `n` documents.
spec fn count_ok(d: TermData, n: u64) -> bool {
    &&& d.postings@.len() < POSTING_BLOCK_MAX_SIZE
    &&& 1 <= d.doc_num <= n
}

/// The postings `q` are in the order the documents were added, at most one
/// per document, numbered from 1 up to `n`.
pub open spec fn in_doc_order(q: Seq<PostingsInfo>, n: u64) -> bool {
    &&& forall|i: int, j: int| 0 <= i < j < q.len() ==> #[trigger] q[i].id < #[trigger] q[j].id
    &&& forall|i: int| 0 <= i < q.len() ==> 1 <= #[trigger] q[i].id <= n
}

/// All postings of a term: those in its skip list, then those waiting.
spec fn all_postings(s: Seq<u8>, d: TermData) -> Seq<PostingsInfo> {
    stored_postings(s, d.offset) + d.postings@
}

/// The writer's invariant over the term file `s`, the dictionary `d` and the
/// number of documents `n`.
spec fn dict_ok(s: Seq<u8>, d: Seq<TermEntry>, n: u64) -> bool {
    &&& dict_core(s, d)
    &&& forall|e: int| 0 <= e < d.len() ==> #[trigger] count_ok(d[e].data, n)
    &&& forall|e: int| 0 <= e < d.len() ==> #[trigger] in_doc_order(all_postings(s, d[e].data), n)
}

/// `b` is `a` after its waiting postings went to its skip list, and `s2` is
/// `s` after that.
spec fn flushed(s: Seq<u8>, a: TermData, s2: Seq<u8>, b: TermData) -> bool {
    &&& s.len() <= s2.len() <= usize::MAX
    &&& s2.len() <= s.len() + FLUSH_ROOM
    &&& b.doc_num == a.doc_num
    &&& b.postings@.len() == 0
    &&& b.offset == a.offset || (a.offset == 0 && b.offset == s.len())
    &&& b.offset == 0 || is_list::<PostingsBlock>(s2, b.offset as int)
    &&& (a.offset == 0 || blocks_bounded(list_of::<PostingsBlock>(s, a.offset as int))) ==> (b.offset == 0
        || blocks_bounded(list_of::<PostingsBlock>(s2, b.offset as int)))
    &&& stored_postings(s2, b.offset) == stored_postings(s, a.offset) + a.postings@
    &&& a.postings@.len() > 0 ==> stored_blocks(s2, b.offset) == stored_blocks(s, a.offset).push(a.postings@)
    &&& a.postings@.len() == 0 ==> stored_blocks(s2, b.offset) == stored_blocks(s, a.offset)
    &&& forall|p: int| 0 <= p < s.len() && !owns(s, a, p) ==> #[trigger] s2[p] == s[p]
    &&& forall|p: int| #[trigger] owns(s2, b, p) ==> owns(s, a, p) || s.len() <= p < s2.len()
}

/// Sends the waiting postings of `data` to its skip list in `store` as one
/// block, first starting the list at the store's end where it has none.
fn write_posting(store: &mut MemStore, data: &mut TermData)
    requires
        HEADER_SIZE <= old(store)@.len(),
        old(store)@.len() + FLUSH_ROOM <= usize::MAX,
        old(data).postings@.len() <= POSTING_BLOCK_MAX_SIZE,
        old(data).offset == 0 || is_list::<PostingsBlock>(old(store)@, old(data).offset as int),
    ensures
        flushed(old(store)@, *old(data), final(store)@, *final(data)),
{
    let ghost s0 = store@;
    let ghost a = *data;
    let _ = store.len();
    if data.postings.len() == 0 {
        proof {
            assert(stored_postings(s0, a.offset) + a.postings@ =~= stored_postings(s0, a.offset));
        }
        return ;
    }
    let mut s = MemStore::new();
    std::mem::swap(&mut s, store);
    let mut list: ListWriter<PostingsBlock> = if data.offset > 0 {
        ListWriter::new(s, data.offset)
    } else {
        match ListWriter::make_append(s) {
            Ok(w) => w,
            Err(_) => {
                proof {
                    assert(false);
                }
                return ;
            },
        }
    };
    let ghost s1 = list.bytes();
    proof {
        if a.offset == 0 {
            assert forall|p: int| 0 <= p < s0.len() implies #[trigger] s1[p] == s0[p] by {
                assert(s1.subrange(0, s0.len() as int)[p] == s1[p]);
            }
            assert(list_of::<PostingsBlock>(s1, list.at() as int) =~= Seq::<Seq<PostingsInfo>>::empty());
        }
    }
    data.offset = list.offset();
    let mut postings: Vec<PostingsInfo> = Vec::new();
    std::mem::swap(&mut postings, &mut data.postings);
    let ghost blk = postings@;
    proof {
        lemma_enc_u64(blk.len() as u64);
        crate::index::postings::lemma_enc_infos(blk);
    }
    match list.push_back(PostingsBlock { postings }) {
        Ok(()) => {},
        Err(_) => {
            proof {
                assert(false);
            }
        },
    }
    let ghost s2 = list.bytes();
    let ghost off = list.at() as int;
    proof {
        lemma_concat_push(list_of::<PostingsBlock>(s1, off), blk);
        let l1 = list_of::<PostingsBlock>(s1, off);
        assert(l1 == stored_blocks(s0, a.offset));
        if a.offset == 0 || blocks_bounded(list_of::<PostingsBlock>(s0, a.offset as int)) {
            assert forall|b: int| 0 <= b < l1.push(blk).len() implies #[trigger] l1.push(blk)[b].len()
                <= POSTING_BLOCK_MAX_SIZE by {
                if b < l1.len() {
                    assert(l1.push(blk)[b] == l1[b]);
                }
            }
        }
        assert forall|p: int| 0 <= p < s0.len() && !owns(s0, a, p) implies #[trigger] s2[p] == s0[p] by {
            if a.offset == 0 {
                assert(!in_footprint::<PostingsBlock>(s1, off, p));
            }
        }
        assert forall|p: int| #[trigger] owns(s2, *data, p) implies owns(s0, a, p) || s0.len() <= p < s2.len() by {
            if a.offset == 0 {
                if in_footprint::<PostingsBlock>(s1, off, p) {
                    lemma_footprint_inside::<PostingsBlock>(s1, off, p);
                }
            } else {
                if !in_footprint::<PostingsBlock>(s1, off, p) {
                    lemma_footprint_inside::<PostingsBlock>(s2, off, p);
                }
            }
        }
    }
    *store = list.into_store();
    let _ = store.len();
}

/// Every other term's skip list is left as it was by a flush of entry `j`.
proof fn lemma_flush_frame(s: Seq<u8>, d: Seq<TermEntry>, j: int, s2: Seq<u8>, b: TermData, e: int)
    requires
        dict_core(s, d),
        0 <= j < d.len(),
        0 <= e < d.len(),
        e != j,
        flushed(s, d[j].data, s2, b),
    ensures
        data_ok(s2, d[e].data),
        stored_postings(s2, d[e].data.offset) == stored_postings(s, d[e].data.offset),
        stored_blocks(s2, d[e].data.offset) == stored_blocks(s, d[e].data.offset),
        forall|p: int| #[trigger] owns(s2, d[e].data, p) == owns(s, d[e].data, p),
        forall|p: int| #[trigger] owns(s, d[e].data, p) ==> 0 <= p < s.len(),
{
    let de = d[e].data;
    assert(data_ok(s, de));
    if de.offset != 0 {
        let off = de.offset as int;
        assert forall|p: int| 0 <= p < s.len() && #[trigger] in_footprint::<PostingsBlock>(s, off, p) implies s2[p] == s[p] by {
            assert(owns(s, de, p));
            assert(!owns(s, d[j].data, p));
        }
        assert(usize::MAX <= u64::MAX);
        lemma_frame::<PostingsBlock>(s, s2, off);
        assert forall|p: int| #[trigger] owns(s, d[e].data, p) implies 0 <= p < s.len() by {
            lemma_footprint_inside::<PostingsBlock>(s, off, p);
        }
    }
}

/// The dictionary still agrees with the term file after a flush of entry `j`.
proof fn lemma_flush_keeps(s: Seq<u8>, d: Seq<TermEntry>, j: int, s2: Seq<u8>, b: TermData)
    requires
        dict_core(s, d),
        0 <= j < d.len(),
        flushed(s, d[j].data, s2, b),
    ensures
        dict_core(s2, d.update(j, TermEntry { term: d[j].term, data: b })),
        forall|e: int|
            0 <= e < d.len() && e != j ==> #[trigger] stored_postings(s2, d[e].data.offset)
                == stored_postings(s, d[e].data.offset),
        forall|e: int|
            0 <= e < d.len() && e != j ==> #[trigger] stored_blocks(s2, d[e].data.offset)
                == stored_blocks(s, d[e].data.offset),
{
    let d2 = d.update(j, TermEntry { term: d[j].term, data: b });
    assert forall|e: int| 0 <= e < d.len() && e != j implies #[trigger] stored_blocks(s2, d[e].data.offset)
        == stored_blocks(s, d[e].data.offset) by {
        lemma_flush_frame(s, d, j, s2, b, e);
    }
    assert forall|e: int| 0 <= e < d.len() && e != j implies #[trigger] stored_postings(s2, d[e].data.offset)
        == stored_postings(s, d[e].data.offset) && data_ok(s2, d[e].data) && (forall|p: int|
        #[trigger] owns(s2, d[e].data, p) == owns(s, d[e].data, p)) && (forall|p: int|
        #[trigger] owns(s, d[e].data, p) ==> 0 <= p < s.len()) by {
        lemma_flush_frame(s, d, j, s2, b, e);
    }
    assert forall|x: int, y: int| 0 <= x < y < d2.len() implies crate::terms::lex_lt(
        #[trigger] d2[x].key(),
        #[trigger] d2[y].key(),
    ) by {
        assert(d2[x].key() == d[x].key());
        assert(d2[y].key() == d[y].key());
    }
    assert forall|p: int| 0 <= p < 8 implies #[trigger] s2.subrange(0, 8)[p] == s.subrange(0, 8)[p] by {
        assert(!owns(s, d[j].data, p));
        assert(s2[p] == s[p]);
    }
    assert(s2.subrange(0, 8) =~= s.subrange(0, 8));
    assert(data_ok(s, d[j].data));
    assert forall|e: int| 0 <= e < d2.len() implies #[trigger] data_ok(s2, d2[e].data) by {
        if e != j {
            assert(d2[e] == d[e]);
            lemma_flush_frame(s, d, j, s2, b, e);
        } else {
            assert(d2[e].data == b);
            assert((stored_postings(s, d[j].data.offset) + d[j].data.postings@).len() == stored_postings(
                s,
                d[j].data.offset,
            ).len() + d[j].data.postings@.len());
        }
    }
    assert forall|e: int, p: int| 0 <= e < d2.len() && #[trigger] owns(s2, d2[e].data, p) implies HEADER_SIZE
        <= p by {
        if e != j {
            assert(d2[e] == d[e]);
            lemma_flush_frame(s, d, j, s2, b, e);
            assert(owns(s, d[e].data, p));
        } else {
            if owns(s, d[j].data, p) {
            }
        }
    }
    assert forall|x: int, y: int, p: int|
        0 <= x < d2.len() && 0 <= y < d2.len() && x != y && #[trigger] owns(s2, d2[x].data, p) implies !#[trigger] owns(
        s2,
        d2[y].data,
        p,
    ) by {
        if x != j && y != j {
            assert(d2[x] == d[x] && d2[y] == d[y]);
            lemma_flush_frame(s, d, j, s2, b, x);
            lemma_flush_frame(s, d, j, s2, b, y);
            assert(owns(s, d[x].data, p));
            assert(!owns(s, d[y].data, p));
        } else if x == j {
            assert(d2[y] == d[y]);
            lemma_flush_frame(s, d, j, s2, b, y);
            if owns(s2, d2[y].data, p) {
                assert(owns(s, d[y].data, p));
                assert(p < s.len());
                assert(owns(s, d[j].data, p));
                assert(!owns(s, d[y].data, p));
            }
        } else {
            assert(d2[x] == d[x]);
            lemma_flush_frame(s, d, j, s2, b, x);
            assert(owns(s, d[x].data, p));
            assert(p < s.len());
            assert(!owns(s, d[j].data, p));
        }
    }
}

/// The index of the entry of `t` in `d`.
spec fn index_of(d: Seq<TermEntry>, t: Seq<char>) -> int {
    choose|e: int| 0 <= e < d.len() && #[trigger] d[e].term@ == t
}

/// All postings of `t` so far, in the order they were added: those in its
/// skip list, then those waiting.
spec fn postings_in(s: Seq<u8>, d: Seq<TermEntry>, t: Seq<char>) -> Seq<PostingsInfo> {
    if exists|e: int| 0 <= e < d.len() && #[trigger] d[e].term@ == t {
        let e = index_of(d, t);
        stored_postings(s, d[e].data.offset) + d[e].data.postings@
    } else {
        Seq::empty()
    }
}

/// Each term occurs at most once in a dictionary in key order.
proof fn lemma_index_of(d: Seq<TermEntry>, e: int)
    requires
        keys_sorted(d),
        0 <= e < d.len(),
    ensures
        index_of(d, d[e].term@) == e,
{
    let t = d[e].term@;
    let f = index_of(d, t);
    if f != e {
        lemma_lex_irreflexive(d[e].key());
        if f < e {
            assert(crate::terms::lex_lt(d[f].key(), d[e].key()));
        } else {
            assert(crate::terms::lex_lt(d[e].key(), d[f].key()));
        }
    }
}

/// The blocks of the skip list of `t`; none while it has none.
spec fn blocks_in(s: Seq<u8>, d: Seq<TermEntry>, t: Seq<char>) -> Seq<Seq<PostingsInfo>> {
    if exists|e: int| 0 <= e < d.len() && #[trigger] d[e].term@ == t {
        stored_blocks(s, d[index_of(d, t)].data.offset)
    } else {
        Seq::empty()
    }
}

/// The postings of `t` that wait to go to its skip list.
spec fn waiting_in(d: Seq<TermEntry>, t: Seq<char>) -> Seq<PostingsInfo> {
    if exists|e: int| 0 <= e < d.len() && #[trigger] d[e].term@ == t {
        d[index_of(d, t)].data.postings@
    } else {
        Seq::empty()
    }
}

/// The postings of the term of entry `e`: its stored ones, then its waiting
/// ones; its blocks; its waiting postings.
proof fn lemma_postings_at(s: Seq<u8>, d: Seq<TermEntry>, e: int)
    requires
        keys_sorted(d),
        0 <= e < d.len(),
    ensures
        postings_in(s, d, d[e].term@) == stored_postings(s, d[e].data.offset) + d[e].data.postings@,
        blocks_in(s, d, d[e].term@) == stored_blocks(s, d[e].data.offset),
        waiting_in(d, d[e].term@) == d[e].data.postings@,
{
    lemma_index_of(d, e);
}

/// `after` is `before` with one more posting at its end: the document `id`,
/// which the caller numbers `external_id`, with a frequency that `tf_of` gives
/// for `num` occurrences among `total` tokens.
pub open spec fn posting_added<F: Fn(usize, usize) -> u16>(
    before: Seq<PostingsInfo>,
    after: Seq<PostingsInfo>,
    id: u64,
    external_id: u64,
    tf_of: F,
    num: int,
    total: int,
) -> bool {
    &&& after.len() == before.len() + 1
    &&& after.drop_last() == before
    &&& after.last().id == id
    &&& after.last().external_id == external_id
    &&& tf_of.ensures((num as usize, total as usize), after.last().tf)
}

/// `t` is the term of one of the first `i` entries of `terms`.
pub open spec fn in_prefix(terms: Seq<(String, usize)>, i: int, t: Seq<char>) -> bool {
    exists|k: int| 0 <= k < i && #[trigger] terms[k].0@ == t
}

/// Builds an index from documents.
#[derive(Debug)]
pub struct Writer<C, T, I> {
    analyzer: Analyzer<C, T, I>,
    dict: Vec<TermEntry>,
    doc_num: u64,
    term_file: MemStore,
}

impl<C: CharFilter, T: TokenFilter, I: Tokenizer> Writer<C, T, I> {
    /// The writer's parts agree.
    pub closed spec fn wf(&self) -> bool {
        dict_ok(self.term_file@, self.dict@, self.doc_num)
    }

    /// The bytes of the term file.
    pub closed spec fn store_bytes(&self) -> Seq<u8> {
        self.term_file@
    }

    /// The number of documents added.
    pub closed spec fn doc_count(&self) -> u64 {
        self.doc_num
    }

    /// The analyzer.
    pub closed spec fn analyzer_of(&self) -> Analyzer<C, T, I> {
        self.analyzer
    }

    /// The postings of `t` so far, in the order they were added.
    pub closed spec fn postings_of(&self, t: Seq<char>) -> Seq<PostingsInfo> {
        postings_in(self.term_file@, self.dict@, t)
    }

    /// The blocks of the skip list of `t`, in order; none while it has none.
    pub closed spec fn blocks_of(&self, t: Seq<char>) -> Seq<Seq<PostingsInfo>> {
        blocks_in(self.term_file@, self.dict@, t)
    }

    /// The postings of `t` that wait to go to its skip list.
    pub closed spec fn waiting_of(&self, t: Seq<char>) -> Seq<PostingsInfo> {
        waiting_in(self.dict@, t)
    }

    /// Every block of every term's skip list holds exactly
    /// `POSTING_BLOCK_MAX_SIZE` postings: so it is until the writer finishes.
    pub open spec fn blocks_full(&self) -> bool {
        forall|t: Seq<char>, b: int|
            0 <= b < self.blocks_of(t).len() ==> #[trigger] self.blocks_of(t)[b].len() == POSTING_BLOCK_MAX_SIZE
    }

    /// After a writer whose blocks are all full finishes, each term's blocks
    /// hold exactly `POSTING_BLOCK_MAX_SIZE` postings but the last, which holds
    /// at least one and at most that many.
    pub proof fn lemma_finished_blocks(before: &Self, after: &Self, t: Seq<char>)
        requires
            before.wf(),
            before.blocks_full(),
            after.blocks_of(t) == finished_blocks(before.blocks_of(t), before.waiting_of(t)),
        ensures
            forall|b: int|
                0 <= b < after.blocks_of(t).len() - 1 ==> #[trigger] after.blocks_of(t)[b].len()
                    == POSTING_BLOCK_MAX_SIZE,
            after.blocks_of(t).len() > 0 ==> 0 < after.blocks_of(t).last().len() <= POSTING_BLOCK_MAX_SIZE,
    {
        before.lemma_blocks(t);
        let bb = before.blocks_of(t);
        assert forall|b: int| 0 <= b < after.blocks_of(t).len() - 1 implies #[trigger] after.blocks_of(t)[b].len()
            == POSTING_BLOCK_MAX_SIZE by {
            if before.waiting_of(t).len() > 0 {
                assert(after.blocks_of(t)[b] == bb[b]);
            }
            assert(bb[b].len() == POSTING_BLOCK_MAX_SIZE);
        }
        if after.blocks_of(t).len() > 0 && before.waiting_of(t).len() == 0 {
            assert(bb[bb.len() - 1].len() == POSTING_BLOCK_MAX_SIZE);
        }
    }

    /// A term's postings are the blocks of its skip list, one after the
    /// other, then fewer than `POSTING_BLOCK_MAX_SIZE` postings that wait; no
    /// block holds more than `POSTING_BLOCK_MAX_SIZE` postings.
    pub proof fn lemma_blocks(&self, t: Seq<char>)
        requires
            self.wf(),
        ensures
            blocks_bounded(self.blocks_of(t)),
            self.waiting_of(t).len() < POSTING_BLOCK_MAX_SIZE,
            concat_blocks(self.blocks_of(t)) + self.waiting_of(t) == self.postings_of(t),
    {
        let s = self.term_file@;
        let d = self.dict@;
        if exists|e: int| 0 <= e < d.len() && #[trigger] d[e].term@ == t {
            let e = index_of(d, t);
            assert(data_ok(s, d[e].data) && count_ok(d[e].data, self.doc_num));
        } else {
            assert(concat_blocks(Seq::<Seq<PostingsInfo>>::empty()) + Seq::<PostingsInfo>::empty() =~= Seq::<
                PostingsInfo,
            >::empty());
        }
    }

    /// A writer that adds to the term file `term_file`, whose first bytes get
    /// the header.
    pub fn new(analyzer: Analyzer<C, T, I>, term_file: MemStore) -> (r: Result<Self>)
        ensures
            match r {
                Ok(w) => {
                    &&& w.wf()
                    &&& w.analyzer_of() == analyzer
                    &&& w.doc_count() == 0
                    &&& w.store_bytes() == written(
                        term_file@,
                        0,
                        Header::spec_encode(Header { magic: TERM_FILE_MAGIC_NUMBER, doc_num: 0 }),
                    )
                    &&& forall|t: Seq<char>| #[trigger] w.postings_of(t) == Seq::<PostingsInfo>::empty()
                    &&& w.blocks_full()
                },
                Err(e) => false,
            },
    {
        let mut term_file = term_file;
        let header = Header { magic: TERM_FILE_MAGIC_NUMBER, doc_num: 0 };
        match term_file.write(&header, 0) {
            Ok(()) => {},
            Err(e) => {
                proof {
                    lemma_enc_u64(header.magic);
                    lemma_enc_u64(header.doc_num);
                }
                return Err(Error::Store(e));
            },
        }
        proof {
            lemma_enc_u64(header.magic);
            lemma_enc_u64(header.doc_num);
            let s = term_file@;
            assert(s.subrange(0, 8) =~= enc_u64(TERM_FILE_MAGIC_NUMBER));
        }
        let w = Writer { analyzer, dict: Vec::new(), doc_num: 0, term_file };
        proof {
            assert(keys_sorted(w.dict@));
        }
        Ok(w)
    }

    /// Adds to the postings of `term` the document `doc_id`, which the caller
    /// numbers `external_id` and in which the term has frequency `tf`. Fails,
    /// changing nothing, when the term file could not take another block.
    fn add_term(&mut self, term: &str, tf: u16, external_id: u64, doc_id: u64) -> (r: Result<()>)
        requires
            old(self).wf(),
            old(self).postings_of(term@).len() < old(self).doc_count(),
            1 <= doc_id <= old(self).doc_count(),
            forall|k: int|
                0 <= k < old(self).postings_of(term@).len() ==> #[trigger] old(self).postings_of(
                    term@,
                )[k].id < doc_id,
        ensures
            final(self).wf(),
            final(self).analyzer_of() == old(self).analyzer_of(),
            final(self).doc_count() == old(self).doc_count(),
            old(self).store_bytes().len() <= final(self).store_bytes().len() <= old(self).store_bytes().len()
                + FLUSH_ROOM,
            match r {
                Ok(()) => {
                    &&& old(self).store_bytes().len() + FLUSH_ROOM <= usize::MAX
                    &&& forall|t: Seq<char>|
                        #[trigger] final(self).postings_of(t) == if t == term@ {
                            old(self).postings_of(t).push(
                                PostingsInfo { id: doc_id, external_id: external_id, tf: tf },
                            )
                        } else {
                            old(self).postings_of(t)
                        }
                    &&& forall|t: Seq<char>| t != term@ ==> #[trigger] final(self).blocks_of(t) == old(self).blocks_of(t)
                    &&& forall|t: Seq<char>| t != term@ ==> #[trigger] final(self).waiting_of(t) == old(self).waiting_of(t)
                    &&& old(self).waiting_of(term@).len() + 1 == POSTING_BLOCK_MAX_SIZE ==> {
                        &&& final(self).blocks_of(term@) == old(self).blocks_of(term@).push(
                            old(self).waiting_of(term@).push(PostingsInfo { id: doc_id, external_id: external_id, tf: tf }),
                        )
                        &&& final(self).waiting_of(term@).len() == 0
                    }
                    &&& old(self).waiting_of(term@).len() + 1 < POSTING_BLOCK_MAX_SIZE ==> {
                        &&& final(self).blocks_of(term@) == old(self).blocks_of(term@)
                        &&& final(self).waiting_of(term@) == old(self).waiting_of(term@).push(
                            PostingsInfo { id: doc_id, external_id: external_id, tf: tf },
                        )
                    }
                },
                Err(e) => {
                    &&& e matches Error::Store(se) && se == StoreError::OutOfRange
                    &&& old(self).store_bytes().len() + FLUSH_ROOM > usize::MAX
                    &&& *final(self) == *old(self)
                    &&& final(self).store_bytes() == old(self).store_bytes()
                    &&& forall|t: Seq<char>| #[trigger] final(self).postings_of(t) == old(self).postings_of(t)
                },
            },
    {
        let ghost s0 = self.term_file@;
        let ghost d0 = self.dict@;
        let ghost n = self.doc_num;
        if self.term_file.len() > (usize::MAX - FLUSH_ROOM) as u64 {
            return Err(Error::Store(StoreError::OutOfRange));
        }
        let posting = PostingsInfo { id: doc_id, external_id, tf };
        proof {
            lemma_key_injective(term@, term@);
        }
        match search(&self.dict, term.as_bytes()) {
            Err(j) => {
                let mut data = TermData::new();
                data.postings.push(posting);
                data.doc_num = 1;
                let entry = TermEntry { term: String::from_str(term), data };
                proof {
                    assert(entry.key() == key_of(term@));
                    lemma_insert_sorted(d0, j as int, entry);
                    assert(stored_postings(s0, 0) == Seq::<PostingsInfo>::empty());
                }
                self.dict.insert(j, entry);
                proof {
                    let d1 = self.dict@;
                    assert(forall|e: int| 0 <= e < j ==> #[trigger] d1[e] == d0[e]);
                    assert(forall|e: int| j < e < d1.len() ==> #[trigger] d1[e] == d0[e - 1]);
                    assert forall|e: int| 0 <= e < d1.len() implies #[trigger] data_ok(s0, d1[e].data)
                        && count_ok(d1[e].data, n) by {
                        if e < j {
                            assert(data_ok(s0, d0[e].data) && count_ok(d0[e].data, n));
                        } else if e > j {
                            assert(data_ok(s0, d0[e - 1].data) && count_ok(d0[e - 1].data, n));
                        }
                    }
                    assert forall|e: int, p: int| 0 <= e < d1.len() && #[trigger] owns(s0, d1[e].data, p) implies HEADER_SIZE
                        <= p by {
                        if e < j {
                            assert(owns(s0, d0[e].data, p));
                        } else if e > j {
                            assert(owns(s0, d0[e - 1].data, p));
                        }
                    }
                    assert forall|a: int, b: int, p: int|
                        0 <= a < d1.len() && 0 <= b < d1.len() && a != b && #[trigger] owns(s0, d1[a].data, p) implies !#[trigger] owns(
                        s0,
                        d1[b].data,
                        p,
                    ) by {
                        let a0 = if a < j { a } else { a - 1 };
                        let b0 = if b < j { b } else { b - 1 };
                        if a != j && b != j {
                            assert(owns(s0, d0[a0].data, p));
                            assert(!owns(s0, d0[b0].data, p));
                        }
                    }
                    assert forall|e: int| 0 <= e < d1.len() implies #[trigger] in_doc_order(
                        all_postings(s0, d1[e].data),
                        n,
                    ) by {
                        if e < j {
                            assert(in_doc_order(all_postings(s0, d0[e].data), n));
                        } else if e > j {
                            assert(in_doc_order(all_postings(s0, d0[e - 1].data), n));
                        } else {
                            assert(all_postings(s0, d1[e].data) =~= seq![posting]);
                        }
                    }
                    assert(dict_ok(s0, d1, n));
                    assert forall|t: Seq<char>| #[trigger] postings_in(s0, d1, t) == if t == term@ {
                        postings_in(s0, d0, t).push(posting)
                    } else {
                        postings_in(s0, d0, t)
                    } by {
                        if t == term@ {
                            lemma_postings_at(s0, d1, j as int);
                            if exists|e: int| 0 <= e < d0.len() && #[trigger] d0[e].term@ == t {
                                let e = choose|e: int| 0 <= e < d0.len() && #[trigger] d0[e].term@ == t;
                                lemma_key_injective(d0[e].term@, term@);
                                if e < j {
                                    assert(crate::terms::lex_lt(d0[e].key(), key_of(term@)));
                                } else {
                                    assert(crate::terms::lex_lt(key_of(term@), d0[e].key()));
                                }
                                lemma_lex_irreflexive(key_of(term@));
                            }
                            assert(Seq::<PostingsInfo>::empty().push(posting) =~= seq![posting]);
                            assert(Seq::<PostingsInfo>::empty() + seq![posting] =~= seq![posting]);
                        } else if exists|e: int| 0 <= e < d0.len() && #[trigger] d0[e].term@ == t {
                            let e = choose|e: int| 0 <= e < d0.len() && #[trigger] d0[e].term@ == t;
                            let e1 = if e < j { e } else { e + 1 };
                            assert(d1[e1] == d0[e]);
                            lemma_postings_at(s0, d0, e);
                            lemma_postings_at(s0, d1, e1);
                        } else {
                            if exists|e: int| 0 <= e < d1.len() && #[trigger] d1[e].term@ == t {
                                let e = choose|e: int| 0 <= e < d1.len() && #[trigger] d1[e].term@ == t;
                                if e < j {
                                    assert(d0[e].term@ == t);
                                } else if e > j {
                                    assert(d0[e - 1].term@ == t);
                                }
                            }
                        }
                    }
                    assert(!exists|e: int| 0 <= e < d0.len() && #[trigger] d0[e].term@ == term@) by {
                        if exists|e: int| 0 <= e < d0.len() && #[trigger] d0[e].term@ == term@ {
                            let e = choose|e: int| 0 <= e < d0.len() && #[trigger] d0[e].term@ == term@;
                            if e < j {
                                assert(crate::terms::lex_lt(d0[e].key(), key_of(term@)));
                            } else {
                                assert(crate::terms::lex_lt(key_of(term@), d0[e].key()));
                            }
                            lemma_lex_irreflexive(key_of(term@));
                        }
                    }
                    lemma_postings_at(s0, d1, j as int);
                    assert(waiting_in(d1, term@) =~= waiting_in(d0, term@).push(posting));
                    assert forall|t: Seq<char>| t != term@ implies #[trigger] blocks_in(s0, d1, t) == blocks_in(
                        s0,
                        d0,
                        t,
                    ) by {
                        if exists|e: int| 0 <= e < d0.len() && #[trigger] d0[e].term@ == t {
                            let e = choose|e: int| 0 <= e < d0.len() && #[trigger] d0[e].term@ == t;
                            let e1 = if e < j { e } else { e + 1 };
                            assert(d1[e1] == d0[e]);
                            lemma_postings_at(s0, d0, e);
                            lemma_postings_at(s0, d1, e1);
                        } else {
                            if exists|e: int| 0 <= e < d1.len() && #[trigger] d1[e].term@ == t {
                                let e = choose|e: int| 0 <= e < d1.len() && #[trigger] d1[e].term@ == t;
                                if e < j {
                                    assert(d0[e].term@ == t);
                                } else if e > j {
                                    assert(d0[e - 1].term@ == t);
                                }
                            }
                        }
                    }
                    assert forall|t: Seq<char>| t != term@ implies #[trigger] waiting_in(d1, t) == waiting_in(d0, t) by {
                        if exists|e: int| 0 <= e < d0.len() && #[trigger] d0[e].term@ == t {
                            let e = choose|e: int| 0 <= e < d0.len() && #[trigger] d0[e].term@ == t;
                            let e1 = if e < j { e } else { e + 1 };
                            assert(d1[e1] == d0[e]);
                            lemma_postings_at(s0, d0, e);
                            lemma_postings_at(s0, d1, e1);
                        } else {
                            if exists|e: int| 0 <= e < d1.len() && #[trigger] d1[e].term@ == t {
                                let e = choose|e: int| 0 <= e < d1.len() && #[trigger] d1[e].term@ == t;
                                if e < j {
                                    assert(d0[e].term@ == t);
                                } else if e > j {
                                    assert(d0[e - 1].term@ == t);
                                }
                            }
                        }
                    }
                }
            },
            Ok(j) => {
                proof {
                    lemma_key_injective(d0[j as int].term@, term@);
                    lemma_postings_at(s0, d0, j as int);
                    assert(data_ok(s0, d0[j as int].data) && count_ok(d0[j as int].data, n));
                }
                self.dict[j].data.postings.push(posting);
                self.dict[j].data.doc_num = self.dict[j].data.doc_num + 1;
                let ghost d1 = self.dict@;
                proof {
                    assert(forall|e: int| 0 <= e < d1.len() && e != j ==> #[trigger] d1[e] == d0[e]);
                    assert forall|x: int, y: int| 0 <= x < y < d1.len() implies crate::terms::lex_lt(
                        #[trigger] d1[x].key(),
                        #[trigger] d1[y].key(),
                    ) by {
                        assert(d1[x].key() == d0[x].key());
                        assert(d1[y].key() == d0[y].key());
                    }
                    assert forall|e: int| 0 <= e < d1.len() implies #[trigger] data_ok(s0, d1[e].data) by {
                        if e != j {
                            assert(data_ok(s0, d0[e].data));
                        }
                    }
                    assert forall|e: int, p: int| 0 <= e < d1.len() && #[trigger] owns(s0, d1[e].data, p) implies HEADER_SIZE
                        <= p by {
                        assert(owns(s0, d0[e].data, p));
                    }
                    assert forall|a: int, b: int, p: int|
                        0 <= a < d1.len() && 0 <= b < d1.len() && a != b && #[trigger] owns(s0, d1[a].data, p) implies !#[trigger] owns(
                        s0,
                        d1[b].data,
                        p,
                    ) by {
                        assert(owns(s0, d0[a].data, p));
                        assert(!owns(s0, d0[b].data, p));
                    }
                    assert(dict_core(s0, d1));
                    lemma_postings_at(s0, d1, j as int);
                }
                if self.dict[j].data.postings.len() >= POSTING_BLOCK_MAX_SIZE {
                    write_posting(&mut self.term_file, &mut self.dict[j].data);
                    proof {
                        let s2 = self.term_file@;
                        let d2 = self.dict@;
                        lemma_flush_keeps(s0, d1, j as int, s2, d2[j as int].data);
                        assert(d2 =~= d1.update(j as int, TermEntry { term: d1[j as int].term, data: d2[j as int].data }));
                    }
                }
                proof {
                    let s2 = self.term_file@;
                    let d2 = self.dict@;
                    assert(dict_core(s2, d2));
                    assert forall|e: int| 0 <= e < d2.len() implies #[trigger] count_ok(d2[e].data, n) by {
                        if e != j {
                            assert(d2[e] == d0[e]);
                            assert(count_ok(d0[e].data, n));
                        }
                    }
                    assert(all_postings(s0, d1[j as int].data) =~= all_postings(s0, d0[j as int].data).push(
                        posting,
                    ));
                    assert(all_postings(s2, d2[j as int].data) == all_postings(s0, d1[j as int].data));
                    assert forall|e: int| 0 <= e < d2.len() implies #[trigger] in_doc_order(
                        all_postings(s2, d2[e].data),
                        n,
                    ) by {
                        if e != j {
                            assert(d2[e] == d0[e]);
                            assert(in_doc_order(all_postings(s0, d0[e].data), n));
                            assert(stored_postings(s2, d0[e].data.offset) == stored_postings(
                                s0,
                                d0[e].data.offset,
                            ));
                        } else {
                            let q = all_postings(s2, d2[e].data);
                            assert(in_doc_order(all_postings(s0, d0[e].data), n));
                            assert forall|x: int, y: int| 0 <= x < y < q.len() implies #[trigger] q[x].id
                                < #[trigger] q[y].id by {
                                if y == q.len() - 1 {
                                    assert(q[x] == postings_in(s0, d0, term@)[x]);
                                }
                            }
                        }
                    }
                    assert forall|t: Seq<char>| #[trigger] postings_in(s2, d2, t) == if t == term@ {
                        postings_in(s0, d0, t).push(posting)
                    } else {
                        postings_in(s0, d0, t)
                    } by {
                        if t == term@ {
                            lemma_postings_at(s2, d2, j as int);
                            assert(stored_postings(s0, d0[j as int].data.offset) + d1[j as int].data.postings@
                                =~= (stored_postings(s0, d0[j as int].data.offset) + d0[j as int].data.postings@).push(posting));
                        } else if exists|e: int| 0 <= e < d0.len() && #[trigger] d0[e].term@ == t {
                            let e = choose|e: int| 0 <= e < d0.len() && #[trigger] d0[e].term@ == t;
                            assert(e != j);
                            assert(d2[e] == d0[e]);
                            lemma_postings_at(s0, d0, e);
                            lemma_postings_at(s2, d2, e);
                        } else {
                            if exists|e: int| 0 <= e < d2.len() && #[trigger] d2[e].term@ == t {
                                let e = choose|e: int| 0 <= e < d2.len() && #[trigger] d2[e].term@ == t;
                                assert(d0[e].term@ == d2[e].term@);
                            }
                        }
                    }
                    lemma_postings_at(s0, d0, j as int);
                    lemma_postings_at(s2, d2, j as int);
                    assert(d1[j as int].data.postings@ == d0[j as int].data.postings@.push(posting));
                    assert forall|t: Seq<char>| t != term@ implies #[trigger] blocks_in(s2, d2, t) == blocks_in(
                        s0,
                        d0,
                        t,
                    ) by {
                        if exists|e: int| 0 <= e < d0.len() && #[trigger] d0[e].term@ == t {
                            let e = choose|e: int| 0 <= e < d0.len() && #[trigger] d0[e].term@ == t;
                            assert(e != j);
                            assert(d2[e] == d0[e]);
                            lemma_postings_at(s0, d0, e);
                            lemma_postings_at(s2, d2, e);
                            assert(stored_blocks(s2, d0[e].data.offset) == stored_blocks(s0, d0[e].data.offset));
                        } else {
                            if exists|e: int| 0 <= e < d2.len() && #[trigger] d2[e].term@ == t {
                                let e = choose|e: int| 0 <= e < d2.len() && #[trigger] d2[e].term@ == t;
                                assert(d0[e].term@ == d2[e].term@);
                            }
                        }
                    }
                    assert forall|t: Seq<char>| t != term@ implies #[trigger] waiting_in(d2, t) == waiting_in(d0, t) by {
                        if exists|e: int| 0 <= e < d0.len() && #[trigger] d0[e].term@ == t {
                            let e = choose|e: int| 0 <= e < d0.len() && #[trigger] d0[e].term@ == t;
                            assert(e != j);
                            assert(d2[e] == d0[e]);
                            lemma_postings_at(s0, d0, e);
                            lemma_postings_at(s2, d2, e);
                        } else {
                            if exists|e: int| 0 <= e < d2.len() && #[trigger] d2[e].term@ == t {
                                let e = choose|e: int| 0 <= e < d2.len() && #[trigger] d2[e].term@ == t;
                                assert(d0[e].term@ == d2[e].term@);
                            }
                        }
                    }
                }
            },
        }
        Ok(())
    }

    /// Each term's postings are in the order the documents were added, at
    /// most one per document, numbered from 1 up to the number of documents;
    /// so no term has more postings than there are documents.
    pub proof fn lemma_postings_in_order(&self, t: Seq<char>)
        requires
            self.wf(),
        ensures
            in_doc_order(self.postings_of(t), self.doc_count()),
            self.postings_of(t).len() <= self.doc_count(),
    {
        let s = self.term_file@;
        let d = self.dict@;
        if exists|e: int| 0 <= e < d.len() && #[trigger] d[e].term@ == t {
            let e = index_of(d, t);
            assert(data_ok(s, d[e].data) && count_ok(d[e].data, self.doc_num));
            assert(in_doc_order(all_postings(s, d[e].data), self.doc_num));
        }
    }

    /// Adds a document: it becomes document number `doc_count() + 1`, and each
    /// term of its text gets one posting of it, whose frequency `tf_of` gives
    /// from the term's number of occurrences and the number of tokens kept.
    /// Fails when the term file could not take another block; the terms
    /// before the one that failed keep their new posting.
    pub fn add_doc<F: Fn(usize, usize) -> u16>(&mut self, doc: &Document, tf_of: F) -> (r: Result<()>)
        requires
            old(self).wf(),
            old(self).doc_count() < u64::MAX,
            forall|num: usize, total: usize| tf_of.requires((num, total)),
        ensures
            final(self).wf(),
            final(self).analyzer_of() == old(self).analyzer_of(),
            final(self).doc_count() == old(self).doc_count() + 1,
            old(self).store_bytes().len() <= final(self).store_bytes().len(),
            old(self).store_bytes().len() + FLUSH_ROOM * old(self).analyzer_of().kept(doc.content@).len()
                <= usize::MAX ==> r is Ok,
            old(self).blocks_full() ==> final(self).blocks_full(),
            match r {
                Ok(()) => {
                    let kept = old(self).analyzer_of().kept(doc.content@);
                    &&& forall|t: Seq<char>|
                        kept.contains(t) ==> posting_added(
                            old(self).postings_of(t),
                            #[trigger] final(self).postings_of(t),
                            final(self).doc_count(),
                            doc.external_id,
                            tf_of,
                            count_in(kept, t) as int,
                            kept.len() as int,
                        )
                    &&& forall|t: Seq<char>|
                        !kept.contains(t) ==> #[trigger] final(self).postings_of(t) == old(self).postings_of(t)
                    &&& doc_added(*old(self), *final(self), doc.external_id, kept)
                },
                Err(e) => {
                    let kept = old(self).analyzer_of().kept(doc.content@);
                    &&& e matches Error::Store(se) && se == StoreError::OutOfRange
                    &&& final(self).store_bytes().len() + FLUSH_ROOM > usize::MAX
                    &&& forall|t: Seq<char>|
                        #[trigger] final(self).postings_of(t) == old(self).postings_of(t) || (kept.contains(t)
                            && posting_added(
                            old(self).postings_of(t),
                            final(self).postings_of(t),
                            final(self).doc_count(),
                            doc.external_id,
                            tf_of,
                            count_in(kept, t) as int,
                            kept.len() as int,
                        ))
                },
            },
    {
        let ghost w0 = *self;
        let ghost kept = self.analyzer.kept(doc.content@);
        self.doc_num = self.doc_num + 1;
        let id = self.doc_num;
        proof {
            let d = self.dict@;
            assert forall|e: int| 0 <= e < d.len() implies #[trigger] count_ok(d[e].data, id) by {
                assert(count_ok(d[e].data, w0.doc_num));
            }
            assert forall|e: int| 0 <= e < d.len() implies #[trigger] in_doc_order(
                all_postings(self.term_file@, d[e].data),
                id,
            ) by {
                assert(in_doc_order(all_postings(self.term_file@, d[e].data), w0.doc_num));
            }
        }
        let (terms, total) = match self.analyzer.analyze(doc.content) {
            Ok(a) => a,
            Err(e) => {
                proof {
                    assert(false);
                }
                return Err(Error::Analyze(e));
            },
        };
        let ghost s0 = self.term_file@;
        proof {
            assert(self.term_file@ == w0.term_file@ && self.dict@ == w0.dict@);
            if w0.blocks_full() {
                assert forall|x: Seq<char>, b: int| 0 <= b < self.blocks_of(x).len() implies #[trigger] self.blocks_of(
                    x,
                )[b].len() == POSTING_BLOCK_MAX_SIZE by {
                    assert(self.blocks_of(x) == w0.blocks_of(x));
                    assert(w0.blocks_of(x)[b].len() == POSTING_BLOCK_MAX_SIZE);
                }
            }
        }
        let mut i: usize = 0;
        while i < terms.len()
            invariant
                self.wf(),
                w0 == *old(self),
                w0.wf(),
                self.analyzer_of() == w0.analyzer_of(),
                self.doc_count() == id,
                id == w0.doc_count() + 1,
                kept == w0.analyzer_of().kept(doc.content@),
                counts_ok(terms@, kept),
                total == kept.len(),
                terms@.len() <= total,
                i <= terms@.len(),
                forall|num: usize, total: usize| tf_of.requires((num, total)),
                w0.store_bytes() == s0,
                s0.len() <= self.store_bytes().len() <= s0.len() + FLUSH_ROOM * i,
                forall|k: int|
                    0 <= k < i ==> posting_added(
                        w0.postings_of(terms@[k].0@),
                        #[trigger] self.postings_of(terms@[k].0@),
                        id,
                        doc.external_id,
                        tf_of,
                        terms@[k].1 as int,
                        total as int,
                    ),
                forall|t: Seq<char>|
                    !in_prefix(terms@, i as int, t) ==> #[trigger] self.postings_of(t) == w0.postings_of(t),
                w0.blocks_full() ==> self.blocks_full(),
            decreases terms@.len() - i,
        {
            let ghost t = terms@[i as int].0@;
            proof {
                assert(!in_prefix(terms@, i as int, t)) by {
                    if in_prefix(terms@, i as int, t) {
                        let k = choose|k: int| 0 <= k < i && #[trigger] terms@[k].0@ == t;
                        assert(crate::terms::lex_lt(terms@[k].key(), terms@[i as int].key()));
                        lemma_lex_irreflexive(key_of(t));
                    }
                }
                w0.lemma_postings_in_order(t);
            }
            let num = terms[i].1;
            let tf = tf_of(num, total);
            let ghost w1 = *self;
            let res = self.add_term(terms[i].0.as_str(), tf, doc.external_id, id);
            match res {
                Ok(()) => {},
                Err(e) => {
                    proof {
                        assert forall|x: Seq<char>| #[trigger] self.postings_of(x) == w0.postings_of(x) || (
                        kept.contains(x) && posting_added(
                            w0.postings_of(x),
                            self.postings_of(x),
                            self.doc_count(),
                            doc.external_id,
                            tf_of,
                            count_in(kept, x) as int,
                            kept.len() as int,
                        )) by {
                            assert(self.postings_of(x) == w1.postings_of(x));
                            if in_prefix(terms@, i as int, x) {
                                let k = choose|k: int| 0 <= k < i && #[trigger] terms@[k].0@ == x;
                                assert(posting_added(
                                    w0.postings_of(terms@[k].0@),
                                    w1.postings_of(terms@[k].0@),
                                    id,
                                    doc.external_id,
                                    tf_of,
                                    terms@[k].1 as int,
                                    total as int,
                                ));
                                assert(kept.contains(x));
                                assert(terms@[k].1 == count_in(kept, x));
                            }
                        }
                    }
                    return Err(e);
                },
            }
            proof {
                if w1.blocks_full() {
                    w1.lemma_blocks(t);
                    assert forall|x: Seq<char>, b: int| 0 <= b < self.blocks_of(x).len() implies #[trigger] self.blocks_of(
                        x,
                    )[b].len() == POSTING_BLOCK_MAX_SIZE by {
                        if x != t {
                            assert(self.blocks_of(x) == w1.blocks_of(x));
                            assert(w1.blocks_of(x)[b].len() == POSTING_BLOCK_MAX_SIZE);
                        } else if w1.waiting_of(t).len() + 1 == POSTING_BLOCK_MAX_SIZE {
                            if b < w1.blocks_of(t).len() {
                                assert(w1.blocks_of(t)[b].len() == POSTING_BLOCK_MAX_SIZE);
                            }
                        } else {
                            assert(w1.blocks_of(t)[b].len() == POSTING_BLOCK_MAX_SIZE);
                        }
                    }
                }
                assert forall|k: int|
                    0 <= k < i + 1 implies posting_added(
                    w0.postings_of(terms@[k].0@),
                    #[trigger] self.postings_of(terms@[k].0@),
                    id,
                    doc.external_id,
                    tf_of,
                    terms@[k].1 as int,
                    total as int,
                ) by {
                    if k < i {
                        if terms@[k].0@ == t {
                            assert(crate::terms::lex_lt(terms@[k].key(), terms@[i as int].key()));
                            lemma_lex_irreflexive(key_of(t));
                        }
                        assert(self.postings_of(terms@[k].0@) == w1.postings_of(terms@[k].0@));
                    } else {
                        assert(self.postings_of(t) == w1.postings_of(t).push(
                            PostingsInfo { id: id, external_id: doc.external_id, tf: tf },
                        ));
                        assert(self.postings_of(t).drop_last() =~= w1.postings_of(t));
                    }
                }
                assert forall|x: Seq<char>| !in_prefix(terms@, i + 1, x) implies #[trigger] self.postings_of(x)
                    == w0.postings_of(x) by {
                    if x == t {
                        assert(terms@[i as int].0@ == x);
                        assert(in_prefix(terms@, i + 1, x));
                    }
                    assert(!in_prefix(terms@, i as int, x)) by {
                        if in_prefix(terms@, i as int, x) {
                            let k = choose|k: int| 0 <= k < i && #[trigger] terms@[k].0@ == x;
                            assert(in_prefix(terms@, i + 1, x));
                        }
                    }
                }
            }
            i = i + 1;
        }
        proof {
            assert forall|t: Seq<char>| kept.contains(t) implies posting_added(
                w0.postings_of(t),
                #[trigger] self.postings_of(t),
                self.doc_count(),
                doc.external_id,
                tf_of,
                count_in(kept, t) as int,
                kept.len() as int,
            ) by {
                let k = choose|k: int| 0 <= k < terms@.len() && #[trigger] terms@[k].0@ == t;
                assert(terms@[k].1 == count_in(kept, t));
            }
            assert forall|t: Seq<char>| !kept.contains(t) implies #[trigger] self.postings_of(t)
                == w0.postings_of(t) by {
                if in_prefix(terms@, terms@.len() as int, t) {
                    let k = choose|k: int| 0 <= k < terms@.len() && #[trigger] terms@[k].0@ == t;
                }
            }
        }
        Ok(())
    }

    /// The number of terms with postings.
    pub closed spec fn term_count(&self) -> nat {
        self.dict@.len()
    }

    /// `m` maps the bytes of each term with postings to where, in the term
    /// file, a skip list that holds exactly those postings, in the term's
    /// blocks, lies, and has no other key.
    pub open spec fn lists_match(&self, m: Map<Seq<u8>, u64>) -> bool {
        &&& forall|t: Seq<char>|
            #[trigger] self.postings_of(t).len() > 0 ==> {
                &&& m.contains_key(key_of(t))
                &&& is_list::<PostingsBlock>(self.store_bytes(), m[key_of(t)] as int)
                &&& stored_postings(self.store_bytes(), m[key_of(t)]) == self.postings_of(t)
                &&& stored_blocks(self.store_bytes(), m[key_of(t)]) == self.blocks_of(t)
            }
        &&& forall|k: Seq<u8>|
            #[trigger] m.contains_key(k) ==> exists|t: Seq<char>|
                key_of(t) == k && #[trigger] self.postings_of(t).len() > 0
    }

    /// Writing the header keeps the skip list of entry `e` and its postings.
    proof fn lemma_header_entry(s: Seq<u8>, d: Seq<TermEntry>, buf: Seq<u8>, e: int)
        requires
            dict_core(s, d),
            0 <= e < d.len(),
            buf.len() == HEADER_SIZE,
        ensures
            stored_postings(written(s, 0, buf), d[e].data.offset) == stored_postings(s, d[e].data.offset),
            stored_blocks(written(s, 0, buf), d[e].data.offset) == stored_blocks(s, d[e].data.offset),
            data_ok(written(s, 0, buf), d[e].data),
            forall|p: int| #[trigger] owns(written(s, 0, buf), d[e].data, p) == owns(s, d[e].data, p),
    {
        let s2 = written(s, 0, buf);
        lemma_written_inside(s, 0, buf);
        let de = d[e].data;
        assert(data_ok(s, de));
        if de.offset != 0 {
            let off = de.offset as int;
            assert forall|p: int| 0 <= p < s.len() && #[trigger] in_footprint::<PostingsBlock>(s, off, p) implies s2[p]
                == s[p] by {
                assert(owns(s, de, p));
            }
            assert(usize::MAX <= u64::MAX);
            lemma_frame::<PostingsBlock>(s, s2, off);
        }
    }

    /// Writing the header keeps every skip list and its postings.
    proof fn lemma_header_write(s: Seq<u8>, d: Seq<TermEntry>, h: Header)
        requires
            dict_core(s, d),
            h.magic == TERM_FILE_MAGIC_NUMBER,
        ensures
            dict_core(written(s, 0, Header::spec_encode(h)), d),
            written(s, 0, Header::spec_encode(h)).subrange(0, HEADER_SIZE as int) == Header::spec_encode(h),
            forall|t: Seq<char>| #[trigger] postings_in(written(s, 0, Header::spec_encode(h)), d, t) == postings_in(s, d, t),
            forall|e: int|
                0 <= e < d.len() ==> #[trigger] stored_postings(written(s, 0, Header::spec_encode(h)), d[e].data.offset)
                    == stored_postings(s, d[e].data.offset),
            forall|e: int|
                0 <= e < d.len() ==> #[trigger] stored_blocks(written(s, 0, Header::spec_encode(h)), d[e].data.offset)
                    == stored_blocks(s, d[e].data.offset),
    {
        let buf = Header::spec_encode(h);
        lemma_enc_u64(h.magic);
        lemma_enc_u64(h.doc_num);
        lemma_written_inside(s, 0, buf);
        let s2 = written(s, 0, buf);
        assert(s2.subrange(0, 8) =~= enc_u64(TERM_FILE_MAGIC_NUMBER)) by {
            assert(buf.subrange(0, 8) =~= enc_u64(h.magic));
            assert forall|p: int| 0 <= p < 8 implies s2.subrange(0, 8)[p] == buf.subrange(0, 8)[p] by {
                assert(s2.subrange(0, 16)[p] == buf[p]);
            }
        }
        assert forall|e: int| 0 <= e < d.len() implies #[trigger] data_ok(s2, d[e].data) by {
            Self::lemma_header_entry(s, d, buf, e);
        }
        assert forall|e: int, p: int| 0 <= e < d.len() && #[trigger] owns(s2, d[e].data, p) implies HEADER_SIZE <= p by {
            Self::lemma_header_entry(s, d, buf, e);
            assert(owns(s, d[e].data, p));
        }
        assert forall|a: int, b: int, p: int|
            0 <= a < d.len() && 0 <= b < d.len() && a != b && #[trigger] owns(s2, d[a].data, p) implies !#[trigger] owns(
            s2,
            d[b].data,
            p,
        ) by {
            Self::lemma_header_entry(s, d, buf, a);
            Self::lemma_header_entry(s, d, buf, b);
            assert(owns(s, d[a].data, p));
        }
        assert forall|t: Seq<char>| #[trigger] postings_in(s2, d, t) == postings_in(s, d, t) by {
            if exists|e: int| 0 <= e < d.len() && #[trigger] d[e].term@ == t {
                let e = index_of(d, t);
                Self::lemma_header_entry(s, d, buf, e);
            }
        }
        assert forall|e: int| 0 <= e < d.len() implies #[trigger] stored_postings(s2, d[e].data.offset)
            == stored_postings(s, d[e].data.offset) by {
            Self::lemma_header_entry(s, d, buf, e);
        }
        assert forall|e: int| 0 <= e < d.len() implies #[trigger] stored_blocks(s2, d[e].data.offset)
            == stored_blocks(s, d[e].data.offset) by {
            Self::lemma_header_entry(s, d, buf, e);
        }
    }

    /// Sends every term's waiting postings to its skip list, builds the FST
    /// from each term's bytes to where its skip list lies, and writes the
    /// header with the number of documents. Returns the FST's bytes.
    pub fn finish(&mut self) -> (r: Result<Vec<u8>>)
        requires
            old(self).wf(),
        ensures
            final(self).wf(),
            final(self).analyzer_of() == old(self).analyzer_of(),
            final(self).doc_count() == old(self).doc_count(),
            final(self).term_count() == old(self).term_count(),
            forall|t: Seq<char>| #[trigger] final(self).postings_of(t) == old(self).postings_of(t),
            old(self).store_bytes().len() + FLUSH_ROOM * old(self).term_count() <= usize::MAX ==> !(r matches Err(
                Error::Store(_),
            )),
            match r {
                Ok(fst) => {
                    &&& fst_built(fst@)
                    &&& final(self).lists_match(fst_bytes_entries(fst@))
                    &&& forall|t: Seq<char>| #[trigger] final(self).waiting_of(t).len() == 0
                    &&& forall|t: Seq<char>|
                        #[trigger] final(self).blocks_of(t) == finished_blocks(
                            old(self).blocks_of(t),
                            old(self).waiting_of(t),
                        )
                    &&& final(self).store_bytes().subrange(0, HEADER_SIZE as int) == Header::spec_encode(
                        Header { magic: TERM_FILE_MAGIC_NUMBER, doc_num: final(self).doc_count() },
                    )
                },
                Err(Error::Store(se)) => {
                    &&& se == StoreError::OutOfRange
                    &&& final(self).store_bytes().len() + FLUSH_ROOM > usize::MAX
                },
                Err(Error::Fst(_)) => false,
                Err(Error::Analyze(_)) => false,
            },
    {
        let ghost w0 = *self;
        let ghost s0 = self.term_file@;
        let mut entries: Vec<(String, u64)> = Vec::new();
        let mut j: usize = 0;
        while j < self.dict.len()
            invariant
                w0 == *old(self),
                w0.wf(),
                self.wf(),
                self.analyzer_of() == w0.analyzer_of(),
                self.doc_count() == w0.doc_count(),
                self.dict@.len() == w0.dict@.len(),
                forall|k: int| 0 <= k < self.dict@.len() ==> #[trigger] self.dict@[k].term == w0.dict@[k].term,
                forall|t: Seq<char>| #[trigger] self.postings_of(t) == w0.postings_of(t),
                j <= self.dict@.len(),
                entries@.len() == j,
                forall|k: int|
                    0 <= k < j ==> {
                        &&& #[trigger] entries@[k].0@ == self.dict@[k].term@
                        &&& entries@[k].1 == self.dict@[k].data.offset
                        &&& self.dict@[k].data.postings@.len() == 0
                    },
                s0 == w0.store_bytes(),
                s0.len() <= self.store_bytes().len() <= s0.len() + FLUSH_ROOM * j,
                forall|k: int| j <= k < self.dict@.len() ==> #[trigger] self.dict@[k] == w0.dict@[k],
                forall|k: int|
                    0 <= k < self.dict@.len() ==> #[trigger] stored_blocks(self.term_file@, self.dict@[k].data.offset)
                        == if k < j && w0.dict@[k].data.postings@.len() > 0 {
                        stored_blocks(s0, w0.dict@[k].data.offset).push(w0.dict@[k].data.postings@)
                    } else {
                        stored_blocks(s0, w0.dict@[k].data.offset)
                    },
            decreases self.dict@.len() - j,
        {
            if self.term_file.len() > (usize::MAX - FLUSH_ROOM) as u64 {
                return Err(Error::Store(StoreError::OutOfRange));
            }
            let ghost s1 = self.term_file@;
            let ghost d1 = self.dict@;
            let ghost w1 = *self;
            proof {
                assert(data_ok(s1, d1[j as int].data) && count_ok(d1[j as int].data, self.doc_num));
                lemma_postings_at(s1, d1, j as int);
            }
            write_posting(&mut self.term_file, &mut self.dict[j].data);
            let term = self.dict[j].term.clone();
            let offset = self.dict[j].data.offset;
            entries.push((term, offset));
            proof {
                let s2 = self.term_file@;
                let d2 = self.dict@;
                lemma_flush_keeps(s1, d1, j as int, s2, d2[j as int].data);
                assert(d2 =~= d1.update(j as int, TermEntry { term: d1[j as int].term, data: d2[j as int].data }));
                assert forall|e: int| 0 <= e < d2.len() implies #[trigger] count_ok(d2[e].data, self.doc_num) by {
                    assert(count_ok(d1[e].data, self.doc_num));
                }
                assert forall|e: int| 0 <= e < d2.len() implies #[trigger] in_doc_order(
                    all_postings(s2, d2[e].data),
                    self.doc_num,
                ) by {
                    assert(in_doc_order(all_postings(s1, d1[e].data), self.doc_num));
                    if e != j {
                        assert(d2[e] == d1[e]);
                        assert(stored_postings(s2, d1[e].data.offset) == stored_postings(s1, d1[e].data.offset));
                    } else {
                        assert(all_postings(s2, d2[e].data) =~= all_postings(s1, d1[e].data));
                    }
                }
                assert forall|t: Seq<char>| #[trigger] postings_in(s2, d2, t) == postings_in(s1, d1, t) by {
                    if exists|e: int| 0 <= e < d1.len() && #[trigger] d1[e].term@ == t {
                        let e = index_of(d1, t);
                        lemma_postings_at(s1, d1, e);
                        lemma_postings_at(s2, d2, e);
                        if e == j {
                            assert(stored_postings(s2, d2[e].data.offset) + d2[e].data.postings@ =~= stored_postings(
                                s2,
                                d2[e].data.offset,
                            ));
                        }
                    } else {
                        if exists|e: int| 0 <= e < d2.len() && #[trigger] d2[e].term@ == t {
                            let e = choose|e: int| 0 <= e < d2.len() && #[trigger] d2[e].term@ == t;
                            assert(d1[e].term@ == t);
                        }
                    }
                }
                assert(self.term_file@ == s2);
                assert(self.dict@ == d2);
                assert forall|t: Seq<char>| #[trigger] self.postings_of(t) == w0.postings_of(t) by {
                    assert(postings_in(s2, d2, t) == postings_in(s1, d1, t));
                    assert(w1.postings_of(t) == w0.postings_of(t));
                }
                assert(d1[j as int] == w0.dict@[j as int]);
                assert forall|k: int| 0 <= k < d2.len() implies #[trigger] stored_blocks(s2, d2[k].data.offset)
                    == if k < j + 1 && w0.dict@[k].data.postings@.len() > 0 {
                    stored_blocks(s0, w0.dict@[k].data.offset).push(w0.dict@[k].data.postings@)
                } else {
                    stored_blocks(s0, w0.dict@[k].data.offset)
                } by {
                    if k != j {
                        assert(d2[k] == d1[k]);
                        assert(stored_blocks(s1, d1[k].data.offset) == if k < j && w0.dict@[k].data.postings@.len()
                            > 0 {
                            stored_blocks(s0, w0.dict@[k].data.offset).push(w0.dict@[k].data.postings@)
                        } else {
                            stored_blocks(s0, w0.dict@[k].data.offset)
                        });
                    } else {
                        assert(stored_blocks(s1, d1[k].data.offset) == stored_blocks(s0, w0.dict@[k].data.offset));
                    }
                }
            }
            j = j + 1;
        }
        proof {
            let d = self.dict@;
            assert forall|a: int, b: int| 0 <= a < b < entries@.len() implies crate::terms::lex_lt(
                key_of(#[trigger] entries@[a].0@),
                key_of(#[trigger] entries@[b].0@),
            ) by {
                assert(entries@[a].0@ == d[a].term@);
                assert(entries@[b].0@ == d[b].term@);
                assert(dict_core(self.term_file@, d));
                assert(crate::terms::lex_lt(d[a].key(), d[b].key()));
            }
            assert(entries_ascending(entries@));
        }
        let fst = match fst_build(&entries) {
            Ok(b) => b,
            Err(e) => {
                return Err(Error::Fst(e));
            },
        };
        let header = Header { magic: TERM_FILE_MAGIC_NUMBER, doc_num: self.doc_num };
        let ghost s3 = self.term_file@;
        let ghost d3 = self.dict@;
        let ghost w3 = *self;
        let _ = self.term_file.len();
        proof {
            lemma_enc_u64(header.magic);
            lemma_enc_u64(header.doc_num);
        }
        match self.term_file.write(&header, 0) {
            Ok(()) => {},
            Err(e) => {
                proof {
                    assert(false);
                }
                return Err(Error::Store(e));
            },
        }
        proof {
            Self::lemma_header_write(s3, d3, header);
            let s4 = self.term_file@;
            assert forall|e: int| 0 <= e < d3.len() implies #[trigger] in_doc_order(
                all_postings(s4, d3[e].data),
                self.doc_num,
            ) by {
                assert(in_doc_order(all_postings(s3, d3[e].data), self.doc_num));
                assert(stored_postings(s4, d3[e].data.offset) == stored_postings(s3, d3[e].data.offset));
            }
            assert forall|t: Seq<char>| #[trigger] self.postings_of(t) == w0.postings_of(t) by {
                assert(postings_in(s4, d3, t) == postings_in(s3, d3, t));
                assert(w3.postings_of(t) == w0.postings_of(t));
            }
            let m = fst_bytes_entries(fst@);
            assert(m == entry_map(entries@));
            assert forall|t: Seq<char>| #[trigger] self.postings_of(t).len() > 0 implies {
                &&& m.contains_key(key_of(t))
                &&& is_list::<PostingsBlock>(s4, m[key_of(t)] as int)
                &&& stored_postings(s4, m[key_of(t)]) == self.postings_of(t)
                &&& stored_blocks(s4, m[key_of(t)]) == self.blocks_of(t)
            } by {
                let e = index_of(d3, t);
                assert(exists|e: int| 0 <= e < d3.len() && #[trigger] d3[e].term@ == t);
                assert(entries@[e].0@ == t);
                assert(m.contains_key(key_of(t)));
                let c = choose|c: int| 0 <= c < entries@.len() && key_of(#[trigger] entries@[c].0@) == key_of(t);
                lemma_key_injective(entries@[c].0@, t);
                lemma_index_of(d3, c);
                lemma_postings_at(s4, d3, e);
                assert(data_ok(s4, d3[e].data));
                assert(d3[e].data.offset != 0);
            }
            assert forall|t: Seq<char>| #[trigger] self.blocks_of(t) == if w0.waiting_of(t).len() > 0 {
                w0.blocks_of(t).push(w0.waiting_of(t))
            } else {
                w0.blocks_of(t)
            } by {
                let d0 = w0.dict@;
                if exists|e: int| 0 <= e < d3.len() && #[trigger] d3[e].term@ == t {
                    let e = index_of(d3, t);
                    assert(d3[e].term == d0[e].term);
                    lemma_postings_at(s4, d3, e);
                    lemma_postings_at(s0, d0, e);
                    assert(stored_blocks(s4, d3[e].data.offset) == stored_blocks(s3, d3[e].data.offset));
                } else {
                    if exists|e: int| 0 <= e < d0.len() && #[trigger] d0[e].term@ == t {
                        let e = choose|e: int| 0 <= e < d0.len() && #[trigger] d0[e].term@ == t;
                        assert(d3[e].term == d0[e].term);
                    }
                }
            }
            assert forall|t: Seq<char>| #[trigger] self.waiting_of(t).len() == 0 by {
                if exists|e: int| 0 <= e < d3.len() && #[trigger] d3[e].term@ == t {
                    let e = index_of(d3, t);
                    assert(entries@[e].0@ == d3[e].term@);
                    assert(d3[e].data.postings@.len() == 0);
                }
            }
            assert forall|k: Seq<u8>| #[trigger] m.contains_key(k) implies exists|t: Seq<char>|
                key_of(t) == k && #[trigger] self.postings_of(t).len() > 0 by {
                let c = choose|c: int| 0 <= c < entries@.len() && key_of(#[trigger] entries@[c].0@) == k;
                let t = entries@[c].0@;
                lemma_postings_at(s4, d3, c);
                assert(data_ok(s4, d3[c].data) && count_ok(d3[c].data, self.doc_num));
                assert(self.postings_of(t).len() > 0);
            }
        }
        Ok(fst)
    }

    /// The term file holds at least the header.
    pub proof fn lemma_header_len(&self)
        requires
            self.wf(),
        ensures
            HEADER_SIZE <= self.store_bytes().len() <= usize::MAX,
    {
    }

    /// The term file, taken out of the writer.
    pub fn into_term_file(self) -> (r: MemStore)
        ensures
            r@ == self.store_bytes(),
    {
        self.term_file
    }

    /// The term file.
    pub fn term_file(&self) -> (r: &MemStore)
        ensures
            r@ == self.store_bytes(),
    {
        &self.term_file
    }

    /// The number of documents added.
    pub fn doc_num(&self) -> (r: u64)
        ensures
            r == self.doc_count(),
    {
        self.doc_num
    }

    /// The analyzer.
    pub fn analyzer(&self) -> (r: &Analyzer<C, T, I>)
        ensures
            *r == self.analyzer_of(),
    {
        &self.analyzer
    }
}

} // verus!

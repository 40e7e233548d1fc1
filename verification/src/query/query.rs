//! Looking up terms in the index and ranking the documents that hold them.
use crate::analyzer::analyzer::counts_ok;
use crate::analyzer::char_filter::CharFilter;
use crate::analyzer::token_filter::TokenFilter;
use crate::analyzer::tokenizer::Tokenizer;
use crate::analyzer::Analyzer;
use crate::codec::u64_at;
use crate::codec::{enc_u64, lemma_enc_u64, lemma_subrange_split, lemma_u64_at, DecodeError, Record};
use crate::index::writer::{Error as WriteError, FLUSH_ROOM};
use crate::fst_map::{fst_built, fst_bytes_entries, fst_get, fst_map_bytes, fst_map_entries, fst_open};
use crate::store::error::{EncodingError, Error as StoreError};
use crate::index::constants::TERM_FILE_MAGIC_NUMBER;
use crate::index::postings::{PostingsBlock, PostingsInfo, POSTING_BLOCK_MAX_SIZE};
use crate::index::term_index::{Header, HEADER_SIZE};
use crate::index::writer::{concat_blocks, finished_blocks, stored_blocks, stored_postings, Writer};
use crate::paths::{join_path, path_joined};
use crate::query::error::{Error, Result};
use crate::store::skip_list::model::{is_list, list_of};
use crate::store::skip_list::reader::Reader;
use crate::store::store_io::MemStore;
use std::ops::Range;
use vstd::hash_map::HashMapWithView;
use vstd::hash_set::HashSetWithView;
use crate::terms::{compare_keys, key_of, keys_sorted, lemma_key_injective, KeyOrder, Keyed};
use std::path::PathBuf;
use vstd::prelude::*;
use vstd::string::StringExecFns;

verus! {

broadcast use vstd::string::group_string_axioms;

/// The directory the index files are read from.
#[derive(Debug)]
pub struct Config {
    pub index_dir: PathBuf,
}

impl Config {
    pub fn new(index_dir: PathBuf) -> (r: Self)
        ensures
            r.index_dir == index_dir,
    {
        Self { index_dir }
    }

    /// The path of the index file `filename`: the index directory joined with it.
    pub fn build_file_path(&self, filename: &str) -> (r: PathBuf)
        ensures
            r == path_joined(self.index_dir, filename@),
    {
        join_path(&self.index_dir, filename)
    }
}

/// The place of the skip list read for `word` among the FST's answers `c`:
/// that of the first answer that is `word` itself, else that of the last
/// answer, else none.
pub open spec fn pick_offset(word: Seq<char>, c: Seq<(String, u64)>) -> Option<u64>
    decreases c.len(),
{
    if c.len() == 0 {
        None
    } else if c[0].0@ == word {
        Some(c[0].1)
    } else {
        match pick_offset(word, c.drop_first()) {
            Some(o) => Some(o),
            None => Some(c[0].1),
        }
    }
}

/// Where an answer of the FST is the word itself, the word's own place is
/// picked, whatever answers come before or after it: the first answer that
/// is the word, and the postings read are those of its skip list.
pub proof fn lemma_pick_prefers_the_word(word: Seq<char>, c: Seq<(String, u64)>, k: int, s: Seq<u8>)
    requires
        0 <= k < c.len(),
        c[k].0@ == word,
        forall|j: int| 0 <= j < k ==> #[trigger] c[j].0@ != word,
    ensures
        pick_offset(word, c) == Some(c[k].1),
        picked_postings(s, pick_offset(word, c)) == list_postings(s, c[k].1),
    decreases k,
{
    if k > 0 {
        let d = c.drop_first();
        assert forall|j: int| 0 <= j < k - 1 implies #[trigger] d[j].0@ != word by {
            assert(d[j] == c[j + 1]);
        }
        assert(d[k - 1] == c[k]);
        lemma_pick_prefers_the_word(word, d, k - 1, s);
        assert(c[0].0@ != word);
    }
}

/// Where no answer of the FST is the word itself, the last answer's place is
/// picked, and none where the FST gave no answer.
pub proof fn lemma_pick_without_the_word(word: Seq<char>, c: Seq<(String, u64)>)
    requires
        forall|j: int| 0 <= j < c.len() ==> #[trigger] c[j].0@ != word,
    ensures
        pick_offset(word, c) == if c.len() == 0 {
            None
        } else {
            Some(c.last().1)
        },
    decreases c.len(),
{
    if c.len() > 0 {
        let d = c.drop_first();
        assert forall|j: int| 0 <= j < d.len() implies #[trigger] d[j].0@ != word by {
            assert(d[j] == c[j + 1]);
        }
        lemma_pick_without_the_word(word, d);
        assert(c[0].0@ != word);
        if d.len() > 0 {
            assert(d.last() == c.last());
        }
    }
}

/// The postings of the skip list at `off` of `s`, one block after the other.
pub open spec fn list_postings(s: Seq<u8>, off: u64) -> Seq<PostingsInfo> {
    concat_blocks(list_of::<PostingsBlock>(s, off as int))
}

/// The place the FST with entries `m` gives for the term `t` itself.
pub open spec fn exact_pick(m: Map<Seq<u8>, u64>, t: Seq<char>) -> Option<u64> {
    if m.contains_key(key_of(t)) {
        Some(m[key_of(t)])
    } else {
        None
    }
}

/// `words` are the terms of `kept`, each once, in key order.
pub open spec fn words_of(words: Seq<String>, kept: Seq<Seq<char>>) -> bool {
    &&& keys_sorted(words)
    &&& forall|x: Seq<char>|
        kept.contains(x) <==> exists|i: int| 0 <= i < words.len() && #[trigger] words[i]@ == x
}

/// Where no answer before `i` is `word`, the pick among all answers is the
/// pick among those from `i` on, or else the answer just before `i`.
proof fn lemma_pick_skip(word: Seq<char>, c: Seq<(String, u64)>, i: int)
    requires
        0 <= i <= c.len(),
        forall|k: int| 0 <= k < i ==> #[trigger] c[k].0@ != word,
    ensures
        pick_offset(word, c) == match pick_offset(word, c.skip(i)) {
            Some(o) => Some(o),
            None => if i > 0 {
                Some(c[i - 1].1)
            } else {
                None
            },
        },
    decreases i,
{
    if i == 0 {
        assert(c.skip(0) =~= c);
    } else {
        let d = c.drop_first();
        assert forall|k: int| 0 <= k < i - 1 implies #[trigger] d[k].0@ != word by {
            assert(d[k] == c[k + 1]);
        }
        lemma_pick_skip(word, d, i - 1);
        assert(d.skip(i - 1) =~= c.skip(i));
        assert(c[0].0@ != word);
        if i > 1 {
            assert(d[i - 2] == c[i - 1]);
        }
    }
}

/// The postings read for a pick: those of the skip list at its place, or none.
pub open spec fn picked_postings(s: Seq<u8>, o: Option<u64>) -> Seq<PostingsInfo> {
    match o {
        Some(off) => list_postings(s, off),
        None => Seq::empty(),
    }
}

/// The blocks read for a pick: those of the skip list at its place, or none.
pub open spec fn picked_blocks(s: Seq<u8>, o: Option<u64>) -> Seq<Seq<PostingsInfo>> {
    match o {
        Some(off) => stored_blocks(s, off),
        None => Seq::empty(),
    }
}

/// Every place picked for the words from the FST's answers holds a skip list.
pub open spec fn readable(s: Seq<u8>, words: Seq<String>, cands: Seq<Vec<(String, u64)>>) -> bool {
    forall|i: int|
        0 <= i < words.len() ==> match #[trigger] pick_offset(words[i]@, cands[i]@) {
            Some(o) => is_list::<PostingsBlock>(s, o as int),
            None => true,
        }
}

/// The postings read for each word, word by word.
pub open spec fn query_lists(s: Seq<u8>, words: Seq<String>, cands: Seq<Vec<(String, u64)>>) -> Seq<
    Seq<PostingsInfo>,
> {
    Seq::new(words.len(), |i: int| picked_postings(s, pick_offset(words[i]@, cands[i]@)))
}

/// The sum of the frequencies in the postings `q` of the document `id`.
pub open spec fn tf_sum(q: Seq<PostingsInfo>, id: u64) -> int
    decreases q.len(),
{
    if q.len() == 0 {
        0
    } else {
        tf_sum(q.drop_last(), id) + if q.last().external_id == id {
            q.last().tf as int
        } else {
            0
        }
    }
}

/// A document's score: the sum of its frequencies, held at `u64::MAX`.
pub open spec fn score(q: Seq<PostingsInfo>, id: u64) -> u64 {
    if tf_sum(q, id) < u64::MAX {
        tf_sum(q, id) as u64
    } else {
        u64::MAX
    }
}

/// Some posting of `q` is of the document `id`.
pub open spec fn holds(q: Seq<PostingsInfo>, id: u64) -> bool {
    exists|k: int| 0 <= k < q.len() && #[trigger] q[k].external_id == id
}

/// The document `id` is in every one of the lists, and there is at least one.
pub open spec fn holds_all(lists: Seq<Seq<PostingsInfo>>, id: u64) -> bool {
    &&& lists.len() > 0
    &&& forall|l: int| 0 <= l < lists.len() ==> holds(#[trigger] lists[l], id)
}

/// The documents of `q`.
pub open spec fn ids_in(q: Seq<PostingsInfo>) -> Set<u64> {
    Set::new(|x: u64| holds(q, x))
}

/// `order` holds once each document that is in all the lists (the
/// intersection of the lists), in ascending order of score, a document's
/// score summing its frequencies over all the lists.
pub open spec fn ranking_ok(order: Seq<u64>, lists: Seq<Seq<PostingsInfo>>) -> bool {
    &&& order.no_duplicates()
    &&& forall|x: u64| #[trigger] order.contains(x) <==> holds_all(lists, x)
    &&& forall|i: int, j: int|
        0 <= i < j < order.len() ==> score(concat_blocks(lists), #[trigger] order[i]) <= score(
            concat_blocks(lists),
            #[trigger] order[j],
        )
}

/// A document of one list is a document of all the lists put together.
proof fn lemma_holds_concat(v: Seq<Seq<PostingsInfo>>, l: int, id: u64)
    requires
        0 <= l < v.len(),
        holds(v[l], id),
    ensures
        holds(concat_blocks(v), id),
    decreases v.len(),
{
    let d = v.drop_last();
    let k = choose|k: int| 0 <= k < v[l].len() && #[trigger] v[l][k].external_id == id;
    if l == v.len() - 1 {
        let c = concat_blocks(d);
        assert((c + v.last())[c.len() + k] == v[l][k]);
    } else {
        assert(d[l] == v[l]);
        lemma_holds_concat(d, l, id);
        let c = concat_blocks(d);
        let t = choose|t: int| 0 <= t < c.len() && #[trigger] c[t].external_id == id;
        assert((c + v.last())[t] == c[t]);
    }
}

/// The part of `v` from position `start` up to `end`, cut at its length.
pub open spec fn page(v: Seq<u64>, start: int, end: int) -> Seq<u64> {
    let lo = if start < v.len() {
        start
    } else {
        v.len() as int
    };
    let hi = if end < v.len() {
        end
    } else {
        v.len() as int
    };
    v.subrange(lo, hi)
}

/// `slice::sort_by_key` on the second component. The sort is stable; the
/// contract states only that the pairs stay the same and come in order.
#[verifier::external_body]
fn sort_by_score(v: &mut Vec<(u64, u64)>)
    ensures
        final(v)@.to_multiset() == old(v)@.to_multiset(),
        forall|i: int, j: int| 0 <= i < j < final(v)@.len() ==> #[trigger] final(v)@[i].1 <= #[trigger] final(v)@[j].1,
{
    v.sort_by_key(|p| p.1);
}

/// Adding a posting to the end adds its frequency to its document's sum.
proof fn lemma_tf_sum_step(q: Seq<PostingsInfo>, k: int, id: u64)
    requires
        0 <= k < q.len(),
    ensures
        tf_sum(q.take(k + 1), id) == tf_sum(q.take(k), id) + if q[k].external_id == id {
            q[k].tf as int
        } else {
            0
        },
        holds(q.take(k + 1), id) <==> holds(q.take(k), id) || q[k].external_id == id,
{
    assert(q.take(k + 1).drop_last() =~= q.take(k));
    if holds(q.take(k + 1), id) {
        let t = choose|t: int| 0 <= t < k + 1 && #[trigger] q.take(k + 1)[t].external_id == id;
        if t < k {
            assert(q.take(k)[t].external_id == id);
        }
    }
    if holds(q.take(k), id) {
        let t = choose|t: int| 0 <= t < k && #[trigger] q.take(k)[t].external_id == id;
        assert(q.take(k + 1)[t].external_id == id);
    }
    if q[k].external_id == id {
        assert(q.take(k + 1)[k].external_id == id);
    }
}

/// The postings of each word, read from the skip list the FST with entries
/// `m` gives for the word itself.
pub open spec fn exact_lists(s: Seq<u8>, m: Map<Seq<u8>, u64>, words: Seq<String>) -> Seq<Seq<PostingsInfo>> {
    Seq::new(words.len(), |i: int| picked_postings(s, exact_pick(m, words[i]@)))
}

/// Each place the FST with entries `m` gives for a term of `kept` holds a
/// skip list.
pub open spec fn exact_readable(s: Seq<u8>, m: Map<Seq<u8>, u64>, kept: Seq<Seq<char>>) -> bool {
    forall|t: Seq<char>|
        kept.contains(t) ==> match #[trigger] exact_pick(m, t) {
            Some(o) => is_list::<PostingsBlock>(s, o as int),
            None => true,
        }
}

/// Each place the FST with entries `m` gives for a term holds a skip list.
pub open spec fn exact_readable_all(s: Seq<u8>, m: Map<Seq<u8>, u64>) -> bool {
    forall|t: Seq<char>|
        match #[trigger] exact_pick(m, t) {
            Some(o) => is_list::<PostingsBlock>(s, o as int),
            None => true,
        }
}

/// A sum of frequencies is never negative.
proof fn lemma_tf_sum_nonneg(q: Seq<PostingsInfo>, id: u64)
    ensures
        tf_sum(q, id) >= 0,
    decreases q.len(),
{
    if q.len() > 0 {
        lemma_tf_sum_nonneg(q.drop_last(), id);
    }
}

/// A document with no posting in `q` sums to nothing.
proof fn lemma_tf_sum_absent(q: Seq<PostingsInfo>, id: u64)
    requires
        !holds(q, id),
    ensures
        tf_sum(q, id) == 0,
    decreases q.len(),
{
    if q.len() > 0 {
        assert(q.last().external_id != id) by {
            assert(q[q.len() - 1].external_id == q.last().external_id);
        }
        assert(!holds(q.drop_last(), id)) by {
            if holds(q.drop_last(), id) {
                let t = choose|t: int| 0 <= t < q.drop_last().len() && #[trigger] q.drop_last()[t].external_id == id;
                assert(q[t].external_id == id);
            }
        }
        lemma_tf_sum_absent(q.drop_last(), id);
    }
}

/// Answers queries over an index: the analyzer, the FST from terms to their
/// skip lists, and the term file.
#[derive(Debug)]
pub struct Query<C, T, I> {
    analyzer: Analyzer<C, T, I>,
    fst: fst::Map<Vec<u8>>,
    terms: MemStore,
}

/// Checks that the header is that of a term file of this index.
fn check_term_index(header: &Header) -> (r: Result<()>)
    ensures
        match r {
            Ok(()) => header.magic == TERM_FILE_MAGIC_NUMBER,
            Err(e) => header.magic != TERM_FILE_MAGIC_NUMBER && e is Incompatible,
        },
{
    if header.magic != TERM_FILE_MAGIC_NUMBER {
        Err(Error::Incompatible)
    } else {
        Ok(())
    }
}

impl<C, T, I> Query<C, T, I> {
    /// The FST was read from bytes its builder wrote, so lookups in it do not fail.
    #[verifier::type_invariant]
    spec fn fst_sound(&self) -> bool {
        fst_built(fst_map_bytes(self.fst))
    }
}

impl<C: CharFilter, T: TokenFilter, I: Tokenizer> Query<C, T, I> {
    /// The analyzer.
    pub closed spec fn analyzer_of(&self) -> Analyzer<C, T, I> {
        self.analyzer
    }

    /// The bytes of the term file.
    pub closed spec fn term_bytes(&self) -> Seq<u8> {
        self.terms@
    }

    /// The keys and values of the FST.
    pub closed spec fn fst_entries(&self) -> Map<Seq<u8>, u64> {
        fst_map_entries(self.fst)
    }

    /// Opens an index: the FST read from `fst_bytes`, which its builder
    /// wrote, and the term file `terms`, whose header must carry the index's
    /// magic number.
    pub fn new(analyzer: Analyzer<C, T, I>, fst_bytes: Vec<u8>, terms: MemStore) -> (r: Result<Self>)
        requires
            fst_built(fst_bytes@),
        ensures
            match r {
                Ok(q) => {
                    &&& q.analyzer_of() == analyzer
                    &&& q.term_bytes() == terms@
                    &&& q.fst_entries() == fst_bytes_entries(fst_bytes@)
                    &&& HEADER_SIZE <= terms@.len()
                    &&& u64_at(terms@, 0) == TERM_FILE_MAGIC_NUMBER
                },
                Err(Error::Store(e)) => terms@.len() < HEADER_SIZE && e == StoreError::Encoding(
                    EncodingError::Decode(DecodeError::UnexpectedEnd),
                ),
                Err(Error::Incompatible) => HEADER_SIZE <= terms@.len() && u64_at(terms@, 0)
                    != TERM_FILE_MAGIC_NUMBER,
                Err(Error::Fst(_)) => false,
                Err(Error::Analyze(_)) => false,
            },
    {
        let ghost fb = fst_bytes@;
        let fst = match fst_open(fst_bytes) {
            Ok(m) => m,
            Err(e) => {
                return Err(Error::Fst(e));
            },
        };
        let header: Header = match Header::decode(terms.as_bytes(), 0) {
            Ok((h, _)) => h,
            Err(e) => {
                return Err(Error::Store(StoreError::Encoding(EncodingError::Decode(e))));
            },
        };
        match check_term_index(&header) {
            Ok(()) => {},
            Err(e) => {
                return Err(e);
            },
        }
        Ok(Query { analyzer, fst, terms })
    }

    /// Finishes the index that `writer` builds and opens it for queries, with
    /// `analyzer` for the queries. Looking a term up as it is then reads back
    /// exactly the postings the writer gathered for it.
    pub fn open_finished(analyzer: Analyzer<C, T, I>, writer: Writer<C, T, I>) -> (r: Result<Self>)
        requires
            writer.wf(),
        ensures
            writer.store_bytes().len() + FLUSH_ROOM * writer.term_count() <= usize::MAX ==> r is Ok,
            match r {
                Ok(q) => {
                    &&& q.analyzer_of() == analyzer
                    &&& forall|t: Seq<char>|
                        #[trigger] picked_postings(q.term_bytes(), exact_pick(q.fst_entries(), t))
                            == writer.postings_of(t)
                    &&& forall|t: Seq<char>|
                        writer.postings_of(t).len() > 0 ==> #[trigger] picked_blocks(
                            q.term_bytes(),
                            exact_pick(q.fst_entries(), t),
                        ) == finished_blocks(writer.blocks_of(t), writer.waiting_of(t))
                    &&& writer.blocks_full() ==> forall|t: Seq<char>, b: int|
                        writer.postings_of(t).len() > 0 && 0 <= b < picked_blocks(
                            q.term_bytes(),
                            exact_pick(q.fst_entries(), t),
                        ).len() - 1 ==> #[trigger] picked_blocks(
                            q.term_bytes(),
                            exact_pick(q.fst_entries(), t),
                        )[b].len() == POSTING_BLOCK_MAX_SIZE
                    &&& exact_readable_all(q.term_bytes(), q.fst_entries())
                },
                Err(Error::Store(se)) => se == StoreError::OutOfRange && writer.store_bytes().len()
                    + FLUSH_ROOM * writer.term_count() > usize::MAX,
                Err(_) => false,
            },
    {
        let ghost w0 = writer;
        let mut w = writer;
        let fst = match w.finish() {
            Ok(b) => b,
            Err(WriteError::Store(e)) => {
                return Err(Error::Store(e));
            },
            Err(WriteError::Analyze(e)) => {
                return Err(Error::Analyze(e));
            },
            Err(WriteError::Fst(e)) => {
                return Err(Error::Fst(e));
            },
        };
        let ghost wf = w;
        let terms = w.into_term_file();
        proof {
            let s = terms@;
            let h = Header { magic: TERM_FILE_MAGIC_NUMBER, doc_num: wf.doc_count() };
            wf.lemma_header_len();
            lemma_enc_u64(h.magic);
            lemma_enc_u64(h.doc_num);
            lemma_subrange_split(s, 0, enc_u64(h.magic), enc_u64(h.doc_num));
            lemma_u64_at(s, 0, h.magic);
        }
        let r = Query::new(analyzer, fst, terms);
        proof {
            if r is Ok {
                let q = r.unwrap();
                assert forall|t: Seq<char>| #[trigger] picked_postings(q.term_bytes(), exact_pick(q.fst_entries(), t))
                    == writer.postings_of(t) by {
                    lemma_read_back(wf, fst@, q, t);
                }
                assert forall|t: Seq<char>| writer.postings_of(t).len() > 0 implies #[trigger] picked_blocks(
                    q.term_bytes(),
                    exact_pick(q.fst_entries(), t),
                ) == finished_blocks(writer.blocks_of(t), writer.waiting_of(t)) by {
                    lemma_read_back(wf, fst@, q, t);
                    assert(wf.postings_of(t) == writer.postings_of(t));
                    assert(wf.blocks_of(t) == finished_blocks(writer.blocks_of(t), writer.waiting_of(t)));
                }
                if writer.blocks_full() {
                    assert forall|t: Seq<char>, b: int|
                        writer.postings_of(t).len() > 0 && 0 <= b < picked_blocks(
                            q.term_bytes(),
                            exact_pick(q.fst_entries(), t),
                        ).len() - 1 implies #[trigger] picked_blocks(
                            q.term_bytes(),
                            exact_pick(q.fst_entries(), t),
                        )[b].len() == POSTING_BLOCK_MAX_SIZE by {
                        lemma_read_back(wf, fst@, q, t);
                        Writer::lemma_finished_blocks(&w0, &wf, t);
                    }
                }
                assert forall|t: Seq<char>| match #[trigger] exact_pick(q.fst_entries(), t) {
                    Some(o) => is_list::<PostingsBlock>(q.term_bytes(), o as int),
                    None => true,
                } by {
                    lemma_read_back(wf, fst@, q, t);
                }
            }
        }
        r
    }

    /// The FST, for lookups the query cannot make itself.
    pub fn fst(&self) -> (r: &fst::Map<Vec<u8>>)
        ensures
            fst_map_entries(*r) == self.fst_entries(),
            fst_built(fst_map_bytes(*r)),
    {
        proof {
            use_type_invariant(self);
        }
        &self.fst
    }

    /// All postings of the skip list at `offset`, one block after the other.
    fn find_posting_list(&self, offset: u64) -> (r: Result<PostingsBlock>)
        ensures
            is_list::<PostingsBlock>(self.term_bytes(), offset as int) ==> (r matches Ok(b) && b@
                == list_postings(self.term_bytes(), offset)),
    {
        let ghost ok = is_list::<PostingsBlock>(self.term_bytes(), offset as int);
        let reader: Reader<'_, PostingsBlock> = Reader::new(&self.terms, offset);
        let mut blocks = match reader.read_all() {
            Ok(v) => v,
            Err(e) => {
                return Err(Error::Store(e));
            },
        };
        let ghost items = blocks@.map_values(|b: PostingsBlock| b@);
        let mut list = PostingsBlock { postings: Vec::new() };
        let mut i: usize = 0;
        proof {
            assert(items.take(0) =~= Seq::<Seq<PostingsInfo>>::empty());
        }
        while i < blocks.len()
            invariant
                i <= blocks@.len(),
                items.len() == blocks@.len(),
                forall|k: int| i <= k < blocks@.len() ==> #[trigger] blocks@[k]@ == items[k],
                list@ == concat_blocks(items.take(i as int)),
            decreases blocks@.len() - i,
        {
            let ghost b = blocks@[i as int]@;
            list.postings.append(&mut blocks[i].postings);
            proof {
                assert(items.take(i + 1).drop_last() =~= items.take(i as int));
                assert(items.take(i + 1).last() == b);
            }
            i = i + 1;
        }
        proof {
            assert(items.take(blocks@.len() as int) =~= items);
        }
        Ok(list)
    }

    /// What the FST holds for `word` itself: the word and its value, or nothing.
    pub fn exact_candidates(&self, word: &str) -> (r: Vec<(String, u64)>)
        ensures
            r@.len() <= 1,
            r@.len() == 1 <==> self.fst_entries().contains_key(key_of(word@)),
            r@.len() == 1 ==> r@[0].0@ == word@ && r@[0].1 == self.fst_entries()[key_of(word@)],
            pick_offset(word@, r@) == exact_pick(self.fst_entries(), word@),
    {
        let mut out: Vec<(String, u64)> = Vec::new();
        proof {
            use_type_invariant(self);
        }
        match fst_get(&self.fst, word) {
            Some(o) => {
                out.push((String::from_str(word), o));
                proof {
                    assert(out@.drop_first().len() == 0);
                }
            },
            None => {},
        }
        out
    }

    /// The postings read for `word`, given what the FST answered for it: the
    /// skip list of the first answer that is `word` itself, else of the last
    /// answer; none where there is no answer.
    pub fn query_term_postings(&self, word: &str, candidates: &Vec<(String, u64)>) -> (r: Result<
        Option<PostingsBlock>,
    >)
        ensures
            match pick_offset(word@, candidates@) {
                None => r matches Ok(None),
                Some(o) => is_list::<PostingsBlock>(self.term_bytes(), o as int) ==> (r matches Ok(
                    Some(b),
                ) && b@ == list_postings(self.term_bytes(), o)),
            },
    {
        let ghost c = candidates@;
        let mut other: Option<u64> = None;
        let mut i: usize = 0;
        while i < candidates.len()
            invariant
                c == candidates@,
                i <= c.len(),
                forall|k: int| 0 <= k < i ==> #[trigger] c[k].0@ != word@,
                other == if i > 0 {
                    Some(c[i - 1].1)
                } else {
                    None::<u64>
                },
            decreases c.len() - i,
        {
            let same = compare_keys(candidates[i].0.as_str().as_bytes(), word.as_bytes());
            if same == KeyOrder::Same {
                proof {
                    lemma_key_injective(c[i as int].0@, word@);
                    lemma_pick_skip(word@, c, i as int);
                    assert(c.skip(i as int)[0] == c[i as int]);
                }
                let b = self.find_posting_list(candidates[i].1)?;
                return Ok(Some(b));
            }
            proof {
                if c[i as int].0@ == word@ {
                    assert(key_of(c[i as int].0@) == key_of(word@));
                }
            }
            other = Some(candidates[i].1);
            i = i + 1;
        }
        proof {
            lemma_pick_skip(word@, c, i as int);
            assert(c.skip(i as int).len() == 0);
        }
        match other {
            None => Ok(None),
            Some(o) => {
                let b = self.find_posting_list(o)?;
                Ok(Some(b))
            },
        }
    }

    /// Ranks the documents that hold all the words, given what the FST
    /// answered for each word: each word's postings are read as
    /// `query_term_postings` reads them, the documents in every word's
    /// postings are kept, each scores the sum of its frequencies, and they
    /// are cut to `range` in ascending order of score.
    pub fn rank(&self, words: &Vec<String>, candidates: &Vec<Vec<(String, u64)>>, range: Range<usize>) -> (r:
        Result<Vec<u64>>)
        requires
            words@.len() == candidates@.len(),
            range.start <= range.end,
        ensures
            r matches Ok(v) ==> v@.len() <= range.end - range.start,
            readable(self.term_bytes(), words@, candidates@) ==> (r matches Ok(v) && exists|order: Seq<u64>|
                ranking_ok(order, query_lists(self.term_bytes(), words@, candidates@)) && v@ == page(
                    order,
                    range.start as int,
                    range.end as int,
                )),
    {
        broadcast use vstd::seq_lib::group_to_multiset_ensures;
        broadcast use vstd::std_specs::hash::group_hash_axioms;

        let ghost s = self.term_bytes();
        let ghost ok = readable(s, words@, candidates@);
        let ghost blocks = Seq::new(
            words@.len(),
            |i: int| picked_postings(s, pick_offset(words@[i]@, candidates@[i]@)),
        );
        let mut all: Vec<PostingsInfo> = Vec::new();
        let mut sets: Vec<HashSetWithView<u64>> = Vec::new();
        let mut i: usize = 0;
        proof {
            assert(blocks.take(0) =~= Seq::<Seq<PostingsInfo>>::empty());
        }
        while i < words.len()
            invariant
                i <= words@.len(),
                sets@.len() == i,
                ok ==> forall|l: int| 0 <= l < i ==> #[trigger] sets@[l]@ == ids_in(blocks[l]),
                words@.len() == candidates@.len(),
                s == self.term_bytes(),
                ok == readable(s, words@, candidates@),
                blocks.len() == words@.len(),
                forall|k: int| 0 <= k < words@.len() ==> #[trigger] blocks[k] == picked_postings(
                    s,
                    pick_offset(words@[k]@, candidates@[k]@),
                ),
                ok ==> all@ == concat_blocks(blocks.take(i as int)),
            decreases words@.len() - i,
        {
            proof {
                assert(blocks.take(i + 1).drop_last() =~= blocks.take(i as int));
                assert(blocks.take(i + 1).last() == blocks[i as int]);
                if ok {
                    let _ = pick_offset(words@[i as int]@, candidates@[i as int]@);
                }
            }
            match self.query_term_postings(words[i].as_str(), &candidates[i]) {
                Ok(None) => {
                    proof {
                        assert(all@ =~= all@ + Seq::<PostingsInfo>::empty());
                        assert(ids_in(Seq::<PostingsInfo>::empty()) =~= Set::<u64>::empty());
                    }
                    sets.push(HashSetWithView::new());
                },
                Ok(Some(b)) => {
                    let mut b = b;
                    let mut set: HashSetWithView<u64> = HashSetWithView::new();
                    let mut t: usize = 0;
                    while t < b.postings.len()
                        invariant
                            t <= b.postings@.len(),
                            set@ == Set::new(
                                |x: u64| exists|u: int| 0 <= u < t && #[trigger] b.postings@[u].external_id == x,
                            ),
                        decreases b.postings@.len() - t,
                    {
                        set.insert(b.postings[t].external_id);
                        proof {
                            assert(set@ =~= Set::new(
                                |x: u64| exists|u: int| 0 <= u < t + 1 && #[trigger] b.postings@[u].external_id == x,
                            ));
                        }
                        t = t + 1;
                    }
                    proof {
                        assert(set@ =~= ids_in(b.postings@));
                    }
                    sets.push(set);
                    all.append(&mut b.postings);
                },
                Err(e) => {
                    return Err(e);
                },
            }
            i = i + 1;
        }
        proof {
            assert(blocks.take(words@.len() as int) =~= blocks);
        }
        let ghost q = all@;
        let mut ids: Vec<u64> = Vec::new();
        let mut scores: Vec<u64> = Vec::new();
        let mut pos: HashMapWithView<u64, usize> = HashMapWithView::new();
        let mut k: usize = 0;
        proof {
            assert forall|x: u64| !holds(q.take(0), x) by {}
        }
        while k < all.len()
            invariant
                q == all@,
                k <= q.len(),
                ids@.len() == scores@.len(),
                ids@.no_duplicates(),
                forall|x: u64| #[trigger] pos@.contains_key(x) <==> holds(q.take(k as int), x),
                forall|x: u64|
                    #[trigger] pos@.contains_key(x) ==> pos@[x] < ids@.len() && ids@[pos@[x] as int] == x,
                forall|j: int| 0 <= j < ids@.len() ==> #[trigger] pos@.contains_key(ids@[j]),
                forall|j: int| 0 <= j < ids@.len() ==> #[trigger] scores@[j] == score(q.take(k as int), ids@[j]),
            decreases q.len() - k,
        {
            let p = all[k];
            let id = p.external_id;
            let ghost sc0 = scores@;
            let ghost ids0 = ids@;
            proof {
                assert forall|x: u64| tf_sum(q.take(k + 1), x) == tf_sum(q.take(k as int), x) + if p.external_id == x {
                    p.tf as int
                } else {
                    0
                } && (holds(q.take(k + 1), x) <==> holds(q.take(k as int), x) || p.external_id == x) by {
                    lemma_tf_sum_step(q, k as int, x);
                }
            }
            match pos.get(&id) {
                Some(j) => {
                    let j = *j;
                    let sc = scores[j].saturating_add(p.tf as u64);
                    scores.set(j, sc);
                    proof {
                        assert forall|t: int| 0 <= t < ids@.len() implies #[trigger] scores@[t] == score(
                            q.take(k + 1),
                            ids@[t],
                        ) by {
                            lemma_tf_sum_step(q, k as int, ids@[t]);
                            assert(sc0[t] == score(q.take(k as int), ids0[t]));
                            assert(pos@.contains_key(id));
                            assert(ids0[j as int] == id);
                            if t != j {
                                assert(ids@[t] != id);
                            } else {
                                assert(scores@[t] == sc);
                                assert(ids@[t] == id);
                                assert(tf_sum(q.take(k + 1), id) == tf_sum(q.take(k as int), id) + p.tf);
                                lemma_tf_sum_nonneg(q.take(k as int), id);
                            }
                        }
                    }
                },
                None => {
                    let n = ids.len();
                    pos.insert(id, n);
                    ids.push(id);
                    scores.push(p.tf as u64);
                    proof {
                        assert(!holds(q.take(k as int), id));
                        assert(tf_sum(q.take(k as int), id) == 0) by {
                            lemma_tf_sum_absent(q.take(k as int), id);
                        }
                        assert forall|a: int, b: int| 0 <= a < ids@.len() && 0 <= b < ids@.len() && a != b implies ids@[a]
                            != ids@[b] by {
                            if a == n as int {
                                assert(pos@.contains_key(ids@[b]));
                            } else if b == n as int {
                                assert(pos@.contains_key(ids@[a]));
                            }
                        }
                        assert forall|t: int| 0 <= t < ids@.len() implies #[trigger] scores@[t] == score(
                            q.take(k + 1),
                            ids@[t],
                        ) by {
                            lemma_tf_sum_step(q, k as int, ids@[t]);
                            if t != n {
                                assert(sc0[t] == score(q.take(k as int), ids0[t]));
                                assert(ids@[t] != id) by {
                                    assert(ids0[t] == ids@[t]);
                                }
                            }
                        }
                    }
                },
            }
            k = k + 1;
        }
        proof {
            assert(q.take(q.len() as int) =~= q);
        }
        let mut table: Vec<(u64, u64)> = Vec::new();
        let ghost mut src: Seq<int> = Seq::empty();
        let mut j: usize = 0;
        while j < ids.len()
            invariant
                j <= ids@.len(),
                ids@.len() == scores@.len(),
                sets@.len() == words@.len(),
                blocks.len() == words@.len(),
                ok ==> forall|l: int| 0 <= l < words@.len() ==> #[trigger] sets@[l]@ == ids_in(blocks[l]),
                src.len() == table@.len(),
                forall|t: int|
                    0 <= t < src.len() ==> 0 <= #[trigger] src[t] < j && table@[t] == (ids@[src[t]], scores@[src[t]]),
                ok ==> forall|t: int| 0 <= t < src.len() ==> holds_all(blocks, ids@[#[trigger] src[t]]),
                forall|a: int, b: int| 0 <= a < b < src.len() ==> #[trigger] src[a] < #[trigger] src[b],
                ok ==> forall|c: int|
                    0 <= c < j && holds_all(blocks, #[trigger] ids@[c]) ==> exists|t: int|
                        0 <= t < src.len() && src[t] == c,
            decreases ids@.len() - j,
        {
            let mut every = words.len() > 0;
            let mut l: usize = 0;
            while l < sets.len()
                invariant
                    l <= sets@.len(),
                    j < ids@.len(),
                    every <==> (words@.len() > 0 && forall|u: int| 0 <= u < l ==> (#[trigger] sets@[u])@.contains(
                        ids@[j as int],
                    )),
                decreases sets@.len() - l,
            {
                if !sets[l].contains(&ids[j]) {
                    every = false;
                }
                l = l + 1;
            }
            proof {
                if ok {
                    assert(every <==> holds_all(blocks, ids@[j as int])) by {
                        if holds_all(blocks, ids@[j as int]) {
                            assert forall|u: int| 0 <= u < sets@.len() implies (#[trigger] sets@[u])@.contains(
                                ids@[j as int],
                            ) by {
                                assert(holds(blocks[u], ids@[j as int]));
                            }
                        }
                        if every {
                            assert forall|u: int| 0 <= u < blocks.len() implies holds(
                                #[trigger] blocks[u],
                                ids@[j as int],
                            ) by {
                                assert(sets@[u]@.contains(ids@[j as int]));
                            }
                        }
                    }
                }
            }
            let ghost src0 = src;
            if every {
                table.push((ids[j], scores[j]));
                proof {
                    src = src.push(j as int);
                }
            }
            proof {
                if ok {
                    assert forall|c: int| 0 <= c < j + 1 && holds_all(blocks, #[trigger] ids@[c]) implies exists|t: int|
                        0 <= t < src.len() && src[t] == c by {
                        if c == j {
                            assert(src[src.len() - 1] == c);
                        } else {
                            let t = choose|t: int| 0 <= t < src0.len() && src0[t] == c;
                            assert(src[t] == c);
                        }
                    }
                }
            }
            j = j + 1;
        }
        let ghost table0 = table@;
        sort_by_score(&mut table);
        let ghost sorted = table@;
        let ghost order = sorted.map_values(|e: (u64, u64)| e.0);
        let n = table.len();
        let lo = if range.start < n { range.start } else { n };
        let hi = if range.end < n { range.end } else { n };
        let mut out: Vec<u64> = Vec::new();
        let mut t: usize = lo;
        while t < hi
            invariant
                lo <= t <= hi <= n,
                n == table@.len(),
                table@ == sorted,
                out@.len() == t - lo,
                forall|u: int| 0 <= u < t - lo ==> #[trigger] out@[u] == sorted[lo + u].0,
            decreases hi - t,
        {
            out.push(table[t].0);
            t = t + 1;
        }
        proof {
            if ok {
                assert(table0.no_duplicates()) by {
                    assert forall|a: int, b: int| 0 <= a < b < table0.len() implies table0[a] != table0[b] by {
                        assert(src[a] < src[b]);
                        assert(table0[a].0 == ids@[src[a]]);
                        assert(table0[b].0 == ids@[src[b]]);
                    }
                }
                table0.lemma_multiset_has_no_duplicates();
                assert forall|x: (u64, u64)| sorted.to_multiset().contains(x) implies sorted.to_multiset().count(x) == 1 by {
                    assert(table0.to_multiset().contains(x));
                }
                sorted.lemma_multiset_has_no_duplicates_conv();
                assert forall|u: int| 0 <= u < sorted.len() implies sorted[u].1 == score(q, sorted[u].0)
                    && table0.contains(#[trigger] sorted[u]) by {
                    assert(sorted.to_multiset().count(sorted[u]) > 0);
                    assert(table0.to_multiset().count(sorted[u]) > 0);
                    let c = choose|c: int| 0 <= c < table0.len() && table0[c] == sorted[u];
                    assert(table0[c] == (ids@[src[c]], scores@[src[c]]));
                    assert(scores@[src[c]] == score(q, ids@[src[c]]));
                }
                assert forall|a: int, b: int| 0 <= a < order.len() && 0 <= b < order.len() && a != b implies order[a]
                    != order[b] by {
                    assert(table0.contains(sorted[a]));
                    assert(table0.contains(sorted[b]));
                    let ca = choose|c: int| 0 <= c < table0.len() && table0[c] == sorted[a];
                    let cb = choose|c: int| 0 <= c < table0.len() && table0[c] == sorted[b];
                    if order[a] == order[b] {
                        assert(ids@[src[ca]] == ids@[src[cb]]);
                        assert(src[ca] == src[cb]);
                        if ca < cb {
                            assert(src[ca] < src[cb]);
                        } else if cb < ca {
                            assert(src[cb] < src[ca]);
                        }
                        assert(sorted[a] == sorted[b]);
                    }
                }
                assert forall|x: u64| #[trigger] order.contains(x) <==> holds_all(blocks, x) by {
                    if order.contains(x) {
                        let u = choose|u: int| 0 <= u < order.len() && order[u] == x;
                        assert(table0.contains(sorted[u]));
                        let c = choose|c: int| 0 <= c < table0.len() && table0[c] == sorted[u];
                        assert(holds_all(blocks, ids@[src[c]]));
                    }
                    if holds_all(blocks, x) {
                        assert(holds(blocks[0], x));
                        lemma_holds_concat(blocks, 0, x);
                        assert(pos@.contains_key(x));
                        let c = pos@[x] as int;
                        assert(holds_all(blocks, ids@[c]));
                        let t = choose|t: int| 0 <= t < src.len() && src[t] == c;
                        assert(table0[t] == (x, scores@[c]));
                        assert(table0.to_multiset().count(table0[t]) > 0);
                        assert(sorted.to_multiset().count(table0[t]) > 0);
                        let u = choose|u: int| 0 <= u < sorted.len() && sorted[u] == table0[t];
                        assert(order[u] == x);
                    }
                }
                assert(blocks == query_lists(s, words@, candidates@));
                assert(ranking_ok(order, blocks));
                assert(out@ =~= page(order, range.start as int, range.end as int));
            }
        }
        Ok(out)
    }

    /// Answers `sentence`: its terms are looked up in the FST as they are,
    /// and the documents that hold them are ranked as `rank` ranks them.
    pub fn query(&self, sentence: &str, range: Range<usize>) -> (r: Result<Vec<u64>>)
        requires
            range.start <= range.end,
        ensures
            r matches Ok(v) ==> v@.len() <= range.end - range.start,
            exact_readable(self.term_bytes(), self.fst_entries(), self.analyzer_of().kept(sentence@)) ==> (r matches Ok(
                v,
            ) && exists|words: Seq<String>, order: Seq<u64>|
                words_of(words, self.analyzer_of().kept(sentence@)) && ranking_ok(
                    order,
                    exact_lists(self.term_bytes(), self.fst_entries(), words),
                ) && v@ == page(order, range.start as int, range.end as int)),
    {
        let ghost kept = self.analyzer_of().kept(sentence@);
        let ghost s = self.term_bytes();
        let ghost m = self.fst_entries();
        let words = self.query_terms(sentence);
        let mut cands: Vec<Vec<(String, u64)>> = Vec::new();
        let mut i: usize = 0;
        while i < words.len()
            invariant
                i <= words@.len(),
                cands@.len() == i,
                m == self.fst_entries(),
                forall|k: int| 0 <= k < i ==> #[trigger] pick_offset(words@[k]@, cands@[k]@) == exact_pick(
                    m,
                    words@[k]@,
                ),
            decreases words@.len() - i,
        {
            let c = self.exact_candidates(words[i].as_str());
            cands.push(c);
            i = i + 1;
        }
        proof {
            assert(Seq::new(words@.len(), |i: int| picked_postings(s, pick_offset(words@[i]@, cands@[i]@)))
                =~= Seq::new(words@.len(), |i: int| picked_postings(s, exact_pick(m, words@[i]@))));
            if exact_readable(s, m, kept) {
                assert forall|i: int| 0 <= i < words@.len() implies match #[trigger] pick_offset(
                    words@[i]@,
                    cands@[i]@,
                ) {
                    Some(o) => is_list::<PostingsBlock>(s, o as int),
                    None => true,
                } by {
                    assert(kept.contains(words@[i]@));
                    let _ = exact_pick(m, words@[i]@);
                }
            }
        }
        let r = self.rank(&words, &cands, range);
        proof {
            assert(query_lists(s, words@, cands@) =~= exact_lists(s, m, words@));
            if exact_readable(s, m, kept) {
                let v = r.unwrap();
                let order = choose|order: Seq<u64>|
                    ranking_ok(order, query_lists(s, words@, cands@)) && v@ == page(
                        order,
                        range.start as int,
                        range.end as int,
                    );
                assert(words_of(words@, kept) && ranking_ok(order, exact_lists(s, m, words@)) && v@ == page(
                    order,
                    range.start as int,
                    range.end as int,
                ));
            }
        }
        r
    }

    /// The terms of `sentence`, each once, in key order.
    pub fn query_terms(&self, sentence: &str) -> (r: Vec<String>)
        ensures
            words_of(r@, self.analyzer_of().kept(sentence@)),
    {
        let ghost kept = self.analyzer.kept(sentence@);
        let (terms, _) = match self.analyzer.analyze(sentence) {
            Ok(a) => a,
            Err(_) => {
                proof {
                    assert(false);
                }
                return Vec::new();
            },
        };
        let mut words: Vec<String> = Vec::new();
        let mut i: usize = 0;
        while i < terms.len()
            invariant
                i <= terms@.len(),
                counts_ok(terms@, kept),
                words@.len() == i,
                forall|k: int| 0 <= k < i ==> #[trigger] words@[k]@ == terms@[k].0@,
            decreases terms@.len() - i,
        {
            words.push(terms[i].0.clone());
            i = i + 1;
        }
        proof {
            assert forall|a: int, b: int| 0 <= a < b < words@.len() implies crate::terms::lex_lt(
                #[trigger] words@[a].key(),
                #[trigger] words@[b].key(),
            ) by {
                assert(terms@[a].key() == words@[a].key());
                assert(terms@[b].key() == words@[b].key());
            }
            assert forall|x: Seq<char>| kept.contains(x) <==> exists|i: int|
                0 <= i < words@.len() && #[trigger] words@[i]@ == x by {
                if kept.contains(x) {
                    let e = choose|e: int| 0 <= e < terms@.len() && #[trigger] terms@[e].0@ == x;
                    assert(words@[e]@ == x);
                }
                if exists|i: int| 0 <= i < words@.len() && #[trigger] words@[i]@ == x {
                    let i = choose|i: int| 0 <= i < words@.len() && #[trigger] words@[i]@ == x;
                    assert(terms@[i].0@ == x);
                }
            }
        }
        words
    }
}

/// What the index gives back of what was written to it. After a writer
/// finished with the FST bytes `fst`, and a query opened that FST and the
/// writer's term file, looking a term up as it is reads back exactly the
/// postings the writer gathered for it, in the order they were added: a term
/// with postings is found at a skip list that holds them, and a term without
/// postings is not found.
pub proof fn lemma_read_back<C: CharFilter, T: TokenFilter, I: Tokenizer>(
    w: Writer<C, T, I>,
    fst: Seq<u8>,
    q: Query<C, T, I>,
    t: Seq<char>,
)
    requires
        w.lists_match(fst_bytes_entries(fst)),
        q.fst_entries() == fst_bytes_entries(fst),
        q.term_bytes() == w.store_bytes(),
    ensures
        picked_postings(q.term_bytes(), exact_pick(q.fst_entries(), t)) == w.postings_of(t),
        w.postings_of(t).len() > 0 ==> picked_blocks(q.term_bytes(), exact_pick(q.fst_entries(), t))
            == w.blocks_of(t),
        match exact_pick(q.fst_entries(), t) {
            Some(o) => is_list::<PostingsBlock>(q.term_bytes(), o as int),
            None => true,
        },
{
    let m = q.fst_entries();
    let s = q.term_bytes();
    if w.postings_of(t).len() > 0 {
        assert(m.contains_key(key_of(t)));
        let o = m[key_of(t)];
        assert(stored_postings(s, o) == w.postings_of(t));
        if o == 0 {
            assert(stored_postings(s, o).len() == 0);
        }
    } else {
        if m.contains_key(key_of(t)) {
            let u = choose|u: Seq<char>| key_of(u) == key_of(t) && #[trigger] w.postings_of(u).len() > 0;
            lemma_key_injective(u, t);
        }
    }
}

/// What a query over a finished index ranks: looking each word up as it is
/// gives the postings the writer gathered for the words, word after word,
/// and every place looked up holds a skip list.
pub proof fn lemma_query_reads_index<C: CharFilter, T: TokenFilter, I: Tokenizer>(
    w: Writer<C, T, I>,
    fst: Seq<u8>,
    q: Query<C, T, I>,
    words: Seq<String>,
    kept: Seq<Seq<char>>,
)
    requires
        w.lists_match(fst_bytes_entries(fst)),
        q.fst_entries() == fst_bytes_entries(fst),
        q.term_bytes() == w.store_bytes(),
    ensures
        exact_lists(q.term_bytes(), q.fst_entries(), words) == Seq::new(
            words.len(),
            |i: int| w.postings_of(words[i]@),
        ),
        exact_readable(q.term_bytes(), q.fst_entries(), kept),
{
    let s = q.term_bytes();
    let m = q.fst_entries();
    assert forall|i: int| 0 <= i < words.len() implies #[trigger] picked_postings(s, exact_pick(m, words[i]@))
        == w.postings_of(words[i]@) by {
        lemma_read_back(w, fst, q, words[i]@);
    }
    assert(Seq::new(words.len(), |i: int| picked_postings(s, exact_pick(m, words[i]@))) =~= Seq::new(
        words.len(),
        |i: int| w.postings_of(words[i]@),
    ));
    assert forall|t: Seq<char>| kept.contains(t) implies match #[trigger] exact_pick(m, t) {
        Some(o) => is_list::<PostingsBlock>(s, o as int),
        None => true,
    } by {
        lemma_read_back(w, fst, q, t);
    }
}

} // verus!

//! The analyzer: filters a text, splits it into tokens, keeps some of them and
//! counts how often each term occurs.
use crate::analyzer::char_filter::{cjk_doc_char, cjk_doc_kept, lemma_cjk_doc_kept, lemma_cjk_doc_kept_twice, CJKDocCharFilter, CharFilter};
use crate::analyzer::error::Error;
use crate::analyzer::text::strings_view;
use crate::analyzer::token_filter::TokenFilter;
use crate::analyzer::tokenizer::Tokenizer;
use crate::terms::{
    key_of, keys_sorted, lemma_insert_sorted, lemma_key_injective, lemma_lex_irreflexive, search,
    Keyed,
};
use vstd::prelude::*;
use vstd::string::StringExecFns;

verus! {

broadcast use vstd::string::group_string_axioms;

/// The tokens of `toks` that `f` keeps, in order.
pub open spec fn keep_all<F: TokenFilter>(f: F, toks: Seq<Seq<char>>) -> Seq<Seq<char>>
    decreases toks.len(),
{
    if toks.len() == 0 {
        Seq::empty()
    } else {
        let init = keep_all(f, toks.drop_last());
        if f.keeps(toks.last()) {
            init.push(toks.last())
        } else {
            init
        }
    }
}

/// How often `t` occurs in `toks`.
pub open spec fn count_in(toks: Seq<Seq<char>>, t: Seq<char>) -> nat
    decreases toks.len(),
{
    if toks.len() == 0 {
        0
    } else {
        count_in(toks.drop_last(), t) + if toks.last() == t {
            1nat
        } else {
            0nat
        }
    }
}

pub proof fn lemma_count_in_absent(toks: Seq<Seq<char>>, t: Seq<char>)
    requires
        !toks.contains(t),
    ensures
        count_in(toks, t) == 0,
    decreases toks.len(),
{
    if toks.len() > 0 {
        assert(toks.last() == toks[toks.len() - 1]);
        assert forall|k: int| 0 <= k < toks.drop_last().len() implies toks.drop_last()[k] != t by {
            assert(toks.drop_last()[k] == toks[k]);
        }
        lemma_count_in_absent(toks.drop_last(), t);
    }
}

pub proof fn lemma_count_in_bound(toks: Seq<Seq<char>>, t: Seq<char>)
    ensures
        count_in(toks, t) <= toks.len(),
    decreases toks.len(),
{
    if toks.len() > 0 {
        lemma_count_in_bound(toks.drop_last(), t);
    }
}

impl Keyed for (String, usize) {
    open spec fn key(&self) -> Seq<u8> {
        key_of(self.0@)
    }

    fn key_bytes(&self) -> (r: &[u8]) {
        self.0.as_str().as_bytes()
    }
}

/// `entries` are the terms of `kept`, each once, in key order, each with how
/// often it occurs in `kept`.
pub open spec fn counts_ok(entries: Seq<(String, usize)>, kept: Seq<Seq<char>>) -> bool {
    &&& keys_sorted(entries)
    &&& forall|e: int| 0 <= e < entries.len() ==> #[trigger] entries[e].1 == count_in(kept, entries[e].0@)
    &&& forall|x: Seq<char>|
        kept.contains(x) <==> exists|e: int| 0 <= e < entries.len() && #[trigger] entries[e].0@ == x
}

/// The sum of the counts of `entries`.
pub open spec fn count_sum(entries: Seq<(String, usize)>) -> int
    decreases entries.len(),
{
    if entries.len() == 0 {
        0
    } else {
        count_sum(entries.drop_last()) + entries.last().1
    }
}

/// The sum over the terms `ts` of how often each occurs in `toks`.
spec fn occurrences(ts: Seq<Seq<char>>, toks: Seq<Seq<char>>) -> int
    decreases ts.len(),
{
    if ts.len() == 0 {
        0
    } else {
        occurrences(ts.drop_last(), toks) + count_in(toks, ts.last())
    }
}

/// One more token adds its number of places among `ts`.
proof fn lemma_occurrences_push(ts: Seq<Seq<char>>, toks: Seq<Seq<char>>, x: Seq<char>)
    ensures
        occurrences(ts, toks.push(x)) == occurrences(ts, toks) + count_in(ts, x),
    decreases ts.len(),
{
    assert(toks.push(x).drop_last() =~= toks);
    if ts.len() > 0 {
        lemma_occurrences_push(ts.drop_last(), toks, x);
    }
}

/// A term held once by `ts` occurs there once.
proof fn lemma_count_in_once(ts: Seq<Seq<char>>, x: Seq<char>)
    requires
        ts.no_duplicates(),
        ts.contains(x),
    ensures
        count_in(ts, x) == 1,
    decreases ts.len(),
{
    let d = ts.drop_last();
    assert(d.no_duplicates()) by {
        assert forall|i: int, j: int| 0 <= i < d.len() && 0 <= j < d.len() && i != j implies d[i] != d[j] by {
            assert(d[i] == ts[i] && d[j] == ts[j]);
        }
    }
    if ts.last() == x {
        assert(!d.contains(x)) by {
            if d.contains(x) {
                let i = choose|i: int| 0 <= i < d.len() && d[i] == x;
                assert(ts[i] == ts[ts.len() - 1]);
            }
        }
        lemma_count_in_absent(d, x);
    } else {
        let i = choose|i: int| 0 <= i < ts.len() && ts[i] == x;
        assert(i != ts.len() - 1);
        assert(d[i] == x);
        lemma_count_in_once(d, x);
    }
}

/// Over terms that are distinct and cover `toks`, the occurrences add up to
/// the number of tokens.
proof fn lemma_occurrences_all(ts: Seq<Seq<char>>, toks: Seq<Seq<char>>)
    requires
        ts.no_duplicates(),
        forall|k: int| 0 <= k < toks.len() ==> ts.contains(#[trigger] toks[k]),
    ensures
        occurrences(ts, toks) == toks.len(),
    decreases toks.len(),
{
    if toks.len() == 0 {
        lemma_occurrences_empty(ts, toks);
    } else {
        let d = toks.drop_last();
        assert forall|k: int| 0 <= k < d.len() implies ts.contains(#[trigger] d[k]) by {
            assert(d[k] == toks[k]);
        }
        lemma_occurrences_all(ts, d);
        assert(d.push(toks.last()) =~= toks);
        lemma_occurrences_push(ts, d, toks.last());
        assert(ts.contains(toks[toks.len() - 1]));
        lemma_count_in_once(ts, toks.last());
    }
}

/// No token, no occurrence.
proof fn lemma_occurrences_empty(ts: Seq<Seq<char>>, toks: Seq<Seq<char>>)
    requires
        toks.len() == 0,
    ensures
        occurrences(ts, toks) == 0,
    decreases ts.len(),
{
    if ts.len() > 0 {
        lemma_occurrences_empty(ts.drop_last(), toks);
    }
}

/// The counts of the entries are the occurrences of their terms.
proof fn lemma_count_sum_occurrences(entries: Seq<(String, usize)>, kept: Seq<Seq<char>>)
    requires
        forall|e: int| 0 <= e < entries.len() ==> #[trigger] entries[e].1 == count_in(kept, entries[e].0@),
    ensures
        count_sum(entries) == occurrences(entries.map_values(|e: (String, usize)| e.0@), kept),
    decreases entries.len(),
{
    let ts = entries.map_values(|e: (String, usize)| e.0@);
    if entries.len() > 0 {
        let d = entries.drop_last();
        assert forall|e: int| 0 <= e < d.len() implies #[trigger] d[e].1 == count_in(kept, d[e].0@) by {
            assert(d[e] == entries[e]);
        }
        lemma_count_sum_occurrences(d, kept);
        assert(ts.drop_last() =~= d.map_values(|e: (String, usize)| e.0@));
        assert(entries.last().1 == count_in(kept, entries[entries.len() - 1].0@));
    }
}

/// The counts of the terms of a text add up to the number of tokens kept.
pub proof fn lemma_counts_add_up(entries: Seq<(String, usize)>, kept: Seq<Seq<char>>)
    requires
        counts_ok(entries, kept),
    ensures
        count_sum(entries) == kept.len(),
{
    let ts = entries.map_values(|e: (String, usize)| e.0@);
    lemma_count_sum_occurrences(entries, kept);
    assert(ts.no_duplicates()) by {
        assert forall|i: int, j: int| 0 <= i < ts.len() && 0 <= j < ts.len() && i != j implies ts[i] != ts[j] by {
            if ts[i] == ts[j] {
                lemma_lex_irreflexive(entries[i].key());
                if i < j {
                    assert(crate::terms::lex_lt(entries[i].key(), entries[j].key()));
                } else {
                    assert(crate::terms::lex_lt(entries[j].key(), entries[i].key()));
                }
            }
        }
    }
    assert forall|k: int| 0 <= k < kept.len() implies ts.contains(#[trigger] kept[k]) by {
        assert(kept.contains(kept[k]));
        let e = choose|e: int| 0 <= e < entries.len() && #[trigger] entries[e].0@ == kept[k];
        assert(ts[e] == kept[k]);
    }
    lemma_occurrences_all(ts, kept);
}

/// Turns a text into terms with a char filter, a tokenizer and a token filter.
#[derive(Debug)]
pub struct Analyzer<C, T, I> {
    char_filter: C,
    token_filter: T,
    tokenizer: I,
}

impl<C: CharFilter, T: TokenFilter, I: Tokenizer> Analyzer<C, T, I> {
    pub closed spec fn char_filter_of(&self) -> C {
        self.char_filter
    }

    pub closed spec fn token_filter_of(&self) -> T {
        self.token_filter
    }

    pub closed spec fn tokenizer_of(&self) -> I {
        self.tokenizer
    }

    /// The tokens of `text` that are kept, in order.
    pub open spec fn kept(&self, text: Seq<char>) -> Seq<Seq<char>> {
        keep_all(
            self.token_filter_of(),
            self.tokenizer_of().spec_tokenize(self.char_filter_of().spec_filter(text)),
        )
    }

    pub fn new(char_filter: C, token_filter: T, tokenizer: I) -> (r: Self)
        ensures
            r.char_filter_of() == char_filter,
            r.token_filter_of() == token_filter,
            r.tokenizer_of() == tokenizer,
    {
        Analyzer { char_filter, token_filter, tokenizer }
    }

    /// The terms of `text` with how often each occurs, and the number of tokens
    /// kept.
    pub fn analyze(&self, text: &str) -> (r: Result<(Vec<(String, usize)>, usize), Error>)
        ensures
            r matches Ok((terms, n)) && n == self.kept(text@).len() && counts_ok(
                terms@,
                self.kept(text@),
            ) && terms@.len() <= n,
    {
        let filtered = self.char_filter.filter(text);
        let tokens = self.tokenizer.tokenize(filtered.as_str());
        let ghost toks = strings_view(tokens@);
        let ghost f = self.token_filter;
        let mut entries: Vec<(String, usize)> = Vec::new();
        let mut n: usize = 0;
        let mut i: usize = 0;
        proof {
            assert(toks.take(0) =~= Seq::<Seq<char>>::empty());
        }
        while i < tokens.len()
            invariant
                i <= tokens@.len(),
                toks == strings_view(tokens@),
                f == self.token_filter,
                toks == self.tokenizer_of().spec_tokenize(self.char_filter_of().spec_filter(text@)),
                n == keep_all(f, toks.take(i as int)).len(),
                n <= i,
                entries@.len() <= n,
                counts_ok(entries@, keep_all(f, toks.take(i as int))),
            decreases tokens@.len() - i,
        {
            let ghost kept0 = keep_all(f, toks.take(i as int));
            proof {
                let t = toks.take(i + 1);
                assert(t.drop_last() =~= toks.take(i as int));
                assert(t.last() == tokens@[i as int]@);
            }
            match self.token_filter.filter(tokens[i].as_str()) {
                None => {},
                Some(t) => {
                    let ghost kept1 = kept0.push(t@);
                    let kb = t.as_bytes();
                    let ghost e0 = entries@;
                    match search(&entries, kb) {
                        Ok(j) => {
                            proof {
                                lemma_key_injective(entries@[j as int].0@, t@);
                                lemma_count_in_bound(kept0, t@);
                            }
                            let term = entries[j].0.clone();
                            let c = entries[j].1;
                            entries.set(j, (term, c + 1));
                            proof {
                                let e1 = entries@;
                                assert(kept1.drop_last() =~= kept0);
                                assert(e1[j as int].key() == e0[j as int].key());
                                assert forall|a: int, b: int| 0 <= a < b < e1.len() implies crate::terms::lex_lt(
                                    #[trigger] e1[a].key(),
                                    #[trigger] e1[b].key(),
                                ) by {
                                    assert(e1[a].key() == e0[a].key());
                                    assert(e1[b].key() == e0[b].key());
                                }
                                assert forall|e: int| 0 <= e < e1.len() implies #[trigger] e1[e].1
                                    == count_in(kept1, e1[e].0@) by {
                                    if e != j {
                                        if e0[e].0@ == t@ {
                                            lemma_lex_irreflexive(e0[e].key());
                                            if e < j {
                                                assert(crate::terms::lex_lt(e0[e].key(), e0[j as int].key()));
                                            } else {
                                                assert(crate::terms::lex_lt(e0[j as int].key(), e0[e].key()));
                                            }
                                        }
                                    }
                                }
                                assert forall|x: Seq<char>| kept1.contains(x) <==> exists|e: int|
                                    0 <= e < e1.len() && #[trigger] e1[e].0@ == x by {
                                    if kept1.contains(x) {
                                        let k = choose|k: int| 0 <= k < kept1.len() && kept1[k] == x;
                                        if k < kept0.len() {
                                            assert(kept0[k] == x);
                                            assert(kept0.contains(x));
                                            let e = choose|e: int| 0 <= e < e0.len() && #[trigger] e0[e].0@ == x;
                                            assert(e1[e].0@ == x);
                                        } else {
                                            assert(e1[j as int].0@ == x);
                                        }
                                    }
                                    if exists|e: int| 0 <= e < e1.len() && #[trigger] e1[e].0@ == x {
                                        let e = choose|e: int| 0 <= e < e1.len() && #[trigger] e1[e].0@ == x;
                                        assert(e0[e].0@ == x);
                                        assert(kept0.contains(x));
                                        let k = choose|k: int| 0 <= k < kept0.len() && kept0[k] == x;
                                        assert(kept1[k] == x);
                                    }
                                }
                            }
                        },
                        Err(j) => {
                            let entry = (String::from_str(t), 1usize);
                            proof {
                                if kept0.contains(t@) {
                                    let e = choose|e: int| 0 <= e < e0.len() && #[trigger] e0[e].0@ == t@;
                                    assert(e0[e].key() == kb@);
                                    lemma_lex_irreflexive(kb@);
                                }
                                lemma_count_in_absent(kept0, t@);
                                lemma_insert_sorted(entries@, j as int, entry);
                            }
                            entries.insert(j, entry);
                            proof {
                                let e1 = entries@;
                                assert(kept1.drop_last() =~= kept0);
                                assert forall|e: int| 0 <= e < e1.len() implies #[trigger] e1[e].1
                                    == count_in(kept1, e1[e].0@) by {
                                    if e < j {
                                        assert(e1[e] == e0[e]);
                                        assert(e0[e].0@ != t@);
                                    } else if e > j {
                                        assert(e1[e] == e0[e - 1]);
                                        assert(e0[e - 1].0@ != t@);
                                    }
                                }
                                assert forall|x: Seq<char>| kept1.contains(x) <==> exists|e: int|
                                    0 <= e < e1.len() && #[trigger] e1[e].0@ == x by {
                                    if kept1.contains(x) {
                                        let k = choose|k: int| 0 <= k < kept1.len() && kept1[k] == x;
                                        if k < kept0.len() {
                                            assert(kept0[k] == x);
                                            assert(kept0.contains(x));
                                            let e = choose|e: int| 0 <= e < e0.len() && #[trigger] e0[e].0@ == x;
                                            if e < j {
                                                assert(e1[e] == e0[e]);
                                            } else {
                                                assert(e1[e + 1] == e0[e]);
                                            }
                                        } else {
                                            assert(e1[j as int].0@ == x);
                                        }
                                    }
                                    if exists|e: int| 0 <= e < e1.len() && #[trigger] e1[e].0@ == x {
                                        let e = choose|e: int| 0 <= e < e1.len() && #[trigger] e1[e].0@ == x;
                                        if e == j {
                                            assert(kept1[kept1.len() - 1] == x);
                                        } else {
                                            let e2 = if e < j { e } else { e - 1 };
                                            assert(e1[e] == e0[e2]);
                                            assert(e0[e2].0@ == x);
                                            assert(kept0.contains(x));
                                            let k = choose|k: int| 0 <= k < kept0.len() && kept0[k] == x;
                                            assert(kept1[k] == x);
                                        }
                                    }
                                }
                            }
                        },
                    }
                    n = n + 1;
                },
            }
            i = i + 1;
        }
        proof {
            assert(toks.take(tokens@.len() as int) =~= toks);
        }
        Ok((entries, n))
    }
}

/// Each token kept is one of the tokens given.
proof fn lemma_keep_all_from<F: TokenFilter>(f: F, toks: Seq<Seq<char>>)
    ensures
        forall|k: int| 0 <= k < keep_all(f, toks).len() ==> toks.contains(#[trigger] keep_all(f, toks)[k]),
    decreases toks.len(),
{
    if toks.len() > 0 {
        let d = toks.drop_last();
        lemma_keep_all_from(f, d);
        let kd = keep_all(f, d);
        let ka = keep_all(f, toks);
        assert forall|k: int| 0 <= k < ka.len() implies toks.contains(#[trigger] ka[k]) by {
            if k < kd.len() {
                assert(ka[k] == kd[k]);
                let j = choose|j: int| 0 <= j < d.len() && d[j] == kd[k];
                assert(toks[j] == d[j]);
            } else {
                assert(ka[k] == toks.last());
                assert(toks[toks.len() - 1] == toks.last());
            }
        }
    }
}

/// Every character of every token `tok` cuts a text into is a character of
/// that text.
pub open spec fn tokens_from_text<I: Tokenizer>(tok: I) -> bool {
    forall|x: Seq<char>, k: int, j: int|
        0 <= k < tok.spec_tokenize(x).len() && 0 <= j < tok.spec_tokenize(x)[k].len() ==> x.contains(
            #[trigger] tok.spec_tokenize(x)[k][j],
        )
}

impl<C: CharFilter, T: TokenFilter, I: Tokenizer> Analyzer<C, T, I> {
    /// The tokens kept of a text depend on the text only through what the
    /// char filter makes of it: two texts that the char filter makes the
    /// same keep the same tokens, and so are counted alike.
    pub proof fn lemma_kept_after_char_filter(&self, t1: Seq<char>, t2: Seq<char>)
        requires
            self.char_filter_of().spec_filter(t1) == self.char_filter_of().spec_filter(t2),
        ensures
            self.kept(t1) == self.kept(t2),
    {
    }
}

/// With the CJK char filter, a text keeps the same tokens as what the filter
/// makes of it; and where the tokenizer cuts a text into pieces of that
/// text, no term kept holds a character outside the filter's class: the
/// characters the filter drops never reach the tokenizer.
pub proof fn lemma_cjk_terms_in_class<T: TokenFilter, I: Tokenizer>(
    a: Analyzer<CJKDocCharFilter, T, I>,
    text: Seq<char>,
)
    ensures
        a.kept(text) == a.kept(cjk_doc_kept(text)),
        tokens_from_text(a.tokenizer_of()) ==> forall|k: int, j: int|
            0 <= k < a.kept(text).len() && 0 <= j < a.kept(text)[k].len() ==> cjk_doc_char(
                #[trigger] a.kept(text)[k][j],
            ),
{
    lemma_cjk_doc_kept_twice(text);
    let f = cjk_doc_kept(text);
    let toks = a.tokenizer_of().spec_tokenize(f);
    lemma_keep_all_from(a.token_filter_of(), toks);
    lemma_cjk_doc_kept(text, Seq::empty());
    if tokens_from_text(a.tokenizer_of()) {
        assert forall|k: int, j: int| 0 <= k < a.kept(text).len() && 0 <= j < a.kept(text)[k].len() implies cjk_doc_char(
            #[trigger] a.kept(text)[k][j],
        ) by {
            let w = a.kept(text)[k];
            assert(toks.contains(w));
            let m = choose|m: int| 0 <= m < toks.len() && toks[m] == w;
            assert(f.contains(toks[m][j]));
            let i = choose|i: int| 0 <= i < f.len() && f[i] == toks[m][j];
            assert(cjk_doc_char(f[i]));
        }
    }
}

} // verus!

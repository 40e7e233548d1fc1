//! Which tokens an analyzer keeps.
use crate::analyzer::text::{contains_white_space, has_white_space, is_white_space, split_lines, trim, trimmed};
use crate::terms::{key_of, keys_sorted, lemma_insert_sorted, lemma_key_injective, search, Keyed};
use vstd::prelude::*;

verus! {

broadcast use vstd::string::group_string_axioms;

/// Decides whether a token is kept.
pub trait TokenFilter {
    /// `filter` keeps `token`.
    spec fn keeps(&self, token: Seq<char>) -> bool;

    /// The token, if it is kept.
    fn filter<'a>(&self, token: &'a str) -> (r: Option<&'a str>)
        ensures
            match r {
                Some(t) => t@ == token@ && self.keeps(token@),
                None => !self.keeps(token@),
            },
    ;
}

/// Drops the tokens that hold white space: those `\s+` matches in.
#[derive(Debug)]
pub struct BasicTokenFilter {}

impl BasicTokenFilter {
    pub fn new() -> (r: Self) {
        BasicTokenFilter {  }
    }
}

impl TokenFilter for BasicTokenFilter {
    open spec fn keeps(&self, token: Seq<char>) -> bool {
        !has_white_space(token)
    }

    fn filter<'a>(&self, token: &'a str) -> (r: Option<&'a str>) {
        if contains_white_space(token) {
            None
        } else {
            Some(token)
        }
    }
}

/// The basic filter keeps a token exactly when none of its characters is
/// white space: every other token, digits and any other characters
/// included, is kept as it is.
pub proof fn lemma_basic_filter_keeps(f: BasicTokenFilter, token: Seq<char>)
    ensures
        f.keeps(token) <==> forall|i: int| 0 <= i < token.len() ==> !is_white_space(#[trigger] token[i]),
{
}

impl Keyed for String {
    open spec fn key(&self) -> Seq<u8> {
        key_of(self@)
    }

    fn key_bytes(&self) -> (r: &[u8]) {
        self.as_str().as_bytes()
    }
}

/// The texts of the strings of `v`.
pub open spec fn word_set(v: Seq<String>) -> Set<Seq<char>> {
    Set::new(|w: Seq<char>| exists|k: int| 0 <= k < v.len() && #[trigger] v[k]@ == w)
}

/// The stop words a dictionary names: its lines, with the white space at
/// their ends cut off.
pub open spec fn dict_words(dict: Seq<char>) -> Set<Seq<char>> {
    Set::new(
        |w: Seq<char>|
            exists|k: int| 0 <= k < split_lines(dict).len() && trim(#[trigger] split_lines(dict)[k]) == w,
    )
}

/// Drops the tokens that hold white space and the stop words.
#[derive(Debug)]
pub struct StopWordTokenFilter {
    stop_words: Vec<String>,
}

/// Adds `w` to a set of words kept in key order.
fn add_word(words: &mut Vec<String>, w: String)
    requires
        keys_sorted(old(words)@),
    ensures
        keys_sorted(final(words)@),
        word_set(final(words)@) == word_set(old(words)@).insert(w@),
{
    let ghost old_words = words@;
    match search(words, w.key_bytes()) {
        Ok(i) => {
            proof {
                lemma_key_injective(words@[i as int]@, w@);
                assert(word_set(words@) =~= word_set(old_words).insert(w@));
            }
        },
        Err(i) => {
            proof {
                lemma_insert_sorted(words@, i as int, w);
            }
            words.insert(i, w);
            proof {
                let nw = words@;
                assert forall|x: Seq<char>| word_set(nw).contains(x) <==> word_set(old_words).insert(
                    w@,
                ).contains(x) by {
                    if word_set(nw).contains(x) {
                        let k = choose|k: int| 0 <= k < nw.len() && #[trigger] nw[k]@ == x;
                        if k < i {
                            assert(nw[k] == old_words[k]);
                        } else if k > i {
                            assert(nw[k] == old_words[k - 1]);
                        }
                    }
                    if word_set(old_words).contains(x) {
                        let k = choose|k: int| 0 <= k < old_words.len() && #[trigger] old_words[k]@ == x;
                        if k < i {
                            assert(nw[k] == old_words[k]);
                        } else {
                            assert(nw[k + 1] == old_words[k]);
                        }
                    }
                    if x == w@ {
                        assert(nw[i as int]@ == x);
                    }
                }
                assert(word_set(nw) =~= word_set(old_words).insert(w@));
            }
        },
    }
}

impl StopWordTokenFilter {
    #[verifier::type_invariant]
    spec fn sorted(&self) -> bool {
        keys_sorted(self.stop_words@)
    }

    /// The stop words.
    pub closed spec fn words(&self) -> Set<Seq<char>> {
        word_set(self.stop_words@)
    }

    /// A filter with the stop words of `dict`: one per line, white space
    /// around it cut off.
    pub fn new(dict: &str) -> (r: Self)
        ensures
            r.words() == dict_words(dict@),
    {
        let mut words: Vec<String> = Vec::new();
        let mut line: Vec<char> = Vec::new();
        proof {
            assert(dict@.take(0) =~= Seq::<char>::empty());
            assert(word_set(words@) =~= Set::empty());
        }
        for c in it: dict.chars()
            invariant
                it.seq() == dict@,
                keys_sorted(words@),
                split_lines(dict@.take(it.index() as int)).len() >= 1,
                line@ == split_lines(dict@.take(it.index() as int)).last(),
                forall|w: Seq<char>|
                    #[trigger] word_set(words@).contains(w) <==> exists|k: int|
                        0 <= k < split_lines(dict@.take(it.index() as int)).len() - 1 && trim(
                            #[trigger] split_lines(dict@.take(it.index() as int))[k],
                        ) == w,
        {
            let ghost i = it.index() as int;
            let ghost before = split_lines(dict@.take(i));
            proof {
                let t = dict@.take(i + 1);
                assert(t.drop_last() =~= dict@.take(i));
                assert(t.last() == c);
            }
            if c == '\n' {
                let w = trimmed(&line);
                let ghost ws0 = word_set(words@);
                add_word(&mut words, w);
                line = Vec::new();
                proof {
                    let after = split_lines(dict@.take(i + 1));
                    assert(after == before.push(Seq::<char>::empty()));
                    assert forall|x: Seq<char>| #[trigger] word_set(words@).contains(x) <==> exists|k: int|
                        0 <= k < after.len() - 1 && trim(#[trigger] after[k]) == x by {
                        if word_set(words@).contains(x) {
                            if x == w@ {
                                assert(after[before.len() - 1] == before.last());
                            } else {
                                assert(ws0.contains(x));
                                let k = choose|k: int| 0 <= k < before.len() - 1 && trim(#[trigger] before[k]) == x;
                                assert(after[k] == before[k]);
                            }
                        }
                        if exists|k: int| 0 <= k < after.len() - 1 && trim(#[trigger] after[k]) == x {
                            let k = choose|k: int| 0 <= k < after.len() - 1 && trim(#[trigger] after[k]) == x;
                            if k < before.len() - 1 {
                                assert(after[k] == before[k]);
                                assert(ws0.contains(x));
                            }
                        }
                    }
                    assert(line@ =~= after.last());
                }
            } else {
                line.push(c);
                proof {
                    let after = split_lines(dict@.take(i + 1));
                    assert(after == before.update(before.len() - 1, before.last().push(c)));
                    assert forall|x: Seq<char>| #[trigger] word_set(words@).contains(x) <==> exists|k: int|
                        0 <= k < after.len() - 1 && trim(#[trigger] after[k]) == x by {
                        if word_set(words@).contains(x) {
                            let k = choose|k: int| 0 <= k < before.len() - 1 && trim(#[trigger] before[k]) == x;
                            assert(after[k] == before[k]);
                        }
                        if exists|k: int| 0 <= k < after.len() - 1 && trim(#[trigger] after[k]) == x {
                            let k = choose|k: int| 0 <= k < after.len() - 1 && trim(#[trigger] after[k]) == x;
                            assert(after[k] == before[k]);
                        }
                    }
                }
            }
        }
        let ghost lines = split_lines(dict@);
        proof {
            assert(dict@.take(dict@.len() as int) =~= dict@);
        }
        let w = trimmed(&line);
        let ghost ws0 = word_set(words@);
        add_word(&mut words, w);
        proof {
            assert forall|x: Seq<char>| word_set(words@).contains(x) <==> dict_words(dict@).contains(x) by {
                if word_set(words@).contains(x) {
                    if x == w@ {
                        assert(trim(lines[lines.len() - 1]) == x);
                    } else {
                        assert(ws0.contains(x));
                        let k = choose|k: int| 0 <= k < lines.len() - 1 && trim(#[trigger] lines[k]) == x;
                    }
                }
                if dict_words(dict@).contains(x) {
                    let k = choose|k: int| 0 <= k < lines.len() && trim(#[trigger] lines[k]) == x;
                    if k < lines.len() - 1 {
                        assert(ws0.contains(x));
                    }
                }
            }
            assert(word_set(words@) =~= dict_words(dict@));
        }
        StopWordTokenFilter { stop_words: words }
    }
}

impl TokenFilter for StopWordTokenFilter {
    open spec fn keeps(&self, token: Seq<char>) -> bool {
        !has_white_space(token) && !self.words().contains(token)
    }

    fn filter<'a>(&self, token: &'a str) -> (r: Option<&'a str>) {
        if contains_white_space(token) {
            return None;
        }
        proof {
            use_type_invariant(self);
        }
        let kb = token.as_bytes();
        match search(&self.stop_words, kb) {
            Ok(i) => {
                proof {
                    lemma_key_injective(self.stop_words@[i as int]@, token@);
                    assert(self.stop_words@[i as int]@ == token@);
                }
                None
            },
            Err(i) => {
                proof {
                    if self.words().contains(token@) {
                        let k = choose|k: int|
                            0 <= k < self.stop_words@.len() && #[trigger] self.stop_words@[k]@ == token@;
                        assert(self.stop_words@[k].key() == kb@);
                        crate::terms::lemma_lex_irreflexive(kb@);
                    }
                }
                Some(token)
            },
        }
    }
}

/// The stop-word filter keeps a token exactly when none of its characters
/// is white space and it is not one of the stop words.
pub proof fn lemma_stop_word_filter_keeps(f: StopWordTokenFilter, token: Seq<char>)
    ensures
        f.keeps(token) <==> (forall|i: int| 0 <= i < token.len() ==> !is_white_space(#[trigger] token[i]))
            && !f.words().contains(token),
{
}

} // verus!

//! What an analyzer does to a text before it is split into tokens.
use crate::analyzer::text::{concat, concat_all, strings_view};
use vstd::prelude::*;
use vstd::string::StringExecFns;

verus! {

/// Turns a text into the text that is split into tokens.
pub trait CharFilter {
    /// The text `filter` gives for `text`.
    spec fn spec_filter(&self, text: Seq<char>) -> Seq<char>;

    fn filter(&self, text: &str) -> (r: String)
        ensures
            r@ == self.spec_filter(text@),
    ;
}

/// Leaves the text as it is.
#[derive(Debug)]
pub struct BasicCharFilter {}

impl BasicCharFilter {
    pub fn new() -> (r: Self) {
        BasicCharFilter {  }
    }
}

impl CharFilter for BasicCharFilter {
    open spec fn spec_filter(&self, text: Seq<char>) -> Seq<char> {
        text
    }

    fn filter(&self, text: &str) -> (r: String) {
        String::from_str(text)
    }
}

/// The basic filter gives back the text it is given, character for
/// character.
pub proof fn lemma_basic_char_filter_keeps_text(f: BasicCharFilter, text: Seq<char>)
    ensures
        f.spec_filter(text) == text,
{
}

/// `c` is one of the characters of the class `[\s\p{N}\p{P}a-zA-Z\u2E80-\uFE4F]`:
/// white space, a number, punctuation, an ASCII letter or a CJK character.
pub uninterp spec fn cjk_doc_char(c: char) -> bool;

/// The characters of `text` that are of that class, in order.
pub open spec fn cjk_doc_kept(text: Seq<char>) -> Seq<char> {
    text.filter(|c: char| cjk_doc_char(c))
}

/// The matches of the pattern `[\s\p{N}\p{P}a-zA-Z\u2E80-\uFE4F]+` in `text`,
/// from `regex::Regex::find_iter`. The matches come left to right, do not
/// overlap and are as long as they can be, so each is a run of the class's
/// characters that no other such character touches: together they are
/// exactly the characters of the class, in order, and none is empty. The
/// class itself is named, not written out: `\s`, `\p{N}` and `\p{P}` are
/// Unicode tables.
#[verifier::external_body]
fn cjk_doc_matches(text: &str) -> (r: Vec<String>)
    ensures
        concat_all(strings_view(r@)) == cjk_doc_kept(text@),
        forall|i: int| 0 <= i < r@.len() ==> #[trigger] r@[i]@.len() > 0,
        forall|i: int, j: int|
            0 <= i < r@.len() && 0 <= j < r@[i]@.len() ==> cjk_doc_char(#[trigger] r@[i]@[j]),
{
    let re = regex::Regex::new(r"[\s\p{N}\p{P}a-zA-Z\u2E80-\uFE4F]+").unwrap();
    re.find_iter(text).map(|m| m.as_str().to_string()).collect()
}

/// Filtering a second time changes nothing: what is kept is all of the class.
pub proof fn lemma_cjk_doc_kept_twice(text: Seq<char>)
    ensures
        cjk_doc_kept(cjk_doc_kept(text)) == cjk_doc_kept(text),
    decreases text.len(),
{
    reveal(Seq::filter);
    if text.len() > 0 {
        lemma_cjk_doc_kept_twice(text.drop_last());
        let k = cjk_doc_kept(text.drop_last());
        if cjk_doc_char(text.last()) {
            assert(k.push(text.last()).drop_last() =~= k);
        }
    }
}

/// What is kept of a text: characters of the class only, each taken from the
/// text, every character of the class that the text holds, no more
/// characters than the text has; and the text of two parts keeps what each
/// part keeps, one after the other.
pub proof fn lemma_cjk_doc_kept(text: Seq<char>, more: Seq<char>)
    ensures
        cjk_doc_kept(text).len() <= text.len(),
        forall|i: int| 0 <= i < cjk_doc_kept(text).len() ==> cjk_doc_char(#[trigger] cjk_doc_kept(text)[i])
            && text.contains(cjk_doc_kept(text)[i]),
        forall|i: int| 0 <= i < text.len() && cjk_doc_char(text[i]) ==> #[trigger] cjk_doc_kept(text).contains(text[i]),
        cjk_doc_kept(text + more) == cjk_doc_kept(text) + cjk_doc_kept(more),
{
    let pred = |c: char| cjk_doc_char(c);
    #[allow(deprecated)]
    text.filter_lemma(pred);
    Seq::filter_distributes_over_add(text, more, pred);
    lemma_kept_from(text);
}

/// Each character kept is a character of the text.
proof fn lemma_kept_from(text: Seq<char>)
    ensures
        forall|i: int| 0 <= i < cjk_doc_kept(text).len() ==> text.contains(#[trigger] cjk_doc_kept(text)[i]),
    decreases text.len(),
{
    reveal(Seq::filter);
    if text.len() > 0 {
        let d = text.drop_last();
        lemma_kept_from(d);
        let k = cjk_doc_kept(text);
        assert forall|i: int| 0 <= i < k.len() implies text.contains(#[trigger] k[i]) by {
            if i < cjk_doc_kept(d).len() {
                assert(k[i] == cjk_doc_kept(d)[i]);
                let j = choose|j: int| 0 <= j < d.len() && d[j] == k[i];
                assert(text[j] == d[j]);
            } else {
                assert(k[i] == text.last());
                assert(text[text.len() - 1] == text.last());
            }
        }
    }
}

/// Keeps the white space, numbers, punctuation, ASCII letters and CJK
/// characters of a text, and drops the rest.
#[derive(Debug)]
pub struct CJKDocCharFilter {}

impl CJKDocCharFilter {
    pub fn new() -> (r: Self) {
        CJKDocCharFilter {  }
    }
}

impl CharFilter for CJKDocCharFilter {
    open spec fn spec_filter(&self, text: Seq<char>) -> Seq<char> {
        cjk_doc_kept(text)
    }

    fn filter(&self, text: &str) -> (r: String) {
        let runs = cjk_doc_matches(text);
        concat(&runs)
    }
}

} // verus!

//! Splitting a text into tokens.
use crate::analyzer::text::strings_view;
use vstd::prelude::*;

verus! {

/// Splits a text into tokens.
pub trait Tokenizer {
    /// The tokens `tokenize` gives for `text`.
    spec fn spec_tokenize(&self, text: Seq<char>) -> Seq<Seq<char>>;

    fn tokenize(&self, text: &str) -> (r: Vec<String>)
        ensures
            strings_view(r@) == self.spec_tokenize(text@),
    ;
}

#[verifier::external_type_specification]
#[verifier::external_body]
pub struct ExJieba(jieba_rs::Jieba);

/// The words that jieba's search mode cuts `text` into, with its default
/// dictionary and its hidden Markov model for unknown words.
pub uninterp spec fn jieba_search_words(text: Seq<char>) -> Seq<Seq<char>>;

/// `jieba_rs::Jieba::new`: a segmenter with jieba's default dictionary.
#[verifier::external_body]
fn jieba_with_default_dict() -> jieba_rs::Jieba {
    jieba_rs::Jieba::new()
}

/// `jieba_rs::Jieba::cut_for_search` with the hidden Markov model on, each
/// token's word copied out. Its words depend on the dictionary as well as on
/// `text`; the one segmenter this is called with is made by
/// `jieba_with_default_dict`, so the dictionary is always the default one.
#[verifier::external_body]
fn jieba_cut_for_search(jieba: &jieba_rs::Jieba, text: &str) -> (r: Vec<String>)
    ensures
        strings_view(r@) == jieba_search_words(text@),
{
    jieba.cut_for_search(text, true).into_iter().map(|t| t.word.to_string()).collect()
}

/// Cuts Chinese text into words the way a search engine needs them: long
/// words and the shorter words inside them.
#[derive(Debug)]
pub struct JiebaTokenizer {
    jieba: jieba_rs::Jieba,
}

impl JiebaTokenizer {
    pub fn new() -> (r: Self) {
        JiebaTokenizer { jieba: jieba_with_default_dict() }
    }
}

impl Tokenizer for JiebaTokenizer {
    open spec fn spec_tokenize(&self, text: Seq<char>) -> Seq<Seq<char>> {
        jieba_search_words(text)
    }

    fn tokenize(&self, text: &str) -> (r: Vec<String>) {
        jieba_cut_for_search(&self.jieba, text)
    }
}

} // verus!

use sg_search::analyzer::char_filter::{BasicCharFilter, CJKDocCharFilter, CharFilter};
use sg_search::analyzer::token_filter::{BasicTokenFilter, StopWordTokenFilter, TokenFilter};
use sg_search::analyzer::tokenizer::{JiebaTokenizer, Tokenizer};
use sg_search::analyzer::Analyzer;

#[test]
fn basic_char_filter_keeps_the_text() {
    let f = BasicCharFilter::new();
    assert_eq!(f.filter("héllo 😀 中文"), "héllo 😀 中文");
}

#[test]
fn cjk_char_filter_drops_other_characters() {
    let f = CJKDocCharFilter::new();
    assert_eq!(f.filter("héllo wörld 😀 中文!"), "hllo wrld  中文!");
    assert_eq!(f.filter("abc 123, 你好。"), "abc 123, 你好。");
    assert_eq!(f.filter("ééé"), "");
    assert_eq!(f.filter(""), "");
}

#[test]
fn basic_token_filter_drops_white_space_tokens() {
    let f = BasicTokenFilter::new();
    assert_eq!(f.filter("word"), Some("word"));
    assert_eq!(f.filter(" "), None);
    assert_eq!(f.filter("a b"), None);
    assert_eq!(f.filter("tab\there"), None);
    assert_eq!(f.filter("\u{3000}"), None);
    assert_eq!(f.filter(""), Some(""));
}

#[test]
fn stop_word_filter_reads_one_word_per_line() {
    let f = StopWordTokenFilter::new("the\n  a \nis\r\n\n");
    assert_eq!(f.filter("the"), None);
    assert_eq!(f.filter("a"), None);
    assert_eq!(f.filter("is"), None);
    assert_eq!(f.filter(""), None);
    assert_eq!(f.filter("The"), Some("The"));
    assert_eq!(f.filter("cat"), Some("cat"));
    assert_eq!(f.filter("the cat"), None);
}

#[test]
fn jieba_splits_words_and_spaces() {
    let t = JiebaTokenizer::new();
    let tokens = t.tokenize("apple banana");
    assert!(tokens.contains(&"apple".to_string()));
    assert!(tokens.contains(&"banana".to_string()));
    assert_ne!(tokens, vec!["apple banana".to_string()]);
    let zh = t.tokenize("中华人民共和国");
    assert!(zh.len() > 1);
    assert!(zh.contains(&"中华".to_string()));
}

#[test]
fn analyze_counts_each_kept_term() {
    let a = Analyzer::new(BasicCharFilter::new(), BasicTokenFilter::new(), JiebaTokenizer::new());
    let (terms, n) = a.analyze("apple banana apple").unwrap();
    assert_eq!(terms, vec![("apple".to_string(), 2), ("banana".to_string(), 1)]);
    assert_eq!(n, 3);
    let total: usize = terms.iter().map(|t| t.1).sum();
    assert_eq!(total, n);
}

#[test]
fn analyze_drops_stop_words_and_sorts_by_bytes() {
    let a = Analyzer::new(
        CJKDocCharFilter::new(),
        StopWordTokenFilter::new("is\na"),
        JiebaTokenizer::new(),
    );
    let (terms, n) = a.analyze("zebra is a Zebra is zebra").unwrap();
    assert_eq!(terms, vec![("Zebra".to_string(), 1), ("zebra".to_string(), 2)]);
    assert_eq!(n, 3);
    let (none, zero) = a.analyze("").unwrap();
    assert!(none.is_empty());
    assert_eq!(zero, 0);
}

#[test]
fn cjk_char_filter_twice_changes_nothing_and_splits_over_parts() {
    let f = CJKDocCharFilter::new();
    let once = f.filter("héllo wörld 😀 中文! ≠ ©x");
    assert_eq!(f.filter(&once), once);
    let a = "ab😀c, ";
    let b = "é中文1";
    let whole = format!("{}{}", a, b);
    assert_eq!(f.filter(&whole), format!("{}{}", f.filter(a), f.filter(b)));
}

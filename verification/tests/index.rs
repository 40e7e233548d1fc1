use sg_search::analyzer::char_filter::CJKDocCharFilter;
use sg_search::analyzer::token_filter::StopWordTokenFilter;
use sg_search::analyzer::tokenizer::JiebaTokenizer;
use sg_search::analyzer::Analyzer;
use sg_search::index::constants::{FST_FILENAME, TERM_FILENAME, TERM_FILE_MAGIC_NUMBER};
use sg_search::index::document::Document;
use sg_search::index::postings::{PostingsBlock, PostingsInfo};
use sg_search::store::skip_list::reader::Reader;
use sg_search::index::term_index::Header;
use sg_search::index::writer::config::Config as WriterConfig;
use sg_search::index::writer::Writer;
use sg_search::query::query::Config as QueryConfig;
use sg_search::query::score::TfIdfTermPriorityCalculator;
use sg_search::analyzer::Error as AnalyzeError;
use sg_search::codec::DecodeError;
use sg_search::query::{Error, Query};
use sg_search::store::error::{EncodingError, Error as StoreError};
use sg_search::store::store_io::MemStore;
use fst::automaton::Levenshtein;
use fst::IntoStreamer;
use std::path::PathBuf;

type Cjk = Analyzer<CJKDocCharFilter, StopWordTokenFilter, JiebaTokenizer>;

fn analyzer() -> Cjk {
    Analyzer::new(
        CJKDocCharFilter::new(),
        StopWordTokenFilter::new("is\na\nin\nof\nthe"),
        JiebaTokenizer::new(),
    )
}

fn tf(num: usize, total: usize) -> u16 {
    ((num as f64 / total as f64) * u16::MAX as f64) as u16
}

const DOCS: [(u64, &str); 3] = [
    (1, "Canada is a country in North America"),
    (2, "Ottawa Canada Canada"),
    (3, "Rust is a language"),
];

fn build(docs: &[(u64, &str)]) -> (Vec<u8>, Vec<u8>) {
    let mut w = Writer::new(analyzer(), MemStore::new()).unwrap();
    for (id, content) in docs {
        w.add_doc(&Document { external_id: *id, content }, tf).unwrap();
    }
    let fst = w.finish().unwrap();
    (fst, w.term_file().as_bytes().to_vec())
}

fn open(fst: Vec<u8>, terms: Vec<u8>) -> Query<CJKDocCharFilter, StopWordTokenFilter, JiebaTokenizer> {
    Query::new(analyzer(), fst, MemStore::from_bytes(terms)).unwrap()
}

#[test]
fn build_index() {
    let mut w = Writer::new(analyzer(), MemStore::new()).unwrap();
    for (id, content) in DOCS.iter() {
        w.add_doc(&Document { external_id: *id, content }, tf).unwrap();
    }
    assert_eq!(w.doc_num(), 3);
    let fst = w.finish().unwrap();
    assert!(!fst.is_empty());
    let header = w.term_file().read::<Header>(0).unwrap();
    assert_eq!(header, Header { magic: TERM_FILE_MAGIC_NUMBER, doc_num: 3 });
}

fn fuzzy_query(
    q: &Query<CJKDocCharFilter, StopWordTokenFilter, JiebaTokenizer>,
    sentence: &str,
    range: std::ops::Range<usize>,
) -> Vec<u64> {
    let words = q.query_terms(sentence);
    let mut candidates = Vec::new();
    for w in &words {
        let max = if w.chars().count() > 4 { 1 } else { 0 };
        let c = match Levenshtein::new(w, max).ok() {
            None => q.exact_candidates(w),
            Some(aut) => q.fst().search(aut).into_stream().into_str_vec().unwrap(),
        };
        candidates.push(c);
    }
    q.rank(&words, &candidates, range).unwrap()
}

#[test]
fn query() {
    let (fst, terms) = build(&DOCS);
    let q = open(fst, terms);
    let result = fuzzy_query(&q, "Canada", 0..3);
    assert_eq!(result, vec![1, 2]);
    assert_eq!(q.query("Canada", 0..3).unwrap(), vec![1, 2]);
    assert_eq!(fuzzy_query(&q, "Canda", 0..3), vec![1, 2]);
    assert_eq!(q.query("Canda", 0..3).unwrap(), Vec::<u64>::new());
}

#[test]
fn a_term_is_read_back_as_it_was_written() {
    let (fst, terms) = build(&DOCS);
    let q = open(fst, terms);
    let c = q.exact_candidates("Canada");
    assert_eq!(c.len(), 1);
    assert_eq!(c[0].0, "Canada");
    let block = q.query_term_postings("Canada", &c).unwrap().unwrap();
    assert_eq!(
        block.postings,
        vec![
            PostingsInfo { id: 1, external_id: 1, tf: tf(1, 4) },
            PostingsInfo { id: 2, external_id: 2, tf: tf(2, 3) },
        ]
    );
    let rust = q.query_term_postings("Rust", &q.exact_candidates("Rust")).unwrap().unwrap();
    assert_eq!(rust.postings, vec![PostingsInfo { id: 3, external_id: 3, tf: tf(1, 2) }]);
    assert!(q.exact_candidates("is").is_empty());
    assert!(q.exact_candidates("Toronto").is_empty());
    assert!(q.query_term_postings("Toronto", &Vec::new()).unwrap().is_none());
}

#[test]
fn many_postings_go_to_the_skip_list_in_blocks() {
    let docs: Vec<(u64, String)> = (0..300u64).map(|i| (1000 + i, format!("common word{}", i % 7))).collect();
    let mut w = Writer::new(analyzer(), MemStore::new()).unwrap();
    for (id, content) in &docs {
        w.add_doc(&Document { external_id: *id, content: content.as_str() }, tf).unwrap();
    }
    let fst = w.finish().unwrap();
    let q = open(fst, w.term_file().as_bytes().to_vec());
    let all = q.query_term_postings("common", &q.exact_candidates("common")).unwrap().unwrap();
    assert_eq!(all.postings.len(), 300);
    for (k, p) in all.postings.iter().enumerate() {
        assert_eq!(p.id, k as u64 + 1);
        assert_eq!(p.external_id, 1000 + k as u64);
        assert_eq!(p.tf, tf(1, 2));
    }
    let w3 = q.query_term_postings("word3", &q.exact_candidates("word3")).unwrap().unwrap();
    let ids: Vec<u64> = w3.postings.iter().map(|p| p.external_id).collect();
    let expected: Vec<u64> = (0..300u64).filter(|i| i % 7 == 3).map(|i| 1000 + i).collect();
    assert_eq!(ids, expected);
}

#[test]
fn postings_are_stored_in_blocks_of_at_most_128() {
    let docs: Vec<(u64, String)> = (0..300u64).map(|i| (i, format!("common w{}", i))).collect();
    let mut w = Writer::new(analyzer(), MemStore::new()).unwrap();
    for (id, content) in &docs {
        w.add_doc(&Document { external_id: *id, content: content.as_str() }, tf).unwrap();
    }
    let fst = w.finish().unwrap();
    let terms = w.term_file().as_bytes().to_vec();
    let map = fst::Map::new(fst).unwrap();
    let off = map.get("common").unwrap();
    let store = MemStore::from_bytes(terms);
    let blocks = Reader::<PostingsBlock>::new(&store, off).read_all().unwrap();
    let sizes: Vec<usize> = blocks.iter().map(|b| b.postings.len()).collect();
    assert_eq!(sizes, vec![128, 128, 44]);
    let one = Reader::<PostingsBlock>::new(&store, map.get("w5").unwrap()).read_all().unwrap();
    assert_eq!(one.len(), 1);
    assert_eq!(one[0].postings, vec![PostingsInfo { id: 6, external_id: 5, tf: tf(1, 2) }]);
}

#[test]
fn ranking_keeps_documents_with_every_term_and_pages() {
    let (fst, terms) = build(&DOCS);
    let q = open(fst, terms);
    assert_eq!(q.query("Canada Rust", 0..10).unwrap(), Vec::<u64>::new());
    assert_eq!(q.query("Canada Ottawa", 0..10).unwrap(), vec![2]);
    assert_eq!(q.query("America Canada", 0..10).unwrap(), vec![1]);
    assert_eq!(q.query("Canada Toronto", 0..10).unwrap(), Vec::<u64>::new());
    assert_eq!(q.query("Canada", 1..3).unwrap(), vec![2]);
    assert_eq!(q.query("Canada", 2..3).unwrap(), Vec::<u64>::new());
    assert_eq!(q.query("Canada", 0..0).unwrap(), Vec::<u64>::new());
    assert_eq!(q.query("nothing here", 0..5).unwrap(), Vec::<u64>::new());
}

#[test]
fn ranking_uses_the_answers_given_for_each_word() {
    let (fst, terms) = build(&DOCS);
    let q = open(fst, terms);
    let canada = q.exact_candidates("Canada");
    let rust = q.exact_candidates("Rust");
    let words = vec!["Canda".to_string()];
    let answers = vec![vec![canada[0].clone(), rust[0].clone()]];
    assert_eq!(q.rank(&words, &answers, 0..5).unwrap(), vec![3]);
    let answers = vec![vec![rust[0].clone(), ("Canda".to_string(), canada[0].1)]];
    assert_eq!(q.rank(&words, &answers, 0..5).unwrap(), vec![1, 2]);
    let none: Vec<Vec<(String, u64)>> = vec![Vec::new()];
    assert_eq!(q.rank(&words, &none, 0..5).unwrap(), Vec::<u64>::new());
}

#[test]
fn query_terms_are_the_kept_terms_once_each() {
    let q = open(build(&DOCS).0, build(&DOCS).1);
    assert_eq!(q.query_terms("the Rust Rust is Canada"), vec!["Canada".to_string(), "Rust".to_string()]);
}

#[test]
fn opening_checks_the_term_file() {
    let (fst, terms) = build(&DOCS);
    let mut wrong = terms.clone();
    wrong[0] ^= 1;
    assert!(matches!(
        Query::new(analyzer(), fst.clone(), MemStore::from_bytes(wrong)),
        Err(Error::Incompatible)
    ));
    assert!(matches!(
        Query::new(analyzer(), fst.clone(), MemStore::from_bytes(terms[0..10].to_vec())),
        Err(Error::Store(StoreError::Encoding(EncodingError::Decode(DecodeError::UnexpectedEnd))))
    ));
    assert!(matches!(
        Query::new(analyzer(), fst.clone(), MemStore::from_bytes(Vec::new())),
        Err(Error::Store(StoreError::Encoding(EncodingError::Decode(DecodeError::UnexpectedEnd))))
    ));
    assert!(matches!(
        Query::new(analyzer(), fst, MemStore::from_bytes(terms[0..15].to_vec())),
        Err(Error::Store(StoreError::Encoding(EncodingError::Decode(DecodeError::UnexpectedEnd))))
    ));
}

#[test]
fn query_errors_describe_themselves() {
    assert_eq!(Error::Incompatible.message(), "incompatible data file");
    assert_eq!(Error::Store(StoreError::OutOfRange).message(), "out of range");
    assert_eq!(Error::Store(StoreError::Incompatible).message(), "incompatible data file");
    assert_eq!(
        Error::Store(StoreError::Encoding(EncodingError::Decode(DecodeError::UnexpectedEnd))).message(),
        "UnexpectedEnd"
    );
    assert_eq!(
        Error::Analyze(AnalyzeError::Io).message(),
        "the stop-word dictionary could not be read"
    );
    let fst_error = fst::Map::new(vec![1u8, 2, 3]).err().unwrap();
    let text = fst_error.to_string();
    assert_eq!(Error::Fst(fst_error).message(), text);
}

#[test]
fn a_finished_writer_opens_for_queries() {
    let mut w = Writer::new(analyzer(), MemStore::new()).unwrap();
    for (id, content) in DOCS.iter() {
        w.add_doc(&Document { external_id: *id, content }, tf).unwrap();
    }
    let q = Query::open_finished(analyzer(), w).unwrap();
    assert_eq!(q.query("Canada", 0..10).unwrap(), vec![1, 2]);
    assert_eq!(q.query("Rust", 0..10).unwrap(), vec![3]);
    assert_eq!(q.query("America Canada", 0..usize::MAX).unwrap(), vec![1]);
    assert_eq!(q.query("Ottawa Rust", 0..usize::MAX).unwrap(), Vec::<u64>::new());
    let canada = q.query_term_postings("Canada", &q.exact_candidates("Canada")).unwrap().unwrap();
    assert_eq!(
        canada.postings,
        vec![
            PostingsInfo { id: 1, external_id: 1, tf: tf(1, 4) },
            PostingsInfo { id: 2, external_id: 2, tf: tf(2, 3) },
        ]
    );
}

#[test]
fn ranking_orders_by_summed_frequency() {
    let docs = [(7, "alpha beta beta beta"), (8, "alpha alpha beta gamma"), (9, "alpha beta beta")];
    let (fst, terms) = build(&docs);
    let q = open(fst, terms);
    // alpha+beta: doc 7 sums 16383+49151, doc 8 32767+16383, doc 9 21845+43690.
    let ranked = q.query("alpha beta", 0..10).unwrap();
    assert_eq!(ranked, vec![8, 7, 9]);
    assert_eq!(q.query("beta alpha", 1..2).unwrap(), vec![7]);
    assert_eq!(q.query("gamma", 0..10).unwrap(), vec![8]);
}

#[test]
fn an_empty_index_answers_nothing() {
    let (fst, terms) = build(&[]);
    assert_eq!(terms.len(), 16);
    let q = open(fst, terms);
    assert_eq!(q.query("Canada", 0..3).unwrap(), Vec::<u64>::new());
}

#[test]
fn file_paths_join_the_directory() {
    let w = WriterConfig::new(PathBuf::from("/tmp/idx"));
    assert_eq!(w.build_file_path(TERM_FILENAME), PathBuf::from("/tmp/idx/index.trm"));
    let q = QueryConfig::new(PathBuf::from("out"));
    assert_eq!(q.build_file_path(FST_FILENAME), PathBuf::from("out/index.fst"));
    let c = WriterConfig::new(PathBuf::from("./test_output/index"));
    assert_eq!(c.build_file_path("index.trm"), PathBuf::from("./test_output/index/index.trm"));
    assert_eq!(c.build_file_path("index.fst"), PathBuf::from("./test_output/index/index.fst"));
    assert_eq!(c.output_dir, PathBuf::from("./test_output/index"));
    let d = PathBuf::from("some/dir");
    let p = QueryConfig::new(d.clone()).build_file_path("index.trm");
    assert_eq!(p, d.join("index.trm"));
    assert_eq!(p.file_name().and_then(|n| n.to_str()), Some("index.trm"));
    assert_eq!(p.parent(), Some(d.as_path()));
}

#[test]
fn a_page_never_holds_more_than_the_range() {
    let (fst, terms) = build(&DOCS);
    let q = open(fst, terms);
    assert_eq!(q.query("Canada", 0..1).unwrap().len(), 1);
    assert_eq!(q.query("Canada", 5..7).unwrap().len(), 0);
    let garbage = Query::new(analyzer(), build(&DOCS).0, MemStore::from_bytes({
        let mut t = build(&DOCS).1;
        let n = t.len();
        for b in t[16..n].iter_mut() {
            *b = 0xff;
        }
        t
    }))
    .unwrap();
    if let Ok(v) = garbage.query("Canada Rust Ottawa", 1..2) {
        assert!(v.len() <= 1);
    }
}

#[test]
fn priority_calculator_keeps_the_document_count() {
    assert_eq!(TfIdfTermPriorityCalculator::new(42).total_doc_num(), 42);
}

use mini_search_engine::crawler::CrawlResult;
use mini_search_engine::index::{
    build_index, build_index_with_tf, from_legacy, group_by_document, search, IndexWithTf,
    InvertedIndex, TermUrls,
};
use mini_search_engine::tokenize::{char_is_space, tokenize};

fn page(url: &str, body: &str) -> CrawlResult {
    CrawlResult {
        url: url.to_string(),
        title: String::new(),
        body_text: body.to_string(),
        links: Vec::new(),
    }
}

fn two_pages() -> Vec<CrawlResult> {
    vec![
        page("http://a.test/", "hello world"),
        page("http://a.test/b", "hello again"),
    ]
}

#[test]
fn tokenize_splits_strips_and_lowercases() {
    let t = tokenize("Hello, World!  (foo-bar) ... RUST2024");
    assert_eq!(t, vec!["hello", "world", "foo-bar", "rust2024"]);
}

#[test]
fn tokenize_empty_and_punctuation_only() {
    assert!(tokenize("").is_empty());
    assert!(tokenize("   \t\n ").is_empty());
    assert!(tokenize("!!! ... ---").is_empty());
}

#[test]
fn tokenize_unicode_case_folding() {
    assert_eq!(tokenize("ÄPFEL Straße"), vec!["äpfel", "straße"]);
}

#[test]
fn build_counts_terms_per_document() {
    let idx = IndexWithTf::build(&two_pages());
    assert_eq!(idx.doc_count, 2);
    assert_eq!(idx.count("hello", "http://a.test/"), 1);
    assert_eq!(idx.count("hello", "http://a.test/b"), 1);
    assert_eq!(idx.count("world", "http://a.test/"), 1);
    assert_eq!(idx.count("world", "http://a.test/b"), 0);
    assert_eq!(idx.count("again", "http://a.test/b"), 1);
    assert_eq!(idx.count("missing", "http://a.test/"), 0);
}

#[test]
fn build_counts_repeated_word() {
    let docs = vec![page("http://a.test/", "Spam spam SPAM, eggs. spam!")];
    let idx = build_index_with_tf(&docs);
    assert_eq!(idx.count("spam", "http://a.test/"), 4);
    assert_eq!(idx.count("eggs", "http://a.test/"), 1);
}

#[test]
fn build_of_no_results_is_empty() {
    let idx = IndexWithTf::build(&[]);
    assert_eq!(idx.doc_count, 0);
    assert!(idx.term_tf.is_empty());
}

#[test]
fn build_doc_count_counts_results() {
    let docs = vec![page("http://a.test/1", ""), page("http://a.test/2", "x"), page("http://a.test/3", "")];
    assert_eq!(IndexWithTf::build(&docs).doc_count, 3);
}

#[test]
fn search_and_semantics() {
    let inv = build_index(&two_pages());
    assert_eq!(search(&inv, "hello"), vec!["http://a.test/", "http://a.test/b"]);
    assert_eq!(search(&inv, "world"), vec!["http://a.test/"]);
    assert_eq!(search(&inv, "hello world"), vec!["http://a.test/"]);
    assert_eq!(search(&inv, "HELLO again"), vec!["http://a.test/b"]);
    assert!(search(&inv, "").is_empty());
    assert!(search(&inv, "nothing").is_empty());
}

#[test]
fn search_results_sorted() {
    let docs = vec![
        page("http://a.test/z", "common"),
        page("http://a.test/a", "common"),
        page("http://a.test/m", "common"),
    ];
    let inv = build_index(&docs);
    assert_eq!(search(&inv, "common"), vec!["http://a.test/a", "http://a.test/m", "http://a.test/z"]);
}

#[test]
fn as_inverted_keeps_url_sets() {
    let idx = IndexWithTf::build(&two_pages());
    let inv = idx.as_inverted();
    assert_eq!(inv.entries.len(), 3);
    let hello = inv.entries.iter().find(|e| e.term == "hello").unwrap();
    let mut urls = hello.urls.clone();
    urls.sort();
    assert_eq!(urls, vec!["http://a.test/", "http://a.test/b"]);
}

#[test]
fn query_terms_dedups_and_skips_unknown() {
    let idx = IndexWithTf::build(&two_pages());
    let q = idx.query_terms("hello unknown HELLO world");
    let terms: Vec<&str> = q.iter().map(|e| e.term.as_str()).collect();
    assert_eq!(terms, vec!["hello", "world"]);
    assert_eq!(q[0].postings.len(), 2);
    assert!(q[0].postings.iter().all(|p| p.count == 1));
    assert_eq!(q[1].postings.len(), 1);
    assert_eq!(q[1].postings[0].url, "http://a.test/");
}

#[test]
fn query_terms_empty_query_or_index() {
    let idx = IndexWithTf::build(&two_pages());
    assert!(idx.query_terms("").is_empty());
    let empty = IndexWithTf::build(&[]);
    assert!(empty.query_terms("hello").is_empty());
}

#[test]
fn legacy_index_counts_once_and_counts_distinct_urls() {
    let inv = InvertedIndex {
        entries: vec![
            TermUrls {
                term: "hello".to_string(),
                urls: vec!["http://a.test/".to_string(), "http://a.test/b".to_string(), "http://a.test/".to_string()],
            },
            TermUrls { term: "world".to_string(), urls: vec!["http://a.test/".to_string()] },
            TermUrls { term: "other".to_string(), urls: vec!["http://a.test/c".to_string()] },
        ],
    };
    let idx = from_legacy(&inv);
    assert_eq!(idx.doc_count, 3);
    assert_eq!(idx.count("hello", "http://a.test/"), 1);
    assert_eq!(idx.count("hello", "http://a.test/b"), 1);
    assert_eq!(idx.count("world", "http://a.test/"), 1);
    assert_eq!(idx.count("world", "http://a.test/b"), 0);
    assert_eq!(idx.term_tf[0].postings.len(), 2);
}

#[test]
fn group_by_document_collects_hits_per_url() {
    let docs = vec![
        page("http://a.test/", "hello world hello"),
        page("http://a.test/b", "hello again"),
        page("http://a.test/c", "nothing here"),
    ];
    let idx = IndexWithTf::build(&docs);
    let terms = idx.query_terms("world hello");
    let groups = group_by_document(&terms);
    assert_eq!(groups.len(), 2);
    let a = groups.iter().find(|g| g.url == "http://a.test/").unwrap();
    let got: Vec<(u32, usize)> = a.hits.iter().map(|h| (h.count, h.df)).collect();
    assert_eq!(got, vec![(1, 1), (2, 2)]);
    let b = groups.iter().find(|g| g.url == "http://a.test/b").unwrap();
    let got: Vec<(u32, usize)> = b.hits.iter().map(|h| (h.count, h.df)).collect();
    assert_eq!(got, vec![(1, 2)]);
}

#[test]
fn char_is_space_agrees_with_std() {
    for c in (0u32..=0x10FFFF).filter_map(char::from_u32) {
        assert_eq!(char_is_space(c), c.is_whitespace(), "{:?}", c);
    }
}

#[test]
fn tokenize_blank_text() {
    assert!(tokenize(" \u{3000}\u{a0}\u{2028}\t").is_empty());
}

use mini_search_engine::rank::{rank_desc, Scored};
use mini_search_engine::crawler::{Action, CrawlConfig, CrawlError, CrawlResult, Crawler};
use mini_search_engine::extract::{extract_page, normalize_url, same_domain, trim};
use mini_search_engine::index::{search, IndexWithTf};
use mini_search_engine::order::{insert_sorted, str_less};

fn page(url: &str, body: &str, links: &[&str]) -> CrawlResult {
    CrawlResult {
        url: url.to_string(),
        title: String::new(),
        body_text: body.to_string(),
        links: links.iter().map(|l| l.to_string()).collect(),
    }
}

fn dispatch(c: &mut Crawler) -> (String, u32) {
    match c.next_action() {
        Action::Dispatch { url, depth } => (url, depth),
        other => panic!("expected a dispatch, got {:?}", other),
    }
}

#[test]
fn config_defaults() {
    let c = CrawlConfig::new(None, None, None);
    assert_eq!((c.max_pages, c.max_depth, c.max_concurrent), (50, 3, 5));
    let c = CrawlConfig::new(Some(10), Some(1), Some(2));
    assert_eq!((c.max_pages, c.max_depth, c.max_concurrent), (10, 1, 2));
}

#[test]
fn seed_that_does_not_parse_is_an_error() {
    let r = Crawler::new("not a url", CrawlConfig::new(None, None, None));
    assert!(matches!(r, Err(CrawlError::UrlParse)));
}

#[test]
fn two_page_site_scenario() {
    let mut c = Crawler::new("http://a.test/", CrawlConfig::new(Some(10), Some(3), None)).unwrap();
    let (a, d) = dispatch(&mut c);
    assert_eq!((a.as_str(), d), ("http://a.test/", 0));
    assert!(matches!(c.next_action(), Action::Wait));
    let accepted = c.complete(
        &a,
        Some(page("http://a.test/", "hello world", &["http://a.test/b", "http://other.test/x"])),
    );
    assert!(accepted);
    let (b, d) = dispatch(&mut c);
    assert_eq!((b.as_str(), d), ("http://a.test/b", 1));
    assert!(c.complete(&b, Some(page("http://a.test/b", "hello again", &["http://a.test/"]))));
    assert!(matches!(c.next_action(), Action::Done));
    let results = c.into_results();
    assert_eq!(results.len(), 2);
    assert_eq!(results[0].links, vec!["http://a.test/b"]);

    let idx = IndexWithTf::build(&results);
    assert_eq!(idx.doc_count, 2);
    assert_eq!(idx.count("hello", "http://a.test/"), 1);
    assert_eq!(idx.count("hello", "http://a.test/b"), 1);
    assert_eq!(idx.count("world", "http://a.test/"), 1);
    assert_eq!(idx.count("again", "http://a.test/b"), 1);
    let hello = idx.query_terms("hello");
    assert_eq!(hello.len(), 1);
    assert_eq!(hello[0].postings.len(), 2);
    assert_eq!(hello[0].postings[0].count, hello[0].postings[1].count);
    let world = idx.query_terms("world");
    assert_eq!(world[0].postings.len(), 1);
    assert_eq!(world[0].postings[0].url, "http://a.test/");
    assert_eq!(search(&idx.as_inverted(), "hello world"), vec!["http://a.test/"]);
}

#[test]
fn page_cap_limits_results() {
    let mut c = Crawler::new("http://a.test/", CrawlConfig::new(Some(1), None, None)).unwrap();
    let (a, _) = dispatch(&mut c);
    assert!(matches!(c.next_action(), Action::Wait));
    c.complete(&a, Some(page("http://a.test/", "x", &["http://a.test/b", "http://a.test/c"])));
    assert!(matches!(c.next_action(), Action::Done));
    assert_eq!(c.into_results().len(), 1);
}

#[test]
fn depth_limit_stops_expansion() {
    let mut c = Crawler::new("http://a.test/", CrawlConfig::new(None, Some(0), None)).unwrap();
    let (a, _) = dispatch(&mut c);
    c.complete(&a, Some(page("http://a.test/", "x", &["http://a.test/b"])));
    assert!(matches!(c.next_action(), Action::Done));
    assert_eq!(c.into_results().len(), 1);
}

#[test]
fn failed_fetch_is_skipped_and_urls_not_revisited() {
    let mut c = Crawler::new("http://a.test/", CrawlConfig::new(None, None, None)).unwrap();
    let (a, _) = dispatch(&mut c);
    c.complete(&a, Some(page("http://a.test/", "x", &["http://a.test/b", "http://a.test/b", "http://a.test/"])));
    let (b, _) = dispatch(&mut c);
    assert_eq!(b, "http://a.test/b");
    assert!(c.complete(&b, None));
    assert!(matches!(c.next_action(), Action::Done));
    let results = c.into_results();
    assert_eq!(results.len(), 1);
    assert_eq!(results[0].url, "http://a.test/");
}

#[test]
fn concurrency_cap_and_unknown_completion() {
    let mut c = Crawler::new("http://a.test/", CrawlConfig::new(None, None, Some(1))).unwrap();
    let (a, _) = dispatch(&mut c);
    assert!(!c.complete(&"http://a.test/zzz".to_string(), None));
    c.complete(&a, Some(page("http://a.test/", "x", &["http://a.test/b", "http://a.test/c"])));
    let (b, _) = dispatch(&mut c);
    assert!(matches!(c.next_action(), Action::Wait));
    c.complete(&b, Some(page("http://a.test/b", "y", &[])));
    let (cc, _) = dispatch(&mut c);
    assert_eq!(cc, "http://a.test/c");
}

#[test]
fn extract_page_reads_title_body_and_same_site_links() {
    let html = "<html><head><title>  My Page </title></head><body> Hello <b>there</b>\n \
                <a href=\"/b#top\">b</a> <a href=\"http://other.test/\">o</a> \
                <a href=\"c.html\">c</a></body></html>";
    let p = extract_page("http://a.test/dir/", html).unwrap();
    assert_eq!(p.url, "http://a.test/dir/");
    assert_eq!(p.title, "My Page");
    assert_eq!(p.body_text, "Hello there\n b o c");
    assert_eq!(p.links, vec!["http://a.test/b", "http://a.test/dir/c.html"]);
}

#[test]
fn extract_page_defaults_and_bad_url() {
    let p = extract_page("http://a.test/", "").unwrap();
    assert_eq!(p.title, "");
    assert!(p.links.is_empty());
    assert!(extract_page("::nope", "<title>x</title>").is_none());
}

#[test]
fn normalize_resolves_and_strips_fragment() {
    assert_eq!(normalize_url("http://a.test/x/y", "../z#frag").unwrap(), "http://a.test/z");
    assert_eq!(normalize_url("http://a.test/", "http://b.test/p?q=1#f").unwrap(), "http://b.test/p?q=1");
    assert!(normalize_url("not a base", "x").is_none());
}

#[test]
fn same_domain_compares_hosts() {
    assert!(same_domain("http://a.test/x", "https://a.test/y"));
    assert!(!same_domain("http://a.test/", "http://sub.a.test/"));
}

#[test]
fn fragment_and_trim_helpers() {
    assert_eq!(normalize_url("http://a.test/", "p#s#t").unwrap(), "http://a.test/p");
    assert_eq!(trim("  \t a b \n"), "a b");
    assert_eq!(trim("   "), "");
}

#[test]
fn ordering_helpers() {
    assert!(str_less(&"abc".to_string(), &"abd".to_string()));
    assert!(str_less(&"ab".to_string(), &"abc".to_string()));
    assert!(!str_less(&"b".to_string(), &"abc".to_string()));
    assert!(!str_less(&"a".to_string(), &"a".to_string()));
    let mut v: Vec<String> = Vec::new();
    for s in ["m", "a", "z", "a"] {
        insert_sorted(&mut v, s.to_string());
    }
    assert_eq!(v, vec!["a", "m", "z"]);
}

#[test]
fn rank_desc_orders_by_key_then_url() {
    let v = vec![
        Scored { url: "http://a.test/c".to_string(), key: 5 },
        Scored { url: "http://a.test/b".to_string(), key: 9 },
        Scored { url: "http://a.test/a".to_string(), key: 5 },
        Scored { url: "http://a.test/d".to_string(), key: 1 },
    ];
    let r = rank_desc(&v);
    let got: Vec<(&str, u64)> = r.iter().map(|s| (s.url.as_str(), s.key)).collect();
    assert_eq!(
        got,
        vec![("http://a.test/b", 9), ("http://a.test/a", 5), ("http://a.test/c", 5), ("http://a.test/d", 1)]
    );
    assert!(rank_desc(&Vec::new()).is_empty());
}

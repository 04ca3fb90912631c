//! What a crawl keeps of a fetched page: its title, its body text, and its
//! links to the same site.

use vstd::prelude::*;

use crate::crawler::{host_of, opt_view, url_host, CrawlResult};
use crate::tokenize::{chars_of, is_space, string_of, views};

verus! {

/// The text of the first `title` element of the document, if it has one.
pub uninterp spec fn title_text_of(html: Seq<char>) -> Option<Seq<char>>;

/// The text of the first `body` element of the document, if it has one.
pub uninterp spec fn body_text_of(html: Seq<char>) -> Option<Seq<char>>;

/// The `href` values of the document's `a` elements, in document order.
pub uninterp spec fn hrefs_of(html: Seq<char>) -> Seq<Seq<char>>;

/// The absolute url that `href` resolves to against `base`, without its
/// fragment, if both parse.
pub uninterp spec fn resolved_url(base: Seq<char>, href: Seq<char>) -> Option<Seq<char>>;

/// Relies on `scraper::Html::parse_document`, `Selector::parse` and
/// `ElementRef::text`: the text of the first element that the selector
/// `title` matches.
#[verifier::external_body]
fn html_title(html: &str) -> (r: Option<String>)
    ensures
        opt_view(r) == title_text_of(html@),
{
    let doc = scraper::Html::parse_document(html);
    let sel = scraper::Selector::parse("title").unwrap();
    doc.select(&sel).next().map(|el| el.text().collect::<String>())
}

/// Relies on `scraper::Html::parse_document`, `Selector::parse` and
/// `ElementRef::text`: the text of the first element that the selector
/// `body` matches.
#[verifier::external_body]
fn html_body(html: &str) -> (r: Option<String>)
    ensures
        opt_view(r) == body_text_of(html@),
{
    let doc = scraper::Html::parse_document(html);
    let sel = scraper::Selector::parse("body").unwrap();
    doc.select(&sel).next().map(|el| el.text().collect::<String>())
}

/// Relies on `scraper::Html::parse_document`, `Selector::parse` and
/// `ElementRef::attr`: the `href` of each element that `a[href]` matches.
#[verifier::external_body]
fn html_hrefs(html: &str) -> (r: Vec<String>)
    ensures
        views(r@) == hrefs_of(html@),
{
    let doc = scraper::Html::parse_document(html);
    let sel = scraper::Selector::parse("a[href]").unwrap();
    doc.select(&sel).filter_map(|el| el.attr("href")).map(|h| h.to_string()).collect()
}

/// Relies on `url::Url::parse`, `url::Url::join` and
/// `url::Url::set_fragment`: `href` resolved against `base`, its fragment
/// removed, serialized.
#[verifier::external_body]
fn url_resolve(base: &str, href: &str) -> (r: Option<String>)
    ensures
        opt_view(r) == resolved_url(base@, href@),
{
    match url::Url::parse(base) {
        Ok(b) => match b.join(href) {
            Ok(mut u) => {
                u.set_fragment(None);
                Some(u.to_string())
            },
            Err(_) => None,
        },
        Err(_) => None,
    }
}

/// `s` without its leading white space.
pub open spec fn trim_space_start(s: Seq<char>) -> Seq<char>
    decreases s.len(),
{
    if s.len() > 0 && is_space(s[0]) {
        trim_space_start(s.drop_first())
    } else {
        s
    }
}

/// `s` without its trailing white space.
pub open spec fn trim_space_end(s: Seq<char>) -> Seq<char>
    decreases s.len(),
{
    if s.len() > 0 && is_space(s.last()) {
        trim_space_end(s.drop_last())
    } else {
        s
    }
}

pub open spec fn trim_spaces(s: Seq<char>) -> Seq<char> {
    trim_space_end(trim_space_start(s))
}

/// The links of a page at `base` with these `href`s: each resolved against
/// `base` without its fragment, kept when it is on `base`'s host.
pub open spec fn page_links(base: Seq<char>, hrefs: Seq<Seq<char>>) -> Seq<Seq<char>>
    decreases hrefs.len(),
{
    if hrefs.len() == 0 {
        seq![]
    } else {
        let r = page_links(base, hrefs.drop_last());
        match resolved_url(base, hrefs.last()) {
            Some(j) => if host_of(j) == host_of(base) {
                r.push(j)
            } else {
                r
            },
            None => r,
        }
    }
}

/// `s` without leading and trailing white space.
pub fn trim(s: &str) -> (r: String)
    ensures
        r@ == trim_spaces(s@),
{
    let cs = chars_of(s);
    let n = cs.len();
    let mut lo: usize = 0;
    assert(cs@.subrange(0, n as int) =~= s@);
    while lo < n && char_is_space_at(&cs, lo)
        invariant
            lo <= n == cs@.len(),
            cs@ == s@,
            trim_space_start(s@) == trim_space_start(cs@.subrange(lo as int, n as int)),
        decreases n - lo,
    {
        assert(cs@.subrange(lo as int, n as int).drop_first() =~= cs@.subrange(lo + 1, n as int));
        lo += 1;
    }
    assert(trim_space_start(s@) == cs@.subrange(lo as int, n as int));
    let mut hi: usize = n;
    while hi > lo && char_is_space_at(&cs, hi - 1)
        invariant
            lo <= hi <= n == cs@.len(),
            trim_spaces(s@) == trim_space_end(cs@.subrange(lo as int, hi as int)),
        decreases hi - lo,
    {
        assert(cs@.subrange(lo as int, hi as int).drop_last() =~= cs@.subrange(lo as int, hi - 1));
        hi -= 1;
    }
    assert(trim_spaces(s@) == cs@.subrange(lo as int, hi as int));
    let mut out: Vec<char> = Vec::new();
    let mut j: usize = lo;
    while j < hi
        invariant
            lo <= j <= hi <= cs@.len(),
            out@ == cs@.subrange(lo as int, j as int),
        decreases hi - j,
    {
        out.push(cs[j]);
        assert(out@ =~= cs@.subrange(lo as int, j + 1));
        j += 1;
    }
    string_of(&out)
}

fn char_is_space_at(cs: &Vec<char>, i: usize) -> (r: bool)
    requires
        i < cs@.len(),
    ensures
        r == is_space(cs@[i as int]),
{
    crate::tokenize::char_is_space(cs[i])
}

/// Resolves `href` against `base` and strips the fragment; `None` where it
/// does not resolve.
pub fn normalize_url(base: &str, href: &str) -> (r: Option<String>)
    ensures
        opt_view(r) == resolved_url(base@, href@),
{
    url_resolve(base, href)
}

/// Whether two urls are on the same host.
pub fn same_domain(a: &str, b: &str) -> (r: bool)
    ensures
        r == (host_of(a@) == host_of(b@)),
{
    let ha = url_host(a);
    let hb = url_host(b);
    match (ha, hb) {
        (None, None) => true,
        (Some(x), Some(y)) => match (x, y) {
            (None, None) => true,
            (Some(p), Some(q)) => p == q,
            _ => false,
        },
        _ => false,
    }
}

/// The page fetched from `url` with this HTML: its trimmed title and body
/// text (empty where the element is missing) and its same-site links.
/// `None` where `url` does not parse.
pub fn extract_page(url: &str, html: &str) -> (r: Option<CrawlResult>)
    ensures
        r is None <==> host_of(url@).is_none(),
        r matches Some(p) ==> {
            &&& p.url@ == url@
            &&& p.title@ == trim_spaces(
                match title_text_of(html@) {
                    Some(t) => t,
                    None => seq![],
                },
            )
            &&& p.body_text@ == trim_spaces(
                match body_text_of(html@) {
                    Some(t) => t,
                    None => seq![],
                },
            )
            &&& views(p.links@) == page_links(url@, hrefs_of(html@))
        },
{
    if url_host(url).is_none() {
        return None;
    }
    let title = match html_title(html) {
        Some(t) => trim(t.as_str()),
        None => String::new(),
    };
    let body_text = match html_body(html) {
        Some(t) => trim(t.as_str()),
        None => String::new(),
    };
    proof {
        if title_text_of(html@).is_none() {
            assert(trim_spaces(seq![]) == Seq::<char>::empty());
        }
    }
    let hrefs = html_hrefs(html);
    let mut links: Vec<String> = Vec::new();
    let mut i: usize = 0;
    assert(views(hrefs@).take(0) =~= Seq::<Seq<char>>::empty());
    while i < hrefs.len()
        invariant
            i <= hrefs@.len(),
            views(links@) == page_links(url@, views(hrefs@).take(i as int)),
        decreases hrefs.len() - i,
    {
        let ghost prev = views(links@);
        proof {
            assert(views(hrefs@).take(i + 1).drop_last() =~= views(hrefs@).take(i as int));
            assert(views(hrefs@).take(i + 1).last() == hrefs@[i as int]@);
        }
        match normalize_url(url, hrefs[i].as_str()) {
            Some(abs) => {
                if same_domain(url, abs.as_str()) {
                    links.push(abs);
                    assert(views(links@) =~= prev.push(abs@));
                }
            },
            None => {},
        }
        i += 1;
    }
    assert(views(hrefs@).take(hrefs@.len() as int) =~= views(hrefs@));
    Some(CrawlResult { url: url.to_string(), title, body_text, links })
}

} // verus!

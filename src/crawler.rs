//! The crawl: a breadth-first walk over one site, driven as a state machine.
//!
//! The machine owns the frontier, the visited set and the results; whoever
//! runs it performs each `Dispatch` (a fetch) and reports each finished fetch
//! back through `complete`.

use vstd::prelude::*;

use crate::index::contains_str;
use crate::tokenize::views;

verus! {

/// Pages fetched at most, by default.
pub const MAX_PAGES: usize = 50;

/// Link hops from the seed at most, by default.
pub const MAX_DEPTH: u32 = 3;

/// Fetches in flight at once at most, by default.
pub const MAX_CONCURRENT: usize = 5;

/// What was fetched and extracted from one page.
#[derive(Debug, Clone)]
pub struct CrawlResult {
    pub url: String,
    pub title: String,
    pub body_text: String,
    pub links: Vec<String>,
}

/// The limits of one crawl.
#[derive(Debug, Clone, Copy, PartialEq, Eq)]
pub struct CrawlConfig {
    pub max_pages: usize,
    pub max_depth: u32,
    pub max_concurrent: usize,
}

/// A url waiting to be fetched, with its number of link hops from the seed.
#[derive(Debug, Clone)]
pub struct FrontierEntry {
    pub url: String,
    pub depth: u32,
}

/// What the crawl asks of its runner next.
#[derive(Debug, Clone)]
pub enum Action {
    /// Fetch this url; report the outcome through `complete`.
    Dispatch { url: String, depth: u32 },
    /// Wait for one fetch in flight to finish.
    Wait,
    /// The crawl is over.
    Done,
}

/// Errors that end a crawl before it starts.
#[derive(Debug, Clone, Copy, PartialEq, Eq)]
pub enum CrawlError {
    /// The seed url does not parse.
    UrlParse,
}

/// The host of the url that `s` parses to: `None` where it does not parse,
/// `Some(None)` where it parses but has no host.
pub uninterp spec fn host_of(s: Seq<char>) -> Option<Option<Seq<char>>>;

/// The characters of an optional string.
pub open spec fn opt_view(o: Option<String>) -> Option<Seq<char>> {
    match o {
        Some(h) => Some(h@),
        None => None,
    }
}

/// Relies on `url::Url::parse` and `url::Url::host_str`: the host of the
/// parsed url, if it parses.
#[verifier::external_body]
pub(crate) fn url_host(s: &str) -> (r: Option<Option<String>>)
    ensures
        match r {
            Some(h) => host_of(s@) == Some(opt_view(h)),
            None => host_of(s@).is_none(),
        },
{
    match url::Url::parse(s) {
        Ok(u) => Some(u.host_str().map(|h| h.to_string())),
        Err(_) => None,
    }
}

impl CrawlConfig {
    /// The limits given, each missing one at its default.
    pub fn new(max_pages: Option<usize>, max_depth: Option<u32>, max_concurrent: Option<usize>) -> (r:
        Self)
        ensures
            r.max_pages == match max_pages {
                Some(n) => n,
                None => MAX_PAGES,
            },
            r.max_depth == match max_depth {
                Some(d) => d,
                None => MAX_DEPTH,
            },
            r.max_concurrent == match max_concurrent {
                Some(c) => c,
                None => MAX_CONCURRENT,
            },
    {
        CrawlConfig {
            max_pages: match max_pages {
                Some(n) => n,
                None => MAX_PAGES,
            },
            max_depth: match max_depth {
                Some(d) => d,
                None => MAX_DEPTH,
            },
            max_concurrent: match max_concurrent {
                Some(c) => c,
                None => MAX_CONCURRENT,
            },
        }
    }
}

/// No two elements are equal.
pub open spec fn distinct(s: Seq<Seq<char>>) -> bool {
    forall|i: int, j: int| 0 <= i < j < s.len() ==> s[i] != s[j]
}

pub open spec fn result_urls(rs: Seq<CrawlResult>) -> Seq<Seq<char>> {
    rs.map_values(|r: CrawlResult| r.url@)
}

pub open spec fn entry_urls(es: Seq<FrontierEntry>) -> Seq<Seq<char>> {
    es.map_values(|e: FrontierEntry| e.url@)
}

/// The state of one crawl.
pub struct Crawler {
    pub config: CrawlConfig,
    /// The host of the seed url.
    pub seed_host: Option<String>,
    /// Entries not yet looked at are those from `head` on.
    pub frontier: Vec<FrontierEntry>,
    pub head: usize,
    /// Every url ever dispatched.
    pub visited: Vec<String>,
    /// Fetches dispatched and not yet reported.
    pub in_flight: Vec<FrontierEntry>,
    /// Pages fetched, in the order their fetches finished.
    pub results: Vec<CrawlResult>,
    /// The depth each result was dispatched at.
    pub result_depths: Vec<u32>,
}

impl Crawler {
    pub open spec fn wf(&self) -> bool {
        &&& self.head <= self.frontier@.len()
        &&& self.results@.len() == self.result_depths@.len()
        &&& self.results@.len() + self.in_flight@.len() <= self.config.max_pages
        &&& self.in_flight@.len() <= self.config.max_concurrent
        &&& distinct(result_urls(self.results@) + entry_urls(self.in_flight@))
        &&& forall|i: int|
            0 <= i < self.results@.len() ==> views(self.visited@).contains(
                (#[trigger] self.results@[i]).url@,
            )
        &&& forall|i: int|
            0 <= i < self.in_flight@.len() ==> views(self.visited@).contains(
                (#[trigger] self.in_flight@[i]).url@,
            )
        &&& forall|i: int|
            0 <= i < self.results@.len() ==> #[trigger] self.result_depths@[i]
                <= self.config.max_depth
        &&& forall|i: int|
            0 <= i < self.in_flight@.len() ==> (#[trigger] self.in_flight@[i]).depth
                <= self.config.max_depth
        &&& forall|i: int, j: int|
            0 <= i < self.results@.len() && 0 <= j < self.results@[i].links@.len() ==> host_of(
                (#[trigger] self.results@[i].links@[j])@,
            ) == Some(opt_view(self.seed_host))
    }

    /// A crawl of the site of `start_url`, with the seed alone in the frontier.
    pub fn new(start_url: &str, config: CrawlConfig) -> (r: Result<Crawler, CrawlError>)
        ensures
            host_of(start_url@).is_none() <==> r is Err,
            r matches Ok(c) ==> {
                &&& c.wf()
                &&& c.config == config
                &&& host_of(start_url@) == Some(opt_view(c.seed_host))
                &&& c.frontier@.len() == 1
                &&& c.frontier@[0].url@ == start_url@
                &&& c.frontier@[0].depth == 0
                &&& c.head == 0
                &&& c.visited@.len() == 0
                &&& c.in_flight@.len() == 0
                &&& c.results@.len() == 0
            },
    {
        let seed_host = match url_host(start_url) {
            Some(h) => h,
            None => return Err(CrawlError::UrlParse),
        };
        let mut frontier: Vec<FrontierEntry> = Vec::new();
        frontier.push(FrontierEntry { url: start_url.to_string(), depth: 0 });
        let c = Crawler {
            config,
            seed_host,
            frontier,
            head: 0,
            visited: Vec::new(),
            in_flight: Vec::new(),
            results: Vec::new(),
            result_depths: Vec::new(),
        };
        assert(result_urls(c.results@) + entry_urls(c.in_flight@) =~= Seq::<Seq<char>>::empty());
        Ok(c)
    }
}

impl Crawler {
    /// The frontier entry at `m` is not to be fetched: it is too deep, or its
    /// url was dispatched already.
    pub open spec fn skippable(&self, m: int) -> bool {
        self.frontier@[m].depth > self.config.max_depth || views(self.visited@).contains(
            self.frontier@[m].url@,
        )
    }

    /// The page cap and the concurrency cap leave room for one more fetch.
    pub open spec fn has_room(&self) -> bool {
        &&& self.in_flight@.len() < self.config.max_concurrent
        &&& self.results@.len() + self.in_flight@.len() < self.config.max_pages
    }

    /// The next step: dispatch the first frontier entry that is within the depth
    /// limit and not yet visited, while the page cap and the concurrency cap
    /// leave room; else wait for a fetch in flight; else stop.
    pub fn next_action(&mut self) -> (r: Action)
        requires
            old(self).wf(),
        ensures
            final(self).wf(),
            final(self).config == old(self).config,
            final(self).seed_host == old(self).seed_host,
            final(self).results == old(self).results,
            final(self).result_depths == old(self).result_depths,
            final(self).frontier == old(self).frontier,
            old(self).head <= final(self).head,
            match r {
                Action::Dispatch { url, depth } => {
                    &&& old(self).has_room()
                    &&& exists|k: int|
                        old(self).head <= k && k + 1 == final(self).head && k
                            < old(self).frontier@.len() && (#[trigger] old(self).frontier@[k]).url@
                            == url@ && old(self).frontier@[k].depth == depth && forall|m: int|
                            old(self).head <= m < k ==> #[trigger] old(self).skippable(m)
                    &&& depth <= old(self).config.max_depth
                    &&& !views(old(self).visited@).contains(url@)
                    &&& views(final(self).visited@) == views(old(self).visited@).push(url@)
                    &&& final(self).in_flight@.len() == old(self).in_flight@.len() + 1
                    &&& final(self).in_flight@.last().url@ == url@
                    &&& final(self).in_flight@.last().depth == depth
                    &&& final(self).in_flight@.drop_last() == old(self).in_flight@
                },
                Action::Wait => {
                    &&& final(self).visited == old(self).visited
                    &&& final(self).in_flight == old(self).in_flight
                    &&& final(self).in_flight@.len() > 0
                    &&& old(self).has_room() ==> final(self).head == final(self).frontier@.len()
                    &&& forall|m: int|
                        old(self).head <= m < final(self).head ==> #[trigger] old(self).skippable(m)
                },
                Action::Done => {
                    &&& final(self).visited == old(self).visited
                    &&& final(self).in_flight@.len() == 0
                    &&& old(self).has_room() ==> final(self).head == final(self).frontier@.len()
                    &&& forall|m: int|
                        old(self).head <= m < final(self).head ==> #[trigger] old(self).skippable(m)
                    &&& (final(self).head == final(self).frontier@.len() || final(self).results@.len()
                        >= final(self).config.max_pages || final(self).config.max_concurrent == 0)
                },
            },
    {
        if self.in_flight.len() >= self.config.max_concurrent {
            if self.in_flight.len() > 0 {
                return Action::Wait;
            } else {
                return Action::Done;
            }
        }
        while self.results.len() + self.in_flight.len() < self.config.max_pages && self.head
            < self.frontier.len()
            invariant
                self.wf(),
                self.config == old(self).config,
                self.seed_host == old(self).seed_host,
                self.results == old(self).results,
                self.result_depths == old(self).result_depths,
                self.frontier == old(self).frontier,
                self.visited == old(self).visited,
                self.in_flight == old(self).in_flight,
                self.in_flight@.len() < self.config.max_concurrent,
                old(self).head <= self.head,
                forall|m: int| old(self).head <= m < self.head ==> #[trigger] old(self).skippable(m),
            decreases self.frontier@.len() - self.head,
        {
            let h = self.head;
            self.head = h + 1;
            let depth = self.frontier[h].depth;
            if depth <= self.config.max_depth && !contains_str(&self.visited, &self.frontier[h].url) {
                let url = self.frontier[h].url.clone();
                let ghost pre = *self;
                let ghost before = result_urls(self.results@) + entry_urls(self.in_flight@);
                self.visited.push(url.clone());
                self.in_flight.push(FrontierEntry { url: url.clone(), depth });
                proof {
                    assert(views(self.visited@) =~= views(pre.visited@).push(url@));
                    assert(self.in_flight@.drop_last() =~= pre.in_flight@);
                    let after = result_urls(self.results@) + entry_urls(self.in_flight@);
                    assert(after =~= before.push(url@));
                    assert forall|k: int| 0 <= k < before.len() implies before[k] != url@ by {
                        if k < self.results@.len() {
                            assert(before[k] == self.results@[k].url@);
                            assert(views(pre.visited@).contains(self.results@[k].url@));
                        } else {
                            let m = k - self.results@.len();
                            assert(before[k] == pre.in_flight@[m].url@);
                            assert(views(pre.visited@).contains(pre.in_flight@[m].url@));
                        }
                    }
                    assert forall|i: int| 0 <= i < self.results@.len() implies views(
                        self.visited@,
                    ).contains((#[trigger] self.results@[i]).url@) by {
                        let k = choose|k: int|
                            0 <= k < views(pre.visited@).len() && views(pre.visited@)[k]
                                == self.results@[i].url@;
                        assert(views(self.visited@)[k] == self.results@[i].url@);
                    }
                    assert forall|i: int| 0 <= i < self.in_flight@.len() implies views(
                        self.visited@,
                    ).contains((#[trigger] self.in_flight@[i]).url@) by {
                        if i < pre.in_flight@.len() {
                            assert(self.in_flight@[i] == pre.in_flight@[i]);
                            let k = choose|k: int|
                                0 <= k < views(pre.visited@).len() && views(pre.visited@)[k]
                                    == pre.in_flight@[i].url@;
                            assert(views(self.visited@)[k] == self.in_flight@[i].url@);
                        } else {
                            assert(views(self.visited@)[views(pre.visited@).len() as int] == url@);
                        }
                    }
                }
                assert(old(self).frontier@[h as int].url@ == url@);
                return Action::Dispatch { url, depth };
            }
        }
        if self.in_flight.len() > 0 {
            Action::Wait
        } else {
            Action::Done
        }
    }
}

/// The links of `ls` on the site with host `h`, in order.
pub open spec fn same_site_links(ls: Seq<Seq<char>>, h: Option<Seq<char>>) -> Seq<Seq<char>>
    decreases ls.len(),
{
    if ls.len() == 0 {
        seq![]
    } else {
        let r = same_site_links(ls.drop_last(), h);
        if host_of(ls.last()) == Some(h) {
            r.push(ls.last())
        } else {
            r
        }
    }
}

/// The links of `ls` that are not in `visited`, in order.
pub open spec fn unvisited(ls: Seq<Seq<char>>, visited: Seq<Seq<char>>) -> Seq<Seq<char>>
    decreases ls.len(),
{
    if ls.len() == 0 {
        seq![]
    } else {
        let r = unvisited(ls.drop_last(), visited);
        if visited.contains(ls.last()) {
            r
        } else {
            r.push(ls.last())
        }
    }
}

fn same_opt(a: &Option<String>, b: &Option<String>) -> (r: bool)
    ensures
        r == (opt_view(*a) == opt_view(*b)),
{
    match (a, b) {
        (Some(x), Some(y)) => *x == *y,
        (None, None) => true,
        _ => false,
    }
}

/// Position of the fetch in flight for `url`, if there is one.
fn find_in_flight(es: &Vec<FrontierEntry>, url: &String) -> (r: Option<usize>)
    ensures
        match r {
            Some(i) => i < es@.len() && es@[i as int].url@ == url@,
            None => !entry_urls(es@).contains(url@),
        },
{
    let mut i: usize = 0;
    while i < es.len()
        invariant
            i <= es@.len(),
            forall|k: int| 0 <= k < i ==> es@[k].url@ != url@,
        decreases es.len() - i,
    {
        if es[i].url == *url {
            return Some(i);
        }
        i += 1;
    }
    assert forall|k: int| 0 <= k < entry_urls(es@).len() implies entry_urls(es@)[k] != url@ by {
        assert(entry_urls(es@)[k] == es@[k].url@);
    }
    None
}

impl Crawler {
    /// Takes in the outcome of the fetch of `url`. A fetch that is not in
    /// flight is ignored (the result is `false`). A failed fetch (`None`) is
    /// dropped. A page is appended to the results, with its links cut down to
    /// those on the seed's host; those of them not yet visited join the
    /// frontier one hop deeper, while that stays within the depth limit.
    pub fn complete(&mut self, url: &String, outcome: Option<CrawlResult>) -> (accepted: bool)
        requires
            old(self).wf(),
        ensures
            final(self).wf(),
            accepted == entry_urls(old(self).in_flight@).contains(url@),
            final(self).config == old(self).config,
            final(self).seed_host == old(self).seed_host,
            final(self).visited == old(self).visited,
            final(self).head == old(self).head,
            !accepted ==> final(self).results == old(self).results && final(self).in_flight
                == old(self).in_flight && final(self).frontier == old(self).frontier,
            accepted ==> !entry_urls(final(self).in_flight@).contains(url@)
                && final(self).in_flight@.len() == old(self).in_flight@.len() - 1,
            accepted && outcome is None ==> final(self).results == old(self).results
                && final(self).frontier == old(self).frontier,
            accepted && outcome is Some ==> ({
                let page = outcome->0;
                let depth = final(self).result_depths@.last();
                let kept = same_site_links(views(page.links@), opt_view(old(self).seed_host));
                &&& final(self).results@.drop_last() == old(self).results@
                &&& final(self).results@.last().url@ == url@
                &&& final(self).results@.last().title == page.title
                &&& final(self).results@.last().body_text == page.body_text
                &&& views(final(self).results@.last().links@) == kept
                &&& final(self).result_depths@.drop_last() == old(self).result_depths@
                &&& final(self).frontier@.subrange(0, old(self).frontier@.len() as int)
                    == old(self).frontier@
                &&& entry_urls(final(self).frontier@).subrange(
                    old(self).frontier@.len() as int,
                    final(self).frontier@.len() as int,
                ) == if depth < old(self).config.max_depth {
                    unvisited(kept, views(old(self).visited@))
                } else {
                    seq![]
                }
                &&& forall|k: int|
                    old(self).frontier@.len() <= k < final(self).frontier@.len()
                        ==> #[trigger] final(self).frontier@[k].depth == depth + 1
            }),
    {
        let pos = match find_in_flight(&self.in_flight, url) {
            Some(p) => p,
            None => return false,
        };
        let ghost pre = *self;
        let entry = self.in_flight.remove(pos);
        let ghost r0 = result_urls(pre.results@);
        let ghost f0 = entry_urls(pre.in_flight@);
        proof {
            assert(r0 + f0 == result_urls(pre.results@) + entry_urls(pre.in_flight@));
            assert(entry_urls(self.in_flight@) =~= f0.remove(pos as int));
            assert(f0[pos as int] == url@);
            assert forall|k: int| 0 <= k < entry_urls(self.in_flight@).len() implies entry_urls(
                self.in_flight@,
            )[k] != url@ by {
                let a = r0.len() + pos;
                let b = if k < pos {
                    r0.len() + k
                } else {
                    r0.len() + k + 1
                };
                assert((r0 + f0)[a] == url@);
                assert((r0 + f0)[b] == entry_urls(self.in_flight@)[k]);
            }
            assert forall|i: int| 0 <= i < self.in_flight@.len() implies views(
                self.visited@,
            ).contains((#[trigger] self.in_flight@[i]).url@) by {
                if i < pos {
                    assert(self.in_flight@[i] == pre.in_flight@[i]);
                } else {
                    assert(self.in_flight@[i] == pre.in_flight@[i + 1]);
                }
            }
            assert(distinct(result_urls(self.results@) + entry_urls(self.in_flight@))) by {
                let s = result_urls(self.results@) + entry_urls(self.in_flight@);
                assert forall|i: int, j: int| 0 <= i < j < s.len() implies s[i] != s[j] by {
                    let fi = if i < r0.len() {
                        i
                    } else if i - r0.len() < pos {
                        i
                    } else {
                        i + 1
                    };
                    let fj = if j < r0.len() {
                        j
                    } else if j - r0.len() < pos {
                        j
                    } else {
                        j + 1
                    };
                    assert(s[i] == (r0 + f0)[fi]);
                    assert(s[j] == (r0 + f0)[fj]);
                }
            }
        }
        let page = match outcome {
            Some(p) => p,
            None => return true,
        };
        let ghost seed = opt_view(self.seed_host);
        let mut kept: Vec<String> = Vec::new();
        let mut j: usize = 0;
        assert(views(page.links@).take(0) =~= Seq::<Seq<char>>::empty());
        while j < page.links.len()
            invariant
                j <= page.links@.len(),
                seed == opt_view(self.seed_host),
                views(kept@) == same_site_links(views(page.links@).take(j as int), seed),
                forall|k: int| 0 <= k < kept@.len() ==> host_of((#[trigger] kept@[k])@) == Some(seed),
            decreases page.links@.len() - j,
        {
            let link = &page.links[j];
            let ghost prev = views(kept@);
            proof {
                assert(views(page.links@).take(j + 1).drop_last() =~= views(page.links@).take(
                    j as int,
                ));
                assert(views(page.links@).take(j + 1).last() == link@);
            }
            let keep = match url_host(link.as_str()) {
                Some(h) => same_opt(&h, &self.seed_host),
                None => false,
            };
            if keep {
                kept.push(link.clone());
                assert(views(kept@) =~= prev.push(link@));
            }
            j += 1;
        }
        assert(views(page.links@).take(page.links@.len() as int) =~= views(page.links@));
        let ghost fr0 = self.frontier@;
        let ghost fl1 = self.in_flight@;
        if entry.depth < self.config.max_depth {
            let next: u32 = entry.depth + 1;
            let mut m: usize = 0;
            assert(views(kept@).take(0) =~= Seq::<Seq<char>>::empty());
            assert(entry_urls(self.frontier@).subrange(fr0.len() as int, fr0.len() as int)
                =~= Seq::<Seq<char>>::empty());
            while m < kept.len()
                invariant
                    m <= kept@.len(),
                    self.wf(),
                    self.head <= fr0.len() <= self.frontier@.len(),
                    self.frontier@.subrange(0, fr0.len() as int) == fr0,
                    self.visited == pre.visited,
                    self.results == pre.results,
                    self.result_depths == pre.result_depths,
                    self.config == pre.config,
                    self.seed_host == pre.seed_host,
                    self.head == pre.head,
                    self.in_flight@ == fl1,
                    entry_urls(self.frontier@).subrange(
                        fr0.len() as int,
                        self.frontier@.len() as int,
                    ) == unvisited(views(kept@).take(m as int), views(pre.visited@)),
                    forall|k: int|
                        fr0.len() <= k < self.frontier@.len() ==> #[trigger] self.frontier@[k].depth
                            == next,
                decreases kept@.len() - m,
            {
                let ghost prev = entry_urls(self.frontier@).subrange(
                    fr0.len() as int,
                    self.frontier@.len() as int,
                );
                proof {
                    assert(views(kept@).take(m + 1).drop_last() =~= views(kept@).take(m as int));
                    assert(views(kept@).take(m + 1).last() == kept@[m as int]@);
                }
                if !contains_str(&self.visited, &kept[m]) {
                    let ghost f1 = self.frontier@;
                    self.frontier.push(FrontierEntry { url: kept[m].clone(), depth: next });
                    assert(self.frontier@.subrange(0, fr0.len() as int) =~= f1.subrange(
                        0,
                        fr0.len() as int,
                    ));
                    assert(entry_urls(self.frontier@).subrange(
                        fr0.len() as int,
                        self.frontier@.len() as int,
                    ) =~= prev.push(kept@[m as int]@));
                }
                m += 1;
            }
            assert(views(kept@).take(kept@.len() as int) =~= views(kept@));
        } else {
            assert(entry_urls(self.frontier@).subrange(fr0.len() as int, fr0.len() as int)
                =~= Seq::<Seq<char>>::empty());
        }
        let ghost mid = *self;
        self.results.push(
            CrawlResult {
                url: entry.url,
                title: page.title,
                body_text: page.body_text,
                links: kept,
            },
        );
        self.result_depths.push(entry.depth);
        proof {
            let s = result_urls(self.results@) + entry_urls(self.in_flight@);
            let s0 = result_urls(mid.results@) + entry_urls(mid.in_flight@);
            assert(self.results@.drop_last() =~= mid.results@);
            assert(self.result_depths@.drop_last() =~= mid.result_depths@);
            let n = mid.results@.len() as int;
            assert forall|k: int| 0 <= k < s.len() && k != n implies s[k] != url@ by {
                if k < n {
                    assert(s[k] == (r0 + f0)[k]);
                    assert((r0 + f0)[r0.len() + pos] == url@);
                } else {
                    assert(s[k] == entry_urls(self.in_flight@)[k - n - 1]);
                }
            }
            assert(s[n] == url@);
            assert forall|i: int, j: int| 0 <= i < j < s.len() implies s[i] != s[j] by {
                if i < n {
                    assert(s[i] == s0[i]);
                } else if i > n {
                    assert(s[i] == s0[i - 1]);
                }
                if j < n {
                    assert(s[j] == s0[j]);
                } else if j > n {
                    assert(s[j] == s0[j - 1]);
                }
            }
            assert forall|i: int| 0 <= i < self.results@.len() implies views(
                self.visited@,
            ).contains((#[trigger] self.results@[i]).url@) by {
                if i < mid.results@.len() {
                    assert(self.results@[i] == mid.results@[i]);
                } else {
                    assert(pre.in_flight@[pos as int] == entry);
                }
            }
            assert forall|i: int| 0 <= i < self.results@.len() implies #[trigger] self.result_depths@[i]
                <= self.config.max_depth by {
                if i < mid.results@.len() {
                    assert(self.result_depths@[i] == mid.result_depths@[i]);
                } else {
                    assert(pre.in_flight@[pos as int] == entry);
                    assert(self.result_depths@[i] == entry.depth);
                    assert(pre.in_flight@[pos as int].depth <= pre.config.max_depth);
                }
            }
            assert forall|i: int, j: int|
                0 <= i < self.results@.len() && 0 <= j < self.results@[i].links@.len() implies host_of(
                (#[trigger] self.results@[i].links@[j])@,
            ) == Some(opt_view(self.seed_host)) by {
                if i < mid.results@.len() {
                    assert(self.results@[i] == mid.results@[i]);
                }
            }
        }
        true
    }

    /// The pages fetched, in the order their fetches finished.
    pub fn into_results(self) -> (r: Vec<CrawlResult>)
        requires
            self.wf(),
        ensures
            r@ == self.results@,
            r@.len() <= self.config.max_pages,
            distinct(result_urls(r@)),
            forall|i: int, j: int|
                0 <= i < r@.len() && 0 <= j < r@[i].links@.len() ==> host_of(
                    (#[trigger] r@[i].links@[j])@,
                ) == Some(opt_view(self.seed_host)),
    {
        proof {
            let s = result_urls(self.results@) + entry_urls(self.in_flight@);
            assert forall|i: int, j: int|
                0 <= i < j < result_urls(self.results@).len() implies result_urls(
                self.results@,
            )[i] != result_urls(self.results@)[j] by {
                assert(s[i] == result_urls(self.results@)[i]);
                assert(s[j] == result_urls(self.results@)[j]);
            }
        }
        self.results
    }
}

/// Whatever steps a crawl has taken, it holds at most `max_pages` results,
/// each dispatched within the depth limit, no url twice, and every link of
/// every result on the seed's host.
pub proof fn lemma_crawl_state_bounds(c: Crawler)
    requires
        c.wf(),
    ensures
        c.results@.len() <= c.config.max_pages,
        forall|i: int| 0 <= i < c.results@.len() ==> #[trigger] c.result_depths@[i] <= c.config.max_depth,
        distinct(result_urls(c.results@)),
        forall|i: int, j: int|
            0 <= i < c.results@.len() && 0 <= j < c.results@[i].links@.len() ==> host_of(
                (#[trigger] c.results@[i].links@[j])@,
            ) == Some(opt_view(c.seed_host)),
{
    let s = result_urls(c.results@) + entry_urls(c.in_flight@);
    assert forall|i: int, j: int|
        0 <= i < j < result_urls(c.results@).len() implies result_urls(c.results@)[i]
        != result_urls(c.results@)[j] by {
        assert(s[i] == result_urls(c.results@)[i]);
        assert(s[j] == result_urls(c.results@)[j]);
    }
}

} // verus!

//! The term-frequency index, its simple inverted view, and search over it.

use vstd::prelude::*;

use crate::crawler::CrawlResult;
use crate::order::{insert_sorted, sorted_strictly};
use crate::tokenize::{lemma_tokens_len, tokenize, tokens_of, views, words_of};

verus! {

/// How many times one term occurs in one document.
#[derive(Debug, Clone)]
pub struct Posting {
    pub url: String,
    pub count: u32,
}

/// A term and the documents it occurs in.
#[derive(Debug, Clone)]
pub struct TermPostings {
    pub term: String,
    pub postings: Vec<Posting>,
}

/// Index with term frequency per document, for ranked search.
#[derive(Debug, Clone)]
pub struct IndexWithTf {
    /// term -> url -> term count in that document
    pub term_tf: Vec<TermPostings>,
    /// Total number of documents
    pub doc_count: usize,
}

/// The url -> count map that a list of postings stands for.
pub open spec fn postings_map(ps: Seq<Posting>) -> Map<Seq<char>, nat>
    decreases ps.len(),
{
    if ps.len() == 0 {
        Map::empty()
    } else {
        postings_map(ps.drop_last()).insert(ps.last().url@, ps.last().count as nat)
    }
}

/// The term -> url -> count map that a list of term entries stands for.
pub open spec fn terms_map(ts: Seq<TermPostings>) -> Map<Seq<char>, Map<Seq<char>, nat>>
    decreases ts.len(),
{
    if ts.len() == 0 {
        Map::empty()
    } else {
        terms_map(ts.drop_last()).insert(ts.last().term@, postings_map(ts.last().postings@))
    }
}

pub open spec fn urls_unique(ps: Seq<Posting>) -> bool {
    forall|i: int, j: int| 0 <= i < j < ps.len() ==> ps[i].url@ != ps[j].url@
}

pub open spec fn terms_unique(ts: Seq<TermPostings>) -> bool {
    forall|i: int, j: int| 0 <= i < j < ts.len() ==> ts[i].term@ != ts[j].term@
}

/// Number of times `w` occurs in `toks`.
pub open spec fn count_in(toks: Seq<Seq<char>>, w: Seq<char>) -> nat
    decreases toks.len(),
{
    if toks.len() == 0 {
        0
    } else {
        count_in(toks.drop_last(), w) + if toks.last() == w {
            1nat
        } else {
            0nat
        }
    }
}

/// Number of times the token `w` occurs in the bodies of the documents with url `u`.
pub open spec fn occurrences(docs: Seq<CrawlResult>, w: Seq<char>, u: Seq<char>) -> nat
    decreases docs.len(),
{
    if docs.len() == 0 {
        0
    } else {
        occurrences(docs.drop_last(), w, u) + if docs.last().url@ == u {
            count_in(tokens_of(docs.last().body_text@), w)
        } else {
            0nat
        }
    }
}

/// Total number of characters in the bodies of the documents.
pub open spec fn total_chars(docs: Seq<CrawlResult>) -> nat
    decreases docs.len(),
{
    if docs.len() == 0 {
        0
    } else {
        total_chars(docs.drop_last()) + docs.last().body_text@.len()
    }
}

impl View for IndexWithTf {
    type V = Map<Seq<char>, Map<Seq<char>, nat>>;

    open spec fn view(&self) -> Map<Seq<char>, Map<Seq<char>, nat>> {
        terms_map(self.term_tf@)
    }
}

impl IndexWithTf {
    /// Terms are listed once, and within a term each url once.
    pub open spec fn wf(&self) -> bool {
        &&& terms_unique(self.term_tf@)
        &&& forall|i: int|
            0 <= i < self.term_tf@.len() ==> urls_unique(#[trigger] self.term_tf@[i].postings@)
    }

    /// Whether document `u` is listed under term `w`.
    pub open spec fn has(&self, w: Seq<char>, u: Seq<char>) -> bool {
        self@.contains_key(w) && self@[w].contains_key(u)
    }

    /// Every term lists at least one document.
    pub open spec fn keys_have_urls(&self) -> bool {
        forall|w: Seq<char>| #[trigger] self@.contains_key(w) ==> exists|u: Seq<char>| self.has(w, u)
    }

    /// The count of term `w` in document `u`, zero where none is listed.
    pub open spec fn tf(&self, w: Seq<char>, u: Seq<char>) -> nat {
        if self.has(w, u) {
            self@[w][u]
        } else {
            0
        }
    }
}

proof fn lemma_postings_map(ps: Seq<Posting>)
    requires
        urls_unique(ps),
    ensures
        forall|u: Seq<char>|
            postings_map(ps).contains_key(u) <==> exists|i: int|
                0 <= i < ps.len() && (#[trigger] ps[i]).url@ == u,
        forall|i: int| 0 <= i < ps.len() ==> postings_map(ps)[(#[trigger] ps[i]).url@] == ps[i].count,
    decreases ps.len(),
{
    if ps.len() > 0 {
        let d = ps.drop_last();
        lemma_postings_map(d);
        assert forall|i: int| 0 <= i < ps.len() implies postings_map(ps)[(#[trigger] ps[i]).url@]
            == ps[i].count by {
            if i < ps.len() - 1 {
                assert(d[i] == ps[i]);
            }
        }
        assert forall|u: Seq<char>|
            postings_map(ps).contains_key(u) <==> exists|i: int|
                0 <= i < ps.len() && (#[trigger] ps[i]).url@ == u by {
            if postings_map(ps).contains_key(u) && u != ps.last().url@ {
                assert(postings_map(d).contains_key(u));
                let i = choose|i: int| 0 <= i < d.len() && (#[trigger] d[i]).url@ == u;
                assert(ps[i] == d[i]);
            }
            if postings_map(ps).contains_key(u) && u == ps.last().url@ {
                assert(ps[ps.len() - 1] == ps.last());
            }
            if exists|i: int| 0 <= i < ps.len() && (#[trigger] ps[i]).url@ == u {
                let i = choose|i: int| 0 <= i < ps.len() && (#[trigger] ps[i]).url@ == u;
                if i < ps.len() - 1 {
                    assert(d[i] == ps[i]);
                }
            }
        }
    }
}

proof fn lemma_postings_update(ps: Seq<Posting>, j: int, p: Posting)
    requires
        urls_unique(ps),
        0 <= j < ps.len(),
        p.url@ == ps[j].url@,
    ensures
        postings_map(ps.update(j, p)) == postings_map(ps).insert(p.url@, p.count as nat),
        urls_unique(ps.update(j, p)),
    decreases ps.len(),
{
    let q = ps.update(j, p);
    if j == ps.len() - 1 {
        assert(q.drop_last() =~= ps.drop_last());
    } else {
        assert(q.drop_last() =~= ps.drop_last().update(j, p));
        lemma_postings_update(ps.drop_last(), j, p);
        assert(ps.last().url@ != p.url@);
    }
    assert(postings_map(q) =~= postings_map(ps).insert(p.url@, p.count as nat));
}

proof fn lemma_terms_map(ts: Seq<TermPostings>)
    requires
        terms_unique(ts),
    ensures
        forall|w: Seq<char>|
            terms_map(ts).contains_key(w) <==> exists|i: int|
                0 <= i < ts.len() && (#[trigger] ts[i]).term@ == w,
        forall|i: int|
            0 <= i < ts.len() ==> terms_map(ts)[(#[trigger] ts[i]).term@] == postings_map(
                ts[i].postings@,
            ),
    decreases ts.len(),
{
    if ts.len() > 0 {
        let d = ts.drop_last();
        lemma_terms_map(d);
        assert forall|i: int| 0 <= i < ts.len() implies terms_map(ts)[(#[trigger] ts[i]).term@]
            == postings_map(ts[i].postings@) by {
            if i < ts.len() - 1 {
                assert(d[i] == ts[i]);
            }
        }
        assert forall|w: Seq<char>|
            terms_map(ts).contains_key(w) <==> exists|i: int|
                0 <= i < ts.len() && (#[trigger] ts[i]).term@ == w by {
            if terms_map(ts).contains_key(w) && w != ts.last().term@ {
                assert(terms_map(d).contains_key(w));
                let i = choose|i: int| 0 <= i < d.len() && (#[trigger] d[i]).term@ == w;
                assert(ts[i] == d[i]);
            }
            if terms_map(ts).contains_key(w) && w == ts.last().term@ {
                assert(ts[ts.len() - 1] == ts.last());
            }
            if exists|i: int| 0 <= i < ts.len() && (#[trigger] ts[i]).term@ == w {
                let i = choose|i: int| 0 <= i < ts.len() && (#[trigger] ts[i]).term@ == w;
                if i < ts.len() - 1 {
                    assert(d[i] == ts[i]);
                }
            }
        }
    }
}

proof fn lemma_terms_update(ts: Seq<TermPostings>, j: int, t: TermPostings)
    requires
        terms_unique(ts),
        0 <= j < ts.len(),
        t.term@ == ts[j].term@,
    ensures
        terms_map(ts.update(j, t)) == terms_map(ts).insert(t.term@, postings_map(t.postings@)),
        terms_unique(ts.update(j, t)),
    decreases ts.len(),
{
    let q = ts.update(j, t);
    if j == ts.len() - 1 {
        assert(q.drop_last() =~= ts.drop_last());
    } else {
        assert(q.drop_last() =~= ts.drop_last().update(j, t));
        lemma_terms_update(ts.drop_last(), j, t);
        assert(ts.last().term@ != t.term@);
    }
    assert(terms_map(q) =~= terms_map(ts).insert(t.term@, postings_map(t.postings@)));
}

proof fn lemma_total_prefix(docs: Seq<CrawlResult>, d: int)
    requires
        0 <= d <= docs.len(),
    ensures
        total_chars(docs.take(d)) <= total_chars(docs),
    decreases docs.len(),
{
    if d < docs.len() {
        assert(docs.take(d) =~= docs.drop_last().take(d));
        lemma_total_prefix(docs.drop_last(), d);
    } else {
        assert(docs.take(d) =~= docs);
    }
}

/// Position of the entry for term `w`, if there is one.
fn find_term(ts: &Vec<TermPostings>, w: &String) -> (r: Option<usize>)
    ensures
        match r {
            Some(i) => i < ts@.len() && ts@[i as int].term@ == w@,
            None => forall|i: int| 0 <= i < ts@.len() ==> ts@[i].term@ != w@,
        },
{
    let mut i: usize = 0;
    while i < ts.len()
        invariant
            i <= ts@.len(),
            forall|k: int| 0 <= k < i ==> ts@[k].term@ != w@,
        decreases ts.len() - i,
    {
        if ts[i].term == *w {
            return Some(i);
        }
        i += 1;
    }
    None
}

/// Position of the posting for url `u`, if there is one.
fn find_url(ps: &Vec<Posting>, u: &String) -> (r: Option<usize>)
    ensures
        match r {
            Some(i) => i < ps@.len() && ps@[i as int].url@ == u@,
            None => forall|i: int| 0 <= i < ps@.len() ==> ps@[i].url@ != u@,
        },
{
    let mut i: usize = 0;
    while i < ps.len()
        invariant
            i <= ps@.len(),
            forall|k: int| 0 <= k < i ==> ps@[k].url@ != u@,
        decreases ps.len() - i,
    {
        if ps[i].url == *u {
            return Some(i);
        }
        i += 1;
    }
    None
}

proof fn lemma_bump(a: IndexWithTf, b: IndexWithTf, w: Seq<char>, u: Seq<char>)
    requires
        b@ == a@.insert(
            w,
            (if a@.contains_key(w) {
                a@[w]
            } else {
                Map::empty()
            }).insert(u, a.tf(w, u) + 1),
        ),
    ensures
        b.has(w, u),
        forall|w2: Seq<char>, u2: Seq<char>|
            #![trigger b.tf(w2, u2)]
            b.tf(w2, u2) == a.tf(w2, u2) + if w2 == w && u2 == u {
                1nat
            } else {
                0nat
            },
        forall|w2: Seq<char>, u2: Seq<char>|
            #![trigger b.has(w2, u2)]
            b.has(w2, u2) <==> a.has(w2, u2) || (w2 == w && u2 == u),
        a.keys_have_urls() ==> b.keys_have_urls(),
{
    assert forall|w2: Seq<char>, u2: Seq<char>|
        #![trigger b.tf(w2, u2)]
        b.tf(w2, u2) == a.tf(w2, u2) + if w2 == w && u2 == u {
            1nat
        } else {
            0nat
        } by {
        if w2 == w && u2 != u {
            assert(b@[w] == a@.insert(
                w,
                (if a@.contains_key(w) {
                    a@[w]
                } else {
                    Map::empty()
                }).insert(u, a.tf(w, u) + 1),
            )[w]);
        }
    }
    if a.keys_have_urls() {
        assert forall|w2: Seq<char>| #[trigger] b@.contains_key(w2) implies exists|u2: Seq<char>|
            b.has(w2, u2) by {
            if w2 == w {
                assert(b.has(w, u));
            } else {
                assert(a@.contains_key(w2));
                let u2 = choose|u2: Seq<char>| a.has(w2, u2);
                assert(b.has(w2, u2));
            }
        }
    }
}

impl IndexWithTf {
    /// Counts one more occurrence of term `w` in document `u`.
    fn add_occurrence(&mut self, w: &String, u: &String)
        requires
            old(self).wf(),
            old(self).tf(w@, u@) < u32::MAX,
        ensures
            final(self).wf(),
            final(self).doc_count == old(self).doc_count,
            final(self).has(w@, u@),
            old(self).keys_have_urls() ==> final(self).keys_have_urls(),
            forall|w2: Seq<char>, u2: Seq<char>|
                #![trigger final(self).tf(w2, u2)]
                final(self).tf(w2, u2) == old(self).tf(w2, u2) + if w2 == w@ && u2 == u@ {
                    1nat
                } else {
                    0nat
                },
            forall|w2: Seq<char>, u2: Seq<char>|
                #![trigger final(self).has(w2, u2)]
                final(self).has(w2, u2) <==> old(self).has(w2, u2) || (w2 == w@ && u2 == u@),
    {
        proof {
            lemma_terms_map(self.term_tf@);
        }
        match find_term(&self.term_tf, w) {
            Some(i) => {
                let ghost ts = self.term_tf@;
                let ghost m = self@;
                let mut entry = self.term_tf.remove(i);
                proof {
                    assert(entry == ts[i as int]);
                    assert(m[w@] == postings_map(entry.postings@));
                    assert(urls_unique(entry.postings@));
                    lemma_postings_map(entry.postings@);
                }
                let ghost ps = entry.postings@;
                match find_url(&entry.postings, u) {
                    Some(j) => {
                        let c = entry.postings[j].count;
                        assert(m[w@][u@] == c);
                        let p = Posting { url: u.clone(), count: c + 1 };
                        entry.postings.set(j, p);
                        proof {
                            lemma_postings_update(ps, j as int, p);
                            assert(postings_map(entry.postings@) == m[w@].insert(
                                u@,
                                old(self).tf(w@, u@) + 1,
                            ));
                        }
                    },
                    None => {
                        entry.postings.push(Posting { url: u.clone(), count: 1 });
                        assert(entry.postings@.drop_last() =~= ps);
                        assert(!m[w@].contains_key(u@));
                        assert(postings_map(entry.postings@) == m[w@].insert(
                            u@,
                            old(self).tf(w@, u@) + 1,
                        ));
                    },
                }
                self.term_tf.insert(i, entry);
                proof {
                    assert(self.term_tf@ =~= ts.update(i as int, entry));
                    lemma_terms_update(ts, i as int, entry);
                    assert(self@ == m.insert(w@, postings_map(entry.postings@)));
                    lemma_bump(*old(self), *self, w@, u@);
                    assert forall|k: int| 0 <= k < self.term_tf@.len() implies urls_unique(
                        #[trigger] self.term_tf@[k].postings@,
                    ) by {
                        if k != i {
                            assert(self.term_tf@[k] == ts[k]);
                        }
                    }
                }
            },
            None => {
                let ghost ts = self.term_tf@;
                let ghost m = self@;
                let mut ps: Vec<Posting> = Vec::new();
                ps.push(Posting { url: u.clone(), count: 1 });
                let entry = TermPostings { term: w.clone(), postings: ps };
                self.term_tf.push(entry);
                proof {
                    assert(self.term_tf@.drop_last() =~= ts);
                    assert(entry.postings@.drop_last() =~= Seq::<Posting>::empty());
                    assert(postings_map(Seq::<Posting>::empty()) == Map::<Seq<char>, nat>::empty());
                    assert(entry.postings@.last() == entry.postings@[0]);
                    assert(!m.contains_key(w@));
                    assert(self@ == m.insert(w@, postings_map(entry.postings@)));
                    assert(postings_map(entry.postings@) =~= Map::<Seq<char>, nat>::empty().insert(
                        u@,
                        1,
                    ));
                    lemma_bump(*old(self), *self, w@, u@);
                    assert forall|k: int| 0 <= k < self.term_tf@.len() implies urls_unique(
                        #[trigger] self.term_tf@[k].postings@,
                    ) by {
                        if k < ts.len() {
                            assert(self.term_tf@[k] == ts[k]);
                        }
                    }
                }
            },
        }
    }
}

impl IndexWithTf {
    /// Builds the index of crawl results: each token of each body counted
    /// under its document's url; the document count is the number of results.
    pub fn build(results: &[CrawlResult]) -> (r: Self)
        requires
            total_chars(results@) <= u32::MAX,
        ensures
            r.wf(),
            r.keys_have_urls(),
            r.doc_count == results@.len(),
            forall|w: Seq<char>, u: Seq<char>| #[trigger]
                r.tf(w, u) == occurrences(results@, w, u),
            forall|w: Seq<char>, u: Seq<char>| #[trigger]
                r.has(w, u) <==> occurrences(results@, w, u) > 0,
    {
        let mut idx = IndexWithTf { term_tf: Vec::new(), doc_count: 0 };
        let mut d: usize = 0;
        assert(results@.take(0) =~= Seq::<CrawlResult>::empty());
        while d < results.len()
            invariant
                idx.wf(),
                idx.keys_have_urls(),
                d <= results@.len(),
                total_chars(results@) <= u32::MAX,
                forall|w: Seq<char>, u: Seq<char>| #[trigger]
                    idx.tf(w, u) == occurrences(results@.take(d as int), w, u),
                forall|w: Seq<char>, u: Seq<char>| #[trigger]
                    idx.has(w, u) <==> idx.tf(w, u) > 0,
                forall|w: Seq<char>, u: Seq<char>| #[trigger]
                    idx.tf(w, u) <= total_chars(results@.take(d as int)),
            decreases results@.len() - d,
        {
            let doc = &results[d];
            let toks = tokenize(doc.body_text.as_str());
            let ghost before = results@.take(d as int);
            proof {
                lemma_tokens_len(doc.body_text@);
                lemma_total_prefix(results@, d + 1);
                assert(results@.take(d + 1).drop_last() =~= before);
                assert(results@.take(d + 1).last() == *doc);
                assert(views(toks@).take(0) =~= Seq::<Seq<char>>::empty());
            }
            let mut k: usize = 0;
            while k < toks.len()
                invariant
                    idx.wf(),
                    idx.keys_have_urls(),
                    k <= toks@.len(),
                    views(toks@) == tokens_of(doc.body_text@),
                    total_chars(before) + toks@.len() <= u32::MAX,
                    forall|w: Seq<char>, u: Seq<char>| #[trigger]
                        idx.tf(w, u) == occurrences(before, w, u) + if doc.url@ == u {
                            count_in(views(toks@).take(k as int), w)
                        } else {
                            0nat
                        },
                    forall|w: Seq<char>, u: Seq<char>| #[trigger]
                        idx.has(w, u) <==> idx.tf(w, u) > 0,
                    forall|w: Seq<char>, u: Seq<char>| #[trigger]
                        idx.tf(w, u) <= total_chars(before) + k,
                decreases toks@.len() - k,
            {
                proof {
                    assert(views(toks@).take(k + 1).drop_last() =~= views(toks@).take(k as int));
                    assert(views(toks@).take(k + 1).last() == toks@[k as int]@);
                    assert(idx.tf(toks@[k as int]@, doc.url@) <= total_chars(before) + k);
                }
                idx.add_occurrence(&toks[k], &doc.url);
                k += 1;
            }
            proof {
                assert(views(toks@).take(toks@.len() as int) =~= views(toks@));
            }
            d += 1;
        }
        assert(results@.take(results@.len() as int) =~= results@);
        let ghost pre = idx;
        idx.doc_count = results.len();
        assert forall|w: Seq<char>| #[trigger] idx@.contains_key(w) implies exists|u: Seq<char>|
            idx.has(w, u) by {
            assert(idx@ == pre@);
            assert(pre@.contains_key(w));
            let u = choose|u: Seq<char>| pre.has(w, u);
            assert(idx.has(w, u));
        }
        assert forall|w: Seq<char>, u: Seq<char>|
            #![trigger idx.tf(w, u)]
            #![trigger idx.has(w, u)]
            idx.tf(w, u) == occurrences(results@, w, u) && (idx.has(w, u) <==> occurrences(
                results@,
                w,
                u,
            ) > 0) by {
            assert(pre.tf(w, u) == occurrences(results@, w, u));
            assert(pre.has(w, u) <==> pre.tf(w, u) > 0);
        }
        idx
    }
}

/// Builds the index with term frequencies of crawl results.
pub fn build_index_with_tf(results: &[CrawlResult]) -> (r: IndexWithTf)
    requires
        total_chars(results@) <= u32::MAX,
    ensures
        r.wf(),
        r.keys_have_urls(),
        r.doc_count == results@.len(),
        forall|w: Seq<char>, u: Seq<char>| #[trigger] r.tf(w, u) == occurrences(results@, w, u),
        forall|w: Seq<char>, u: Seq<char>| #[trigger]
            r.has(w, u) <==> occurrences(results@, w, u) > 0,
{
    IndexWithTf::build(results)
}

/// A term and the urls of the documents it occurs in.
#[derive(Debug, Clone)]
pub struct TermUrls {
    pub term: String,
    pub urls: Vec<String>,
}

/// Inverted index: word -> urls containing that word.
#[derive(Debug, Clone)]
pub struct InvertedIndex {
    pub entries: Vec<TermUrls>,
}

/// The term -> set of urls map that a list of entries stands for.
pub open spec fn inverted_map(es: Seq<TermUrls>) -> Map<Seq<char>, Set<Seq<char>>>
    decreases es.len(),
{
    if es.len() == 0 {
        Map::empty()
    } else {
        inverted_map(es.drop_last()).insert(es.last().term@, views(es.last().urls@).to_set())
    }
}

pub open spec fn entries_unique(es: Seq<TermUrls>) -> bool {
    forall|i: int, j: int| 0 <= i < j < es.len() ==> es[i].term@ != es[j].term@
}

impl View for InvertedIndex {
    type V = Map<Seq<char>, Set<Seq<char>>>;

    open spec fn view(&self) -> Map<Seq<char>, Set<Seq<char>>> {
        inverted_map(self.entries@)
    }
}

impl InvertedIndex {
    /// Terms are listed once.
    pub open spec fn wf(&self) -> bool {
        entries_unique(self.entries@)
    }
}

/// Document `u` is listed under every term of `q`.
pub open spec fn matches_all(m: Map<Seq<char>, Set<Seq<char>>>, q: Seq<Seq<char>>, u: Seq<char>) -> bool {
    forall|k: int| 0 <= k < q.len() ==> m.contains_key(#[trigger] q[k]) && m[q[k]].contains(u)
}

proof fn lemma_inverted_map(es: Seq<TermUrls>)
    requires
        entries_unique(es),
    ensures
        forall|w: Seq<char>|
            inverted_map(es).contains_key(w) <==> exists|i: int|
                0 <= i < es.len() && (#[trigger] es[i]).term@ == w,
        forall|i: int|
            0 <= i < es.len() ==> inverted_map(es)[(#[trigger] es[i]).term@] == views(
                es[i].urls@,
            ).to_set(),
    decreases es.len(),
{
    if es.len() > 0 {
        let d = es.drop_last();
        lemma_inverted_map(d);
        assert forall|i: int| 0 <= i < es.len() implies inverted_map(es)[(#[trigger] es[i]).term@]
            == views(es[i].urls@).to_set() by {
            if i < es.len() - 1 {
                assert(d[i] == es[i]);
            }
        }
        assert forall|w: Seq<char>|
            inverted_map(es).contains_key(w) <==> exists|i: int|
                0 <= i < es.len() && (#[trigger] es[i]).term@ == w by {
            if inverted_map(es).contains_key(w) && w != es.last().term@ {
                assert(inverted_map(d).contains_key(w));
                let i = choose|i: int| 0 <= i < d.len() && (#[trigger] d[i]).term@ == w;
                assert(es[i] == d[i]);
            }
            if inverted_map(es).contains_key(w) && w == es.last().term@ {
                assert(es[es.len() - 1] == es.last());
            }
            if exists|i: int| 0 <= i < es.len() && (#[trigger] es[i]).term@ == w {
                let i = choose|i: int| 0 <= i < es.len() && (#[trigger] es[i]).term@ == w;
                if i < es.len() - 1 {
                    assert(d[i] == es[i]);
                }
            }
        }
    }
}

/// Position of the entry for term `w`, if there is one.
fn find_entry(es: &Vec<TermUrls>, w: &String) -> (r: Option<usize>)
    ensures
        match r {
            Some(i) => i < es@.len() && es@[i as int].term@ == w@,
            None => forall|i: int| 0 <= i < es@.len() ==> es@[i].term@ != w@,
        },
{
    let mut i: usize = 0;
    while i < es.len()
        invariant
            i <= es@.len(),
            forall|k: int| 0 <= k < i ==> es@[k].term@ != w@,
        decreases es.len() - i,
    {
        if es[i].term == *w {
            return Some(i);
        }
        i += 1;
    }
    None
}

/// Whether `u` is one of `v`.
pub(crate) fn contains_str(v: &Vec<String>, u: &String) -> (r: bool)
    ensures
        r == views(v@).contains(u@),
{
    let mut i: usize = 0;
    while i < v.len()
        invariant
            i <= v@.len(),
            forall|k: int| 0 <= k < i ==> v@[k]@ != u@,
        decreases v.len() - i,
    {
        if v[i] == *u {
            assert(views(v@)[i as int] == u@);
            return true;
        }
        i += 1;
    }
    assert forall|k: int| 0 <= k < views(v@).len() implies views(v@)[k] != u@ by {
        assert(views(v@)[k] == v@[k]@);
    }
    false
}

/// Whether document `u` is listed under every one of `toks`.
fn contains_all(index: &InvertedIndex, toks: &Vec<String>, u: &String) -> (r: bool)
    requires
        index.wf(),
    ensures
        r == matches_all(index@, views(toks@), u@),
{
    proof {
        lemma_inverted_map(index.entries@);
    }
    let mut k: usize = 0;
    while k < toks.len()
        invariant
            index.wf(),
            k <= toks@.len(),
            forall|m: int|
                0 <= m < k ==> index@.contains_key(#[trigger] views(toks@)[m]) && index@[views(
                    toks@,
                )[m]].contains(u@),
        decreases toks.len() - k,
    {
        proof {
            lemma_inverted_map(index.entries@);
        }
        assert(views(toks@)[k as int] == toks@[k as int]@);
        match find_entry(&index.entries, &toks[k]) {
            None => {
                assert(!index@.contains_key(views(toks@)[k as int]));
                return false;
            },
            Some(e) => {
                assert(index@[views(toks@)[k as int]] == views(index.entries@[e as int].urls@).to_set());
                if !contains_str(&index.entries[e].urls, u) {
                    return false;
                }
            },
        }
        k += 1;
    }
    true
}

/// Look up the urls that contain every token of the query (no ranking),
/// sorted lexicographically.
pub fn search(index: &InvertedIndex, query: &str) -> (r: Vec<String>)
    requires
        index.wf(),
    ensures
        sorted_strictly(views(r@)),
        tokens_of(query@).len() == 0 ==> r@.len() == 0,
        tokens_of(query@).len() > 0 ==> forall|u: Seq<char>|
            views(r@).contains(u) <==> matches_all(index@, tokens_of(query@), u),
{
    let toks = tokenize(query);
    let mut out: Vec<String> = Vec::new();
    if toks.len() == 0 {
        return out;
    }
    proof {
        lemma_inverted_map(index.entries@);
    }
    assert(views(toks@)[0] == toks@[0]@);
    let f = match find_entry(&index.entries, &toks[0]) {
        Some(f) => f,
        None => {
            assert(!index@.contains_key(views(toks@)[0]));
            return out;
        },
    };
    let urls = &index.entries[f].urls;
    assert(index@[views(toks@)[0]] == views(urls@).to_set());
    let mut j: usize = 0;
    assert(views(out@) =~= Seq::<Seq<char>>::empty());
    while j < urls.len()
        invariant
            index.wf(),
            j <= urls@.len(),
            views(toks@) == tokens_of(query@),
            index@[views(toks@)[0]] == views(urls@).to_set(),
            sorted_strictly(views(out@)),
            forall|u: Seq<char>|
                views(out@).contains(u) <==> matches_all(index@, views(toks@), u) && exists|m: int|
                    0 <= m < j && urls@[m]@ == u,
        decreases urls.len() - j,
    {
        if contains_all(index, &toks, &urls[j]) {
            let ghost before = views(out@);
            insert_sorted(&mut out, urls[j].clone());
            assert forall|u: Seq<char>|
                views(out@).contains(u) <==> matches_all(index@, views(toks@), u) && exists|m: int|
                    0 <= m < j + 1 && urls@[m]@ == u by {
                assert(views(out@).to_set().contains(u) == views(out@).contains(u));
                assert(before.to_set().contains(u) == before.contains(u));
                if exists|m: int| 0 <= m < j + 1 && urls@[m]@ == u {
                    let m = choose|m: int| 0 <= m < j + 1 && urls@[m]@ == u;
                    if m < j {
                        assert(exists|m: int| 0 <= m < j && urls@[m]@ == u);
                    }
                }
            }
        } else {
            assert forall|u: Seq<char>|
                views(out@).contains(u) <==> matches_all(index@, views(toks@), u) && exists|m: int|
                    0 <= m < j + 1 && urls@[m]@ == u by {
                if exists|m: int| 0 <= m < j + 1 && urls@[m]@ == u {
                    let m = choose|m: int| 0 <= m < j + 1 && urls@[m]@ == u;
                    if m < j {
                        assert(exists|m: int| 0 <= m < j && urls@[m]@ == u);
                    }
                }
            }
        }
        j += 1;
    }
    assert forall|u: Seq<char>|
        views(out@).contains(u) <==> matches_all(index@, views(toks@), u) by {
        if matches_all(index@, views(toks@), u) {
            assert(index@[views(toks@)[0]].contains(u));
            assert(views(urls@).contains(u));
            let m = choose|m: int| 0 <= m < views(urls@).len() && views(urls@)[m] == u;
            assert(urls@[m]@ == u);
        }
    }
    out
}

impl IndexWithTf {
    /// The simple inverted index: each term with the set of urls listed under it.
    pub fn as_inverted(&self) -> (r: InvertedIndex)
        requires
            self.wf(),
        ensures
            r.wf(),
            r@.dom() == self@.dom(),
            forall|w: Seq<char>| #[trigger] r@.contains_key(w) ==> r@[w] == self@[w].dom(),
    {
        let ts = &self.term_tf;
        let mut es: Vec<TermUrls> = Vec::new();
        let mut i: usize = 0;
        while i < ts.len()
            invariant
                self.wf(),
                ts == &self.term_tf,
                i <= ts@.len(),
                es@.len() == i,
                forall|k: int| 0 <= k < i ==> (#[trigger] es@[k]).term@ == ts@[k].term@,
                forall|k: int|
                    0 <= k < i ==> views((#[trigger] es@[k]).urls@).to_set() == postings_map(
                        ts@[k].postings@,
                    ).dom(),
            decreases ts.len() - i,
        {
            let ps = &ts[i].postings;
            proof {
                assert(urls_unique(ps@));
                lemma_postings_map(ps@);
            }
            let mut urls: Vec<String> = Vec::new();
            let mut j: usize = 0;
            while j < ps.len()
                invariant
                    j <= ps@.len(),
                    urls@.len() == j,
                    forall|m: int| 0 <= m < j ==> (#[trigger] urls@[m])@ == ps@[m].url@,
                decreases ps.len() - j,
            {
                urls.push(ps[j].url.clone());
                j += 1;
            }
            assert(views(urls@).to_set() =~= postings_map(ps@).dom()) by {
                assert forall|u: Seq<char>|
                    views(urls@).contains(u) <==> postings_map(ps@).contains_key(u) by {
                    if views(urls@).contains(u) {
                        let m = choose|m: int| 0 <= m < views(urls@).len() && views(urls@)[m] == u;
                        assert(urls@[m]@ == u);
                        assert(ps@[m].url@ == u);
                    }
                    if postings_map(ps@).contains_key(u) {
                        let m = choose|m: int| 0 <= m < ps@.len() && (#[trigger] ps@[m]).url@ == u;
                        assert(views(urls@)[m] == u);
                    }
                }
            }
            es.push(TermUrls { term: ts[i].term.clone(), urls });
            i += 1;
        }
        let r = InvertedIndex { entries: es };
        proof {
            lemma_terms_map(ts@);
            lemma_inverted_map(es@);
            assert(r@.dom() =~= self@.dom()) by {
                assert forall|w: Seq<char>| r@.contains_key(w) <==> self@.contains_key(w) by {
                    if r@.contains_key(w) {
                        let k = choose|k: int| 0 <= k < es@.len() && (#[trigger] es@[k]).term@ == w;
                        assert(ts@[k].term@ == w);
                    }
                    if self@.contains_key(w) {
                        let k = choose|k: int| 0 <= k < ts@.len() && (#[trigger] ts@[k]).term@ == w;
                        assert(es@[k].term@ == w);
                    }
                }
            }
            assert forall|w: Seq<char>| #[trigger] r@.contains_key(w) implies r@[w] == self@[w].dom() by {
                let k = choose|k: int| 0 <= k < es@.len() && (#[trigger] es@[k]).term@ == w;
                assert(ts@[k].term@ == w);
            }
        }
        r
    }
}

/// Builds the simple inverted index of crawl results.
pub fn build_index(results: &[CrawlResult]) -> (r: InvertedIndex)
    requires
        total_chars(results@) <= u32::MAX,
    ensures
        r.wf(),
        forall|w: Seq<char>, u: Seq<char>|
            r@.contains_key(w) && r@[w].contains(u) <==> occurrences(results@, w, u) > 0,
        forall|w: Seq<char>| #[trigger] r@.contains_key(w) ==> exists|u: Seq<char>| r@[w].contains(u),
{
    let idx = IndexWithTf::build(results);
    let r = idx.as_inverted();
    assert forall|w: Seq<char>, u: Seq<char>|
        r@.contains_key(w) && r@[w].contains(u) <==> occurrences(results@, w, u) > 0 by {
        assert(idx.has(w, u) <==> occurrences(results@, w, u) > 0);
    }
    assert forall|w: Seq<char>| #[trigger] r@.contains_key(w) implies exists|u: Seq<char>|
        r@[w].contains(u) by {
        assert(idx@.contains_key(w));
        let u = choose|u: Seq<char>| idx.has(w, u);
        assert(r@[w].contains(u));
    }
    r
}

/// The distinct tokens of `q` that are terms of `m`, in order of first occurrence.
pub open spec fn query_terms_of(m: Map<Seq<char>, Map<Seq<char>, nat>>, q: Seq<Seq<char>>) -> Seq<
    Seq<char>,
>
    decreases q.len(),
{
    if q.len() == 0 {
        seq![]
    } else {
        let r = query_terms_of(m, q.drop_last());
        let t = q.last();
        if m.contains_key(t) && !r.contains(t) {
            r.push(t)
        } else {
            r
        }
    }
}

pub open spec fn posting_urls(ps: Seq<Posting>) -> Seq<Seq<char>> {
    ps.map_values(|p: Posting| p.url@)
}

pub open spec fn entry_terms(ts: Seq<TermPostings>) -> Seq<Seq<char>> {
    ts.map_values(|e: TermPostings| e.term@)
}

/// Every url listed under some term.
pub open spec fn all_urls(m: Map<Seq<char>, Set<Seq<char>>>) -> Set<Seq<char>> {
    Set::new(|u: Seq<char>| exists|w: Seq<char>| m.contains_key(w) && #[trigger] m[w].contains(u))
}

/// A copy of a list of postings.
fn copy_postings(ps: &Vec<Posting>) -> (r: Vec<Posting>)
    ensures
        r@ == ps@,
{
    let mut r: Vec<Posting> = Vec::new();
    let mut i: usize = 0;
    while i < ps.len()
        invariant
            i <= ps@.len(),
            r@ == ps@.take(i as int),
        decreases ps.len() - i,
    {
        r.push(Posting { url: ps[i].url.clone(), count: ps[i].count });
        assert(r@ =~= ps@.take(i + 1));
        i += 1;
    }
    assert(ps@.take(ps@.len() as int) =~= ps@);
    r
}

impl IndexWithTf {
    /// The entries that ranked search scores a query with: one for each
    /// distinct token of the query that is a term of the index, in the order
    /// the tokens first occur. None when the index holds no documents.
    pub fn query_terms(&self, query: &str) -> (r: Vec<TermPostings>)
        requires
            self.wf(),
        ensures
            self.doc_count == 0 ==> r@.len() == 0,
            self.doc_count > 0 ==> entry_terms(r@) == query_terms_of(self@, tokens_of(query@)),
            forall|k: int|
                0 <= k < r@.len() ==> postings_map((#[trigger] r@[k]).postings@) == self@[r@[k].term@]
                    && urls_unique(r@[k].postings@),
    {
        let mut out: Vec<TermPostings> = Vec::new();
        if self.doc_count == 0 {
            return out;
        }
        let toks = tokenize(query);
        let mut i: usize = 0;
        assert(views(toks@).take(0) =~= Seq::<Seq<char>>::empty());
        assert(entry_terms(out@) =~= Seq::<Seq<char>>::empty());
        while i < toks.len()
            invariant
                self.wf(),
                i <= toks@.len(),
                views(toks@) == tokens_of(query@),
                entry_terms(out@) == query_terms_of(self@, views(toks@).take(i as int)),
                forall|k: int|
                    0 <= k < out@.len() ==> postings_map((#[trigger] out@[k]).postings@)
                        == self@[out@[k].term@] && urls_unique(out@[k].postings@),
            decreases toks.len() - i,
        {
            proof {
                lemma_terms_map(self.term_tf@);
                assert(views(toks@).take(i + 1).drop_last() =~= views(toks@).take(i as int));
                assert(views(toks@).take(i + 1).last() == toks@[i as int]@);
            }
            let t = &toks[i];
            let ghost before = entry_terms(out@);
            match find_term(&out, t) {
                Some(k) => {
                    assert(before[k as int] == t@);
                },
                None => {
                    assert(!before.contains(t@)) by {
                        if before.contains(t@) {
                            let k = choose|k: int| 0 <= k < before.len() && before[k] == t@;
                            assert(out@[k].term@ == t@);
                        }
                    }
                    match find_term(&self.term_tf, t) {
                        Some(k) => {
                            let e = TermPostings {
                                term: t.clone(),
                                postings: copy_postings(&self.term_tf[k].postings),
                            };
                            assert(urls_unique(self.term_tf@[k as int].postings@));
                            let ghost out0 = out@;
                            out.push(e);
                            assert(entry_terms(out@) =~= before.push(t@));
                            assert forall|m: int| 0 <= m < out@.len() implies postings_map(
                                (#[trigger] out@[m]).postings@,
                            ) == self@[out@[m].term@] && urls_unique(out@[m].postings@) by {
                                if m < out@.len() - 1 {
                                    assert(out@[m] == out0[m]);
                                }
                            }
                        },
                        None => {
                            assert(!self@.contains_key(t@));
                        },
                    }
                },
            }
            i += 1;
        }
        assert(views(toks@).take(toks@.len() as int) =~= views(toks@));
        out
    }
}

/// The counted index that a simple inverted index stands for: each listed url
/// counted once under its term; the document count is the number of distinct
/// urls over all terms.
pub fn from_legacy(inv: &InvertedIndex) -> (r: IndexWithTf)
    requires
        inv.wf(),
    ensures
        r.wf(),
        r@.dom() == inv@.dom(),
        forall|w: Seq<char>| #[trigger] r@.contains_key(w) ==> r@[w].dom() == inv@[w],
        forall|w: Seq<char>, u: Seq<char>| #[trigger] r.has(w, u) ==> r@[w][u] == 1,
        r.doc_count == all_urls(inv@).len(),
{
    let es = &inv.entries;
    let mut ts: Vec<TermPostings> = Vec::new();
    let mut all: Vec<String> = Vec::new();
    let mut i: usize = 0;
    while i < es.len()
        invariant
            i <= es@.len(),
            ts@.len() == i,
            forall|k: int| 0 <= k < i ==> (#[trigger] ts@[k]).term@ == es@[k].term@,
            forall|k: int|
                0 <= k < i ==> urls_unique((#[trigger] ts@[k]).postings@) && postings_map(
                    ts@[k].postings@,
                ).dom() == views(es@[k].urls@).to_set(),
            forall|k: int, m: int|
                0 <= k < i && 0 <= m < ts@[k].postings@.len() ==> (#[trigger] ts@[k].postings@[m]).count
                    == 1,
            views(all@).no_duplicates(),
            forall|u: Seq<char>|
                views(all@).contains(u) <==> exists|k: int|
                    0 <= k < i && #[trigger] views(es@[k].urls@).contains(u),
        decreases es.len() - i,
    {
        let urls = &es[i].urls;
        let mut ps: Vec<Posting> = Vec::new();
        let mut j: usize = 0;
        assert(views(urls@).take(0) =~= Seq::<Seq<char>>::empty());
        assert(posting_urls(ps@) =~= Seq::<Seq<char>>::empty());
        while j < urls.len()
            invariant
                j <= urls@.len(),
                urls_unique(ps@),
                forall|m: int| 0 <= m < ps@.len() ==> (#[trigger] ps@[m]).count == 1,
                forall|u: Seq<char>|
                    #[trigger] posting_urls(ps@).contains(u) <==> views(urls@).take(j as int).contains(u),
                views(all@).no_duplicates(),
                forall|u: Seq<char>|
                    #[trigger] views(all@).contains(u) <==> (exists|k: int|
                        0 <= k < i && #[trigger] views(es@[k].urls@).contains(u)) || views(
                        urls@,
                    ).take(j as int).contains(u),
            decreases urls.len() - j,
        {
            let u = &urls[j];
            let ghost ps0 = ps@;
            let ghost all0 = views(all@);
            let ghost t0 = views(urls@).take(j as int);
            let ghost t1 = views(urls@).take(j + 1);
            assert(t1 =~= t0.push(u@));
            match find_url(&ps, u) {
                None => {
                    ps.push(Posting { url: u.clone(), count: 1 });
                    assert(posting_urls(ps@) =~= posting_urls(ps0).push(u@));
                    assert(posting_urls(ps@)[ps0.len() as int] == u@);
                    assert forall|m: int| 0 <= m < ps@.len() implies (#[trigger] ps@[m]).count
                        == 1 by {
                        if m < ps0.len() {
                            assert(ps@[m] == ps0[m]);
                        }
                    }
                },
                Some(q) => {
                    assert(posting_urls(ps@)[q as int] == u@);
                },
            }
            assert forall|x: Seq<char>| #[trigger]
                posting_urls(ps@).contains(x) <==> t1.contains(x) by {
                if t1.contains(x) && x != u@ {
                    let m = choose|m: int| 0 <= m < t1.len() && t1[m] == x;
                    assert(t0[m] == x);
                    assert(posting_urls(ps0).contains(x));
                    let q = choose|q: int| 0 <= q < ps0.len() && posting_urls(ps0)[q] == x;
                    assert(posting_urls(ps@)[q] == x);
                    assert(posting_urls(ps@).contains(x));
                }
                if posting_urls(ps@).contains(x) && x != u@ {
                    let q = choose|q: int| 0 <= q < posting_urls(ps@).len() && posting_urls(ps@)[q] == x;
                    assert(posting_urls(ps0)[q] == x);
                    assert(posting_urls(ps0).contains(x));
                    assert(t0.contains(x));
                    let m = choose|m: int| 0 <= m < t0.len() && t0[m] == x;
                    assert(t1[m] == x);
                }
                if x == u@ {
                    assert(t1[j as int] == x);
                    assert(posting_urls(ps@).contains(x));
                }
            }
            if !contains_str(&all, u) {
                all.push(u.clone());
                assert(views(all@) =~= all0.push(u@));
                assert(views(all@)[all0.len() as int] == u@);
            }
            assert(views(all@).contains(u@));
            assert forall|x: Seq<char>|
                #[trigger] views(all@).contains(x) <==> (exists|k: int|
                    0 <= k < i && #[trigger] views(es@[k].urls@).contains(x)) || t1.contains(x) by {
                if t1.contains(x) && x != u@ {
                    let m = choose|m: int| 0 <= m < t1.len() && t1[m] == x;
                    assert(t0[m] == x);
                }
                if t0.contains(x) {
                    let m = choose|m: int| 0 <= m < t0.len() && t0[m] == x;
                    assert(t1[m] == x);
                }
                if x == u@ {
                    assert(t1[j as int] == x);
                }
                if all0.contains(x) {
                    let q = choose|q: int| 0 <= q < all0.len() && all0[q] == x;
                    assert(views(all@)[q] == x);
                }
                if views(all@).contains(x) && x != u@ {
                    let q = choose|q: int| 0 <= q < views(all@).len() && views(all@)[q] == x;
                    assert(all0[q] == x);
                    assert(all0.contains(x));
                }
            }
            j += 1;
        }
        assert(views(urls@).take(urls@.len() as int) =~= views(urls@));
        proof {
            lemma_postings_map(ps@);
            assert(postings_map(ps@).dom() =~= views(urls@).to_set()) by {
                assert forall|x: Seq<char>|
                    postings_map(ps@).contains_key(x) <==> views(urls@).contains(x) by {
                    if views(urls@).contains(x) {
                        assert(views(urls@).take(urls@.len() as int).contains(x));
                        assert(posting_urls(ps@).contains(x));
                        let q = choose|q: int| 0 <= q < posting_urls(ps@).len() && posting_urls(ps@)[q] == x;
                        assert(ps@[q].url@ == x);
                    }
                    if postings_map(ps@).contains_key(x) {
                        let q = choose|q: int| 0 <= q < ps@.len() && (#[trigger] ps@[q]).url@ == x;
                        assert(posting_urls(ps@)[q] == x);
                        assert(posting_urls(ps@).contains(x));
                        assert(views(urls@).take(urls@.len() as int).contains(x));
                    }
                }
            }
        }
        let ghost ts0 = ts@;
        ts.push(TermPostings { term: es[i].term.clone(), postings: ps });
        proof {
            assert forall|k: int| 0 <= k < i + 1 implies (#[trigger] ts@[k]).term@ == es@[k].term@
                && urls_unique(ts@[k].postings@) && postings_map(ts@[k].postings@).dom() == views(
                es@[k].urls@,
            ).to_set() by {
                if k < i {
                    assert(ts@[k] == ts0[k]);
                }
            }
            assert forall|k: int, m: int|
                0 <= k < i + 1 && 0 <= m < ts@[k].postings@.len() implies (#[trigger] ts@[k].postings@[
                m]).count == 1 by {
                if k < i {
                    assert(ts@[k] == ts0[k]);
                }
            }
            assert forall|x: Seq<char>|
                #[trigger] views(all@).contains(x) <==> exists|k: int|
                    0 <= k < i + 1 && #[trigger] views(es@[k].urls@).contains(x) by {
                if views(urls@).contains(x) {
                    assert(views(es@[i as int].urls@).contains(x));
                }
            }
        }
        i += 1;
    }
    let r = IndexWithTf { term_tf: ts, doc_count: all.len() };
    proof {
        lemma_inverted_map(es@);
        assert(terms_unique(ts@));
        lemma_terms_map(ts@);
        assert(r@.dom() =~= inv@.dom()) by {
            assert forall|w: Seq<char>| r@.contains_key(w) <==> inv@.contains_key(w) by {
                if r@.contains_key(w) {
                    let k = choose|k: int| 0 <= k < ts@.len() && (#[trigger] ts@[k]).term@ == w;
                    assert(es@[k].term@ == w);
                }
                if inv@.contains_key(w) {
                    let k = choose|k: int| 0 <= k < es@.len() && (#[trigger] es@[k]).term@ == w;
                    assert(ts@[k].term@ == w);
                }
            }
        }
        assert forall|w: Seq<char>| #[trigger] r@.contains_key(w) implies r@[w].dom() == inv@[w] by {
            let k = choose|k: int| 0 <= k < ts@.len() && (#[trigger] ts@[k]).term@ == w;
            assert(es@[k].term@ == w);
        }
        assert forall|w: Seq<char>, u: Seq<char>| #[trigger] r.has(w, u) implies r@[w][u] == 1 by {
            let k = choose|k: int| 0 <= k < ts@.len() && (#[trigger] ts@[k]).term@ == w;
            let ps = ts@[k].postings@;
            lemma_postings_map(ps);
            let m = choose|m: int| 0 <= m < ps.len() && (#[trigger] ps[m]).url@ == u;
            assert(ts@[k].postings@[m].count == 1);
        }
        views(all@).unique_seq_to_set();
        assert(views(all@).to_set() =~= all_urls(inv@)) by {
            assert forall|u: Seq<char>| views(all@).contains(u) <==> all_urls(inv@).contains(u) by {
                if views(all@).contains(u) {
                    let k = choose|k: int| 0 <= k < es@.len() && #[trigger] views(es@[k].urls@).contains(u);
                    assert(inv@[es@[k].term@].contains(u));
                }
                if all_urls(inv@).contains(u) {
                    let w = choose|w: Seq<char>| inv@.contains_key(w) && #[trigger] inv@[w].contains(u);
                    let k = choose|k: int| 0 <= k < es@.len() && (#[trigger] es@[k]).term@ == w;
                    assert(views(es@[k].urls@).contains(u));
                }
            }
        }
    }
    r
}

/// In a list of documents where one document alone has its url, the count
/// of a token under that url is the number of times the token occurs in
/// that document's body.
pub proof fn lemma_tf_of_single_document(docs: Seq<CrawlResult>, i: int, w: Seq<char>)
    requires
        0 <= i < docs.len(),
        forall|j: int| 0 <= j < docs.len() && j != i ==> (#[trigger] docs[j]).url@ != docs[i].url@,
    ensures
        occurrences(docs, w, docs[i].url@) == count_in(tokens_of(docs[i].body_text@), w),
    decreases docs.len(),
{
    let u = docs[i].url@;
    let d = docs.drop_last();
    if i == docs.len() - 1 {
        lemma_no_occurrences(d, w, u);
    } else {
        assert forall|j: int| 0 <= j < d.len() && j != i implies (#[trigger] d[j]).url@ != d[i].url@ by {
            assert(d[j] == docs[j]);
        }
        lemma_tf_of_single_document(d, i, w);
        assert(docs.last() == docs[docs.len() - 1]);
    }
}

/// A url that no document has gets no count.
proof fn lemma_no_occurrences(docs: Seq<CrawlResult>, w: Seq<char>, u: Seq<char>)
    requires
        forall|j: int| 0 <= j < docs.len() ==> (#[trigger] docs[j]).url@ != u,
    ensures
        occurrences(docs, w, u) == 0,
    decreases docs.len(),
{
    if docs.len() > 0 {
        assert(docs.last() == docs[docs.len() - 1]);
        lemma_no_occurrences(docs.drop_last(), w, u);
    }
}

/// A query without tokens selects no terms to rank with.
pub proof fn lemma_no_tokens_no_terms(m: Map<Seq<char>, Map<Seq<char>, nat>>, q: Seq<char>)
    requires
        tokens_of(q).len() == 0,
    ensures
        query_terms_of(m, tokens_of(q)).len() == 0,
{
}

/// The empty text has no tokens.
pub proof fn lemma_empty_text_no_tokens()
    ensures
        tokens_of(Seq::<char>::empty()).len() == 0,
{
    assert(words_of(Seq::<char>::empty()) =~= Seq::<Seq<char>>::empty());
}

impl IndexWithTf {
    /// The count of `term` in the document `url`, zero where none is listed.
    pub fn count(&self, term: &str, url: &str) -> (r: u32)
        requires
            self.wf(),
        ensures
            r == self.tf(term@, url@),
    {
        proof {
            lemma_terms_map(self.term_tf@);
        }
        let t = term.to_string();
        let u = url.to_string();
        match find_term(&self.term_tf, &t) {
            Some(i) => {
                let ps = &self.term_tf[i].postings;
                proof {
                    assert(urls_unique(ps@));
                    lemma_postings_map(ps@);
                }
                match find_url(ps, &u) {
                    Some(j) => ps[j].count,
                    None => 0,
                }
            },
            None => 0,
        }
    }
}

/// One query term's share in a document's score: the term's count in the
/// document and the number of documents the term occurs in.
#[derive(Debug, Clone, Copy)]
pub struct TermHit {
    pub count: u32,
    pub df: usize,
}

/// A document and the hits of the query terms it contains.
#[derive(Debug, Clone)]
pub struct DocHits {
    pub url: String,
    pub hits: Vec<TermHit>,
}

pub open spec fn hit_views(hs: Seq<TermHit>) -> Seq<(nat, nat)> {
    hs.map_values(|h: TermHit| (h.count as nat, h.df as nat))
}

/// The hits of the entries `ts` in document `u`, in the order of the entries.
pub open spec fn hits_of(ts: Seq<TermPostings>, u: Seq<char>) -> Seq<(nat, nat)>
    decreases ts.len(),
{
    if ts.len() == 0 {
        seq![]
    } else {
        let e = ts.last();
        let rest = hits_of(ts.drop_last(), u);
        if postings_map(e.postings@).contains_key(u) {
            rest.push((postings_map(e.postings@)[u], e.postings@.len()))
        } else {
            rest
        }
    }
}

/// Document `u` is listed in one of the entries.
pub open spec fn listed_in(ts: Seq<TermPostings>, u: Seq<char>) -> bool {
    exists|k: int| 0 <= k < ts.len() && #[trigger] postings_map(ts[k].postings@).contains_key(u)
}

pub open spec fn hits_urls(ds: Seq<DocHits>) -> Seq<Seq<char>> {
    ds.map_values(|d: DocHits| d.url@)
}

proof fn lemma_no_hits(ts: Seq<TermPostings>, u: Seq<char>)
    requires
        !listed_in(ts, u),
    ensures
        hits_of(ts, u) == Seq::<(nat, nat)>::empty(),
    decreases ts.len(),
{
    if ts.len() > 0 {
        let d = ts.drop_last();
        assert(!listed_in(d, u)) by {
            if listed_in(d, u) {
                let k = choose|k: int| 0 <= k < d.len() && #[trigger] postings_map(d[k].postings@).contains_key(u);
                assert(ts[k] == d[k]);
            }
        }
        assert(!postings_map(ts[ts.len() - 1].postings@).contains_key(u));
        lemma_no_hits(d, u);
    }
}

/// Position of the document `u` among `ds`, if it is there.
fn find_doc(ds: &Vec<DocHits>, u: &String) -> (r: Option<usize>)
    ensures
        match r {
            Some(i) => i < ds@.len() && ds@[i as int].url@ == u@,
            None => forall|i: int| 0 <= i < ds@.len() ==> ds@[i].url@ != u@,
        },
{
    let mut i: usize = 0;
    while i < ds.len()
        invariant
            i <= ds@.len(),
            forall|k: int| 0 <= k < i ==> ds@[k].url@ != u@,
        decreases ds.len() - i,
    {
        if ds[i].url == *u {
            return Some(i);
        }
        i += 1;
    }
    None
}

/// The documents listed in the entries, each once, with the hits of the
/// entries it is listed in, in the order of the entries.
pub fn group_by_document(ts: &Vec<TermPostings>) -> (r: Vec<DocHits>)
    requires
        forall|k: int| 0 <= k < ts@.len() ==> urls_unique(#[trigger] ts@[k].postings@),
    ensures
        distinct_urls(hits_urls(r@)),
        forall|u: Seq<char>| #[trigger] hits_urls(r@).contains(u) <==> listed_in(ts@, u),
        forall|x: int| 0 <= x < r@.len() ==> hit_views((#[trigger] r@[x]).hits@) == hits_of(ts@, r@[x].url@),
{
    let mut r: Vec<DocHits> = Vec::new();
    let mut k: usize = 0;
    assert(ts@.take(0) =~= Seq::<TermPostings>::empty());
    assert(hits_urls(r@) =~= Seq::<Seq<char>>::empty());
    while k < ts.len()
        invariant
            k <= ts@.len(),
            forall|k: int| 0 <= k < ts@.len() ==> urls_unique(#[trigger] ts@[k].postings@),
            distinct_urls(hits_urls(r@)),
            forall|u: Seq<char>| #[trigger] hits_urls(r@).contains(u) <==> listed_in(ts@.take(k as int), u),
            forall|x: int|
                0 <= x < r@.len() ==> hit_views((#[trigger] r@[x]).hits@) == hits_of(
                    ts@.take(k as int),
                    r@[x].url@,
                ),
        decreases ts.len() - k,
    {
        let ps = &ts[k].postings;
        let ghost pre = ts@.take(k as int);
        let ghost pm = postings_map(ps@);
        let ghost len = ps@.len() as nat;
        proof {
            assert(urls_unique(ps@));
            lemma_postings_map(ps@);
        }
        let mut j: usize = 0;
        while j < ps.len()
            invariant
                j <= ps@.len(),
                ps@ == ts@[k as int].postings@,
                pm == postings_map(ps@),
                len == ps@.len(),
                urls_unique(ps@),
                forall|i: int| 0 <= i < ps@.len() ==> pm[(#[trigger] ps@[i]).url@] == ps@[i].count,
                pre == ts@.take(k as int),
                distinct_urls(hits_urls(r@)),
                forall|u: Seq<char>|
                    #[trigger] hits_urls(r@).contains(u) <==> listed_in(pre, u) || exists|i: int|
                        0 <= i < j && (#[trigger] ps@[i]).url@ == u,
                forall|x: int|
                    0 <= x < r@.len() ==> hit_views((#[trigger] r@[x]).hits@) == hits_of(
                        pre,
                        r@[x].url@,
                    ) + if exists|i: int| 0 <= i < j && (#[trigger] ps@[i]).url@ == r@[x].url@ {
                        seq![(pm[r@[x].url@], len)]
                    } else {
                        seq![]
                    },
            decreases ps.len() - j,
        {
            let u = &ps[j].url;
            let hit = TermHit { count: ps[j].count, df: ps.len() };
            let ghost r0 = r@;
            assert(pm[u@] == hit.count);
            assert(forall|i: int| 0 <= i < j ==> (#[trigger] ps@[i]).url@ != u@);
            match find_doc(&r, u) {
                Some(xf) => {
                    let mut d = r.remove(xf);
                    d.hits.push(hit);
                    r.insert(xf, d);
                    proof {
                        assert(r@ =~= r0.update(xf as int, d));
                        assert(hits_urls(r@) =~= hits_urls(r0));
                        assert(hits_urls(r0)[xf as int] == u@);
                        assert(hit_views(d.hits@) =~= hit_views(r0[xf as int].hits@).push(
                            (hit.count as nat, hit.df as nat),
                        ));
                        assert forall|x: int| 0 <= x < r@.len() implies hit_views(
                            (#[trigger] r@[x]).hits@,
                        ) == hits_of(pre, r@[x].url@) + if exists|i: int|
                            0 <= i < j + 1 && (#[trigger] ps@[i]).url@ == r@[x].url@ {
                            seq![(pm[r@[x].url@], len)]
                        } else {
                            seq![]
                        } by {
                            if x == xf {
                                assert(ps@[j as int].url@ == u@);
                                assert(hit_views(r0[x].hits@) == hits_of(pre, u@));
                            } else {
                                assert(r@[x] == r0[x]);
                                assert(hits_urls(r0)[x] != hits_urls(r0)[xf as int]);
                                if exists|i: int|
                                    0 <= i < j + 1 && (#[trigger] ps@[i]).url@ == r@[x].url@ {
                                    let i = choose|i: int|
                                        0 <= i < j + 1 && (#[trigger] ps@[i]).url@ == r@[x].url@;
                                    assert(i < j);
                                }
                            }
                        }
                    }
                },
                None => {
                    let mut hs: Vec<TermHit> = Vec::new();
                    hs.push(hit);
                    let d = DocHits { url: u.clone(), hits: hs };
                    r.push(d);
                    proof {
                        assert(hits_urls(r@) =~= hits_urls(r0).push(u@));
                        assert(hits_urls(r@)[r@.len() - 1] == u@);
                        assert(!hits_urls(r0).contains(u@)) by {
                            if hits_urls(r0).contains(u@) {
                                let y = choose|y: int|
                                    0 <= y < hits_urls(r0).len() && hits_urls(r0)[y] == u@;
                                assert(r0[y].url@ == u@);
                            }
                        }
                        assert(!listed_in(pre, u@));
                        lemma_no_hits(pre, u@);
                        assert(hit_views(d.hits@) =~= seq![(hit.count as nat, hit.df as nat)]);
                        assert forall|x: int| 0 <= x < r@.len() implies hit_views(
                            (#[trigger] r@[x]).hits@,
                        ) == hits_of(pre, r@[x].url@) + if exists|i: int|
                            0 <= i < j + 1 && (#[trigger] ps@[i]).url@ == r@[x].url@ {
                            seq![(pm[r@[x].url@], len)]
                        } else {
                            seq![]
                        } by {
                            if x == r0.len() {
                                assert(ps@[j as int].url@ == u@);
                                assert(hits_of(pre, u@) + seq![(pm[u@], len)] =~= seq![(pm[u@], len)]);
                            } else {
                                assert(r@[x] == r0[x]);
                                if exists|i: int|
                                    0 <= i < j + 1 && (#[trigger] ps@[i]).url@ == r@[x].url@ {
                                    let i = choose|i: int|
                                        0 <= i < j + 1 && (#[trigger] ps@[i]).url@ == r@[x].url@;
                                    assert(i < j);
                                }
                            }
                        }
                    }
                },
            }
            proof {
                assert forall|v: Seq<char>|
                    #[trigger] hits_urls(r@).contains(v) <==> listed_in(pre, v) || exists|i: int|
                        0 <= i < j + 1 && (#[trigger] ps@[i]).url@ == v by {
                    if v == u@ {
                        assert(ps@[j as int].url@ == v);
                        if hits_urls(r0).contains(v) {
                            let y = choose|y: int| 0 <= y < hits_urls(r0).len() && hits_urls(r0)[y] == v;
                            assert(hits_urls(r@)[y] == v);
                        } else {
                            assert(hits_urls(r@)[r@.len() - 1] == v);
                        }
                    } else {
                        if hits_urls(r@).contains(v) {
                            let y = choose|y: int| 0 <= y < hits_urls(r@).len() && hits_urls(r@)[y] == v;
                            assert(hits_urls(r0)[y] == v);
                        }
                        if hits_urls(r0).contains(v) {
                            let y = choose|y: int| 0 <= y < hits_urls(r0).len() && hits_urls(r0)[y] == v;
                            assert(hits_urls(r@)[y] == v);
                        }
                        if exists|i: int| 0 <= i < j + 1 && (#[trigger] ps@[i]).url@ == v {
                            let i = choose|i: int| 0 <= i < j + 1 && (#[trigger] ps@[i]).url@ == v;
                            assert(i < j);
                        }
                    }
                }
            }
            j += 1;
        }
        proof {
            let post = ts@.take(k + 1);
            assert(post.drop_last() =~= pre);
            assert(post.last() == ts@[k as int]);
            assert forall|u: Seq<char>| listed_in(post, u) <==> listed_in(pre, u) || pm.contains_key(u) by {
                if listed_in(post, u) {
                    let q = choose|q: int| 0 <= q < post.len() && #[trigger] postings_map(post[q].postings@).contains_key(u);
                    if q < k {
                        assert(pre[q] == post[q]);
                    }
                }
                if listed_in(pre, u) {
                    let q = choose|q: int| 0 <= q < pre.len() && #[trigger] postings_map(pre[q].postings@).contains_key(u);
                    assert(post[q] == pre[q]);
                }
                if pm.contains_key(u) {
                    assert(postings_map(post[k as int].postings@).contains_key(u));
                }
            }
            assert forall|u: Seq<char>| #[trigger] hits_urls(r@).contains(u) <==> listed_in(post, u) by {
                if pm.contains_key(u) {
                    let i = choose|i: int| 0 <= i < ps@.len() && (#[trigger] ps@[i]).url@ == u;
                    assert(ps@[i].url@ == u);
                }
            }
            assert forall|x: int| 0 <= x < r@.len() implies hit_views((#[trigger] r@[x]).hits@) == hits_of(
                post,
                r@[x].url@,
            ) by {
                let w = r@[x].url@;
                if pm.contains_key(w) {
                    let i = choose|i: int| 0 <= i < ps@.len() && (#[trigger] ps@[i]).url@ == w;
                    assert(ps@[i].url@ == w);
                }
            }
        }
        k += 1;
    }
    assert(ts@.take(ts@.len() as int) =~= ts@);
    r
}

/// No two urls are equal.
pub open spec fn distinct_urls(s: Seq<Seq<char>>) -> bool {
    forall|i: int, j: int| 0 <= i < j < s.len() ==> s[i] != s[j]
}

} // verus!

//! Ordering scored documents: best score first, equal scores by url.

use vstd::prelude::*;

use crate::order::{lemma_less_irreflexive, lemma_less_total, lemma_less_transitive, seq_less, str_less};

verus! {

/// A document with its score, as an order-preserving integer key: a larger
/// key is a better score.
#[derive(Debug, Clone)]
pub struct Scored {
    pub url: String,
    pub key: u64,
}

/// `a` may stand before `b`: a better score, or an equal one and a url that
/// does not come after.
pub open spec fn precedes(a: Scored, b: Scored) -> bool {
    a.key > b.key || (a.key == b.key && !seq_less(b.url@, a.url@))
}

/// Best score first; among equal scores, urls in lexicographic order.
pub open spec fn ranked(s: Seq<Scored>) -> bool {
    forall|i: int, j: int| 0 <= i < j < s.len() ==> precedes(s[i], s[j])
}

proof fn lemma_precedes_transitive(a: Scored, b: Scored, c: Scored)
    requires
        precedes(a, b),
        precedes(b, c),
    ensures
        precedes(a, c),
{
    if a.key == b.key && b.key == c.key && seq_less(c.url@, a.url@) {
        if a.url@ == b.url@ {
        } else {
            lemma_less_total(a.url@, b.url@);
            if seq_less(a.url@, b.url@) {
                lemma_less_transitive(c.url@, a.url@, b.url@);
            }
        }
    }
}

proof fn lemma_not_precedes(a: Scored, b: Scored)
    requires
        !precedes(b, a),
    ensures
        precedes(a, b),
{
    if a.key == b.key {
        if a.url@ == b.url@ {
            lemma_less_irreflexive(a.url@);
        } else {
            lemma_less_total(a.url@, b.url@);
            if seq_less(b.url@, a.url@) {
                lemma_less_transitive(b.url@, a.url@, b.url@);
                lemma_less_irreflexive(b.url@);
            }
        }
    }
}

/// The same documents, best score first and equal scores by url.
pub fn rank_desc(v: &Vec<Scored>) -> (r: Vec<Scored>)
    ensures
        ranked(r@),
        r@.to_multiset() == v@.to_multiset(),
{
    let mut r: Vec<Scored> = Vec::new();
    let mut i: usize = 0;
    assert(v@.take(0) =~= Seq::<Scored>::empty());
    while i < v.len()
        invariant
            i <= v@.len(),
            ranked(r@),
            r@.to_multiset() == v@.take(i as int).to_multiset(),
        decreases v.len() - i,
    {
        let x = Scored { url: v[i].url.clone(), key: v[i].key };
        assert(x == v@[i as int]);
        let mut p: usize = 0;
        while p < r.len() && precedes_exec(&r[p], &x)
            invariant
                p <= r@.len(),
                forall|k: int| 0 <= k < p ==> precedes(#[trigger] r@[k], x),
            decreases r@.len() - p,
        {
            p += 1;
        }
        proof {
            if p < r@.len() {
                lemma_not_precedes(x, r@[p as int]);
            }
        }
        let ghost s = r@;
        r.insert(p, x);
        assert(r@ =~= s.insert(p as int, x));
        assert forall|a: int, b: int| 0 <= a < b < r@.len() implies precedes(r@[a], r@[b]) by {
            if a == p && b > p + 1 {
                lemma_precedes_transitive(x, s[p as int], s[b - 1]);
            }
        }
        assert(v@.take(i + 1) =~= v@.take(i as int).push(x));
        proof {
            vstd::seq_lib::to_multiset_insert(s, p as int, x);
            vstd::seq_lib::to_multiset_build(v@.take(i as int), x);
        }
        i += 1;
    }
    assert(v@.take(v@.len() as int) =~= v@);
    r
}

fn precedes_exec(a: &Scored, b: &Scored) -> (r: bool)
    ensures
        r == precedes(*a, *b),
{
    a.key > b.key || (a.key == b.key && !str_less(&b.url, &a.url))
}

} // verus!

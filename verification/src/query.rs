//! Query resolution: term lookup and ranking.
//!
//! A query is a single term, used exactly as the caller hands it over (it
//! is not re-normalized; a query whose case or punctuation differs from
//! the normalized form of the indexed term will not match). The result is
//! the term's postings, ranked by term frequency, highest first. A term
//! that is not indexed yields the empty result; that is a normal outcome,
//! not an error.

use vstd::prelude::*;

use crate::index::lemma_has_term_index;
use crate::index::lemma_no_term_postings;
use crate::index::lemma_postings_at_last_match;
use crate::index::InvertedIndex;
use crate::index::Posting;

verus! {

broadcast use vstd::seq_lib::group_to_multiset_ensures;

/// Reorders a postings list in place into descending frequency order.
fn sort_postings(v: &mut Vec<Posting>)
    ensures
        final (v)@.to_multiset() == old(v)@.to_multiset(),
        forall|a: int, b: int| 0 <= a < b < final (v)@.len() ==> (#[trigger] final (v)@[a]).tf >= (
        #[trigger] final (v)@[b]).tf,
{
    let n = v.len();
    let mut i: usize = 1;
    while i < n
        invariant
            1 <= i <= n || (n == 0 && i == 1),
            n == v@.len(),
            v@.to_multiset() == old(v)@.to_multiset(),
            forall|a: int, b: int|
                0 <= a < b < i ==> (#[trigger] v@[a]).tf >= (#[trigger] v@[b]).tf,
        decreases n - i,
    {
        let mut j: usize = i;
        while j > 0 && v[j - 1].tf < v[j].tf
            invariant
                0 <= j <= i < n == v@.len(),
                v@.to_multiset() == old(v)@.to_multiset(),
                forall|a: int, b: int|
                    0 <= a < b <= i && a != j && b != j ==> (#[trigger] v@[a]).tf >= (
                    #[trigger] v@[b]).tf,
                forall|b: int| j < b <= i ==> (#[trigger] v@[b]).tf <= v@[j as int].tf,
            decreases j,
        {
            let ghost before = v@;
            let moving = v.remove(j);
            v.insert(j - 1, moving);
            proof {
                assert(v@ =~= before.update(j as int, before[j - 1]).update(j - 1, before[j as int]));
                assert(before.remove(j as int).to_multiset() == before.to_multiset().remove(
                    before[j as int],
                ));
                assert(before.to_multiset().count(before[j as int]) > 0) by {
                    assert(before.contains(before[j as int]));
                }
                assert(v@.to_multiset() =~= before.to_multiset()) by {
                    broadcast use vstd::multiset::group_multiset_axioms;

                };
            }
            j -= 1;
        }
        i += 1;
    }
}

/// Resolves a single-term query against the index: all postings of the
/// queried term, ranked by term frequency, highest first. A term the
/// index does not hold yields the empty result, never an error.
pub fn search(query: &String, index: &InvertedIndex) -> (r: Vec<Posting>)
    ensures
        r@.to_multiset() == index.postings_of(query@).to_multiset(),
        forall|a: int, b: int|
            0 <= a < b < r@.len() ==> (#[trigger] r@[a]).tf >= (#[trigger] r@[b]).tf,
        !index.has_term(query@) ==> r@.len() == 0,
{
    let n = index.entries.len();
    let mut pos: usize = n;
    let mut j: usize = 0;
    while j < n
        invariant
            0 <= j <= n,
            pos <= n,
            n == index.entries@.len(),
            pos == n ==> forall|k: int| 0 <= k < j ==> (#[trigger] index.entries@[k].term@)
                != query@,
            pos < n ==> pos < j && index.entries@[pos as int].term@ == query@ && forall|k: int|
                pos < k < j ==> (#[trigger] index.entries@[k].term@) != query@,
        decreases n - j,
    {
        if index.entries[j].term == *query {
            pos = j;
        }
        j += 1;
    }
    if pos == n {
        proof {
            lemma_has_term_index(index.entries@, query@);
            lemma_no_term_postings(index.entries@, query@);
        }
        let r: Vec<Posting> = Vec::new();
        proof {
            assert(r@.to_multiset() =~= index.postings_of(query@).to_multiset());
        }
        return r;
    }
    proof {
        lemma_postings_at_last_match(index.entries@, pos as int, query@);
    }
    let ps = &index.entries[pos].postings;
    let mut r: Vec<Posting> = Vec::new();
    let mut m: usize = 0;
    while m < ps.len()
        invariant
            0 <= m <= ps@.len(),
            ps@ == index.postings_of(query@),
            r@ == ps@.take(m as int),
        decreases ps@.len() - m,
    {
        r.push(ps[m]);
        proof {
            assert(ps@.take(m as int + 1) =~= ps@.take(m as int).push(ps@[m as int]));
        }
        m += 1;
    }
    proof {
        assert(ps@.take(ps@.len() as int) =~= ps@);
    }
    sort_postings(&mut r);
    r
}

} // verus!

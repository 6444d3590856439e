//! Sorting by rank.

use vstd::prelude::*;
use vstd::relations::*;
use vstd::seq_lib::*;

verus! {

/// The rank of an entry of a list, and where in the list it stands.
#[derive(Debug, Clone, Copy, PartialEq, Eq, Structural)]
pub struct Ranked {
    pub rank: i64,
    pub index: usize,
}

/// Higher ranks come first, and of equal ones the one that stands first in the list.
pub open spec fn precedes(a: Ranked, b: Ranked) -> bool {
    a.rank > b.rank || (a.rank == b.rank && a.index <= b.index)
}

pub open spec fn by_rank() -> spec_fn(Ranked, Ranked) -> bool {
    |a: Ranked, b: Ranked| precedes(a, b)
}

/// The entries of a list of ranks.
pub open spec fn entries(ranks: Seq<i64>) -> Seq<Ranked> {
    Seq::new(ranks.len(), |i: int| Ranked { rank: ranks[i], index: i as usize })
}

/// The indices of a list of ranks, from the highest rank to the lowest; equal ranks stay in
/// the order of the list.
pub open spec fn ranking(ranks: Seq<i64>) -> Seq<int> {
    entries(ranks).sort_by(by_rank()).map_values(|e: Ranked| e.index as int)
}

proof fn lemma_by_rank_total()
    ensures
        total_ordering(by_rank()),
{
    let r = by_rank();
    assert forall|a: Ranked, b: Ranked| #[trigger] r(a, b) && #[trigger] r(b, a) implies a == b by {
        assert(a.rank == b.rank && a.index == b.index);
    }
}

fn comes_first(a: Ranked, b: Ranked) -> (r: bool)
    ensures
        r == precedes(a, b),
{
    a.rank > b.rank || (a.rank == b.rank && a.index <= b.index)
}

fn merge(a: &Vec<Ranked>, b: &Vec<Ranked>) -> (r: Vec<Ranked>)
    requires
        sorted_by(a@, by_rank()),
        sorted_by(b@, by_rank()),
    ensures
        sorted_by(r@, by_rank()),
        r@.to_multiset() == (a@ + b@).to_multiset(),
{
    let mut r: Vec<Ranked> = Vec::new();
    let mut i: usize = 0;
    let mut j: usize = 0;
    proof {
        assert(a@.take(0) =~= Seq::empty());
        assert(b@.take(0) =~= Seq::empty());
        lemma_multiset_commutative(a@.take(0), b@.take(0));
        assert(a@.take(0) + b@.take(0) =~= r@);
    }
    while i < a.len() || j < b.len()
        invariant
            i <= a.len(),
            j <= b.len(),
            sorted_by(a@, by_rank()),
            sorted_by(b@, by_rank()),
            sorted_by(r@, by_rank()),
            forall|p: int, q: int|
                #![trigger r@[p], a@[q]]
                0 <= p < r@.len() && i <= q < a@.len() ==> precedes(r@[p], a@[q]),
            forall|p: int, q: int|
                #![trigger r@[p], b@[q]]
                0 <= p < r@.len() && j <= q < b@.len() ==> precedes(r@[p], b@[q]),
            r@.to_multiset() == a@.take(i as int).to_multiset().add(b@.take(j as int).to_multiset()),
        decreases a.len() - i + b.len() - j,
    {
        broadcast use group_to_multiset_ensures;
        broadcast use vstd::multiset::group_multiset_axioms;

        let ghost before = r@;
        if j >= b.len() || (i < a.len() && comes_first(a[i], b[j])) {
            proof {
                assert(a@.take(i + 1) =~= a@.take(i as int).push(a@[i as int]));
                assert forall|q: int| i < q < a@.len() implies precedes(a@[i as int], a@[q]) by {
                    assert(by_rank()(a@[i as int], a@[q]));
                }
                assert forall|q: int| j <= q < b@.len() implies precedes(a@[i as int], b@[q]) by {
                    if j < q {
                        assert(by_rank()(b@[j as int], b@[q]));
                    }
                }
            }
            r.push(a[i]);
            i = i + 1;
        } else {
            proof {
                assert(b@.take(j + 1) =~= b@.take(j as int).push(b@[j as int]));
                assert forall|q: int| j < q < b@.len() implies precedes(b@[j as int], b@[q]) by {
                    assert(by_rank()(b@[j as int], b@[q]));
                }
                assert forall|q: int| i <= q < a@.len() implies precedes(b@[j as int], a@[q]) by {
                    if i < q {
                        assert(by_rank()(a@[i as int], a@[q]));
                    }
                }
            }
            r.push(b[j]);
            j = j + 1;
        }
        assert forall|p: int, q: int| 0 <= p < q < r@.len() implies #[trigger] by_rank()(
            r@[p],
            r@[q],
        ) by {
            if q < before.len() {
                assert(by_rank()(before[p], before[q]));
            } else {
                assert(r@[p] == before[p]);
            }
        }
        assert(r@ =~= before.push(r@.last()));
        assert(r@.to_multiset() =~= a@.take(i as int).to_multiset().add(
            b@.take(j as int).to_multiset(),
        ));
    }
    proof {
        assert(a@.take(i as int) =~= a@);
        assert(b@.take(j as int) =~= b@);
        lemma_multiset_commutative(a@, b@);
    }
    r
}

fn part(v: &Vec<Ranked>, from: usize, to: usize) -> (r: Vec<Ranked>)
    requires
        from <= to <= v.len(),
    ensures
        r@ == v@.subrange(from as int, to as int),
{
    let mut r: Vec<Ranked> = Vec::new();
    let mut i: usize = from;
    while i < to
        invariant
            from <= i <= to <= v.len(),
            r@ == v@.subrange(from as int, i as int),
        decreases to - i,
    {
        r.push(v[i]);
        i = i + 1;
    }
    r
}

pub fn sort(v: Vec<Ranked>) -> (r: Vec<Ranked>)
    ensures
        r@ == v@.sort_by(by_rank()),
    decreases v.len(),
{
    let n: usize = v.len();
    proof {
        lemma_by_rank_total();
        v@.lemma_sort_by_ensures(by_rank());
    }
    if n <= 1 {
        proof {
            lemma_sorted_unique(v@, v@.sort_by(by_rank()), by_rank());
        }
        return v;
    }
    let left = part(&v, 0, n / 2);
    let right = part(&v, n / 2, n);
    let ghost l = left@;
    let ghost h = right@;
    let left = sort(left);
    let right = sort(right);
    proof {
        l.lemma_sort_by_ensures(by_rank());
        h.lemma_sort_by_ensures(by_rank());
    }
    let r = merge(&left, &right);
    proof {
        assert(l + h =~= v@);
        lemma_multiset_commutative(l, h);
        lemma_multiset_commutative(left@, right@);
        lemma_sorted_unique(r@, v@.sort_by(by_rank()), by_rank());
    }
    r
}

/// The indices of a list from its highest entry to its lowest.
pub fn order(ranks: &[i64]) -> (r: Vec<usize>)
    ensures
        r@.map_values(|i: usize| i as int) == ranking(ranks@),
{
    let mut v: Vec<Ranked> = Vec::new();
    let mut i: usize = 0;
    while i < ranks.len()
        invariant
            i <= ranks.len(),
            v@ == entries(ranks@).take(i as int),
        decreases ranks.len() - i,
    {
        v.push(Ranked { rank: ranks[i], index: i });
        i = i + 1;
    }
    assert(entries(ranks@).take(i as int) =~= entries(ranks@));
    let sorted = sort(v);
    let mut r: Vec<usize> = Vec::new();
    let mut k: usize = 0;
    while k < sorted.len()
        invariant
            k <= sorted.len(),
            r.len() == k,
            forall|j: int| 0 <= j < k ==> r@[j] == sorted@[j].index,
        decreases sorted.len() - k,
    {
        r.push(sorted[k].index);
        k = k + 1;
    }
    assert(r@.map_values(|i: usize| i as int) =~= ranking(ranks@));
    r
}

/// Sorting moves the entries of a list into order and keeps all of them.
pub proof fn lemma_sorted(v: Seq<Ranked>)
    ensures
        v.sort_by(by_rank()).to_multiset() == v.to_multiset(),
        v.sort_by(by_rank()).len() == v.len(),
        forall|e: Ranked| v.sort_by(by_rank()).contains(e) ==> #[trigger] v.contains(e),
        forall|p: int, q: int|
            #![trigger v.sort_by(by_rank())[p], v.sort_by(by_rank())[q]]
            0 <= p < q < v.len() ==> precedes(v.sort_by(by_rank())[p], v.sort_by(by_rank())[q]),
{
    lemma_by_rank_total();
    v.lemma_sort_by_ensures(by_rank());
    let sorted = v.sort_by(by_rank());
    to_multiset_len(v);
    to_multiset_len(sorted);
    assert forall|p: int, q: int|
        #![trigger sorted[p], sorted[q]]
        0 <= p < q < v.len() implies precedes(sorted[p], sorted[q]) by {
        assert(by_rank()(sorted[p], sorted[q]));
    }
}

/// A ranking holds every index once, and no index comes before one of a higher rank.
pub proof fn lemma_ranking(ranks: Seq<i64>)
    requires
        ranks.len() <= usize::MAX,
    ensures
        ranking(ranks).len() == ranks.len(),
        forall|p: int|
            0 <= p < ranks.len() ==> 0 <= #[trigger] ranking(ranks)[p] < ranks.len(),
        forall|k: int| 0 <= k < ranks.len() ==> #[trigger] ranking(ranks).contains(k),
        forall|p: int, q: int|
            #![trigger ranking(ranks)[p], ranking(ranks)[q]]
            0 <= p < q < ranks.len() ==> {
                let a = ranking(ranks)[p];
                let b = ranking(ranks)[q];
                ranks[a] > ranks[b] || (ranks[a] == ranks[b] && a < b)
            },
{
    broadcast use group_to_multiset_ensures;
    broadcast use vstd::multiset::group_multiset_axioms;

    let es = entries(ranks);
    let sorted = es.sort_by(by_rank());
    lemma_by_rank_total();
    es.lemma_sort_by_ensures(by_rank());
    assert(sorted.len() == es.len()) by {
        to_multiset_len(es);
        to_multiset_len(sorted);
    }
    assert forall|p: int| 0 <= p < sorted.len() implies 0 <= (#[trigger] sorted[p]).index
        < ranks.len() && sorted[p].rank == ranks[sorted[p].index as int] by {
        assert(sorted.contains(sorted[p]));
        let i = choose|i: int| 0 <= i < es.len() && es[i] == sorted[p];
        assert(es.contains(sorted[p]));
    }
    assert forall|k: int| 0 <= k < ranks.len() implies #[trigger] ranking(ranks).contains(k) by {
        assert(es.contains(es[k]));
        assert(sorted.to_multiset().count(es[k]) > 0);
        assert(sorted.contains(es[k]));
        let p = choose|p: int| 0 <= p < sorted.len() && sorted[p] == es[k];
        assert(ranking(ranks)[p] == k);
    }
    assert(es.no_duplicates());
    es.lemma_multiset_has_no_duplicates();
    sorted.lemma_multiset_has_no_duplicates_conv();
    assert forall|p: int, q: int|
        #![trigger ranking(ranks)[p], ranking(ranks)[q]]
        0 <= p < q < ranks.len() implies {
        let a = ranking(ranks)[p];
        let b = ranking(ranks)[q];
        ranks[a] > ranks[b] || (ranks[a] == ranks[b] && a < b)
    } by {
        assert(by_rank()(sorted[p], sorted[q]));
        assert(sorted[p] != sorted[q]);
    }
}

} // verus!

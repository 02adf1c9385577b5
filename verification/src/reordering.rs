use vstd::multiset::Multiset;
use vstd::prelude::*;
use vstd::seq_lib::*;

use crate::strategy::{
    candidates, candidates_upto, gaps_shaped, is_sorted_by_net_desc, lemma_sort_by_net_desc, pair_opportunity,
    row_candidates, sort_by_net_desc,
};
use crate::types::{Opportunity, PoolPrice};

verus! {

/// The indices `0, 1, ..., n - 1`.
pub open spec fn index_range(n: nat) -> Seq<int> {
    Seq::new(n, |i: int| i)
}

/// `perm` lists each index of `0..n` exactly once.
pub open spec fn is_permutation(perm: Seq<int>, n: nat) -> bool {
    perm.to_multiset() =~= index_range(n).to_multiset()
}

/// `prices2` and `gaps2` are `prices` and `gaps` listed in another order:
/// entry `i` of the new list is entry `perm[i]` of the old one, and the gap
/// between new entries `i` and `j` is the gap between old entries `perm[i]`
/// and `perm[j]`.
pub open spec fn is_reordering(
    prices: Seq<PoolPrice>,
    gaps: Seq<Vec<Option<i64>>>,
    prices2: Seq<PoolPrice>,
    gaps2: Seq<Vec<Option<i64>>>,
    perm: Seq<int>,
) -> bool {
    &&& is_permutation(perm, prices.len())
    &&& gaps_shaped(prices, gaps)
    &&& gaps_shaped(prices2, gaps2)
    &&& prices2.len() == prices.len()
    &&& forall|i: int| 0 <= i < prices.len() ==> #[trigger] prices2[i] == prices[perm[i]]
    &&& forall|i: int, j: int|
        0 <= i < prices.len() && 0 <= j < prices.len() ==> #[trigger] gaps2[i]@[j] == gaps[perm[i]]@[perm[j]]
}

/// The union of `g(i)` over the indices `i` of `idx`.
pub open spec fn msum(idx: Seq<int>, g: spec_fn(int) -> Multiset<Opportunity>) -> Multiset<Opportunity>
    decreases idx.len(),
{
    if idx.len() == 0 {
        Multiset::empty()
    } else {
        msum(idx.drop_last(), g).add(g(idx.last()))
    }
}

/// The opportunity of a pair, as a multiset of at most one element.
pub open spec fn opt_ms(o: Option<Opportunity>) -> Multiset<Opportunity> {
    match o {
        Some(x) => Multiset::empty().insert(x),
        None => Multiset::empty(),
    }
}

proof fn lemma_msum_remove(b: Seq<int>, g: spec_fn(int) -> Multiset<Opportunity>, k: int)
    requires
        0 <= k < b.len(),
    ensures
        msum(b, g) =~= msum(b.remove(k), g).add(g(b[k])),
    decreases b.len(),
{
    broadcast use vstd::multiset::group_multiset_axioms;

    if k == b.len() - 1 {
        assert(b.remove(k) =~= b.drop_last());
    } else {
        let dl = b.drop_last();
        lemma_msum_remove(dl, g, k);
        assert(b.remove(k).drop_last() =~= dl.remove(k));
        assert(b.remove(k).last() == b.last());
    }
}

proof fn lemma_msum_permuted(a: Seq<int>, b: Seq<int>, g: spec_fn(int) -> Multiset<Opportunity>)
    requires
        a.to_multiset() =~= b.to_multiset(),
    ensures
        msum(a, g) == msum(b, g),
    decreases a.len(),
{
    broadcast use vstd::multiset::group_multiset_axioms;

    a.to_multiset_ensures();
    b.to_multiset_ensures();
    if a.len() > 0 {
        let x: int = a.last();
        let dl = a.drop_last();
        assert(a =~= dl.push(x));
        dl.to_multiset_ensures();
        assert(a.to_multiset().count(x) > 0);
        assert(b.contains(x));
        let k: int = choose|k: int| 0 <= k < b.len() && b[k] == x;
        assert(b.remove(k).to_multiset() =~= b.to_multiset().remove(x));
        assert(dl.to_multiset() =~= a.to_multiset().remove(x));
        lemma_msum_permuted(dl, b.remove(k), g);
        lemma_msum_remove(b, g, k);
    }
}

proof fn lemma_msum_ext(a: Seq<int>, g1: spec_fn(int) -> Multiset<Opportunity>, g2: spec_fn(int) -> Multiset<Opportunity>)
    requires
        forall|i: int| 0 <= i < a.len() ==> g1(#[trigger] a[i]) == g2(a[i]),
    ensures
        msum(a, g1) == msum(a, g2),
    decreases a.len(),
{
    if a.len() > 0 {
        lemma_msum_ext(a.drop_last(), g1, g2);
        assert(g1(a[a.len() - 1]) == g2(a[a.len() - 1]));
    }
}

proof fn lemma_msum_compose(a: Seq<int>, perm: Seq<int>, g: spec_fn(int) -> Multiset<Opportunity>)
    requires
        forall|i: int| 0 <= i < a.len() ==> 0 <= #[trigger] a[i] < perm.len(),
    ensures
        msum(a, |i: int| g(perm[i])) == msum(a.map_values(|i: int| perm[i]), g),
    decreases a.len(),
{
    if a.len() > 0 {
        lemma_msum_compose(a.drop_last(), perm, g);
        assert(a.map_values(|i: int| perm[i]).drop_last() =~= a.drop_last().map_values(|i: int| perm[i]));
    }
}

proof fn lemma_row_msum(
    prices: Seq<PoolPrice>,
    gaps: Seq<Vec<Option<i64>>>,
    b: int,
    upto: nat,
    min_profit_bps: i64,
    safety_margin_bps: i64,
)
    ensures
        row_candidates(prices, gaps, b, upto as int, min_profit_bps, safety_margin_bps).to_multiset() =~= msum(
            index_range(upto),
            |s: int| opt_ms(pair_opportunity(prices, gaps, b, s, min_profit_bps, safety_margin_bps)),
        ),
    decreases upto,
{
    broadcast use vstd::multiset::group_multiset_axioms;

    let row = row_candidates(prices, gaps, b, upto as int, min_profit_bps, safety_margin_bps);
    row.to_multiset_ensures();
    if upto == 0 {
        vstd::multiset::lemma_multiset_empty_len(row.to_multiset());
    } else {
        lemma_row_msum(prices, gaps, b, (upto - 1) as nat, min_profit_bps, safety_margin_bps);
        assert(index_range(upto).drop_last() =~= index_range((upto - 1) as nat));
        let prev = row_candidates(prices, gaps, b, upto - 1, min_profit_bps, safety_margin_bps);
        prev.to_multiset_ensures();
    }
}

proof fn lemma_candidates_msum(
    prices: Seq<PoolPrice>,
    gaps: Seq<Vec<Option<i64>>>,
    upto: nat,
    min_profit_bps: i64,
    safety_margin_bps: i64,
)
    ensures
        candidates_upto(prices, gaps, upto as int, min_profit_bps, safety_margin_bps).to_multiset() =~= msum(
            index_range(upto),
            |b: int|
                row_candidates(prices, gaps, b, prices.len() as int, min_profit_bps, safety_margin_bps).to_multiset(),
        ),
    decreases upto,
{
    broadcast use vstd::multiset::group_multiset_axioms;

    let c = candidates_upto(prices, gaps, upto as int, min_profit_bps, safety_margin_bps);
    c.to_multiset_ensures();
    if upto == 0 {
        vstd::multiset::lemma_multiset_empty_len(c.to_multiset());
    } else {
        lemma_candidates_msum(prices, gaps, (upto - 1) as nat, min_profit_bps, safety_margin_bps);
        assert(index_range(upto).drop_last() =~= index_range((upto - 1) as nat));
        lemma_multiset_commutative(
            candidates_upto(prices, gaps, upto - 1, min_profit_bps, safety_margin_bps),
            row_candidates(prices, gaps, upto - 1, prices.len() as int, min_profit_bps, safety_margin_bps),
        );
    }
}

proof fn lemma_permutation_in_range(perm: Seq<int>, n: nat)
    requires
        is_permutation(perm, n),
    ensures
        perm.len() == n,
        forall|i: int| 0 <= i < perm.len() ==> 0 <= #[trigger] perm[i] < n,
        index_range(n).map_values(|i: int| perm[i]) =~= perm,
{
    perm.to_multiset_ensures();
    index_range(n).to_multiset_ensures();
    assert forall|i: int| 0 <= i < perm.len() implies 0 <= #[trigger] perm[i] < n by {
        assert(perm.contains(perm[i]));
        assert(index_range(n).to_multiset().count(perm[i]) > 0);
        assert(index_range(n).contains(perm[i]));
    }
}

/// Two rankings by net edge that hold the same opportunities list the same
/// net edges in the same order.
proof fn lemma_sorted_same_nets(a: Seq<Opportunity>, b: Seq<Opportunity>)
    requires
        is_sorted_by_net_desc(a),
        is_sorted_by_net_desc(b),
        a.to_multiset() =~= b.to_multiset(),
    ensures
        a.map_values(|o: Opportunity| o.estimated_net_bps) =~= b.map_values(|o: Opportunity| o.estimated_net_bps),
    decreases a.len(),
{
    broadcast use vstd::multiset::group_multiset_axioms;

    a.to_multiset_ensures();
    b.to_multiset_ensures();
    if a.len() > 0 {
        let x = a[0];
        assert(a.contains(x));
        assert(a.to_multiset().count(x) > 0);
        assert(b.to_multiset().count(x) > 0);
        assert(b.contains(x));
        let k: int = choose|k: int| 0 <= k < b.len() && b[k] == x;
        assert(b.contains(b[0]));
        assert(b.to_multiset().count(b[0]) > 0);
        assert(a.to_multiset().count(b[0]) > 0);
        assert(a.contains(b[0]));
        let i0: int = choose|i: int| 0 <= i < a.len() && a[i] == b[0];
        if i0 > 0 {
            assert(a[0].estimated_net_bps >= a[i0].estimated_net_bps);
        }
        if k > 0 {
            assert(b[0].estimated_net_bps >= b[k].estimated_net_bps);
        }
        let v: i64 = x.estimated_net_bps;
        assert(b[0].estimated_net_bps == v);
        let rest_a = a.drop_first();
        let rest_b = b.remove(k);
        assert(a.remove(0) =~= rest_a);
        assert(rest_a.to_multiset() =~= rest_b.to_multiset());
        assert(is_sorted_by_net_desc(rest_a));
        assert forall|i: int, j: int| 0 <= i < j < rest_b.len() implies rest_b[i].estimated_net_bps
            >= rest_b[j].estimated_net_bps by {
            let bi: int = if i < k { i } else { i + 1 };
            let bj: int = if j < k { j } else { j + 1 };
            assert(rest_b[i] == b[bi]);
            assert(rest_b[j] == b[bj]);
        }
        lemma_sorted_same_nets(rest_a, rest_b);
        let f = |o: Opportunity| o.estimated_net_bps;
        assert forall|j: int| 0 <= j < b.len() implies #[trigger] b.map_values(f)[j] == a.map_values(f)[j] by {
            if j == 0 {
            } else {
                assert(a.map_values(f)[j] == rest_a.map_values(f)[j - 1]);
                assert(rest_a.map_values(f)[j - 1] == rest_b.map_values(f)[j - 1]);
                if j - 1 < k {
                    assert(rest_b[j - 1] == b[j - 1]);
                    assert(b[0].estimated_net_bps >= b[j - 1].estimated_net_bps);
                    if j - 1 > 0 {
                        assert(b[j - 1].estimated_net_bps >= b[k].estimated_net_bps);
                    }
                    if j < k {
                        assert(b[0].estimated_net_bps >= b[j].estimated_net_bps);
                        assert(b[j].estimated_net_bps >= b[k].estimated_net_bps);
                    }
                } else {
                    assert(rest_b[j - 1] == b[j]);
                }
            }
        }
    }
}

/// Listing the prices in another order (with the gap matrix reordered the
/// same way) reports the same opportunities, and the same net edges in the
/// same order.
pub proof fn lemma_detect_ignores_price_order(
    prices: Seq<PoolPrice>,
    gaps: Seq<Vec<Option<i64>>>,
    prices2: Seq<PoolPrice>,
    gaps2: Seq<Vec<Option<i64>>>,
    perm: Seq<int>,
    min_profit_bps: i64,
    safety_margin_bps: i64,
)
    requires
        is_reordering(prices, gaps, prices2, gaps2, perm),
    ensures
        sort_by_net_desc(candidates(prices2, gaps2, min_profit_bps, safety_margin_bps)).to_multiset()
            =~= sort_by_net_desc(candidates(prices, gaps, min_profit_bps, safety_margin_bps)).to_multiset(),
        sort_by_net_desc(candidates(prices2, gaps2, min_profit_bps, safety_margin_bps)).map_values(
            |o: Opportunity| o.estimated_net_bps,
        ) =~= sort_by_net_desc(candidates(prices, gaps, min_profit_bps, safety_margin_bps)).map_values(
            |o: Opportunity| o.estimated_net_bps,
        ),
{
    let n: nat = prices.len();
    let r = index_range(n);
    lemma_permutation_in_range(perm, n);
    let row1 = |b: int| row_candidates(prices, gaps, b, n as int, min_profit_bps, safety_margin_bps).to_multiset();
    let row2 = |b: int| row_candidates(prices2, gaps2, b, n as int, min_profit_bps, safety_margin_bps).to_multiset();
    assert forall|i: int| 0 <= i < r.len() implies #[trigger] row2(r[i]) == row1(perm[r[i]]) by {
        let pi: int = perm[i];
        let g1 = |s: int| opt_ms(pair_opportunity(prices, gaps, pi, s, min_profit_bps, safety_margin_bps));
        let g2 = |s: int| opt_ms(pair_opportunity(prices2, gaps2, i, s, min_profit_bps, safety_margin_bps));
        lemma_row_msum(prices2, gaps2, i, n, min_profit_bps, safety_margin_bps);
        lemma_row_msum(prices, gaps, pi, n, min_profit_bps, safety_margin_bps);
        assert forall|j: int| 0 <= j < r.len() implies #[trigger] g2(r[j]) == (|s: int| g1(perm[s]))(r[j]) by {
            assert(prices2[i] == prices[pi]);
            assert(gaps2[i]@[j] == gaps[pi]@[perm[j]]);
            assert(prices2[j] == prices[perm[j]]);
        }
        lemma_msum_ext(r, g2, |s: int| g1(perm[s]));
        lemma_msum_compose(r, perm, g1);
        lemma_msum_permuted(perm, r, g1);
    }
    lemma_msum_ext(r, row2, |b: int| row1(perm[b]));
    lemma_msum_compose(r, perm, row1);
    lemma_msum_permuted(perm, r, row1);
    lemma_candidates_msum(prices, gaps, n, min_profit_bps, safety_margin_bps);
    lemma_candidates_msum(prices2, gaps2, n, min_profit_bps, safety_margin_bps);
    let c1 = candidates(prices, gaps, min_profit_bps, safety_margin_bps);
    let c2 = candidates(prices2, gaps2, min_profit_bps, safety_margin_bps);
    lemma_sort_by_net_desc(c1);
    lemma_sort_by_net_desc(c2);
    lemma_sorted_same_nets(sort_by_net_desc(c2), sort_by_net_desc(c1));
}

} // verus!

use vstd::prelude::*;
use vstd::multiset::Multiset;
use vstd::seq_lib::*;

use crate::types::{Opportunity, PoolConfig, PoolPrice, TradePlan};

verus! {

/// Whether an estimated net edge clears the configured minimum.
pub fn passes_threshold(estimated_net_bps: i64, min_profit_bps: i64) -> (passes: bool)
    ensures
        passes == (estimated_net_bps >= min_profit_bps),
{
    estimated_net_bps >= min_profit_bps
}

/// `amount * bps / 10_000` in integer arithmetic, the division truncated
/// toward zero.
pub open spec fn bps_share(amount: int, bps: int) -> int {
    let product: int = amount * bps;
    if product >= 0 {
        product / 10_000
    } else {
        -((-product) / 10_000)
    }
}

proof fn lemma_product_fits_i128(amount: u64, bps: i64)
    ensures
        i128::MIN <= amount as int * bps as int <= i128::MAX,
{
    assert(0 <= amount as int * (if bps >= 0 { bps as int } else { -(bps as int) })
        <= 0xffff_ffff_ffff_ffff * 0x8000_0000_0000_0000) by (nonlinear_arith)
        requires
            0 <= amount <= 0xffff_ffff_ffff_ffffint,
            -0x8000_0000_0000_0000int <= bps <= 0x7fff_ffff_ffff_ffffint,
    ;
    assert(amount as int * bps as int == if bps >= 0 {
        amount as int * bps as int
    } else {
        -(amount as int * (-(bps as int)))
    }) by (nonlinear_arith);
}

/// The lamport value of `bps` basis points of `amount_lamports`, as an `i64`
/// (the share is truncated toward zero, then wrapped into `i64`).
pub fn bps_to_lamports(amount_lamports: u64, bps: i64) -> (lamports: i64)
    ensures
        lamports == #[verifier::truncate] (bps_share(amount_lamports as int, bps as int) as i64),
        i64::MIN <= bps_share(amount_lamports as int, bps as int) <= i64::MAX ==> lamports
            == bps_share(amount_lamports as int, bps as int),
{
    proof {
        lemma_product_fits_i128(amount_lamports, bps);
    }
    let product: i128 = amount_lamports as i128 * bps as i128;
    let share: i128 = product / 10_000;
    assert(share == bps_share(amount_lamports as int, bps as int));
    #[verifier::truncate]
    (share as i64)
}

/// Sizes an opportunity at the configured maximum trade, with the profit that
/// its estimated net edge promises at that size.
pub fn size(opportunity: Opportunity, max_trade_lamports: u64) -> (plan: TradePlan)
    ensures
        plan.opportunity == opportunity,
        plan.amount_lamports == max_trade_lamports,
        plan.expected_profit_lamports == #[verifier::truncate] (bps_share(
            max_trade_lamports as int,
            opportunity.estimated_net_bps as int,
        ) as i64),
{
    let expected_profit_lamports: i64 = bps_to_lamports(max_trade_lamports, opportunity.estimated_net_bps);
    TradePlan { opportunity, amount_lamports: max_trade_lamports, expected_profit_lamports }
}

/// Whether two pools trade the same base/quote market.
pub open spec fn same_market(a: PoolConfig, b: PoolConfig) -> bool {
    a.base_mint@ == b.base_mint@ && a.quote_mint@ == b.quote_mint@
}

/// Whether buying on `buy` and selling on `sell` is a pair the detector looks at:
/// two distinct pools (by address) on the same market.
pub open spec fn distinct_pair(buy: PoolConfig, sell: PoolConfig) -> bool {
    buy.address@ != sell.address@ && same_market(buy, sell)
}

/// Everything the round trip costs in basis points: both pools' fees and bin
/// steps plus the configured safety margin.
pub open spec fn pair_costs(buy: PoolConfig, sell: PoolConfig, safety_margin_bps: i64) -> int {
    buy.fee_bps + sell.fee_bps + buy.bin_step_bps + sell.bin_step_bps + safety_margin_bps
}

/// Whether the detector computes costs and a net edge for the pair `(b, s)`:
/// a distinct pair on one market whose prices admit a trade.
pub open spec fn pair_priced(
    prices: Seq<PoolPrice>,
    gaps: Seq<Vec<Option<i64>>>,
    b: int,
    s: int,
) -> bool {
    distinct_pair(prices[b].pool, prices[s].pool) && gaps[b]@[s] is Some
}

/// The opportunity (if any) of buying on pool `b` and selling on pool `s`.
/// `gaps[b][s]` is the gross price gap in basis points, or `None` where the
/// two prices admit no trade (a price is not positive, or the sell price does
/// not exceed the buy price).
pub open spec fn pair_opportunity(
    prices: Seq<PoolPrice>,
    gaps: Seq<Vec<Option<i64>>>,
    b: int,
    s: int,
    min_profit_bps: i64,
    safety_margin_bps: i64,
) -> Option<Opportunity> {
    if pair_priced(prices, gaps, b, s) {
        let buy = prices[b].pool;
        let sell = prices[s].pool;
        let gross: i64 = gaps[b]@[s]->0;
        let net: int = gross - pair_costs(buy, sell, safety_margin_bps);
        if net >= min_profit_bps {
            Some(
                Opportunity {
                    buy_pool: buy,
                    sell_pool: sell,
                    gross_gap_bps: gross,
                    estimated_net_bps: net as i64,
                },
            )
        } else {
            None
        }
    } else {
        None
    }
}

/// The opportunities of row `b` (buy pool `b`) over sell pools `0..upto`, in order.
pub open spec fn row_candidates(
    prices: Seq<PoolPrice>,
    gaps: Seq<Vec<Option<i64>>>,
    b: int,
    upto: int,
    min_profit_bps: i64,
    safety_margin_bps: i64,
) -> Seq<Opportunity>
    decreases upto,
{
    if upto <= 0 {
        Seq::empty()
    } else {
        let prev = row_candidates(prices, gaps, b, upto - 1, min_profit_bps, safety_margin_bps);
        match pair_opportunity(prices, gaps, b, upto - 1, min_profit_bps, safety_margin_bps) {
            Some(o) => prev.push(o),
            None => prev,
        }
    }
}

/// The opportunities of buy pools `0..upto`, row by row, in pair order.
pub open spec fn candidates_upto(
    prices: Seq<PoolPrice>,
    gaps: Seq<Vec<Option<i64>>>,
    upto: int,
    min_profit_bps: i64,
    safety_margin_bps: i64,
) -> Seq<Opportunity>
    decreases upto,
{
    if upto <= 0 {
        Seq::empty()
    } else {
        candidates_upto(prices, gaps, upto - 1, min_profit_bps, safety_margin_bps)
            + row_candidates(prices, gaps, upto - 1, prices.len() as int, min_profit_bps, safety_margin_bps)
    }
}

/// Every qualifying opportunity, in the order of the pairs `(buy, sell)`.
pub open spec fn candidates(
    prices: Seq<PoolPrice>,
    gaps: Seq<Vec<Option<i64>>>,
    min_profit_bps: i64,
    safety_margin_bps: i64,
) -> Seq<Opportunity> {
    candidates_upto(prices, gaps, prices.len() as int, min_profit_bps, safety_margin_bps)
}

/// `x` placed into `s` after every element whose net edge is at least `x`'s
/// and before the first one whose net edge is smaller.
pub open spec fn insert_by_net(s: Seq<Opportunity>, x: Opportunity) -> Seq<Opportunity>
    decreases s.len(),
{
    if s.len() == 0 {
        seq![x]
    } else if s[0].estimated_net_bps < x.estimated_net_bps {
        seq![x] + s
    } else {
        seq![s[0]] + insert_by_net(s.drop_first(), x)
    }
}

/// The stable ordering of `s` by descending net edge: elements with equal
/// net edge keep their relative order.
pub open spec fn sort_by_net_desc(s: Seq<Opportunity>) -> Seq<Opportunity>
    decreases s.len(),
{
    if s.len() == 0 {
        s
    } else {
        insert_by_net(sort_by_net_desc(s.drop_last()), s.last())
    }
}

/// Descending order by net edge.
pub open spec fn is_sorted_by_net_desc(s: Seq<Opportunity>) -> bool {
    forall|i: int, j: int|
        0 <= i < j < s.len() ==> s[i].estimated_net_bps >= s[j].estimated_net_bps
}

/// The shape of the gap matrix: one row of `n` gaps per buy pool.
pub open spec fn gaps_shaped(prices: Seq<PoolPrice>, gaps: Seq<Vec<Option<i64>>>) -> bool {
    &&& gaps.len() == prices.len()
    &&& forall|b: int| 0 <= b < gaps.len() ==> #[trigger] gaps[b]@.len() == prices.len()
}

/// The costs and the net edge of every priced pair fit in `i64`.
pub open spec fn edges_fit(
    prices: Seq<PoolPrice>,
    gaps: Seq<Vec<Option<i64>>>,
    safety_margin_bps: i64,
) -> bool {
    forall|b: int, s: int|
        0 <= b < prices.len() && 0 <= s < prices.len() && #[trigger] pair_priced(prices, gaps, b, s)
            ==> {
            &&& i64::MIN <= pair_costs(prices[b].pool, prices[s].pool, safety_margin_bps)
                <= i64::MAX
            &&& i64::MIN <= gaps[b]@[s]->0 - pair_costs(
                prices[b].pool,
                prices[s].pool,
                safety_margin_bps,
            ) <= i64::MAX
        }
}

/// Keeps the opportunities whose net edge is `v`.
pub open spec fn net_is(v: i64) -> spec_fn(Opportunity) -> bool {
    |o: Opportunity| o.estimated_net_bps == v
}

proof fn lemma_insert_members(s: Seq<Opportunity>, x: Opportunity)
    ensures
        insert_by_net(s, x).len() == s.len() + 1,
        forall|t: Opportunity| #[trigger] insert_by_net(s, x).contains(t) ==> t == x || s.contains(t),
    decreases s.len(),
{
    if s.len() == 0 {
    } else if s[0].estimated_net_bps < x.estimated_net_bps {
        assert forall|t: Opportunity| #[trigger] insert_by_net(s, x).contains(t) implies t == x || s.contains(t) by {
            let k: int = choose|k: int| 0 <= k < s.len() + 1 && (seq![x] + s)[k] == t;
            if k > 0 {
                assert(s[k - 1] == t);
            }
        }
    } else {
        let rest = s.drop_first();
        lemma_insert_members(rest, x);
        let ins = insert_by_net(rest, x);
        assert forall|t: Opportunity| #[trigger] insert_by_net(s, x).contains(t) implies t == x || s.contains(t) by {
            let k: int = choose|k: int| 0 <= k < s.len() + 1 && (seq![s[0]] + ins)[k] == t;
            if k > 0 {
                assert(ins[k - 1] == t);
                assert(ins.contains(t));
                if t != x {
                    let j: int = choose|j: int| 0 <= j < rest.len() && rest[j] == t;
                    assert(s[j + 1] == t);
                }
            }
        }
    }
}

proof fn lemma_singleton_multiset(a: Opportunity)
    ensures
        seq![a].to_multiset() =~= Multiset::empty().insert(a),
{
    let e = Seq::<Opportunity>::empty();
    assert(seq![a] =~= e.push(a));
    e.to_multiset_ensures();
    vstd::multiset::lemma_multiset_empty_len(e.to_multiset());
}

proof fn lemma_insert_multiset(s: Seq<Opportunity>, x: Opportunity)
    ensures
        insert_by_net(s, x).to_multiset() =~= s.to_multiset().insert(x),
    decreases s.len(),
{
    broadcast use vstd::multiset::group_multiset_axioms;

    lemma_singleton_multiset(x);
    if s.len() == 0 {
        s.to_multiset_ensures();
        vstd::multiset::lemma_multiset_empty_len(s.to_multiset());
    } else if s[0].estimated_net_bps < x.estimated_net_bps {
        lemma_multiset_commutative(seq![x], s);
    } else {
        lemma_singleton_multiset(s[0]);
        let rest = s.drop_first();
        lemma_insert_multiset(rest, x);
        let ins = insert_by_net(rest, x);
        assert(s =~= seq![s[0]] + rest);
        lemma_multiset_commutative(seq![s[0]], rest);
        lemma_multiset_commutative(seq![s[0]], ins);
    }
}

proof fn lemma_insert_sorted(s: Seq<Opportunity>, x: Opportunity)
    requires
        is_sorted_by_net_desc(s),
    ensures
        is_sorted_by_net_desc(insert_by_net(s, x)),
    decreases s.len(),
{
    if s.len() == 0 {
    } else if s[0].estimated_net_bps < x.estimated_net_bps {
        assert forall|i: int, j: int| 0 <= i < j < s.len() + 1 implies (seq![x] + s)[i].estimated_net_bps
            >= (seq![x] + s)[j].estimated_net_bps by {
            if i > 0 {
                assert((seq![x] + s)[i] == s[i - 1]);
                assert((seq![x] + s)[j] == s[j - 1]);
            } else if j > 1 {
                assert((seq![x] + s)[j] == s[j - 1]);
                assert(s[0].estimated_net_bps >= s[j - 1].estimated_net_bps);
            }
        }
    } else {
        let rest = s.drop_first();
        lemma_insert_sorted(rest, x);
        lemma_insert_members(rest, x);
        let ins = insert_by_net(rest, x);
        assert forall|i: int, j: int| 0 <= i < j < s.len() + 1 implies (seq![s[0]] + ins)[i].estimated_net_bps
            >= (seq![s[0]] + ins)[j].estimated_net_bps by {
            assert((seq![s[0]] + ins)[j] == ins[j - 1]);
            if i > 0 {
                assert((seq![s[0]] + ins)[i] == ins[i - 1]);
            } else {
                let t = ins[j - 1];
                assert(ins.contains(t));
                if t != x {
                    let k: int = choose|k: int| 0 <= k < rest.len() && rest[k] == t;
                    assert(s[k + 1] == t);
                    assert(s[0].estimated_net_bps >= s[k + 1].estimated_net_bps);
                }
            }
        }
    }
}

proof fn lemma_insert_filter(s: Seq<Opportunity>, x: Opportunity, v: i64)
    requires
        is_sorted_by_net_desc(s),
    ensures
        insert_by_net(s, x).filter(net_is(v)) == if x.estimated_net_bps == v {
            s.filter(net_is(v)).push(x)
        } else {
            s.filter(net_is(v))
        },
    decreases s.len(),
{
    let p = net_is(v);
    if s.len() == 0 {
        s.lemma_filter_prepend(x, p);
        assert(s.filter(p) =~= Seq::<Opportunity>::empty()) by {
            reveal(Seq::filter);
        }
        assert(seq![x] =~= seq![x] + s);
        assert(seq![x] + Seq::<Opportunity>::empty() =~= Seq::<Opportunity>::empty().push(x));
        assert(Seq::<Opportunity>::empty() + Seq::<Opportunity>::empty() =~= Seq::<Opportunity>::empty());
    } else if s[0].estimated_net_bps < x.estimated_net_bps {
        s.lemma_filter_prepend(x, p);
        if x.estimated_net_bps == v {
            assert forall|i: int| 0 <= i < s.len() implies !p(s[i]) by {
                if i > 0 {
                    assert(s[0].estimated_net_bps >= s[i].estimated_net_bps);
                }
            }
            s.lemma_all_neg_filter_empty(p);
            assert(seq![x] + Seq::<Opportunity>::empty() =~= Seq::<Opportunity>::empty().push(x));
        } else {
            assert(Seq::<Opportunity>::empty() + s.filter(p) =~= s.filter(p));
        }
    } else {
        let rest = s.drop_first();
        assert(s =~= seq![s[0]] + rest);
        lemma_insert_filter(rest, x, v);
        let ins = insert_by_net(rest, x);
        ins.lemma_filter_prepend(s[0], p);
        rest.lemma_filter_prepend(s[0], p);
        let head = if p(s[0]) { seq![s[0]] } else { Seq::<Opportunity>::empty() };
        if x.estimated_net_bps == v {
            assert(head + rest.filter(p).push(x) =~= (head + rest.filter(p)).push(x));
        }
    }
}

/// Ordering by net edge keeps every element (with its multiplicity), puts
/// them in descending order of net edge, and keeps equal-edge elements in
/// their original relative order.
pub proof fn lemma_sort_by_net_desc(s: Seq<Opportunity>)
    ensures
        sort_by_net_desc(s).to_multiset() =~= s.to_multiset(),
        sort_by_net_desc(s).len() == s.len(),
        is_sorted_by_net_desc(sort_by_net_desc(s)),
        forall|v: i64| #[trigger] sort_by_net_desc(s).filter(net_is(v)) == s.filter(net_is(v)),
    decreases s.len(),
{
    if s.len() == 0 {
    } else {
        let init = s.drop_last();
        let sorted_init = sort_by_net_desc(init);
        lemma_sort_by_net_desc(init);
        lemma_insert_multiset(sorted_init, s.last());
        lemma_insert_members(sorted_init, s.last());
        lemma_insert_sorted(sorted_init, s.last());
        assert(init.push(s.last()) =~= s);
        init.to_multiset_ensures();
        assert forall|v: i64| #[trigger] sort_by_net_desc(s).filter(net_is(v)) == s.filter(net_is(v)) by {
            lemma_insert_filter(sorted_init, s.last(), v);
            init.lemma_filter_push(s.last(), net_is(v));
        }
    }
}

/// What every detected opportunity satisfies: it pairs two distinct pools of
/// one market, its net edge is its gross gap less the pair's costs, and the
/// net edge reaches the minimum.
pub open spec fn qualifies(o: Opportunity, min_profit_bps: i64, safety_margin_bps: i64) -> bool {
    &&& distinct_pair(o.buy_pool, o.sell_pool)
    &&& o.estimated_net_bps == o.gross_gap_bps - pair_costs(
        o.buy_pool,
        o.sell_pool,
        safety_margin_bps,
    )
    &&& o.estimated_net_bps >= min_profit_bps
}

proof fn lemma_row_candidates(
    prices: Seq<PoolPrice>,
    gaps: Seq<Vec<Option<i64>>>,
    b: int,
    upto: int,
    min_profit_bps: i64,
    safety_margin_bps: i64,
)
    requires
        edges_fit(prices, gaps, safety_margin_bps),
        0 <= b < prices.len(),
        upto <= prices.len(),
    ensures
        forall|o: Opportunity|
            #[trigger] row_candidates(prices, gaps, b, upto, min_profit_bps, safety_margin_bps).contains(o)
                ==> qualifies(o, min_profit_bps, safety_margin_bps),
        forall|s: int|
            0 <= s < upto && pair_opportunity(prices, gaps, b, s, min_profit_bps, safety_margin_bps)
                is Some ==> #[trigger] row_candidates(prices, gaps, b, upto, min_profit_bps, safety_margin_bps).contains(
                pair_opportunity(prices, gaps, b, s, min_profit_bps, safety_margin_bps)->0,
            ),
    decreases upto,
{
    if upto > 0 {
        lemma_row_candidates(prices, gaps, b, upto - 1, min_profit_bps, safety_margin_bps);
        let prev = row_candidates(prices, gaps, b, upto - 1, min_profit_bps, safety_margin_bps);
        let cur = row_candidates(prices, gaps, b, upto, min_profit_bps, safety_margin_bps);
        let po = pair_opportunity(prices, gaps, b, upto - 1, min_profit_bps, safety_margin_bps);
        if po is Some {
            assert(cur == prev.push(po->0));
            assert(pair_priced(prices, gaps, b, upto - 1));
            assert forall|o: Opportunity| #[trigger] cur.contains(o) implies qualifies(o, min_profit_bps, safety_margin_bps) by {
                let k: int = choose|k: int| 0 <= k < cur.len() && cur[k] == o;
                if k < prev.len() {
                    assert(prev.contains(o));
                }
            }
            assert forall|s: int|
                0 <= s < upto && pair_opportunity(prices, gaps, b, s, min_profit_bps, safety_margin_bps)
                    is Some implies #[trigger] cur.contains(
                    pair_opportunity(prices, gaps, b, s, min_profit_bps, safety_margin_bps)->0,
                ) by {
                if s < upto - 1 {
                    let o = pair_opportunity(prices, gaps, b, s, min_profit_bps, safety_margin_bps)->0;
                    assert(prev.contains(o));
                    let k: int = choose|k: int| 0 <= k < prev.len() && prev[k] == o;
                    assert(cur[k] == o);
                } else {
                    assert(cur[cur.len() - 1] == po->0);
                }
            }
        }
    }
}

proof fn lemma_candidates_upto(
    prices: Seq<PoolPrice>,
    gaps: Seq<Vec<Option<i64>>>,
    upto: int,
    min_profit_bps: i64,
    safety_margin_bps: i64,
)
    requires
        edges_fit(prices, gaps, safety_margin_bps),
        upto <= prices.len(),
    ensures
        forall|o: Opportunity|
            #[trigger] candidates_upto(prices, gaps, upto, min_profit_bps, safety_margin_bps).contains(o)
                ==> qualifies(o, min_profit_bps, safety_margin_bps),
        forall|b: int, s: int|
            0 <= b < upto && 0 <= s < prices.len() && #[trigger] pair_opportunity(
                prices,
                gaps,
                b,
                s,
                min_profit_bps,
                safety_margin_bps,
            ) is Some ==> candidates_upto(prices, gaps, upto, min_profit_bps, safety_margin_bps).contains(
                pair_opportunity(prices, gaps, b, s, min_profit_bps, safety_margin_bps)->0,
            ),
    decreases upto,
{
    if upto > 0 {
        lemma_candidates_upto(prices, gaps, upto - 1, min_profit_bps, safety_margin_bps);
        lemma_row_candidates(prices, gaps, upto - 1, prices.len() as int, min_profit_bps, safety_margin_bps);
        let prev = candidates_upto(prices, gaps, upto - 1, min_profit_bps, safety_margin_bps);
        let row = row_candidates(prices, gaps, upto - 1, prices.len() as int, min_profit_bps, safety_margin_bps);
        let cur = candidates_upto(prices, gaps, upto, min_profit_bps, safety_margin_bps);
        assert(cur == prev + row);
        assert forall|o: Opportunity| #[trigger] cur.contains(o) implies qualifies(o, min_profit_bps, safety_margin_bps) by {
            let k: int = choose|k: int| 0 <= k < cur.len() && cur[k] == o;
            if k < prev.len() {
                assert(prev.contains(o));
            } else {
                assert(row[k - prev.len()] == o);
                assert(row.contains(o));
            }
        }
        assert forall|b: int, s: int|
            0 <= b < upto && 0 <= s < prices.len() && #[trigger] pair_opportunity(
                prices,
                gaps,
                b,
                s,
                min_profit_bps,
                safety_margin_bps,
            ) is Some implies cur.contains(
                pair_opportunity(prices, gaps, b, s, min_profit_bps, safety_margin_bps)->0,
            ) by {
            let o = pair_opportunity(prices, gaps, b, s, min_profit_bps, safety_margin_bps)->0;
            if b < upto - 1 {
                assert(prev.contains(o));
                let k: int = choose|k: int| 0 <= k < prev.len() && prev[k] == o;
                assert(cur[k] == o);
            } else {
                assert(row.contains(o));
                let k: int = choose|k: int| 0 <= k < row.len() && row[k] == o;
                assert(cur[prev.len() + k] == o);
            }
        }
    }
}

proof fn lemma_row_origin(
    prices: Seq<PoolPrice>,
    gaps: Seq<Vec<Option<i64>>>,
    b: int,
    upto: int,
    min_profit_bps: i64,
    safety_margin_bps: i64,
)
    requires
        upto <= prices.len(),
    ensures
        forall|o: Opportunity|
            #[trigger] row_candidates(prices, gaps, b, upto, min_profit_bps, safety_margin_bps).contains(o)
                ==> exists|s: int|
                0 <= s < upto && pair_opportunity(prices, gaps, b, s, min_profit_bps, safety_margin_bps)
                    == Some(o),
    decreases upto,
{
    if upto > 0 {
        lemma_row_origin(prices, gaps, b, upto - 1, min_profit_bps, safety_margin_bps);
        let prev = row_candidates(prices, gaps, b, upto - 1, min_profit_bps, safety_margin_bps);
        let cur = row_candidates(prices, gaps, b, upto, min_profit_bps, safety_margin_bps);
        let po = pair_opportunity(prices, gaps, b, upto - 1, min_profit_bps, safety_margin_bps);
        assert forall|o: Opportunity| #[trigger] cur.contains(o) implies exists|s: int|
            0 <= s < upto && pair_opportunity(prices, gaps, b, s, min_profit_bps, safety_margin_bps) == Some(o) by {
            let k: int = choose|k: int| 0 <= k < cur.len() && cur[k] == o;
            if po is Some && k == prev.len() {
                assert(cur == prev.push(po->0));
                assert(pair_opportunity(prices, gaps, b, upto - 1, min_profit_bps, safety_margin_bps) == Some(o));
            } else {
                if po is Some {
                    assert(cur == prev.push(po->0));
                }
                assert(prev[k] == o);
                assert(prev.contains(o));
            }
        }
    }
}

proof fn lemma_candidates_origin(
    prices: Seq<PoolPrice>,
    gaps: Seq<Vec<Option<i64>>>,
    upto: int,
    min_profit_bps: i64,
    safety_margin_bps: i64,
)
    requires
        upto <= prices.len(),
    ensures
        forall|o: Opportunity|
            #[trigger] candidates_upto(prices, gaps, upto, min_profit_bps, safety_margin_bps).contains(o)
                ==> exists|b: int, s: int|
                0 <= b < upto && 0 <= s < prices.len() && pair_opportunity(
                    prices,
                    gaps,
                    b,
                    s,
                    min_profit_bps,
                    safety_margin_bps,
                ) == Some(o),
    decreases upto,
{
    if upto > 0 {
        lemma_candidates_origin(prices, gaps, upto - 1, min_profit_bps, safety_margin_bps);
        lemma_row_origin(prices, gaps, upto - 1, prices.len() as int, min_profit_bps, safety_margin_bps);
        let prev = candidates_upto(prices, gaps, upto - 1, min_profit_bps, safety_margin_bps);
        let row = row_candidates(prices, gaps, upto - 1, prices.len() as int, min_profit_bps, safety_margin_bps);
        let cur = candidates_upto(prices, gaps, upto, min_profit_bps, safety_margin_bps);
        assert(cur == prev + row);
        assert forall|o: Opportunity| #[trigger] cur.contains(o) implies exists|b: int, s: int|
            0 <= b < upto && 0 <= s < prices.len() && pair_opportunity(
                prices,
                gaps,
                b,
                s,
                min_profit_bps,
                safety_margin_bps,
            ) == Some(o) by {
            let k: int = choose|k: int| 0 <= k < cur.len() && cur[k] == o;
            if k < prev.len() {
                assert(prev[k] == o);
                assert(prev.contains(o));
            } else {
                assert(row[k - prev.len()] == o);
                assert(row.contains(o));
                let s: int = choose|s: int|
                    0 <= s < prices.len() && #[trigger] pair_opportunity(
                        prices,
                        gaps,
                        upto - 1,
                        s,
                        min_profit_bps,
                        safety_margin_bps,
                    ) == Some(o);
                assert(pair_opportunity(prices, gaps, upto - 1, s, min_profit_bps, safety_margin_bps) == Some(o));
            }
        }
    }
}

/// What every reported opportunity is, in terms of the input: for some two
/// listed pools `b` and `s`, it buys on pool `b` and sells on pool `s`; the
/// two pools have different addresses, the same base mint and the same quote
/// mint; its gross gap is the gap given for `(b, s)`; its net edge is the
/// gross gap less both pools' fees, both pools' bin steps and the safety
/// margin; and the net edge reaches the minimum.
pub proof fn lemma_detect_reports_priced_pairs_of_one_market(
    prices: Seq<PoolPrice>,
    gaps: Seq<Vec<Option<i64>>>,
    min_profit_bps: i64,
    safety_margin_bps: i64,
)
    requires
        edges_fit(prices, gaps, safety_margin_bps),
    ensures
        forall|i: int|
            #![trigger sort_by_net_desc(candidates(prices, gaps, min_profit_bps, safety_margin_bps))[i]]
            0 <= i < sort_by_net_desc(candidates(prices, gaps, min_profit_bps, safety_margin_bps)).len() ==> {
                let o = sort_by_net_desc(candidates(prices, gaps, min_profit_bps, safety_margin_bps))[i];
                &&& exists|b: int, s: int|
                    0 <= b < prices.len() && 0 <= s < prices.len() && o.buy_pool == prices[b].pool
                        && o.sell_pool == prices[s].pool && gaps[b]@[s] == Some(o.gross_gap_bps)
                &&& o.buy_pool.address@ != o.sell_pool.address@
                &&& o.buy_pool.base_mint@ == o.sell_pool.base_mint@
                &&& o.buy_pool.quote_mint@ == o.sell_pool.quote_mint@
                &&& o.estimated_net_bps == o.gross_gap_bps - (o.buy_pool.fee_bps + o.sell_pool.fee_bps
                    + o.buy_pool.bin_step_bps + o.sell_pool.bin_step_bps + safety_margin_bps)
                &&& o.estimated_net_bps >= min_profit_bps
            },
{
    let c = candidates(prices, gaps, min_profit_bps, safety_margin_bps);
    let r = sort_by_net_desc(c);
    lemma_sort_by_net_desc(c);
    lemma_candidates_origin(prices, gaps, prices.len() as int, min_profit_bps, safety_margin_bps);
    c.to_multiset_ensures();
    r.to_multiset_ensures();
    assert forall|i: int| #![trigger r[i]] 0 <= i < r.len() implies {
        let o = r[i];
        &&& exists|b: int, s: int|
            0 <= b < prices.len() && 0 <= s < prices.len() && o.buy_pool == prices[b].pool
                && o.sell_pool == prices[s].pool && gaps[b]@[s] == Some(o.gross_gap_bps)
        &&& o.buy_pool.address@ != o.sell_pool.address@
        &&& o.buy_pool.base_mint@ == o.sell_pool.base_mint@
        &&& o.buy_pool.quote_mint@ == o.sell_pool.quote_mint@
        &&& o.estimated_net_bps == o.gross_gap_bps - (o.buy_pool.fee_bps + o.sell_pool.fee_bps
            + o.buy_pool.bin_step_bps + o.sell_pool.bin_step_bps + safety_margin_bps)
        &&& o.estimated_net_bps >= min_profit_bps
    } by {
        let o = r[i];
        assert(r.contains(o));
        assert(r.to_multiset().count(o) > 0);
        assert(c.contains(o));
        let (b, s): (int, int) = choose|b: int, s: int|
            0 <= b < prices.len() && 0 <= s < prices.len() && pair_opportunity(
                prices,
                gaps,
                b,
                s,
                min_profit_bps,
                safety_margin_bps,
            ) == Some(o);
        assert(pair_priced(prices, gaps, b, s));
    }
}

/// Every priced pair of distinct pools on one market whose net edge (the
/// given gross gap less both pools' fees, both pools' bin steps and the
/// safety margin) reaches the minimum is reported, as buying on the first
/// pool and selling on the second.
pub proof fn lemma_detect_reports_every_qualifying_pair(
    prices: Seq<PoolPrice>,
    gaps: Seq<Vec<Option<i64>>>,
    min_profit_bps: i64,
    safety_margin_bps: i64,
    b: int,
    s: int,
    gross: i64,
)
    requires
        edges_fit(prices, gaps, safety_margin_bps),
        0 <= b < prices.len(),
        0 <= s < prices.len(),
        prices[b].pool.address@ != prices[s].pool.address@,
        prices[b].pool.base_mint@ == prices[s].pool.base_mint@,
        prices[b].pool.quote_mint@ == prices[s].pool.quote_mint@,
        gaps[b]@[s] == Some(gross),
        gross - (prices[b].pool.fee_bps + prices[s].pool.fee_bps + prices[b].pool.bin_step_bps
            + prices[s].pool.bin_step_bps + safety_margin_bps) >= min_profit_bps,
    ensures
        sort_by_net_desc(candidates(prices, gaps, min_profit_bps, safety_margin_bps)).contains(
            Opportunity {
                buy_pool: prices[b].pool,
                sell_pool: prices[s].pool,
                gross_gap_bps: gross,
                estimated_net_bps: (gross - (prices[b].pool.fee_bps + prices[s].pool.fee_bps
                    + prices[b].pool.bin_step_bps + prices[s].pool.bin_step_bps + safety_margin_bps)) as i64,
            },
        ),
{
    assert(pair_priced(prices, gaps, b, s));
    assert(pair_opportunity(prices, gaps, b, s, min_profit_bps, safety_margin_bps) is Some);
    lemma_detect_reports_exactly_qualifying_pairs(prices, gaps, min_profit_bps, safety_margin_bps);
}

/// The share of `bps` basis points of `amount` is `amount * bps / 10_000`
/// truncated toward zero: `10_000` times it is within one `10_000` of the
/// product, on the side of zero.
pub proof fn lemma_bps_share_truncates_toward_zero(amount: int, bps: int)
    ensures
        amount * bps >= 0 ==> 10_000 * bps_share(amount, bps) <= amount * bps < 10_000 * bps_share(
            amount,
            bps,
        ) + 10_000,
        amount * bps < 0 ==> 10_000 * bps_share(amount, bps) - 10_000 < amount * bps <= 10_000 * bps_share(
            amount,
            bps,
        ),
        bps == 10_000 ==> bps_share(amount, bps) == amount,
{
    let p: int = amount * bps;
    if bps == 10_000 {
        assert(p == amount * 10_000) by (nonlinear_arith)
            requires
                bps == 10_000,
                p == amount * bps,
        ;
        if p >= 0 {
            assert(p / 10_000 == amount) by (nonlinear_arith)
                requires
                    p == amount * 10_000,
            ;
        } else {
            assert((-p) / 10_000 == -amount) by (nonlinear_arith)
                requires
                    p == amount * 10_000,
            ;
        }
    }
}

/// Every pair of distinct pools on one market whose priced net edge reaches
/// the minimum is reported, and everything reported is such a pair.
pub proof fn lemma_detect_reports_exactly_qualifying_pairs(
    prices: Seq<PoolPrice>,
    gaps: Seq<Vec<Option<i64>>>,
    min_profit_bps: i64,
    safety_margin_bps: i64,
)
    requires
        edges_fit(prices, gaps, safety_margin_bps),
    ensures
        forall|o: Opportunity|
            #[trigger] sort_by_net_desc(candidates(prices, gaps, min_profit_bps, safety_margin_bps)).contains(o)
                ==> qualifies(o, min_profit_bps, safety_margin_bps),
        forall|b: int, s: int|
            0 <= b < prices.len() && 0 <= s < prices.len() && #[trigger] pair_opportunity(
                prices,
                gaps,
                b,
                s,
                min_profit_bps,
                safety_margin_bps,
            ) is Some ==> sort_by_net_desc(candidates(prices, gaps, min_profit_bps, safety_margin_bps)).contains(
                pair_opportunity(prices, gaps, b, s, min_profit_bps, safety_margin_bps)->0,
            ),
{
    let c = candidates(prices, gaps, min_profit_bps, safety_margin_bps);
    let sorted = sort_by_net_desc(c);
    lemma_candidates_upto(prices, gaps, prices.len() as int, min_profit_bps, safety_margin_bps);
    lemma_sort_by_net_desc(c);
    c.to_multiset_ensures();
    sorted.to_multiset_ensures();
    assert forall|o: Opportunity| #[trigger] sorted.contains(o) implies qualifies(o, min_profit_bps, safety_margin_bps) by {
        assert(sorted.to_multiset().count(o) > 0);
        assert(c.contains(o));
    }
    assert forall|b: int, s: int|
        0 <= b < prices.len() && 0 <= s < prices.len() && #[trigger] pair_opportunity(
            prices,
            gaps,
            b,
            s,
            min_profit_bps,
            safety_margin_bps,
        ) is Some implies sorted.contains(
            pair_opportunity(prices, gaps, b, s, min_profit_bps, safety_margin_bps)->0,
        ) by {
        let o = pair_opportunity(prices, gaps, b, s, min_profit_bps, safety_margin_bps)->0;
        assert(c.contains(o));
        assert(c.to_multiset().count(o) > 0);
    }
}

/// Keeps the opportunities whose net edge is at least `v`.
pub open spec fn net_at_least(v: i64) -> spec_fn(Opportunity) -> bool {
    |o: Opportunity| o.estimated_net_bps >= v
}

proof fn lemma_insert_then_filter(t: Seq<Opportunity>, x: Opportunity, p: spec_fn(Opportunity) -> bool)
    requires
        is_sorted_by_net_desc(t),
    ensures
        insert_by_net(t, x).filter(p) == if p(x) {
            insert_by_net(t.filter(p), x)
        } else {
            t.filter(p)
        },
    decreases t.len(),
{
    if t.len() == 0 {
        t.lemma_filter_prepend(x, p);
        assert(t.filter(p) =~= Seq::<Opportunity>::empty()) by {
            reveal(Seq::filter);
        }
        assert(seq![x] =~= seq![x] + t);
        assert(Seq::<Opportunity>::empty() + Seq::<Opportunity>::empty() =~= Seq::<Opportunity>::empty());
        assert(seq![x] + Seq::<Opportunity>::empty() =~= seq![x]);
    } else if t[0].estimated_net_bps < x.estimated_net_bps {
        t.lemma_filter_prepend(x, p);
        let tf = t.filter(p);
        if p(x) {
            if tf.len() > 0 {
                assert(tf.contains(tf[0]));
                t.lemma_filter_contains_rev(p, tf[0]);
                let k: int = choose|k: int| 0 <= k < t.len() && t[k] == tf[0];
                if k > 0 {
                    assert(t[0].estimated_net_bps >= t[k].estimated_net_bps);
                }
            }
        } else {
            assert(Seq::<Opportunity>::empty() + tf =~= tf);
        }
    } else {
        let rest = t.drop_first();
        assert(t =~= seq![t[0]] + rest);
        lemma_insert_then_filter(rest, x, p);
        let ins = insert_by_net(rest, x);
        ins.lemma_filter_prepend(t[0], p);
        rest.lemma_filter_prepend(t[0], p);
        if p(x) && p(t[0]) {
            assert(t.filter(p) == seq![t[0]] + rest.filter(p));
            assert((seq![t[0]] + rest.filter(p)).drop_first() =~= rest.filter(p));
        } else if !p(t[0]) {
            assert(Seq::<Opportunity>::empty() + rest.filter(p) =~= rest.filter(p));
            assert(Seq::<Opportunity>::empty() + ins.filter(p) =~= ins.filter(p));
        }
    }
}

/// Ordering by net edge commutes with keeping a subset: ordering the kept
/// elements gives the kept elements of the ordering.
pub proof fn lemma_sort_commutes_with_filter(s: Seq<Opportunity>, p: spec_fn(Opportunity) -> bool)
    ensures
        sort_by_net_desc(s.filter(p)) == sort_by_net_desc(s).filter(p),
    decreases s.len(),
{
    if s.len() > 0 {
        let init = s.drop_last();
        assert(init.push(s.last()) =~= s);
        init.lemma_filter_push(s.last(), p);
        lemma_sort_commutes_with_filter(init, p);
        lemma_sort_by_net_desc(init);
        lemma_insert_then_filter(sort_by_net_desc(init), s.last(), p);
        if p(s.last()) {
            assert(init.filter(p).push(s.last()).drop_last() =~= init.filter(p));
        }
    }
}

proof fn lemma_row_threshold(
    prices: Seq<PoolPrice>,
    gaps: Seq<Vec<Option<i64>>>,
    b: int,
    upto: int,
    m1: i64,
    m2: i64,
    margin: i64,
)
    requires
        m1 <= m2,
        edges_fit(prices, gaps, margin),
        0 <= b < prices.len(),
        upto <= prices.len(),
    ensures
        row_candidates(prices, gaps, b, upto, m2, margin) == row_candidates(prices, gaps, b, upto, m1, margin).filter(
            net_at_least(m2),
        ),
    decreases upto,
{
    reveal(Seq::filter);
    if upto > 0 {
        lemma_row_threshold(prices, gaps, b, upto - 1, m1, m2, margin);
        let prev = row_candidates(prices, gaps, b, upto - 1, m1, margin);
        let s: int = upto - 1;
        if let Some(o) = pair_opportunity(prices, gaps, b, s, m1, margin) {
            assert(pair_priced(prices, gaps, b, s));
            prev.lemma_filter_push(o, net_at_least(m2));
        } else {
            assert(pair_opportunity(prices, gaps, b, s, m2, margin) is None);
        }
    } else {
        assert(Seq::<Opportunity>::empty().filter(net_at_least(m2)) =~= Seq::<Opportunity>::empty());
    }
}

proof fn lemma_candidates_threshold(
    prices: Seq<PoolPrice>,
    gaps: Seq<Vec<Option<i64>>>,
    upto: int,
    m1: i64,
    m2: i64,
    margin: i64,
)
    requires
        m1 <= m2,
        edges_fit(prices, gaps, margin),
        upto <= prices.len(),
    ensures
        candidates_upto(prices, gaps, upto, m2, margin) == candidates_upto(prices, gaps, upto, m1, margin).filter(
            net_at_least(m2),
        ),
    decreases upto,
{
    if upto > 0 {
        lemma_candidates_threshold(prices, gaps, upto - 1, m1, m2, margin);
        lemma_row_threshold(prices, gaps, upto - 1, prices.len() as int, m1, m2, margin);
        Seq::filter_distributes_over_add(
            candidates_upto(prices, gaps, upto - 1, m1, margin),
            row_candidates(prices, gaps, upto - 1, prices.len() as int, m1, margin),
            net_at_least(m2),
        );
    } else {
        assert(Seq::<Opportunity>::empty().filter(net_at_least(m2)) =~= Seq::<Opportunity>::empty()) by {
            reveal(Seq::filter);
        }
    }
}

/// Raising the minimum net edge only filters what is reported: the report
/// at the higher minimum is the report at the lower one without the
/// opportunities below the higher minimum, in the same order.
pub proof fn lemma_raising_threshold_filters(
    prices: Seq<PoolPrice>,
    gaps: Seq<Vec<Option<i64>>>,
    lower_min_bps: i64,
    higher_min_bps: i64,
    safety_margin_bps: i64,
)
    requires
        lower_min_bps <= higher_min_bps,
        edges_fit(prices, gaps, safety_margin_bps),
    ensures
        sort_by_net_desc(candidates(prices, gaps, higher_min_bps, safety_margin_bps)) == sort_by_net_desc(
            candidates(prices, gaps, lower_min_bps, safety_margin_bps),
        ).filter(net_at_least(higher_min_bps)),
{
    lemma_candidates_threshold(prices, gaps, prices.len() as int, lower_min_bps, higher_min_bps, safety_margin_bps);
    lemma_sort_commutes_with_filter(
        candidates(prices, gaps, lower_min_bps, safety_margin_bps),
        net_at_least(higher_min_bps),
    );
}

/// `o` with its net edge lowered by `d`.
pub open spec fn lower_net(d: int) -> spec_fn(Opportunity) -> Opportunity {
    |o: Opportunity| Opportunity { estimated_net_bps: (o.estimated_net_bps - d) as i64, ..o }
}

/// Lowering every net edge in `s` by `d` stays within `i64`.
pub open spec fn lowering_fits(s: Seq<Opportunity>, d: int) -> bool {
    forall|o: Opportunity| #[trigger] s.contains(o) ==> i64::MIN <= o.estimated_net_bps - d <= i64::MAX
}

proof fn lemma_insert_then_lower(t: Seq<Opportunity>, x: Opportunity, d: int)
    requires
        lowering_fits(t, d),
        i64::MIN <= x.estimated_net_bps - d <= i64::MAX,
    ensures
        insert_by_net(t.map_values(lower_net(d)), lower_net(d)(x)) == insert_by_net(t, x).map_values(lower_net(d)),
    decreases t.len(),
{
    let f = lower_net(d);
    if t.len() == 0 {
        assert(t.map_values(f) =~= Seq::<Opportunity>::empty());
        assert(seq![x].map_values(f) =~= seq![f(x)]);
    } else {
        assert(t.contains(t[0]));
        let rest = t.drop_first();
        assert forall|o: Opportunity| #[trigger] rest.contains(o) implies i64::MIN <= o.estimated_net_bps - d
            <= i64::MAX by {
            let k: int = choose|k: int| 0 <= k < rest.len() && rest[k] == o;
            assert(t[k + 1] == o);
            assert(t.contains(o));
        }
        assert(t.map_values(f)[0] == f(t[0]));
        assert(t.map_values(f).drop_first() =~= rest.map_values(f));
        if t[0].estimated_net_bps < x.estimated_net_bps {
            assert((seq![x] + t).map_values(f) =~= seq![f(x)] + t.map_values(f));
        } else {
            lemma_insert_then_lower(rest, x, d);
            assert((seq![t[0]] + insert_by_net(rest, x)).map_values(f) =~= seq![f(t[0])] + insert_by_net(
                rest,
                x,
            ).map_values(f));
        }
    }
}

/// Ordering by net edge commutes with lowering every net edge by the same
/// amount (where the lowered edges fit in `i64`).
pub proof fn lemma_sort_commutes_with_lowering(s: Seq<Opportunity>, d: int)
    requires
        lowering_fits(s, d),
    ensures
        sort_by_net_desc(s.map_values(lower_net(d))) == sort_by_net_desc(s).map_values(lower_net(d)),
    decreases s.len(),
{
    let f = lower_net(d);
    if s.len() == 0 {
        assert(s.map_values(f) =~= s);
        assert(sort_by_net_desc(s).map_values(f) =~= s);
    } else {
        let init = s.drop_last();
        assert forall|o: Opportunity| #[trigger] init.contains(o) implies i64::MIN <= o.estimated_net_bps - d
            <= i64::MAX by {
            let k: int = choose|k: int| 0 <= k < init.len() && init[k] == o;
            assert(s[k] == o);
            assert(s.contains(o));
        }
        assert(s.contains(s.last()));
        lemma_sort_commutes_with_lowering(init, d);
        lemma_sort_by_net_desc(init);
        let sorted_init = sort_by_net_desc(init);
        assert forall|o: Opportunity| #[trigger] sorted_init.contains(o) implies i64::MIN <= o.estimated_net_bps
            - d <= i64::MAX by {
            init.to_multiset_ensures();
            sorted_init.to_multiset_ensures();
            assert(sorted_init.to_multiset().count(o) > 0);
            assert(init.contains(o));
        }
        lemma_insert_then_lower(sorted_init, s.last(), d);
        assert(s.map_values(f).drop_last() =~= init.map_values(f));
        assert(s.map_values(f).last() == f(s.last()));
    }
}

proof fn lemma_row_shift(
    prices: Seq<PoolPrice>,
    gaps: Seq<Vec<Option<i64>>>,
    b: int,
    upto: int,
    min1: i64,
    margin1: i64,
    min2: i64,
    margin2: i64,
)
    requires
        margin2 - margin1 == min1 - min2,
        edges_fit(prices, gaps, margin1),
        edges_fit(prices, gaps, margin2),
        0 <= b < prices.len(),
        upto <= prices.len(),
    ensures
        row_candidates(prices, gaps, b, upto, min2, margin2) == row_candidates(prices, gaps, b, upto, min1, margin1).map_values(
            lower_net(margin2 - margin1),
        ),
        lowering_fits(row_candidates(prices, gaps, b, upto, min1, margin1), margin2 - margin1),
    decreases upto,
{
    let d: int = margin2 - margin1;
    let f = lower_net(d);
    if upto > 0 {
        lemma_row_shift(prices, gaps, b, upto - 1, min1, margin1, min2, margin2);
        let prev = row_candidates(prices, gaps, b, upto - 1, min1, margin1);
        let s: int = upto - 1;
        if let Some(o) = pair_opportunity(prices, gaps, b, s, min1, margin1) {
            assert(pair_priced(prices, gaps, b, s));
            assert(prev.push(o).map_values(f) =~= prev.map_values(f).push(f(o)));
            assert forall|x: Opportunity| #[trigger] prev.push(o).contains(x) implies i64::MIN
                <= x.estimated_net_bps - d <= i64::MAX by {
                let k: int = choose|k: int| 0 <= k < prev.len() + 1 && prev.push(o)[k] == x;
                if k < prev.len() {
                    assert(prev.contains(x));
                }
            }
        }
    } else {
        assert(Seq::<Opportunity>::empty().map_values(f) =~= Seq::<Opportunity>::empty());
    }
}

proof fn lemma_candidates_shift(
    prices: Seq<PoolPrice>,
    gaps: Seq<Vec<Option<i64>>>,
    upto: int,
    min1: i64,
    margin1: i64,
    min2: i64,
    margin2: i64,
)
    requires
        margin2 - margin1 == min1 - min2,
        edges_fit(prices, gaps, margin1),
        edges_fit(prices, gaps, margin2),
        upto <= prices.len(),
    ensures
        candidates_upto(prices, gaps, upto, min2, margin2) == candidates_upto(prices, gaps, upto, min1, margin1).map_values(
            lower_net(margin2 - margin1),
        ),
        lowering_fits(candidates_upto(prices, gaps, upto, min1, margin1), margin2 - margin1),
    decreases upto,
{
    let d: int = margin2 - margin1;
    let f = lower_net(d);
    if upto > 0 {
        lemma_candidates_shift(prices, gaps, upto - 1, min1, margin1, min2, margin2);
        lemma_row_shift(prices, gaps, upto - 1, prices.len() as int, min1, margin1, min2, margin2);
        let a = candidates_upto(prices, gaps, upto - 1, min1, margin1);
        let r = row_candidates(prices, gaps, upto - 1, prices.len() as int, min1, margin1);
        assert((a + r).map_values(f) =~= a.map_values(f) + r.map_values(f));
        assert forall|x: Opportunity| #[trigger] (a + r).contains(x) implies i64::MIN <= x.estimated_net_bps - d
            <= i64::MAX by {
            let k: int = choose|k: int| 0 <= k < (a + r).len() && (a + r)[k] == x;
            if k < a.len() {
                assert(a[k] == x);
                assert(a.contains(x));
            } else {
                assert(r[k - a.len()] == x);
                assert(r.contains(x));
            }
        }
    } else {
        assert(Seq::<Opportunity>::empty().map_values(f) =~= Seq::<Opportunity>::empty());
    }
}

/// Moving `d` basis points from the minimum net edge into the safety margin
/// reports the same pairs, with the same gross gaps, in the same order, each
/// net edge `d` lower (where every cost and net edge of both settings fits
/// in `i64`).
pub proof fn lemma_margin_shift_lowers_net_edges(
    prices: Seq<PoolPrice>,
    gaps: Seq<Vec<Option<i64>>>,
    min1: i64,
    margin1: i64,
    min2: i64,
    margin2: i64,
)
    requires
        margin2 - margin1 == min1 - min2,
        edges_fit(prices, gaps, margin1),
        edges_fit(prices, gaps, margin2),
    ensures
        sort_by_net_desc(candidates(prices, gaps, min2, margin2)) == sort_by_net_desc(
            candidates(prices, gaps, min1, margin1),
        ).map_values(lower_net(margin2 - margin1)),
{
    lemma_candidates_shift(prices, gaps, prices.len() as int, min1, margin1, min2, margin2);
    lemma_sort_commutes_with_lowering(candidates(prices, gaps, min1, margin1), margin2 - margin1);
}

/// Inserts `x` into `v` at the place `insert_by_net` gives it.
fn insert_by_net_desc(v: &mut Vec<Opportunity>, x: Opportunity)
    ensures
        final(v)@ == insert_by_net(old(v)@, x),
{
    let mut p: usize = 0;
    assert(v@.skip(0) =~= v@);
    assert(v@.take(0) + insert_by_net(v@, x) =~= insert_by_net(v@, x));
    while p < v.len() && v[p].estimated_net_bps >= x.estimated_net_bps
        invariant
            p <= v.len(),
            v@ == old(v)@,
            insert_by_net(v@, x) == v@.take(p as int) + insert_by_net(v@.skip(p as int), x),
        decreases v.len() - p,
    {
        assert(v@.skip(p as int).drop_first() =~= v@.skip(p + 1));
        assert(v@.take(p + 1) =~= v@.take(p as int) + seq![v@[p as int]]);
        assert(insert_by_net(v@.skip(p as int), x) == seq![v@[p as int]] + insert_by_net(
            v@.skip(p + 1),
            x,
        ));
        assert(v@.take(p as int) + (seq![v@[p as int]] + insert_by_net(v@.skip(p + 1), x))
            =~= v@.take(p + 1) + insert_by_net(v@.skip(p + 1), x));
        p = p + 1;
    }
    let ghost before = v@;
    v.insert(p, x);
    assert(v@ =~= before.take(p as int) + insert_by_net(before.skip(p as int), x));
}

/// Finds every price gap between two pools of one market whose net edge
/// (gross gap less fees, bin steps and safety margin) reaches
/// `min_profit_bps`, best first.
///
/// `gross_gaps[b][s]` is the gross gap in basis points of buying at
/// `prices[b]` and selling at `prices[s]`, or `None` where the two prices
/// admit no trade.
pub fn detect(
    prices: &Vec<PoolPrice>,
    gross_gaps: &Vec<Vec<Option<i64>>>,
    min_profit_bps: i64,
    safety_margin_bps: i64,
) -> (opportunities: Vec<Opportunity>)
    requires
        gaps_shaped(prices@, gross_gaps@),
        edges_fit(prices@, gross_gaps@, safety_margin_bps),
    ensures
        opportunities@ == sort_by_net_desc(
            candidates(prices@, gross_gaps@, min_profit_bps, safety_margin_bps),
        ),
        is_sorted_by_net_desc(opportunities@),
        opportunities@.to_multiset() =~= candidates(
            prices@,
            gross_gaps@,
            min_profit_bps,
            safety_margin_bps,
        ).to_multiset(),
        forall|i: int|
            0 <= i < opportunities@.len() ==> qualifies(
                #[trigger] opportunities@[i],
                min_profit_bps,
                safety_margin_bps,
            ),
{
    let n: usize = prices.len();
    let mut opportunities: Vec<Opportunity> = Vec::new();
    let ghost mut found: Seq<Opportunity> = Seq::empty();
    let mut b: usize = 0;
    while b < n
        invariant
            n == prices@.len(),
            b <= n,
            gaps_shaped(prices@, gross_gaps@),
            edges_fit(prices@, gross_gaps@, safety_margin_bps),
            found == candidates_upto(prices@, gross_gaps@, b as int, min_profit_bps, safety_margin_bps),
            opportunities@ == sort_by_net_desc(found),
        decreases n - b,
    {
        let ghost row_start = found;
        let mut s: usize = 0;
        while s < n
            invariant
                n == prices@.len(),
                b < n,
                s <= n,
                gaps_shaped(prices@, gross_gaps@),
                edges_fit(prices@, gross_gaps@, safety_margin_bps),
                row_start == candidates_upto(prices@, gross_gaps@, b as int, min_profit_bps, safety_margin_bps),
                found == row_start + row_candidates(
                    prices@,
                    gross_gaps@,
                    b as int,
                    s as int,
                    min_profit_bps,
                    safety_margin_bps,
                ),
                opportunities@ == sort_by_net_desc(found),
            decreases n - s,
        {
            let buy = &prices[b];
            let sell = &prices[s];
            assert(gross_gaps@[b as int]@.len() == n);
            if buy.pool.address == sell.pool.address {
            } else if buy.pool.base_mint != sell.pool.base_mint
                || buy.pool.quote_mint != sell.pool.quote_mint {
            } else {
                match gross_gaps[b][s] {
                    None => {},
                    Some(gross_gap_bps) => {
                        assert(pair_priced(prices@, gross_gaps@, b as int, s as int));
                        let costs_bps: i64 = buy.pool.fee_bps as i64 + sell.pool.fee_bps as i64
                            + buy.pool.bin_step_bps as i64 + sell.pool.bin_step_bps as i64
                            + safety_margin_bps;
                        let estimated_net_bps: i64 = gross_gap_bps - costs_bps;
                        if passes_threshold(estimated_net_bps, min_profit_bps) {
                            let opportunity = Opportunity {
                                buy_pool: buy.pool.clone(),
                                sell_pool: sell.pool.clone(),
                                gross_gap_bps,
                                estimated_net_bps,
                            };
                            proof {
                                assert(found.push(opportunity).drop_last() =~= found);
                                found = found.push(opportunity);
                            }
                            insert_by_net_desc(&mut opportunities, opportunity);
                        }
                    },
                }
            }
            proof {
                assert(row_start + row_candidates(prices@, gross_gaps@, b as int, s + 1, min_profit_bps, safety_margin_bps)
                    =~= found);
            }
            s = s + 1;
        }
        b = b + 1;
    }
    proof {
        lemma_sort_by_net_desc(candidates(prices@, gross_gaps@, min_profit_bps, safety_margin_bps));
        lemma_detect_reports_exactly_qualifying_pairs(prices@, gross_gaps@, min_profit_bps, safety_margin_bps);
        assert forall|i: int| 0 <= i < opportunities@.len() implies qualifies(
            #[trigger] opportunities@[i],
            min_profit_bps,
            safety_margin_bps,
        ) by {
            assert(opportunities@.contains(opportunities@[i]));
        }
    }
    opportunities
}

} // verus!

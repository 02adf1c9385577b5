use mev_engine::strategy::{bps_to_lamports, detect, passes_threshold, size};
use mev_engine::types::{Opportunity, PoolConfig, PoolKind, PoolPrice, TradePlan};

fn pool(name: &str, address: &str, base: &str, quote: &str, fee_bps: u32, bin_step_bps: u32) -> PoolConfig {
    PoolConfig {
        name: name.to_string(),
        kind: PoolKind::Dlmm,
        address: address.to_string(),
        base_mint: base.to_string(),
        quote_mint: quote.to_string(),
        fee_bps,
        bin_step_bps,
        enabled: true,
    }
}

fn priced(p: PoolConfig, price: f64) -> PoolPrice {
    PoolPrice { pool: p, price_bits: price.to_bits(), slot: 1 }
}

/// The gross gaps the engine computes from prices (same arithmetic as the app).
fn gaps_of(prices: &[PoolPrice]) -> Vec<Vec<Option<i64>>> {
    prices
        .iter()
        .map(|buy| {
            prices
                .iter()
                .map(|sell| {
                    let b = f64::from_bits(buy.price_bits);
                    let s = f64::from_bits(sell.price_bits);
                    if b <= 0.0 || s <= 0.0 || s <= b {
                        None
                    } else {
                        Some((((s / b) - 1.0) * 10_000.0) as i64)
                    }
                })
                .collect()
        })
        .collect()
}

#[test]
fn threshold_is_inclusive() {
    assert!(passes_threshold(10, 10));
    assert!(passes_threshold(11, 10));
    assert!(!passes_threshold(9, 10));
    assert!(passes_threshold(-5, -5));
}

#[test]
fn bps_to_lamports_exact_values() {
    assert_eq!(bps_to_lamports(1_000_000, 25), 2_500);
    assert_eq!(bps_to_lamports(10_000, 1), 1);
    assert_eq!(bps_to_lamports(9_999, 1), 0);
    // truncation toward zero for losses
    assert_eq!(bps_to_lamports(1, -5_000), 0);
    assert_eq!(bps_to_lamports(3, -5_000), -1);
    assert_eq!(bps_to_lamports(0, i64::MAX), 0);
}

#[test]
fn bps_to_lamports_wraps_like_a_cast() {
    let expected = ((u64::MAX as i128 * i64::MAX as i128) / 10_000) as i64;
    assert_eq!(bps_to_lamports(u64::MAX, i64::MAX), expected);
}

#[test]
fn size_uses_max_trade_and_net_edge() {
    let opp = Opportunity {
        buy_pool: pool("a", "A", "SOL", "USDC", 1, 1),
        sell_pool: pool("b", "B", "SOL", "USDC", 1, 1),
        gross_gap_bps: 60,
        estimated_net_bps: 40,
    };
    let plan: TradePlan = size(opp, 2_000_000);
    assert_eq!(plan.amount_lamports, 2_000_000);
    assert_eq!(plan.expected_profit_lamports, 8_000);
    assert_eq!(plan.opportunity.estimated_net_bps, 40);
    assert_eq!(plan.opportunity.buy_pool.address, "A");
}

#[test]
fn detect_finds_gap_and_nets_costs() {
    let prices = vec![
        priced(pool("a", "A", "SOL", "USDC", 5, 2), 100.0),
        priced(pool("b", "B", "SOL", "USDC", 4, 1), 101.0),
    ];
    let gaps = gaps_of(&prices);
    let opps = detect(&prices, &gaps, 10, 3);
    assert_eq!(opps.len(), 1);
    let o = &opps[0];
    assert_eq!(o.buy_pool.address, "A");
    assert_eq!(o.sell_pool.address, "B");
    let gross = (((101.0f64 / 100.0) - 1.0) * 10_000.0) as i64;
    assert_eq!(o.gross_gap_bps, gross);
    assert_eq!(o.estimated_net_bps, gross - (5 + 4 + 2 + 1 + 3));
}

#[test]
fn detect_skips_other_markets_same_address_and_thin_edges() {
    let prices = vec![
        priced(pool("a", "A", "SOL", "USDC", 0, 0), 100.0),
        priced(pool("b", "B", "BONK", "USDC", 0, 0), 200.0),
        priced(pool("a2", "A", "SOL", "USDC", 0, 0), 150.0),
        priced(pool("c", "C", "SOL", "USDC", 0, 0), 100.05),
    ];
    let gaps = gaps_of(&prices);
    let opps = detect(&prices, &gaps, 10, 0);
    // A and A2 share an address, B trades another market, A->C is a 5 bps gap
    // (below 10), and selling below the buy price gives no gap: only C->A2 remains.
    assert_eq!(opps.len(), 1);
    assert_eq!(opps[0].buy_pool.address, "C");
    assert_eq!(opps[0].sell_pool.address, "A");
    assert_eq!(opps[0].sell_pool.name, "a2");
}

#[test]
fn detect_orders_best_first_and_keeps_ties_in_pair_order() {
    let prices = vec![
        priced(pool("a", "A", "SOL", "USDC", 0, 0), 100.0),
        priced(pool("b", "B", "SOL", "USDC", 0, 0), 102.0),
        priced(pool("c", "C", "SOL", "USDC", 0, 0), 104.0),
    ];
    let gaps = vec![
        vec![None, Some(200), Some(400)],
        vec![None, None, Some(200)],
        vec![None, None, None],
    ];
    let opps = detect(&prices, &gaps, 0, 0);
    let pairs: Vec<(String, String, i64)> = opps
        .iter()
        .map(|o| (o.buy_pool.address.clone(), o.sell_pool.address.clone(), o.estimated_net_bps))
        .collect();
    assert_eq!(
        pairs,
        vec![
            ("A".to_string(), "C".to_string(), 400),
            ("A".to_string(), "B".to_string(), 200),
            ("B".to_string(), "C".to_string(), 200),
        ]
    );
}

#[test]
fn detect_with_no_prices_is_empty() {
    let opps = detect(&Vec::new(), &Vec::new(), 0, 0);
    assert!(opps.is_empty());
}

#[test]
fn detect_rejects_non_positive_prices() {
    let prices = vec![
        priced(pool("a", "A", "SOL", "USDC", 0, 0), 0.0),
        priced(pool("b", "B", "SOL", "USDC", 0, 0), 10.0),
    ];
    let gaps = gaps_of(&prices);
    assert_eq!(gaps[0][1], None);
    assert!(detect(&prices, &gaps, -1_000_000, 0).is_empty());
}

fn three_pools() -> Vec<PoolPrice> {
    vec![
        priced(pool("a", "A", "SOL", "USDC", 1, 2), 100.0),
        priced(pool("b", "B", "SOL", "USDC", 3, 1), 101.5),
        priced(pool("c", "C", "SOL", "USDC", 2, 2), 103.0),
    ]
}

fn summary(opps: &[Opportunity]) -> Vec<(String, String, i64, i64)> {
    opps.iter()
        .map(|o| (o.buy_pool.address.clone(), o.sell_pool.address.clone(), o.gross_gap_bps, o.estimated_net_bps))
        .collect()
}

#[test]
fn raising_the_threshold_only_filters() {
    let prices = three_pools();
    let gaps = gaps_of(&prices);
    let low = detect(&prices, &gaps, 0, 5);
    let high = detect(&prices, &gaps, 140, 5);
    let filtered: Vec<_> = summary(&low).into_iter().filter(|o| o.3 >= 140).collect();
    assert_eq!(summary(&high), filtered);
    assert!(high.len() < low.len());
}

#[test]
fn moving_bps_from_threshold_to_margin_lowers_every_edge() {
    let prices = three_pools();
    let gaps = gaps_of(&prices);
    let before = detect(&prices, &gaps, 20, 5);
    let after = detect(&prices, &gaps, 20 - 7, 5 + 7);
    let expected: Vec<_> = summary(&before).into_iter().map(|(b, s, g, n)| (b, s, g, n - 7)).collect();
    assert_eq!(summary(&after), expected);
}

#[test]
fn reordering_prices_keeps_the_report() {
    let prices = three_pools();
    let gaps = gaps_of(&prices);
    let perm = [2usize, 0, 1];
    let reordered: Vec<PoolPrice> = perm.iter().map(|&i| prices[i].clone()).collect();
    let regaps = gaps_of(&reordered);
    let a = detect(&prices, &gaps, -10_000, 0);
    let b = detect(&reordered, &regaps, -10_000, 0);
    let nets = |v: &[Opportunity]| v.iter().map(|o| o.estimated_net_bps).collect::<Vec<_>>();
    assert_eq!(nets(&a), nets(&b));
    let mut sa = summary(&a);
    let mut sb = summary(&b);
    sa.sort();
    sb.sort();
    assert_eq!(sa, sb);
}

use mev_engine::config::{EngineConfig, JitoConfig, JupiterConfig, RiskConfig, RpcConfig, Settings};
use mev_engine::errors::BotError;
use mev_engine::execution::{
    ensure_balance, frame_send_bundle_body, simulate, BundleDispatch, ExecutionError, JitoClient, SendBundleRequest,
};
use mev_engine::jupiter::{JupiterClient, QuoteRequest};
use mev_engine::market::{decode_price_stub, PoolSubscriber, PriceCache, SolanaWsClient};
use mev_engine::strategy::size;
use mev_engine::text::decimal;
use mev_engine::types::{Opportunity, PoolConfig, PoolKind, PoolPrice};

fn pool(address: &str, enabled: bool) -> PoolConfig {
    PoolConfig {
        name: format!("pool-{address}"),
        kind: PoolKind::Pumpswap,
        address: address.to_string(),
        base_mint: "SOL".to_string(),
        quote_mint: "USDC".to_string(),
        fee_bps: 25,
        bin_step_bps: 0,
        enabled,
    }
}

#[test]
fn ensure_balance_requires_trade_plus_reserve() {
    assert!(ensure_balance(100, 60, 40).is_ok());
    assert!(ensure_balance(101, 60, 40).is_ok());
    assert_eq!(ensure_balance(99, 60, 40), Err(ExecutionError::InsufficientBalance));
    assert!(ensure_balance(0, 0, 0).is_ok());
    assert_eq!(
        ExecutionError::InsufficientBalance.message(),
        "insufficient balance for trade plus configured reserve"
    );
}

#[test]
fn simulate_reports_the_estimate() {
    let opp = Opportunity {
        buy_pool: pool("A", true),
        sell_pool: pool("B", true),
        gross_gap_bps: 30,
        estimated_net_bps: 20,
    };
    let plan = size(opp, 1_000_000);
    let r = simulate(&plan).unwrap();
    assert!(r.profitable);
    assert_eq!(r.expected_profit_lamports, 2_000);
    assert_eq!(r.reason, "stub simulation from strategy estimate");

    let loss = Opportunity {
        buy_pool: pool("A", true),
        sell_pool: pool("B", true),
        gross_gap_bps: 0,
        estimated_net_bps: -5,
    };
    let r = simulate(&size(loss, 1_000_000)).unwrap();
    assert!(!r.profitable);
    assert_eq!(r.expected_profit_lamports, -500);
}

#[test]
fn jito_dry_run_sends_nothing() {
    let client = JitoClient::new("https://mainnet.block-engine.jito.wtf/".to_string());
    let request = SendBundleRequest { transactions: vec!["tx1".to_string(), "tx2".to_string()] };
    match client.prepare_bundle(&request, true) {
        BundleDispatch::DryRun { tx_count } => assert_eq!(tx_count, 2),
        other => panic!("unexpected {other:?}"),
    }
}

#[test]
fn jito_send_posts_json_rpc_to_bundles_endpoint() {
    let client = JitoClient::new("https://mainnet.block-engine.jito.wtf//".to_string());
    let request = SendBundleRequest { transactions: vec!["tx1".to_string(), "t\"x2".to_string()] };
    match client.prepare_bundle(&request, false) {
        BundleDispatch::Send { url, body } => {
            assert_eq!(url, "https://mainnet.block-engine.jito.wtf/api/v1/bundles");
            assert_eq!(
                body,
                "{\"id\":1,\"jsonrpc\":\"2.0\",\"method\":\"sendBundle\",\"params\":[[\"tx1\",\"t\\\"x2\"]]}"
            );
            let parsed: serde_json::Value = serde_json::from_str(&body).unwrap();
            assert_eq!(parsed["method"], "sendBundle");
            assert_eq!(parsed["params"][0][1], "t\"x2");
        }
        other => panic!("unexpected {other:?}"),
    }
}

#[test]
fn frame_body_wraps_params() {
    assert_eq!(
        frame_send_bundle_body("[]"),
        "{\"id\":1,\"jsonrpc\":\"2.0\",\"method\":\"sendBundle\",\"params\":[[]]}"
    );
}

#[test]
fn jupiter_quote_url_and_params() {
    let client = JupiterClient::new("https://api.jup.ag/".to_string());
    assert_eq!(client.quote_url(), "https://api.jup.ag/swap/v1/quote");
    let plain = JupiterClient::new("https://api.jup.ag".to_string());
    assert_eq!(plain.quote_url(), "https://api.jup.ag/swap/v1/quote");
    let request = QuoteRequest {
        input_mint: "So11111111111111111111111111111111111111112".to_string(),
        output_mint: "EPjFWdd5AufqSSqeM2qN1xzybapC8G4wEGGkZwyTDt1v".to_string(),
        amount: 1_000_000_000,
        slippage_bps: 50,
        only_direct_routes: true,
        restrict_intermediate_tokens: false,
        max_accounts: 64,
    };
    let params = JupiterClient::quote_params(&request);
    let expected: Vec<(String, String)> = vec![
        ("inputMint", "So11111111111111111111111111111111111111112"),
        ("outputMint", "EPjFWdd5AufqSSqeM2qN1xzybapC8G4wEGGkZwyTDt1v"),
        ("amount", "1000000000"),
        ("slippageBps", "50"),
        ("onlyDirectRoutes", "true"),
        ("restrictIntermediateTokens", "false"),
        ("maxAccounts", "64"),
    ]
    .into_iter()
    .map(|(k, v)| (k.to_string(), v.to_string()))
    .collect();
    assert_eq!(params, expected);
}

#[test]
fn subscriber_filters_enabled_pools() {
    let sub = PoolSubscriber::new(
        "wss://example".to_string(),
        vec![pool("A", true), pool("B", false), pool("C", true)],
    );
    let enabled: Vec<String> = sub.enabled_pools().into_iter().map(|p| p.address).collect();
    assert_eq!(enabled, vec!["A".to_string(), "C".to_string()]);
    assert_eq!(sub.ws().ws_url(), "wss://example");
    let ws = SolanaWsClient::new("wss://other".to_string());
    assert_eq!(ws.ws_url(), "wss://other");
}

#[test]
fn settings_count_enabled_pools() {
    let settings = Settings {
        rpc: RpcConfig { http_url: "h".to_string(), ws_url: "w".to_string(), commitment: "processed".to_string() },
        jupiter: JupiterConfig {
            base_url: "j".to_string(),
            only_direct_routes: true,
            restrict_intermediate_tokens: true,
            slippage_bps: 50,
            max_accounts: 64,
        },
        jito: JitoConfig { block_engine_url: "b".to_string(), min_tip_lamports: 1, max_tip_lamports: 2 },
        risk: RiskConfig {
            dry_run: true,
            min_profit_bps: 10,
            max_trade_lamports: 1,
            max_daily_loss_lamports: 1,
            min_wallet_balance_lamports: 1,
            safety_margin_bps: 5,
        },
        engine: EngineConfig { bind_addr: "127.0.0.1:8787".to_string(), poll_fallback_ms: 500 },
        pools: vec![pool("A", false), pool("B", true), pool("C", true), pool("D", false)],
    };
    assert_eq!(settings.enabled_pool_count(), 2);
}

#[test]
fn price_stub_is_zero() {
    let p = decode_price_stub(pool("A", true), 42);
    assert_eq!(p.slot, 42);
    assert_eq!(f64::from_bits(p.price_bits), 0.0);
    assert_eq!(p.pool.address, "A");
}

fn price(address: &str, price: f64, slot: u64) -> PoolPrice {
    PoolPrice { pool: pool(address, true), price_bits: price.to_bits(), slot }
}

#[test]
fn price_cache_keeps_latest_per_pool() {
    let mut cache = PriceCache::default();
    assert!(cache.all().is_empty());
    cache.upsert(price("A", 1.0, 1));
    cache.upsert(price("B", 2.0, 1));
    cache.upsert(price("A", 3.0, 2));
    let mut all: Vec<(String, f64, u64)> = cache
        .all()
        .into_iter()
        .map(|p| (p.pool.address, f64::from_bits(p.price_bits), p.slot))
        .collect();
    all.sort_by(|a, b| a.0.cmp(&b.0));
    assert_eq!(all, vec![("A".to_string(), 3.0, 2), ("B".to_string(), 2.0, 1)]);
}

#[test]
fn bot_error_messages() {
    assert_eq!(BotError::Config("x".to_string()).message(), "configuration error: x");
    assert_eq!(BotError::MarketData("y".to_string()).message(), "market data error: y");
    assert_eq!(BotError::Quote("z".to_string()).message(), "quote error: z");
    assert_eq!(BotError::Execution("w".to_string()).message(), "execution error: w");
}

#[test]
fn jito_body_for_plain_transactions_is_a_compact_array() {
    let client = JitoClient::new("https://engine".to_string());
    let request = SendBundleRequest { transactions: vec!["AQID".to_string(), "BAUG".to_string()] };
    match client.prepare_bundle(&request, false) {
        BundleDispatch::Send { url, body } => {
            assert_eq!(url, "https://engine/api/v1/bundles");
            assert_eq!(
                body,
                "{\"id\":1,\"jsonrpc\":\"2.0\",\"method\":\"sendBundle\",\"params\":[[\"AQID\",\"BAUG\"]]}"
            );
        }
        other => panic!("unexpected {other:?}"),
    }
    let empty = SendBundleRequest { transactions: vec![] };
    match client.prepare_bundle(&empty, false) {
        BundleDispatch::Send { body, .. } => {
            assert_eq!(body, "{\"id\":1,\"jsonrpc\":\"2.0\",\"method\":\"sendBundle\",\"params\":[[]]}");
        }
        other => panic!("unexpected {other:?}"),
    }
}

#[test]
fn cache_after_many_upserts_lists_latest_per_address() {
    let mut cache = PriceCache::default();
    let filed = [("A", 1.0), ("B", 2.0), ("A", 3.0), ("C", 4.0), ("B", 5.0), ("A", 6.0)];
    for (i, (address, p)) in filed.iter().enumerate() {
        cache.upsert(price(address, *p, i as u64));
    }
    let mut all: Vec<(String, f64, u64)> = cache
        .all()
        .into_iter()
        .map(|p| (p.pool.address, f64::from_bits(p.price_bits), p.slot))
        .collect();
    all.sort_by(|a, b| a.0.cmp(&b.0));
    assert_eq!(
        all,
        vec![("A".to_string(), 6.0, 5), ("B".to_string(), 5.0, 4), ("C".to_string(), 4.0, 3)]
    );
}

#[test]
fn decimal_text_of_numbers() {
    assert_eq!(decimal(0), "0");
    assert_eq!(decimal(7), "7");
    assert_eq!(decimal(10), "10");
    assert_eq!(decimal(1_000_000_007), "1000000007");
    assert_eq!(decimal(u64::MAX), u64::MAX.to_string());
}

#[test]
fn jito_body_escapes_like_serde_json() {
    let client = JitoClient::new("https://engine".to_string());
    let tx = "a\nb\u{1}c\\d\te\u{8}\u{c}\r\u{1f}é".to_string();
    let request = SendBundleRequest { transactions: vec![tx.clone()] };
    match client.prepare_bundle(&request, false) {
        BundleDispatch::Send { body, .. } => {
            assert_eq!(
                body,
                "{\"id\":1,\"jsonrpc\":\"2.0\",\"method\":\"sendBundle\",\"params\":[[\"a\\nb\\u0001c\\\\d\\te\\b\\f\\r\\u001fé\"]]}"
            );
            let parsed: serde_json::Value = serde_json::from_str(&body).unwrap();
            assert_eq!(parsed["params"][0][0], tx.as_str());
        }
        other => panic!("unexpected {other:?}"),
    }
}

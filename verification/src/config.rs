use vstd::prelude::*;

use crate::types::{enabled_only, is_enabled, PoolConfig};

verus! {

/// The complete engine configuration: the bot settings and the pool watchlist.
#[derive(Debug)]
pub struct Settings {
    pub rpc: RpcConfig,
    pub jupiter: JupiterConfig,
    pub jito: JitoConfig,
    pub risk: RiskConfig,
    pub engine: EngineConfig,
    pub pools: Vec<PoolConfig>,
}

/// Where the Solana RPC endpoints are.
#[derive(Debug)]
pub struct RpcConfig {
    pub http_url: String,
    pub ws_url: String,
    pub commitment: String,
}

/// Jupiter quote settings.
#[derive(Debug)]
pub struct JupiterConfig {
    pub base_url: String,
    pub only_direct_routes: bool,
    pub restrict_intermediate_tokens: bool,
    pub slippage_bps: u32,
    pub max_accounts: u32,
}

/// Jito block-engine settings.
#[derive(Debug)]
pub struct JitoConfig {
    pub block_engine_url: String,
    pub min_tip_lamports: u64,
    pub max_tip_lamports: u64,
}

/// Risk controls.
#[derive(Debug)]
pub struct RiskConfig {
    pub dry_run: bool,
    pub min_profit_bps: i64,
    pub max_trade_lamports: u64,
    pub max_daily_loss_lamports: u64,
    pub min_wallet_balance_lamports: u64,
    pub safety_margin_bps: i64,
}

/// Where the engine's control API listens, and its polling fallback.
#[derive(Debug)]
pub struct EngineConfig {
    pub bind_addr: String,
    pub poll_fallback_ms: u64,
}

impl Settings {
    /// How many pools of the watchlist are enabled.
    pub fn enabled_pool_count(&self) -> (count: usize)
        ensures
            count == enabled_only(self.pools@).len(),
    {
        let mut count: usize = 0;
        let mut i: usize = 0;
        while i < self.pools.len()
            invariant
                i <= self.pools@.len(),
                count == enabled_only(self.pools@.take(i as int)).len(),
                count <= i,
            decreases self.pools.len() - i,
        {
            proof {
                self.pools@.take(i as int).lemma_filter_push(self.pools@[i as int], is_enabled());
                assert(self.pools@.take(i + 1) =~= self.pools@.take(i as int).push(self.pools@[i as int]));
            }
            if self.pools[i].enabled {
                count = count + 1;
            }
            i = i + 1;
        }
        assert(self.pools@.take(i as int) =~= self.pools@);
        count
    }
}

} // verus!

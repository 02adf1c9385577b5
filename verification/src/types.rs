use vstd::prelude::*;
use vstd::seq_lib::*;

verus! {

/// The kind of on-chain pool a price comes from.
#[derive(Debug, PartialEq, Eq, Structural)]
pub enum PoolKind {
    Dlmm,
    Pumpswap,
}

impl Clone for PoolKind {
    fn clone(&self) -> (res: Self)
        ensures
            res == *self,
    {
        match self {
            PoolKind::Dlmm => PoolKind::Dlmm,
            PoolKind::Pumpswap => PoolKind::Pumpswap,
        }
    }
}

/// One entry of the pool watchlist.
#[derive(Debug)]
pub struct PoolConfig {
    pub name: String,
    pub kind: PoolKind,
    pub address: String,
    pub base_mint: String,
    pub quote_mint: String,
    pub fee_bps: u32,
    pub bin_step_bps: u32,
    pub enabled: bool,
}

impl Clone for PoolConfig {
    fn clone(&self) -> (res: Self)
        ensures
            res == *self,
    {
        PoolConfig {
            name: self.name.clone(),
            kind: self.kind.clone(),
            address: self.address.clone(),
            base_mint: self.base_mint.clone(),
            quote_mint: self.quote_mint.clone(),
            fee_bps: self.fee_bps,
            bin_step_bps: self.bin_step_bps,
            enabled: self.enabled,
        }
    }
}

/// Whether a watchlist entry is switched on.
pub open spec fn is_enabled() -> spec_fn(PoolConfig) -> bool {
    |pool: PoolConfig| pool.enabled
}

/// The enabled entries of a watchlist, in order.
pub open spec fn enabled_only(pools: Seq<PoolConfig>) -> Seq<PoolConfig> {
    pools.filter(is_enabled())
}

/// The enabled entries of a watchlist are exactly its entries whose
/// `enabled` flag is set, in their order.
pub proof fn lemma_enabled_only_keeps_enabled_pools(pools: Seq<PoolConfig>)
    ensures
        forall|i: int|
            0 <= i < enabled_only(pools).len() ==> (#[trigger] enabled_only(pools)[i]).enabled,
        forall|i: int| 0 <= i < pools.len() && (#[trigger] pools[i]).enabled ==> enabled_only(pools).contains(pools[i]),
        forall|p: PoolConfig| #[trigger] enabled_only(pools).contains(p) ==> pools.contains(p),
{
    broadcast use vstd::seq_lib::group_filter_ensures;

    assert forall|p: PoolConfig| #[trigger] enabled_only(pools).contains(p) implies pools.contains(p) by {
        pools.lemma_filter_contains_rev(is_enabled(), p);
    }
}

/// A price observation for one pool. The price is carried as the bit pattern
/// of its IEEE-754 double (`f64::to_bits`), so that it can be stored, compared
/// for identity and handed back unchanged.
#[derive(Debug)]
pub struct PoolPrice {
    pub pool: PoolConfig,
    pub price_bits: u64,
    pub slot: u64,
}

impl Clone for PoolPrice {
    fn clone(&self) -> (res: Self)
        ensures
            res == *self,
    {
        PoolPrice { pool: self.pool.clone(), price_bits: self.price_bits, slot: self.slot }
    }
}

/// A candidate arbitrage: buy on `buy_pool`, sell on `sell_pool`.
#[derive(Debug)]
pub struct Opportunity {
    pub buy_pool: PoolConfig,
    pub sell_pool: PoolConfig,
    pub gross_gap_bps: i64,
    pub estimated_net_bps: i64,
}

impl Clone for Opportunity {
    fn clone(&self) -> (res: Self)
        ensures
            res == *self,
    {
        Opportunity {
            buy_pool: self.buy_pool.clone(),
            sell_pool: self.sell_pool.clone(),
            gross_gap_bps: self.gross_gap_bps,
            estimated_net_bps: self.estimated_net_bps,
        }
    }
}

/// An opportunity together with the size at which it would be traded.
#[derive(Debug)]
pub struct TradePlan {
    pub opportunity: Opportunity,
    pub amount_lamports: u64,
    pub expected_profit_lamports: i64,
}

impl Clone for TradePlan {
    fn clone(&self) -> (res: Self)
        ensures
            res == *self,
    {
        TradePlan {
            opportunity: self.opportunity.clone(),
            amount_lamports: self.amount_lamports,
            expected_profit_lamports: self.expected_profit_lamports,
        }
    }
}

} // verus!

use vstd::prelude::*;

use crate::types::{enabled_only, is_enabled, PoolConfig, PoolPrice};

verus! {

/// A websocket client of the Solana RPC.
#[derive(Debug)]
pub struct SolanaWsClient {
    ws_url: String,
}

impl SolanaWsClient {
    pub fn new(ws_url: String) -> (client: Self)
        ensures
            client.url() == ws_url,
    {
        SolanaWsClient { ws_url }
    }

    /// The websocket endpoint.
    pub closed spec fn url(&self) -> String {
        self.ws_url
    }

    /// The websocket endpoint.
    pub fn ws_url(&self) -> (url: &String)
        ensures
            *url == self.url(),
    {
        &self.ws_url
    }
}

/// Watches the pools of a watchlist over a websocket.
#[derive(Debug)]
pub struct PoolSubscriber {
    ws: SolanaWsClient,
    pools: Vec<PoolConfig>,
}

impl PoolSubscriber {
    pub fn new(ws_url: String, pools: Vec<PoolConfig>) -> (subscriber: Self)
        ensures
            subscriber.client().url() == ws_url,
            subscriber.watchlist() == pools@,
    {
        PoolSubscriber { ws: SolanaWsClient::new(ws_url), pools }
    }

    /// The websocket client.
    pub closed spec fn client(&self) -> SolanaWsClient {
        self.ws
    }

    /// The whole watchlist, enabled or not.
    pub closed spec fn watchlist(&self) -> Seq<PoolConfig> {
        self.pools@
    }

    /// The websocket client.
    pub fn ws(&self) -> (client: &SolanaWsClient)
        ensures
            *client == self.client(),
    {
        &self.ws
    }

    /// The pools to subscribe to: the enabled entries of the watchlist, in order.
    pub fn enabled_pools(&self) -> (enabled: Vec<PoolConfig>)
        ensures
            enabled@ == enabled_only(self.watchlist()),
    {
        let mut enabled: Vec<PoolConfig> = Vec::new();
        let mut i: usize = 0;
        while i < self.pools.len()
            invariant
                i <= self.pools@.len(),
                enabled@ == enabled_only(self.pools@.take(i as int)),
            decreases self.pools.len() - i,
        {
            proof {
                self.pools@.take(i as int).lemma_filter_push(self.pools@[i as int], is_enabled());
                assert(self.pools@.take(i + 1) =~= self.pools@.take(i as int).push(self.pools@[i as int]));
            }
            if self.pools[i].enabled {
                enabled.push(self.pools[i].clone());
            }
            i = i + 1;
        }
        assert(self.pools@.take(i as int) =~= self.pools@);
        enabled
    }
}

/// A placeholder price for a pool whose account data is not decoded yet:
/// price 0.0 (bit pattern 0) at the given slot.
pub fn decode_price_stub(pool: PoolConfig, slot: u64) -> (price: PoolPrice)
    ensures
        price.pool == pool,
        price.price_bits == 0,
        price.slot == slot,
{
    PoolPrice { pool, price_bits: 0, slot }
}

/// The pool address a price is filed under.
pub open spec fn price_key(price: PoolPrice) -> Seq<char> {
    price.pool.address@
}

/// No two entries share a pool address.
pub open spec fn unique_keys(entries: Seq<PoolPrice>) -> bool {
    forall|i: int, j: int|
        0 <= i < entries.len() && 0 <= j < entries.len() && i != j ==> price_key(entries[i])
            != price_key(entries[j])
}

/// The map from pool address to price that a list of entries describes
/// (later entries win).
pub open spec fn price_map(entries: Seq<PoolPrice>) -> Map<Seq<char>, PoolPrice>
    decreases entries.len(),
{
    if entries.len() == 0 {
        Map::empty()
    } else {
        price_map(entries.drop_last()).insert(price_key(entries.last()), entries.last())
    }
}

/// Whether `values` lists the values of `m`, one entry per key, each under
/// its own key (in any order).
pub open spec fn lists_values(m: Map<Seq<char>, PoolPrice>, values: Seq<PoolPrice>) -> bool {
    &&& unique_keys(values)
    &&& forall|i: int|
        0 <= i < values.len() ==> m.contains_key(price_key(#[trigger] values[i])) && m[price_key(
            values[i],
        )] == values[i]
    &&& forall|k: Seq<char>| #[trigger]
        m.contains_key(k) ==> exists|i: int| 0 <= i < values.len() && price_key(values[i]) == k
}

proof fn lemma_price_map(entries: Seq<PoolPrice>)
    requires
        unique_keys(entries),
    ensures
        lists_values(price_map(entries), entries),
    decreases entries.len(),
{
    if entries.len() > 0 {
        let init = entries.drop_last();
        lemma_price_map(init);
        let m = price_map(entries);
        assert forall|i: int| 0 <= i < entries.len() implies m.contains_key(price_key(#[trigger] entries[i]))
            && m[price_key(entries[i])] == entries[i] by {
            if i < entries.len() - 1 {
                assert(init[i] == entries[i]);
                assert(price_key(entries[i]) != price_key(entries.last()));
            }
        }
        assert forall|k: Seq<char>| #[trigger] m.contains_key(k) implies exists|i: int|
            0 <= i < entries.len() && price_key(entries[i]) == k by {
            if k != price_key(entries.last()) {
                assert(price_map(init).contains_key(k));
                let i: int = choose|i: int| 0 <= i < init.len() && price_key(init[i]) == k;
                assert(entries[i] == init[i]);
            } else {
                assert(price_key(entries[entries.len() - 1]) == k);
            }
        }
    }
}

/// Filing two prices of one pool leaves only the later one: the cache after
/// both is the cache after the second alone.
pub proof fn lemma_latest_price_wins(cache: Map<Seq<char>, PoolPrice>, first: PoolPrice, second: PoolPrice)
    requires
        price_key(first) == price_key(second),
    ensures
        cache.insert(price_key(first), first).insert(price_key(second), second) == cache.insert(
            price_key(second),
            second,
        ),
{
    assert(cache.insert(price_key(first), first).insert(price_key(second), second) =~= cache.insert(
        price_key(second),
        second,
    ));
}

/// A listing of the cache after a price was filed contains that price.
pub proof fn lemma_listing_contains_filed_price(
    cache: Map<Seq<char>, PoolPrice>,
    price: PoolPrice,
    listing: Seq<PoolPrice>,
)
    requires
        lists_values(cache.insert(price_key(price), price), listing),
    ensures
        listing.contains(price),
{
    let m = cache.insert(price_key(price), price);
    assert(m.contains_key(price_key(price)));
    let i: int = choose|i: int| 0 <= i < listing.len() && price_key(listing[i]) == price_key(price);
    assert(m[price_key(listing[i])] == listing[i]);
}

/// Whether `prices[i]` is the last of `prices` filed under its pool's address.
pub open spec fn is_latest(prices: Seq<PoolPrice>, i: int) -> bool {
    forall|j: int| i < j < prices.len() ==> price_key(#[trigger] prices[j]) != price_key(prices[i])
}

proof fn lemma_upserts_map(prices: Seq<PoolPrice>)
    ensures
        forall|k: Seq<char>| #[trigger] price_map(prices).contains_key(k) <==> exists|i: int|
            0 <= i < prices.len() && price_key(prices[i]) == k,
        forall|i: int|
            0 <= i < prices.len() && is_latest(prices, i) ==> price_map(prices)[price_key(
                #[trigger] prices[i],
            )] == prices[i],
    decreases prices.len(),
{
    if prices.len() > 0 {
        let init = prices.drop_last();
        lemma_upserts_map(init);
        let n: int = prices.len() as int;
        assert forall|k: Seq<char>| #[trigger] price_map(prices).contains_key(k) <==> exists|i: int|
            0 <= i < prices.len() && price_key(prices[i]) == k by {
            if k != price_key(prices.last()) && price_map(prices).contains_key(k) {
                assert(price_map(init).contains_key(k));
                let i: int = choose|i: int| 0 <= i < init.len() && price_key(init[i]) == k;
                assert(prices[i] == init[i]);
            }
            if k == price_key(prices.last()) {
                assert(price_key(prices[n - 1]) == k);
            }
            if exists|i: int| 0 <= i < prices.len() && price_key(prices[i]) == k {
                let i: int = choose|i: int| 0 <= i < prices.len() && price_key(prices[i]) == k;
                if i < n - 1 {
                    assert(init[i] == prices[i]);
                    assert(price_map(init).contains_key(k));
                }
            }
        }
        assert forall|i: int| 0 <= i < prices.len() && is_latest(prices, i) implies price_map(prices)[price_key(
            #[trigger] prices[i],
        )] == prices[i] by {
            if i < n - 1 {
                assert(price_key(prices[n - 1]) != price_key(prices[i]));
                assert forall|j: int| i < j < init.len() implies price_key(#[trigger] init[j]) != price_key(init[i]) by {
                    assert(init[j] == prices[j]);
                }
                assert(init[i] == prices[i]);
            }
        }
    }
}

/// After filing `prices` one by one into an empty cache (each `upsert` takes
/// the cache to `insert(price_key(p), p)`, so the cache is then
/// `price_map(prices)`), a listing of the cache holds one price per pool
/// address filed, and that price is the last one filed under the address.
pub proof fn lemma_listing_after_upserts(prices: Seq<PoolPrice>, listing: Seq<PoolPrice>)
    requires
        lists_values(price_map(prices), listing),
    ensures
        unique_keys(listing),
        forall|i: int|
            #![trigger listing[i]]
            0 <= i < listing.len() ==> exists|j: int|
                #![trigger prices[j]]
                0 <= j < prices.len() && listing[i] == prices[j] && is_latest(prices, j),
        forall|j: int|
            #![trigger prices[j]]
            0 <= j < prices.len() ==> exists|i: int|
                #![trigger listing[i]]
                0 <= i < listing.len() && price_key(listing[i]) == price_key(prices[j]),
{
    lemma_upserts_map(prices);
    let m = price_map(prices);
    assert forall|i: int| #![trigger listing[i]] 0 <= i < listing.len() implies exists|j: int|
        #![trigger prices[j]]
        0 <= j < prices.len() && listing[i] == prices[j] && is_latest(prices, j) by {
        let k = price_key(listing[i]);
        assert(m.contains_key(k));
        // the last price filed under k
        let j0: int = choose|j: int| 0 <= j < prices.len() && price_key(prices[j]) == k;
        let j: int = lemma_last_with_key(prices, k, j0);
        assert(m[price_key(prices[j])] == prices[j]);
    }
    assert forall|j: int| #![trigger prices[j]] 0 <= j < prices.len() implies exists|i: int|
        #![trigger listing[i]]
        0 <= i < listing.len() && price_key(listing[i]) == price_key(prices[j]) by {
        assert(m.contains_key(price_key(prices[j])));
    }
}

/// No price filed after `filings[j]` has the same pool address.
pub open spec fn filed_last_for_its_address(filings: Seq<PoolPrice>, j: int) -> bool {
    forall|later: int|
        j < later < filings.len() ==> #[trigger] filings[later].pool.address@ != filings[j].pool.address@
}

proof fn lemma_listing_addresses_distinct(listing: Seq<PoolPrice>)
    requires
        unique_keys(listing),
    ensures
        forall|i: int, k: int|
            0 <= i < listing.len() && 0 <= k < listing.len() && i != k ==> #[trigger] listing[i].pool.address@
                != #[trigger] listing[k].pool.address@,
{
    assert forall|i: int, k: int|
        0 <= i < listing.len() && 0 <= k < listing.len() && i != k implies #[trigger] listing[i].pool.address@
            != #[trigger] listing[k].pool.address@ by {
        assert(price_key(listing[i]) != price_key(listing[k]));
    }
}

proof fn lemma_listing_covers_addresses(filings: Seq<PoolPrice>, listing: Seq<PoolPrice>, j: int)
    requires
        lists_values(price_map(filings), listing),
        0 <= j < filings.len(),
    ensures
        exists|i: int|
            #![trigger listing[i]]
            0 <= i < listing.len() && listing[i].pool.address@ == filings[j].pool.address@,
{
    lemma_listing_after_upserts(filings, listing);
    assert(filings[j] == filings[j]);
    let i: int = choose|i: int|
        #![trigger listing[i]]
        0 <= i < listing.len() && price_key(listing[i]) == price_key(filings[j]);
    assert(listing[i].pool.address@ == filings[j].pool.address@);
}

proof fn lemma_listing_entry_is_latest(filings: Seq<PoolPrice>, listing: Seq<PoolPrice>, i: int)
    requires
        lists_values(price_map(filings), listing),
        0 <= i < listing.len(),
    ensures
        exists|j: int|
            #![trigger filings[j]]
            0 <= j < filings.len() && listing[i] == filings[j] && filed_last_for_its_address(filings, j),
{
    lemma_listing_after_upserts(filings, listing);
    assert(listing[i] == listing[i]);
    let j: int = choose|j: int|
        #![trigger filings[j]]
        0 <= j < filings.len() && listing[i] == filings[j] && is_latest(filings, j);
    assert forall|later: int| j < later < filings.len() implies #[trigger] filings[later].pool.address@
        != filings[j].pool.address@ by {
        assert(price_key(filings[later]) != price_key(filings[j]));
    }
}

/// The cache is keyed by pool address: a listing of the cache after filing
/// `filings` holds exactly one price for each pool address filed (so two
/// pools with different addresses both appear, whatever their other fields),
/// and the price listed for an address is the last one filed under it.
#[verifier::spinoff_prover]
pub proof fn lemma_cache_keyed_by_pool_address(filings: Seq<PoolPrice>, listing: Seq<PoolPrice>)
    requires
        lists_values(price_map(filings), listing),
    ensures
        forall|i: int, k: int|
            0 <= i < listing.len() && 0 <= k < listing.len() && i != k ==> #[trigger] listing[i].pool.address@
                != #[trigger] listing[k].pool.address@,
        forall|j: int|
            #![trigger filings[j]]
            0 <= j < filings.len() ==> exists|i: int|
                #![trigger listing[i]]
                0 <= i < listing.len() && listing[i].pool.address@ == filings[j].pool.address@,
        forall|i: int|
            #![trigger listing[i]]
            0 <= i < listing.len() ==> exists|j: int|
                #![trigger filings[j]]
                0 <= j < filings.len() && listing[i] == filings[j] && filed_last_for_its_address(filings, j),
{
    lemma_listing_addresses_distinct(listing);
    assert forall|j: int| #![trigger filings[j]] 0 <= j < filings.len() implies exists|i: int|
        #![trigger listing[i]]
        0 <= i < listing.len() && listing[i].pool.address@ == filings[j].pool.address@ by {
        lemma_listing_covers_addresses(filings, listing, j);
    }
    assert forall|i: int| #![trigger listing[i]] 0 <= i < listing.len() implies exists|j: int|
        #![trigger filings[j]]
        0 <= j < filings.len() && listing[i] == filings[j] && filed_last_for_its_address(filings, j) by {
        lemma_listing_entry_is_latest(filings, listing, i);
    }
}

/// Some price at or after `from` is the last one filed under `k`.
proof fn lemma_last_with_key(prices: Seq<PoolPrice>, k: Seq<char>, from: int) -> (j: int)
    requires
        0 <= from < prices.len(),
        price_key(prices[from]) == k,
    ensures
        0 <= j < prices.len(),
        price_key(prices[j]) == k,
        is_latest(prices, j),
    decreases prices.len() - from,
{
    if is_latest(prices, from) {
        from
    } else {
        let next: int = choose|next: int| from < next < prices.len() && price_key(prices[next]) == price_key(prices[from]);
        lemma_last_with_key(prices, k, next)
    }
}

/// The latest price of each pool, filed under the pool's address.
///
/// The prices are kept in a vector with at most one entry per address;
/// `filed` records, for proofs only, every price handed to `upsert`, in order.
pub struct PriceCache {
    prices: Vec<PoolPrice>,
    filed: Ghost<Seq<PoolPrice>>,
}

impl View for PriceCache {
    type V = Map<Seq<char>, PoolPrice>;

    closed spec fn view(&self) -> Map<Seq<char>, PoolPrice> {
        price_map(self.prices@)
    }
}

impl Default for PriceCache {
    fn default() -> (cache: Self)
        ensures
            cache@ == Map::<Seq<char>, PoolPrice>::empty(),
            cache.filings() == Seq::<PoolPrice>::empty(),
    {
        PriceCache { prices: Vec::new(), filed: Ghost(Seq::empty()) }
    }
}

impl PriceCache {
    #[verifier::type_invariant]
    spec fn keys_are_unique(self) -> bool {
        &&& unique_keys(self.prices@)
        &&& price_map(self.prices@) == price_map(self.filed@)
    }

    /// Every price filed into this cache since it was created, in order.
    pub closed spec fn filings(self) -> Seq<PoolPrice> {
        self.filed@
    }

    /// Files `price` under its pool's address, replacing the previous price
    /// of that pool if there was one.
    pub fn upsert(&mut self, price: PoolPrice)
        ensures
            final(self)@ == old(self)@.insert(price_key(price), price),
            final(self).filings() == old(self).filings().push(price),
    {
        proof {
            use_type_invariant(&*self);
        }
        let ghost filed_before = self.filed@;
        let ghost new_filed = self.filed@.push(price);
        let mut cache = PriceCache { prices: Vec::new(), filed: Ghost(Seq::empty()) };
        std::mem::swap(&mut cache, self);
        let PriceCache { prices: mut prices, .. } = cache;
        let ghost before = prices@;
        let mut i: usize = 0;
        while i < prices.len() && prices[i].pool.address != price.pool.address
            invariant
                prices@ == before,
                i <= prices@.len(),
                forall|j: int| 0 <= j < i ==> price_key(#[trigger] prices@[j]) != price_key(price),
            decreases prices.len() - i,
        {
            i = i + 1;
        }
        proof {
            lemma_price_map(before);
        }
        if i < prices.len() {
            prices.set(i, price);
            proof {
                let after = prices@;
                assert(unique_keys(after)) by {
                    assert forall|a: int, b: int|
                        0 <= a < after.len() && 0 <= b < after.len() && a != b implies price_key(after[a])
                            != price_key(after[b]) by {
                        if a != i && b != i {
                            assert(after[a] == before[a] && after[b] == before[b]);
                        } else if a == i {
                            assert(after[b] == before[b]);
                        } else {
                            assert(after[a] == before[a]);
                        }
                    }
                }
                lemma_price_map(after);
                let m = price_map(before).insert(price_key(price), price);
                assert forall|k: Seq<char>| #[trigger] price_map(after).contains_key(k) <==> m.contains_key(k) by {
                    if price_map(after).contains_key(k) {
                        let a: int = choose|a: int| 0 <= a < after.len() && price_key(after[a]) == k;
                        if a != i {
                            assert(after[a] == before[a]);
                            assert(price_map(before).contains_key(price_key(before[a])));
                        }
                    }
                    if m.contains_key(k) {
                        if k != price_key(price) {
                            let a: int = choose|a: int| 0 <= a < before.len() && price_key(before[a]) == k;
                            assert(after[a] == before[a]);
                            assert(price_map(after).contains_key(price_key(after[a as int])));
                        } else {
                            assert(price_map(after).contains_key(price_key(after[i as int])));
                        }
                    }
                }
                assert forall|k: Seq<char>| #[trigger] price_map(after).contains_key(k) implies price_map(after)[k] == m[k] by {
                    let a: int = choose|a: int| 0 <= a < after.len() && price_key(after[a]) == k;
                    if a != i {
                        assert(after[a] == before[a]);
                    }
                }
                assert(price_map(after) =~= m);
            }
        } else {
            proof {
                assert(unique_keys(prices@.push(price))) by {
                    let after = prices@.push(price);
                    assert forall|a: int, b: int|
                        0 <= a < after.len() && 0 <= b < after.len() && a != b implies price_key(after[a])
                            != price_key(after[b]) by {
                        if a < before.len() && b < before.len() {
                        } else if a == before.len() {
                            assert(after[b] == before[b]);
                        } else {
                            assert(after[a] == before[a]);
                        }
                    }
                }
                assert(prices@.push(price).drop_last() =~= before);
            }
            prices.push(price);
        }
        proof {
            assert(new_filed.drop_last() =~= filed_before);
        }
        *self = PriceCache { prices, filed: Ghost(new_filed) };
    }

    /// Every cached price, one per pool (in no promised order).
    pub fn all(&self) -> (prices: Vec<PoolPrice>)
        ensures
            lists_values(self@, prices@),
            self@ == price_map(self.filings()),
            forall|i: int|
                #![trigger prices@[i]]
                0 <= i < prices@.len() ==> exists|j: int|
                    #![trigger self.filings()[j]]
                    0 <= j < self.filings().len() && prices@[i] == self.filings()[j] && is_latest(
                        self.filings(),
                        j,
                    ),
            forall|j: int|
                #![trigger self.filings()[j]]
                0 <= j < self.filings().len() ==> exists|i: int|
                    #![trigger prices@[i]]
                    0 <= i < prices@.len() && price_key(prices@[i]) == price_key(self.filings()[j]),
    {
        proof {
            use_type_invariant(self);
            lemma_price_map(self.prices@);
        }
        let mut prices: Vec<PoolPrice> = Vec::new();
        let mut i: usize = 0;
        while i < self.prices.len()
            invariant
                i <= self.prices@.len(),
                prices@ == self.prices@.take(i as int),
            decreases self.prices.len() - i,
        {
            prices.push(self.prices[i].clone());
            assert(self.prices@.take(i + 1) =~= self.prices@.take(i as int).push(self.prices@[i as int]));
            i = i + 1;
        }
        assert(self.prices@.take(i as int) =~= self.prices@);
        proof {
            lemma_listing_after_upserts(self.filed@, prices@);
        }
        prices
    }
}

} // verus!

use vstd::prelude::*;

use crate::text::{
    bool_text, bool_to_text, decimal, decimal_text, lemma_decimal_text_injective, trim_trailing_slashes,
    without_trailing_slashes,
};

verus! {

/// A request for a Jupiter swap quote.
#[derive(Debug)]
pub struct QuoteRequest {
    pub input_mint: String,
    pub output_mint: String,
    pub amount: u64,
    pub slippage_bps: u32,
    pub only_direct_routes: bool,
    pub restrict_intermediate_tokens: bool,
    pub max_accounts: u32,
}

/// The part of a Jupiter quote the engine reads.
#[derive(Debug)]
pub struct QuoteResponse {
    pub input_mint: String,
    pub output_mint: String,
    pub in_amount: String,
    pub out_amount: String,
}

/// The quote endpoint under a Jupiter base URL.
pub open spec fn quote_url_text(base_url: Seq<char>) -> Seq<char> {
    trim_trailing_slashes(base_url) + "/swap/v1/quote"@
}

/// The query parameters of a quote request, as (name, value) texts, in order.
pub open spec fn quote_params_text(request: QuoteRequest) -> Seq<(Seq<char>, Seq<char>)> {
    seq![
        ("inputMint"@, request.input_mint@),
        ("outputMint"@, request.output_mint@),
        ("amount"@, decimal_text(request.amount as nat)),
        ("slippageBps"@, decimal_text(request.slippage_bps as nat)),
        ("onlyDirectRoutes"@, bool_text(request.only_direct_routes)),
        ("restrictIntermediateTokens"@, bool_text(request.restrict_intermediate_tokens)),
        ("maxAccounts"@, decimal_text(request.max_accounts as nat)),
    ]
}

/// Each query parameter carries its own request field: the two mints as
/// given, the two flags as `"true"` exactly when the flag is set (`"false"`
/// otherwise), and the three numbers as decimal texts that tell different
/// numbers apart.
pub proof fn lemma_quote_params_follow_request(request: QuoteRequest, other: QuoteRequest)
    ensures
        quote_params_text(request).len() == 7,
        quote_params_text(request)[0] == ("inputMint"@, request.input_mint@),
        quote_params_text(request)[1] == ("outputMint"@, request.output_mint@),
        quote_params_text(request)[2].0 == "amount"@,
        quote_params_text(request)[3].0 == "slippageBps"@,
        quote_params_text(request)[4].0 == "onlyDirectRoutes"@,
        quote_params_text(request)[5].0 == "restrictIntermediateTokens"@,
        quote_params_text(request)[6].0 == "maxAccounts"@,
        quote_params_text(request)[4].1 == (if request.only_direct_routes { "true"@ } else { "false"@ }),
        quote_params_text(request)[5].1 == (if request.restrict_intermediate_tokens {
            "true"@
        } else {
            "false"@
        }),
        quote_params_text(request)[4].1 == "true"@ <==> request.only_direct_routes,
        quote_params_text(request)[5].1 == "true"@ <==> request.restrict_intermediate_tokens,
        quote_params_text(request)[2].1 == quote_params_text(other)[2].1 ==> request.amount == other.amount,
        quote_params_text(request)[3].1 == quote_params_text(other)[3].1 ==> request.slippage_bps
            == other.slippage_bps,
        quote_params_text(request)[6].1 == quote_params_text(other)[6].1 ==> request.max_accounts
            == other.max_accounts,
{
    reveal_strlit("true");
    reveal_strlit("false");
    assert("true"@ != "false"@) by {
        assert("true"@.len() != "false"@.len());
    }
    if quote_params_text(request)[2].1 == quote_params_text(other)[2].1 {
        lemma_decimal_text_injective(request.amount as nat, other.amount as nat);
    }
    if quote_params_text(request)[3].1 == quote_params_text(other)[3].1 {
        lemma_decimal_text_injective(request.slippage_bps as nat, other.slippage_bps as nat);
    }
    if quote_params_text(request)[6].1 == quote_params_text(other)[6].1 {
        lemma_decimal_text_injective(request.max_accounts as nat, other.max_accounts as nat);
    }
}

/// The texts of a list of (name, value) pairs.
pub open spec fn pair_texts(pairs: Seq<(String, String)>) -> Seq<(Seq<char>, Seq<char>)> {
    pairs.map_values(|p: (String, String)| (p.0@, p.1@))
}

/// A client of the Jupiter swap API.
#[derive(Debug)]
pub struct JupiterClient {
    pub base_url: String,
}

impl JupiterClient {
    pub fn new(base_url: String) -> (client: Self)
        ensures
            client.base_url == base_url,
    {
        JupiterClient { base_url }
    }

    /// The URL of the quote endpoint.
    pub fn quote_url(&self) -> (url: String)
        ensures
            url@ == quote_url_text(self.base_url@),
    {
        let mut url = without_trailing_slashes(self.base_url.as_str());
        url.append("/swap/v1/quote");
        url
    }

    /// The query parameters of a quote request.
    pub fn quote_params(request: &QuoteRequest) -> (params: Vec<(String, String)>)
        ensures
            pair_texts(params@) == quote_params_text(*request),
    {
        let mut params: Vec<(String, String)> = Vec::new();
        params.push((String::from_str("inputMint"), request.input_mint.clone()));
        params.push((String::from_str("outputMint"), request.output_mint.clone()));
        params.push((String::from_str("amount"), decimal(request.amount)));
        params.push((String::from_str("slippageBps"), decimal(request.slippage_bps as u64)));
        params.push((String::from_str("onlyDirectRoutes"), bool_to_text(request.only_direct_routes)));
        params.push(
            (String::from_str("restrictIntermediateTokens"), bool_to_text(request.restrict_intermediate_tokens)),
        );
        params.push((String::from_str("maxAccounts"), decimal(request.max_accounts as u64)));
        assert(pair_texts(params@) =~= quote_params_text(*request));
        params
    }
}

} // verus!

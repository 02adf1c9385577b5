use vstd::prelude::*;

use crate::errors::BotError;
use crate::text::{digit_char, trim_trailing_slashes, without_trailing_slashes};
use crate::types::TradePlan;

verus! {

/// Why a trade cannot go ahead.
#[derive(Debug, PartialEq, Eq, Structural)]
pub enum ExecutionError {
    InsufficientBalance,
}

impl ExecutionError {
    /// The error's text.
    pub fn message(&self) -> (text: String)
        ensures
            text@ == "insufficient balance for trade plus configured reserve"@,
    {
        String::from_str("insufficient balance for trade plus configured reserve")
    }
}

/// Checks that the wallet covers the trade and still keeps the configured
/// reserve afterwards.
pub fn ensure_balance(
    balance_lamports: u64,
    needed_lamports: u64,
    min_remaining_lamports: u64,
) -> (checked: Result<(), ExecutionError>)
    requires
        needed_lamports + min_remaining_lamports <= u64::MAX,
    ensures
        checked is Ok <==> balance_lamports >= needed_lamports + min_remaining_lamports,
        checked is Err ==> checked == Err::<(), ExecutionError>(ExecutionError::InsufficientBalance),
{
    if balance_lamports < needed_lamports + min_remaining_lamports {
        return Err(ExecutionError::InsufficientBalance);
    }
    Ok(())
}

/// The outcome of simulating a trade plan.
#[derive(Debug)]
pub struct SimulationResult {
    pub profitable: bool,
    pub expected_profit_lamports: i64,
    pub reason: String,
}

/// Simulates a trade plan. Until real transaction simulation exists, the
/// outcome is the strategy's own estimate: the plan is profitable exactly
/// when its expected profit is positive.
pub fn simulate(plan: &TradePlan) -> (outcome: Result<SimulationResult, BotError>)
    ensures
        outcome is Ok,
        outcome->Ok_0.profitable == (plan.expected_profit_lamports > 0),
        outcome->Ok_0.expected_profit_lamports == plan.expected_profit_lamports,
        outcome->Ok_0.reason@ == "stub simulation from strategy estimate"@,
{
    Ok(
        SimulationResult {
            profitable: plan.expected_profit_lamports > 0,
            expected_profit_lamports: plan.expected_profit_lamports,
            reason: String::from_str("stub simulation from strategy estimate"),
        },
    )
}

/// A bundle of signed transactions for the Jito block engine.
#[derive(Debug)]
pub struct SendBundleRequest {
    pub transactions: Vec<String>,
}

/// The block engine's answer to `sendBundle`: the bundle id, when accepted.
#[derive(Debug)]
pub struct SendBundleResponse {
    pub result: Option<String>,
}

/// A hexadecimal digit as serde_json writes it (lower case).
pub open spec fn hex_digit_char(d: int) -> char {
    if d < 10 {
        digit_char(d)
    } else if d == 10 {
        'a'
    } else if d == 11 {
        'b'
    } else if d == 12 {
        'c'
    } else if d == 13 {
        'd'
    } else if d == 14 {
        'e'
    } else {
        'f'
    }
}

/// How serde_json writes one character inside a string literal: `"` and `\`
/// and the control characters below U+0020 are escaped (the short forms
/// `\b \t \n \f \r` where they exist, `\u00XX` otherwise); every other
/// character is written as it is.
pub open spec fn json_escape_char(c: char) -> Seq<char> {
    if c == '"' {
        seq!['\\', '"']
    } else if c == '\\' {
        seq!['\\', '\\']
    } else if c == '\u{8}' {
        seq!['\\', 'b']
    } else if c == '\t' {
        seq!['\\', 't']
    } else if c == '\n' {
        seq!['\\', 'n']
    } else if c == '\u{c}' {
        seq!['\\', 'f']
    } else if c == '\r' {
        seq!['\\', 'r']
    } else if (c as u32) < 0x20 {
        seq!['\\', 'u', '0', '0', hex_digit_char((c as u32 / 16) as int), hex_digit_char((c as u32 % 16) as int)]
    } else {
        seq![c]
    }
}

/// The escaped contents of a JSON string literal holding `s`.
pub open spec fn json_escape(s: Seq<char>) -> Seq<char>
    decreases s.len(),
{
    if s.len() == 0 {
        Seq::empty()
    } else {
        json_escape(s.drop_last()) + json_escape_char(s.last())
    }
}

/// The JSON string literals of `items`, separated by commas.
pub open spec fn json_string_list(items: Seq<Seq<char>>) -> Seq<char>
    decreases items.len(),
{
    if items.len() == 0 {
        Seq::empty()
    } else if items.len() == 1 {
        seq!['"'] + json_escape(items[0]) + seq!['"']
    } else {
        json_string_list(items.drop_last()) + seq![','] + seq!['"'] + json_escape(items.last()) + seq!['"']
    }
}

/// The compact JSON text of a list of strings, as `serde_json::to_string`
/// writes it: `[`, the string literals separated by commas, `]`.
pub open spec fn json_string_array(items: Seq<Seq<char>>) -> Seq<char> {
    seq!['['] + json_string_list(items) + seq![']']
}

/// Whether serde_json writes `s` inside its quotes unchanged: no `"`, no `\`
/// and no control character below U+0020.
pub open spec fn needs_no_escaping(s: Seq<char>) -> bool {
    forall|i: int| 0 <= i < s.len() ==> #[trigger] s[i] != '"' && s[i] != '\\' && s[i] as u32 >= 0x20
}

/// The quoted texts of `items`, separated by commas, with nothing escaped.
pub open spec fn quoted_list(items: Seq<Seq<char>>) -> Seq<char>
    decreases items.len(),
{
    if items.len() == 0 {
        Seq::empty()
    } else if items.len() == 1 {
        seq!['"'] + items[0] + seq!['"']
    } else {
        quoted_list(items.drop_last()) + seq![','] + seq!['"'] + items.last() + seq!['"']
    }
}

/// A string that needs no escaping is written as it is.
pub proof fn lemma_json_escape_plain(s: Seq<char>)
    requires
        needs_no_escaping(s),
    ensures
        json_escape(s) == s,
    decreases s.len(),
{
    if s.len() > 0 {
        assert(s.drop_last().len() == s.len() - 1);
        assert forall|i: int| 0 <= i < s.drop_last().len() implies #[trigger] s.drop_last()[i] != '"'
            && s.drop_last()[i] != '\\' && s.drop_last()[i] as u32 >= 0x20 by {
            assert(s.drop_last()[i] == s[i]);
        }
        lemma_json_escape_plain(s.drop_last());
        let c = s.last();
        assert(s[s.len() - 1] == c);
        assert(json_escape_char(c) == seq![c]);
        assert(s.drop_last() + seq![c] =~= s);
    }
}

/// Strings that need no escaping make the plain array `["s1","s2",...]`.
pub proof fn lemma_json_string_list_plain(items: Seq<Seq<char>>)
    requires
        forall|i: int| 0 <= i < items.len() ==> needs_no_escaping(#[trigger] items[i]),
    ensures
        json_string_list(items) == quoted_list(items),
    decreases items.len(),
{
    if items.len() > 0 {
        assert forall|i: int| 0 <= i < items.drop_last().len() implies needs_no_escaping(
            #[trigger] items.drop_last()[i],
        ) by {
            assert(items.drop_last()[i] == items[i]);
        }
        lemma_json_string_list_plain(items.drop_last());
        assert(needs_no_escaping(items[items.len() - 1]));
        lemma_json_escape_plain(items.last());
        if items.len() == 1 {
            lemma_json_escape_plain(items[0]);
        }
    }
}

/// The JSON text of `items`: `serde_json::to_string` on a `Vec<String>`,
/// which writes the compact array of string literals with serde_json's
/// escape table (its `ESCAPE` table and `write_char_escape`). Serialising
/// strings into an in-memory buffer has no failure path in serde_json (its
/// only errors on this path are I/O errors of the writer, and writing to a
/// `Vec<u8>` does not fail), so the text is always produced.
#[verifier::external_body]
fn json_text_of_strings(items: &Vec<String>) -> (text: String)
    ensures
        text@ == json_string_array(items@.map_values(|s: String| s@)),
{
    serde_json::to_string(items).unwrap_or_default()
}

/// The JSON-RPC request body of `sendBundle` for transactions whose JSON
/// array text is `transactions_json`; the members are in the order
/// serde_json writes an object's keys.
pub open spec fn send_bundle_body(transactions_json: Seq<char>) -> Seq<char> {
    "{\"id\":1,\"jsonrpc\":\"2.0\",\"method\":\"sendBundle\",\"params\":["@ + transactions_json + "]}"@
}

/// Frames the `sendBundle` request body around the JSON array of transactions.
pub fn frame_send_bundle_body(transactions_json: &str) -> (body: String)
    ensures
        body@ == send_bundle_body(transactions_json@),
{
    let mut body = String::from_str("{\"id\":1,\"jsonrpc\":\"2.0\",\"method\":\"sendBundle\",\"params\":[");
    body.append(transactions_json);
    body.append("]}");
    body
}

/// What sending a bundle amounts to: nothing but a log line in dry-run mode,
/// otherwise a POST of `body` to `url`.
#[derive(Debug)]
pub enum BundleDispatch {
    DryRun { tx_count: usize },
    Send { url: String, body: String },
}

/// The bundle endpoint under a block-engine base URL.
pub open spec fn bundles_url(block_engine_url: Seq<char>) -> Seq<char> {
    trim_trailing_slashes(block_engine_url) + "/api/v1/bundles"@
}

/// A client of the Jito block engine.
#[derive(Debug)]
pub struct JitoClient {
    pub block_engine_url: String,
}

impl JitoClient {
    pub fn new(block_engine_url: String) -> (client: Self)
        ensures
            client.block_engine_url == block_engine_url,
    {
        JitoClient { block_engine_url }
    }

    /// Decides how a bundle is sent: in dry-run mode it is not sent at all;
    /// otherwise it is posted to the block engine's bundle endpoint as a
    /// `sendBundle` JSON-RPC call whose single parameter is the list of
    /// transactions.
    pub fn prepare_bundle(&self, request: &SendBundleRequest, dry_run: bool) -> (dispatch: BundleDispatch)
        ensures
            dry_run ==> dispatch == (BundleDispatch::DryRun { tx_count: request.transactions@.len() as usize }),
            !dry_run ==> (dispatch matches BundleDispatch::Send { url, body } && url@ == bundles_url(
                self.block_engine_url@,
            ) && body@ == send_bundle_body(
                json_string_array(request.transactions@.map_values(|s: String| s@)),
            )),
            !dry_run && (forall|i: int|
                0 <= i < request.transactions@.len() ==> needs_no_escaping(
                    #[trigger] request.transactions@[i]@,
                )) ==> (dispatch matches BundleDispatch::Send { body, .. } && body@ == send_bundle_body(
                seq!['['] + quoted_list(request.transactions@.map_values(|s: String| s@)) + seq![']'],
            )),
    {
        if dry_run {
            return BundleDispatch::DryRun { tx_count: request.transactions.len() };
        }
        let mut url = without_trailing_slashes(self.block_engine_url.as_str());
        url.append("/api/v1/bundles");
        let transactions_json = json_text_of_strings(&request.transactions);
        proof {
            let texts = request.transactions@.map_values(|s: String| s@);
            if forall|i: int| 0 <= i < request.transactions@.len() ==> needs_no_escaping(
                #[trigger] request.transactions@[i]@,
            ) {
                assert forall|i: int| 0 <= i < texts.len() implies needs_no_escaping(#[trigger] texts[i]) by {
                    assert(texts[i] == request.transactions@[i]@);
                }
                lemma_json_string_list_plain(texts);
            }
        }
        let body = frame_send_bundle_body(transactions_json.as_str());
        BundleDispatch::Send { url, body }
    }
}

} // verus!

//! The first protocol of the network, which counts amounts in double precision.
//!
//! Doubles are held as their 64 bits. What needs a power or the digits of a double is given.
use crate::crypto::{
    array_32, ed25519_check_key, ed25519_is_key, ed25519_key_error, ed25519_public,
    ed25519_signature, hex_bytes, hex_decode, hex_error_text, hex_text, pubkey_from_bytes,
    sign_bytes, signature_valid, verify_signature, SigningKey, VerifyingKey,
};
use crate::float64::{
    divide, from_whole, is_less, is_nan, less, multiply, of_whole, opposite, product, quotient,
    subtract, sum, INFINITY, SIGN_BIT,
};
use crate::proxy::{completion, CompletionRequest};
use crate::receipt::{copy_text, text_view};
use crate::request::InferenceRequest;
use crate::table::{Table, TextSet};
use crate::text::{chars_of, decimal, decimal_text, join};
use crate::words::{
    all_space, capped, law_words_ignore_outer_space, law_words_of_joined_texts, text_views, words,
    words_of,
};
use vstd::prelude::*;
use vstd::utf8::encode_utf8;

verus! {

/// The speed that earns the regular rate, 25 tokens per second as a double.
pub const MEDIAN_TPS: u64 = 0x4039_0000_0000_0000;

/// The least multiplier, 0.1 as a double.
pub const LEAST_MULTIPLIER: u64 = 0x3fb9_9999_9999_999a;

/// The greatest multiplier, 3 as a double.
pub const GREATEST_MULTIPLIER: u64 = 0x4008_0000_0000_0000;

/// The tolerance for amounts, 0.0001 as a double.
pub const AMOUNT_TOLERANCE: u64 = 0x3f1a_36e2_eb1c_432d;

// ---------------------------------------------------------------------------
// Token counts
// ---------------------------------------------------------------------------

/// Whether a word ends with a punctuation mark that counts.
pub open spec fn ends_with_mark(word: Seq<char>) -> bool {
    word.len() > 0 && (word.last() == '.' || word.last() == ',' || word.last() == '!' || word.last()
        == '?' || word.last() == ';')
}

/// A token for each word and one more for each that ends with a punctuation mark.
pub open spec fn marked_tokens(ws: Seq<Seq<char>>) -> nat
    decreases ws.len(),
{
    if ws.len() == 0 {
        0
    } else {
        marked_tokens(ws.drop_last()) + 1 + (if ends_with_mark(ws.last()) {
            1nat
        } else {
            0
        })
    }
}

/// The approximate number of tokens of a text: nothing for the empty text, and at least one for any
/// other.
pub open spec fn token_estimate(s: Seq<char>) -> nat {
    let n = marked_tokens(words(s));
    if s.len() == 0 {
        0
    } else if n == 0 {
        1
    } else {
        n
    }
}

/// Approximate count of the tokens of an English text.
pub fn estimate_token_count(text: &str) -> (n: usize)
    ensures
        n == capped(token_estimate(text@)),
{
    if text.is_empty() {
        return 0;
    }
    let ws = words_of(text);
    let ghost all = text_views(ws@);
    let mut count: usize = 0;
    let mut i: usize = 0;
    assert(all.take(0) == Seq::<Seq<char>>::empty());
    while i < ws.len()
        invariant
            i <= ws@.len(),
            all == text_views(ws@),
            count == capped(marked_tokens(all.take(i as int))),
        decreases ws@.len() - i,
    {
        assert(all.take(i + 1).drop_last() == all.take(i as int));
        assert(all.take(i + 1).last() == ws@[i as int]@);
        count = count.saturating_add(1);
        let chars = chars_of(&ws[i]);
        if chars.len() > 0 {
            let c = chars[chars.len() - 1];
            if c == '.' || c == ',' || c == '!' || c == '?' || c == ';' {
                count = count.saturating_add(1);
            }
        }
        i += 1;
    }
    assert(all.take(all.len() as int) == all);
    if count == 0 {
        1
    } else {
        count
    }
}

proof fn lemma_marked_tokens_add(a: Seq<Seq<char>>, b: Seq<Seq<char>>)
    ensures
        marked_tokens(a + b) == marked_tokens(a) + marked_tokens(b),
    decreases b.len(),
{
    if b.len() == 0 {
        assert(a + b == a);
    } else {
        assert((a + b).drop_last() == a + b.drop_last());
        lemma_marked_tokens_add(a, b.drop_last());
    }
}

/// The estimate is nothing for the empty text alone.
pub proof fn law_token_estimate_of_nothing(s: Seq<char>)
    ensures
        token_estimate(s) == 0 <==> s.len() == 0,
{
}

/// The estimate of two texts with white space between them, however much of it, is the sum of
/// their estimates, where each of them has a word.
pub proof fn law_token_estimate_adds(a: Seq<char>, gap: Seq<char>, b: Seq<char>)
    requires
        all_space(gap),
        gap.len() > 0,
        words(a).len() > 0,
        words(b).len() > 0,
    ensures
        token_estimate(a + gap + b) == token_estimate(a) + token_estimate(b),
{
    law_words_of_joined_texts(a, gap, b);
    lemma_marked_tokens_add(words(a), words(b));
}

/// White space before and after a text with words does not change its estimate.
pub proof fn law_token_estimate_ignores_outer_space(
    before: Seq<char>,
    s: Seq<char>,
    after: Seq<char>,
)
    requires
        all_space(before),
        all_space(after),
        words(s).len() > 0,
    ensures
        token_estimate(before + s + after) == token_estimate(s),
{
    law_words_ignore_outer_space(before, s, after);
}

// ---------------------------------------------------------------------------
// Receipts
// ---------------------------------------------------------------------------

/// A model with its weight, a double.
#[derive(Debug)]
pub struct ModelSpec {
    pub name: String,
    pub tqw: u64,
    pub parameters: String,
}

/// A receipt with its weight and its amount in iTokens, doubles.
#[derive(Debug)]
pub struct InferenceReceipt {
    pub receipt_id: String,
    pub client_pubkey: String,
    pub node_pubkey: String,
    pub query_hash: String,
    pub tokens_generated: usize,
    pub tps: u64,
    pub tqw: u64,
    pub amount_itokens: u64,
    pub timestamp: u64,
    pub node_signature: Option<String>,
    pub client_signature: Option<String>,
}

/// The values of a receipt.
pub struct ReceiptView {
    pub receipt_id: Seq<char>,
    pub client_pubkey: Seq<char>,
    pub node_pubkey: Seq<char>,
    pub query_hash: Seq<char>,
    pub tokens_generated: usize,
    pub tps: u64,
    pub tqw: u64,
    pub amount_itokens: u64,
    pub timestamp: u64,
    pub node_signature: Option<Seq<char>>,
    pub client_signature: Option<Seq<char>>,
}

impl View for InferenceReceipt {
    type V = ReceiptView;

    open spec fn view(&self) -> ReceiptView {
        ReceiptView {
            receipt_id: self.receipt_id@,
            client_pubkey: self.client_pubkey@,
            node_pubkey: self.node_pubkey@,
            query_hash: self.query_hash@,
            tokens_generated: self.tokens_generated,
            tps: self.tps,
            tqw: self.tqw,
            amount_itokens: self.amount_itokens,
            timestamp: self.timestamp,
            node_signature: text_view(self.node_signature),
            client_signature: text_view(self.client_signature),
        }
    }
}

impl Clone for InferenceReceipt {
    fn clone(&self) -> (r: Self)
        ensures
            r@ == self@,
    {
        InferenceReceipt {
            receipt_id: self.receipt_id.clone(),
            client_pubkey: self.client_pubkey.clone(),
            node_pubkey: self.node_pubkey.clone(),
            query_hash: self.query_hash.clone(),
            tokens_generated: self.tokens_generated,
            tps: self.tps,
            tqw: self.tqw,
            amount_itokens: self.amount_itokens,
            timestamp: self.timestamp,
            node_signature: copy_text(&self.node_signature),
            client_signature: copy_text(&self.client_signature),
        }
    }
}

/// A multiplier cut to its bounds. What is no number counts as the least.
pub open spec fn bounded(power: u64) -> u64 {
    let raised = if is_nan(power) || less(power, LEAST_MULTIPLIER) {
        LEAST_MULTIPLIER
    } else {
        power
    };
    if less(GREATEST_MULTIPLIER, raised) {
        GREATEST_MULTIPLIER
    } else {
        raised
    }
}

/// The amount of a receipt: tokens times weight times multiplier. The multiplier is the given
/// power of the speed ratio, cut to its bounds.
pub open spec fn amount(r: ReceiptView, power: u64) -> u64 {
    product(product(of_whole(r.tokens_generated as u64), r.tqw), bounded(power))
}

impl InferenceReceipt {
    /// The speed relative to the median.
    pub fn speed_ratio(&self) -> (r: u64)
        ensures
            r == quotient(self@.tps, MEDIAN_TPS),
    {
        divide(self.tps, MEDIAN_TPS)
    }

    /// The speed multiplier: `power` is the speed ratio to the power 0.75.
    pub fn tps_multiplier(&self, power: u64) -> (r: u64)
        ensures
            r == bounded(power),
    {
        let raised: u64 = if power % SIGN_BIT > INFINITY || is_less(power, LEAST_MULTIPLIER) {
            LEAST_MULTIPLIER
        } else {
            power
        };
        if is_less(GREATEST_MULTIPLIER, raised) {
            GREATEST_MULTIPLIER
        } else {
            raised
        }
    }

    /// The amount of the receipt: `power` is the speed ratio to the power 0.75.
    pub fn compute_amount(&self, power: u64) -> (r: u64)
        ensures
            r == amount(self@, power),
    {
        multiply(
            multiply(from_whole(self.tokens_generated as u64), self.tqw),
            self.tps_multiplier(power),
        )
    }
}

/// A multiplier lies between the least and the greatest.
pub proof fn law_multiplier_within_bounds(power: u64)
    ensures
        !less(bounded(power), LEAST_MULTIPLIER),
        !less(GREATEST_MULTIPLIER, bounded(power)),
        !is_nan(bounded(power)),
{
}

/// The doubles of a receipt in digits, with four decimal places.
#[derive(Debug)]
pub struct ReceiptDigits {
    pub tps: String,
    pub tqw: String,
    pub amount: String,
}

/// The text of a receipt that is signed: its fields with colons between them.
pub open spec fn signed_text(r: ReceiptView, d: ReceiptDigits) -> Seq<char> {
    r.receipt_id + ":"@ + r.client_pubkey + ":"@ + r.node_pubkey + ":"@ + r.query_hash + ":"@
        + decimal(r.tokens_generated as nat) + ":"@ + d.tps@ + ":"@ + d.tqw@ + ":"@ + d.amount@
        + ":"@ + decimal(r.timestamp as nat)
}

/// The text of a receipt that is signed.
fn signing_text(receipt: &InferenceReceipt, digits: &ReceiptDigits) -> (r: String)
    ensures
        r@ == signed_text(receipt@, *digits),
{
    let mut r = join(&receipt.receipt_id, ":");
    r.append(&receipt.client_pubkey);
    r.append(":");
    r.append(&receipt.node_pubkey);
    r.append(":");
    r.append(&receipt.query_hash);
    r.append(":");
    r.append(&decimal_text(receipt.tokens_generated as u64));
    r.append(":");
    r.append(&digits.tps);
    r.append(":");
    r.append(&digits.tqw);
    r.append(":");
    r.append(&digits.amount);
    r.append(":");
    r.append(&decimal_text(receipt.timestamp));
    r
}

/// The bytes of a receipt that are signed.
pub fn get_receipt_signing_bytes(receipt: &InferenceReceipt, digits: &ReceiptDigits) -> (r: Vec<u8>)
    ensures
        r@ == encode_utf8(signed_text(receipt@, *digits)),
{
    let text = signing_text(receipt, digits);
    let mut r: Vec<u8> = Vec::new();
    crate::wire::append_bytes(&mut r, text.as_str().as_bytes());
    assert(r@ == encode_utf8(text@));
    r
}

/// Whether a signature of a receipt by the given key is valid.
pub open spec fn signed_by(
    pubkey: Seq<char>,
    signature: Option<Seq<char>>,
    message: Seq<u8>,
) -> bool {
    match signature {
        Some(s) => signature_valid(pubkey, message, s),
        None => false,
    }
}

/// Whether both signatures of a receipt are valid.
pub open spec fn signatures_valid(r: ReceiptView, d: ReceiptDigits) -> bool {
    let message = encode_utf8(signed_text(r, d));
    signed_by(r.node_pubkey, r.node_signature, message) && signed_by(
        r.client_pubkey,
        r.client_signature,
        message,
    )
}

/// Sign a receipt as the node.
pub fn sign_receipt_as_node(
    signing_key: &SigningKey,
    receipt: &mut InferenceReceipt,
    digits: &ReceiptDigits,
)
    ensures
        ({
            let message = encode_utf8(signed_text(old(receipt)@, *digits));
            &&& final(receipt)@ == ReceiptView {
                node_signature: Some(hex_text(ed25519_signature(signing_key@, message))),
                ..old(receipt)@
            }
            &&& old(receipt)@.node_pubkey == hex_text(ed25519_public(signing_key@)) ==> signed_by(
                final(receipt)@.node_pubkey,
                final(receipt)@.node_signature,
                message,
            )
        }),
{
    let msg = get_receipt_signing_bytes(receipt, digits);
    receipt.node_signature = Some(sign_bytes(signing_key, msg.as_slice()));
}

/// Sign a receipt as the client.
pub fn sign_receipt_as_client(
    signing_key: &SigningKey,
    receipt: &mut InferenceReceipt,
    digits: &ReceiptDigits,
)
    ensures
        ({
            let message = encode_utf8(signed_text(old(receipt)@, *digits));
            &&& final(receipt)@ == ReceiptView {
                client_signature: Some(hex_text(ed25519_signature(signing_key@, message))),
                ..old(receipt)@
            }
            &&& old(receipt)@.client_pubkey == hex_text(ed25519_public(signing_key@)) ==> signed_by(
                final(receipt)@.client_pubkey,
                final(receipt)@.client_signature,
                message,
            )
        }),
{
    let msg = get_receipt_signing_bytes(receipt, digits);
    receipt.client_signature = Some(sign_bytes(signing_key, msg.as_slice()));
}

/// Verify both signatures of a receipt.
pub fn verify_receipt_signatures(receipt: &InferenceReceipt, digits: &ReceiptDigits) -> (r: bool)
    ensures
        r == signatures_valid(receipt@, *digits),
{
    let msg = get_receipt_signing_bytes(receipt, digits);
    let node_ok = match &receipt.node_signature {
        Some(sig) => verify_signature(&receipt.node_pubkey, msg.as_slice(), sig),
        None => false,
    };
    let client_ok = match &receipt.client_signature {
        Some(sig) => verify_signature(&receipt.client_pubkey, msg.as_slice(), sig),
        None => false,
    };
    node_ok && client_ok
}

/// The order in which node and client sign does not matter: a signature leaves the text that is
/// signed as it is.
pub proof fn law_signing_order_is_free(r: ReceiptView, d: ReceiptDigits, s: Option<Seq<char>>)
    ensures
        signed_text(ReceiptView { node_signature: s, ..r }, d) == signed_text(r, d),
        signed_text(ReceiptView { client_signature: s, ..r }, d) == signed_text(r, d),
{
}

/// What a hexadecimal text gives as a public key, or the words of the refusal.
pub open spec fn pubkey_of_hex(s: Seq<char>) -> Result<Seq<u8>, Seq<char>> {
    match hex_bytes(s) {
        None => Err(hex_error_text(s)),
        Some(bytes) => if bytes.len() != 32 {
            Err("Invalid public key length"@)
        } else if !ed25519_is_key(bytes) {
            Err(ed25519_key_error())
        } else {
            Ok(bytes)
        },
    }
}

/// Read a public key in hexadecimal.
pub fn hex_to_pubkey(hex_str: &str) -> (r: Result<VerifyingKey, String>)
    ensures
        match r {
            Ok(key) => key.valid() && pubkey_of_hex(hex_str@) == Ok::<Seq<u8>, Seq<char>>(key@),
            Err(words) => pubkey_of_hex(hex_str@) == Err::<Seq<u8>, Seq<char>>(words@),
        },
{
    let bytes = hex_decode(hex_str)?;
    if bytes.len() != 32 {
        return Err("Invalid public key length".to_owned());
    }
    match ed25519_check_key(&array_32(&bytes)) {
        Err(e) => Err(e),
        Ok(_) => pubkey_from_bytes(&bytes),
    }
}

// ---------------------------------------------------------------------------
// Requests to a backend
// ---------------------------------------------------------------------------

/// The chat request for an inference request, which is not validated.
pub fn completion_request(backend_url: &str, req: &InferenceRequest) -> (r: CompletionRequest)
    ensures
        r@ == completion(backend_url@, req@),
{
    CompletionRequest {
        endpoint: join(backend_url, "/v1/chat/completions"),
        model: req.model.clone(),
        role: "user".to_owned(),
        content: req.prompt.clone(),
        temperature: req.temperature,
        stream: true,
        max_tokens: req.max_tokens,
    }
}

/// The words for a backend that cannot be reached.
pub fn unreachable_backend(error: &str) -> (r: String)
    ensures
        r@ == "Failed to connect to local LLM backend: "@ + error@,
{
    join("Failed to connect to local LLM backend: ", error)
}

/// The words for a backend that answers with an error.
pub fn failing_backend(body: &str) -> (r: String)
    ensures
        r@ == "Local LLM backend returned error: "@ + body@,
{
    join("Local LLM backend returned error: ", body)
}

// ---------------------------------------------------------------------------
// The ledger
// ---------------------------------------------------------------------------

/// What a ledger holds: balances in iTokens, doubles, and the receipts already claimed.
#[derive(Debug)]
pub struct LedgerState {
    pub balances: Table<u64>,
    pub claimed_receipts: TextSet,
}

/// The values that a ledger holds.
pub struct LedgerView {
    pub balances: Map<Seq<char>, u64>,
    pub claimed: Set<Seq<char>>,
}

/// The balance of an account; nothing where there is no such account.
pub open spec fn balance_of(l: LedgerView, account: Seq<char>) -> u64 {
    if l.balances.contains_key(account) {
        l.balances[account]
    } else {
        0
    }
}

/// The balances after a payment. The balance of the receiver is read after that of the sender was
/// written.
pub open spec fn paid(l: LedgerView, from: Seq<char>, to: Seq<char>, value: u64) -> LedgerView {
    let debited = LedgerView {
        balances: l.balances.insert(from, sum(balance_of(l, from), opposite(value))),
        ..l
    };
    LedgerView {
        balances: debited.balances.insert(to, sum(balance_of(debited, to), value)),
        ..debited
    }
}

/// Why a claim is refused.
#[derive(Debug, Clone, Copy, PartialEq, Eq, Structural)]
pub enum ClaimError {
    AlreadyClaimed,
    InvalidSignatures,
    /// The computed amount and the one that is claimed.
    AmountMismatch(u64, u64),
    InsufficientBalance,
}

/// Whether two amounts are further apart than the tolerance.
pub open spec fn differs(a: u64, b: u64) -> bool {
    less(AMOUNT_TOLERANCE, crate::float64::magnitude(sum(a, opposite(b))) as u64)
}

/// What claiming a receipt makes of a ledger, or why it is refused.
pub open spec fn claim_outcome(
    l: LedgerView,
    r: ReceiptView,
    d: ReceiptDigits,
    power: u64,
) -> Result<LedgerView, ClaimError> {
    if l.claimed.contains(r.receipt_id) {
        Err(ClaimError::AlreadyClaimed)
    } else if !signatures_valid(r, d) {
        Err(ClaimError::InvalidSignatures)
    } else if differs(r.amount_itokens, amount(r, power)) {
        Err(ClaimError::AmountMismatch(amount(r, power), r.amount_itokens))
    } else if less(balance_of(l, r.client_pubkey), r.amount_itokens) {
        Err(ClaimError::InsufficientBalance)
    } else {
        let after = paid(l, r.client_pubkey, r.node_pubkey, r.amount_itokens);
        Ok(LedgerView { claimed: l.claimed.insert(r.receipt_id), ..after })
    }
}

/// The words for a refused claim, with the two amounts in digits.
pub open spec fn claim_error_text(e: ClaimError, expected: Seq<char>, got: Seq<char>) -> Seq<char> {
    match e {
        ClaimError::AlreadyClaimed => "Receipt has already been claimed"@,
        ClaimError::InvalidSignatures => "Invalid receipt signatures"@,
        ClaimError::AmountMismatch(_, _) => "Receipt amount mismatch. Expected: "@ + expected
            + ", Got: "@ + got,
        ClaimError::InsufficientBalance => "Client has insufficient balance to pay receipt"@,
    }
}

impl ClaimError {
    /// The refusal in words. `expected` and `got` are the two amounts in digits.
    pub fn message(&self, expected: &str, got: &str) -> (r: String)
        ensures
            r@ == claim_error_text(*self, expected@, got@),
    {
        match self {
            ClaimError::AlreadyClaimed => "Receipt has already been claimed".to_owned(),
            ClaimError::InvalidSignatures => "Invalid receipt signatures".to_owned(),
            ClaimError::AmountMismatch(_, _) => {
                let mut r = join("Receipt amount mismatch. Expected: ", expected);
                r.append(", Got: ");
                r.append(got);
                r
            },
            ClaimError::InsufficientBalance => "Client has insufficient balance to pay receipt".to_owned(),
        }
    }
}

/// A ledger that belongs to a file.
pub struct LocalLedger {
    file_path: String,
    state: LedgerState,
}

impl View for LocalLedger {
    type V = LedgerView;

    closed spec fn view(&self) -> LedgerView {
        LedgerView { balances: self.state.balances@, claimed: self.state.claimed_receipts@ }
    }
}

impl LocalLedger {
    /// Whether the parts are well formed.
    pub closed spec fn wf(&self) -> bool {
        self.state.balances.wf() && self.state.claimed_receipts.wf()
    }

    /// The path of the file that the ledger belongs to.
    pub closed spec fn path(&self) -> Seq<char> {
        self.file_path@
    }

    /// The ledger of a file. `stored` is what could be read from the file; without it the ledger
    /// starts empty.
    pub fn new(file_path: &str, stored: Option<LedgerState>) -> (r: LocalLedger)
        requires
            stored is Some ==> stored->Some_0.balances.wf()
                && stored->Some_0.claimed_receipts.wf(),
        ensures
            r.wf(),
            r.path() == file_path@,
            r@ == match stored {
                Some(s) => LedgerView { balances: s.balances@, claimed: s.claimed_receipts@ },
                None => LedgerView { balances: Map::empty(), claimed: Set::empty() },
            },
    {
        let state = match stored {
            Some(s) => s,
            None => LedgerState { balances: Table::new(), claimed_receipts: TextSet::new() },
        };
        LocalLedger { file_path: file_path.to_owned(), state }
    }

    /// Register an account. An account that exists is left alone.
    pub fn register_account(&mut self, pubkey: &str, initial_balance: u64)
        requires
            old(self).wf(),
        ensures
            final(self).wf(),
            final(self).path() == old(self).path(),
            final(self)@ == (if old(self)@.balances.contains_key(pubkey@) {
                old(self)@
            } else {
                LedgerView {
                    balances: old(self)@.balances.insert(pubkey@, initial_balance),
                    ..old(self)@
                }
            }),
    {
        if !self.state.balances.contains_key(pubkey) {
            self.state.balances.insert(pubkey.to_owned(), initial_balance);
        }
    }

    /// The balance of an account.
    pub fn get_balance(&self, pubkey: &str) -> (r: u64)
        requires
            self.wf(),
        ensures
            r == balance_of(self@, pubkey@),
    {
        match self.state.balances.get(pubkey) {
            Some(b) => *b,
            None => 0,
        }
    }

    fn pay(&mut self, from: &str, to: &str, value: u64)
        requires
            old(self).wf(),
        ensures
            final(self).wf(),
            final(self).path() == old(self).path(),
            final(self)@ == paid(old(self)@, from@, to@, value),
    {
        let from_bal = self.get_balance(from);
        self.state.balances.insert(from.to_owned(), subtract(from_bal, value));
        let to_bal = self.get_balance(to);
        self.state.balances.insert(to.to_owned(), crate::float64::add(to_bal, value));
    }

    /// Transfer iTokens between accounts.
    pub fn transfer(&mut self, from: &str, to: &str, value: u64) -> (r: Result<(), String>)
        requires
            old(self).wf(),
        ensures
            final(self).wf(),
            final(self).path() == old(self).path(),
            match r {
                Err(words) => less(balance_of(old(self)@, from@), value) && words@
                    == "Insufficient iToken balance"@ && final(self)@ == old(self)@,
                Ok(_) => !less(balance_of(old(self)@, from@), value) && final(self)@ == paid(
                    old(self)@,
                    from@,
                    to@,
                    value,
                ),
            },
    {
        if is_less(self.get_balance(from), value) {
            return Err("Insufficient iToken balance".to_owned());
        }
        self.pay(from, to, value);
        Ok(())
    }

    /// Validate a receipt and pay it out. `power` is its speed ratio to the power 0.75.
    pub fn claim_receipt(
        &mut self,
        receipt: &InferenceReceipt,
        digits: &ReceiptDigits,
        power: u64,
    ) -> (r: Result<(), ClaimError>)
        requires
            old(self).wf(),
        ensures
            final(self).wf(),
            final(self).path() == old(self).path(),
            match (r, claim_outcome(old(self)@, receipt@, *digits, power)) {
                (Ok(_), Ok(after)) => final(self)@ == after,
                (Err(e), Err(expected)) => e == expected && final(self)@ == old(self)@,
                _ => false,
            },
    {
        if self.state.claimed_receipts.contains(&receipt.receipt_id) {
            return Err(ClaimError::AlreadyClaimed);
        }
        if !verify_receipt_signatures(receipt, digits) {
            return Err(ClaimError::InvalidSignatures);
        }
        let expected: u64 = receipt.compute_amount(power);
        let distance: u64 = subtract(receipt.amount_itokens, expected) % SIGN_BIT;
        if is_less(AMOUNT_TOLERANCE, distance) {
            return Err(ClaimError::AmountMismatch(expected, receipt.amount_itokens));
        }
        if is_less(self.get_balance(&receipt.client_pubkey), receipt.amount_itokens) {
            return Err(ClaimError::InsufficientBalance);
        }
        self.pay(&receipt.client_pubkey, &receipt.node_pubkey, receipt.amount_itokens);
        self.state.claimed_receipts.insert(receipt.receipt_id.clone());
        Ok(())
    }
}

/// A receipt is paid once.
pub proof fn law_no_double_claim(
    l: LedgerView,
    r: ReceiptView,
    d: ReceiptDigits,
    power: u64,
    again: ReceiptView,
    digits: ReceiptDigits,
    other: u64,
)
    requires
        claim_outcome(l, r, d, power) is Ok,
        again.receipt_id == r.receipt_id,
    ensures
        claim_outcome(claim_outcome(l, r, d, power)->Ok_0, again, digits, other) == Err::<
            LedgerView,
            ClaimError,
        >(ClaimError::AlreadyClaimed),
{
}

/// A claim touches no account but those of the client and the node.
pub proof fn law_claim_touches_two_accounts(
    l: LedgerView,
    r: ReceiptView,
    d: ReceiptDigits,
    power: u64,
    other: Seq<char>,
)
    requires
        claim_outcome(l, r, d, power) is Ok,
        other != r.client_pubkey,
        other != r.node_pubkey,
    ensures
        balance_of(claim_outcome(l, r, d, power)->Ok_0, other) == balance_of(l, other),
{
}

// ---------------------------------------------------------------------------
// Laws of the first protocol
// ---------------------------------------------------------------------------

/// A word counts for one token, and for one more where it ends with one of five marks.
pub proof fn law_token_estimate_of_a_word(word: Seq<char>)
    requires
        word.len() > 0,
        forall|i: int| 0 <= i < word.len() ==> !crate::words::is_space(#[trigger] word[i]),
    ensures
        ({
            let c = word.last();
            let marked = c == '.' || c == ',' || c == '!' || c == '?' || c == ';';
            &&& marked ==> token_estimate(word) == 2
            &&& !marked ==> token_estimate(word) == 1
        }),
{
    crate::words::law_text_without_space_is_one_word(word);
    assert(seq![word].drop_last() == Seq::<Seq<char>>::empty());
    assert(seq![word].last() == word);
    assert(marked_tokens(seq![word].drop_last()) == 0);
}

/// A power within the bounds is the multiplier; below them the least one is, above them the
/// greatest. The greatest is 3, the regular speed is 25.
pub proof fn law_multiplier_is_the_power_within_bounds(power: u64)
    requires
        !is_nan(power),
    ensures
        less(power, LEAST_MULTIPLIER) ==> bounded(power) == LEAST_MULTIPLIER,
        less(of_whole(3), power) ==> bounded(power) == of_whole(3),
        !less(power, LEAST_MULTIPLIER) && !less(of_whole(3), power) ==> bounded(power) == power,
        GREATEST_MULTIPLIER == of_whole(3),
        MEDIAN_TPS == of_whole(25),
{
    lemma_constants();
}

proof fn lemma_constants()
    ensures
        GREATEST_MULTIPLIER == of_whole(3),
        MEDIAN_TPS == of_whole(25),
        crate::float64::units(LEAST_MULTIPLIER) == 0x19_9999_9999_999a
            * vstd::arithmetic::power2::pow2(1018),
        less(LEAST_MULTIPLIER, of_whole(1)),
{
    crate::float_laws::law_whole_is_exact(3);
    crate::float_laws::law_whole_is_exact(25);
    crate::float64::lemma_units_of(GREATEST_MULTIPLIER, 0x18_0000_0000_0000, 1024);
    crate::float64::lemma_units_of(MEDIAN_TPS, 0x19_0000_0000_0000, 1027);
    crate::float64::lemma_units_of(LEAST_MULTIPLIER, 0x19_9999_9999_999a, 1019);
    vstd::arithmetic::power2::lemma_pow2_adds(51, 1023);
    vstd::arithmetic::power2::lemma_pow2_adds(48, 1026);
    assert(vstd::arithmetic::power2::pow2(51) == 0x8_0000_0000_0000
        && vstd::arithmetic::power2::pow2(48) == 0x1_0000_0000_0000) by {
        vstd::arithmetic::power2::lemma2_to64_rest();
    }
    let (a, b) = (
        vstd::arithmetic::power2::pow2(51) as int,
        vstd::arithmetic::power2::pow2(1023) as int,
    );
    let (c, d) = (
        vstd::arithmetic::power2::pow2(48) as int,
        vstd::arithmetic::power2::pow2(1026) as int,
    );
    assert((3 * a) * b == 3 * (a * b)) by (nonlinear_arith);
    assert((25 * c) * d == 25 * (c * d)) by (nonlinear_arith);
    crate::float64::lemma_units_exact(GREATEST_MULTIPLIER);
    crate::float64::lemma_units_exact(of_whole(3));
    crate::float64::lemma_units_exact(MEDIAN_TPS);
    crate::float64::lemma_units_exact(of_whole(25));
    crate::float64::lemma_one();
    crate::float_laws::law_whole_is_exact(1);
    crate::float64::lemma_units_exact(of_whole(1));
    assert(1 * vstd::arithmetic::power2::pow2(1074) == vstd::arithmetic::power2::pow2(1074));
    assert(of_whole(1) == crate::float64::ONE);
}

/// The amount of a receipt is its tokens times its weight times its multiplier: exactly so for
/// whole weights and multipliers.
pub proof fn law_amount_is_the_product(r: ReceiptView, weight: u64, m: u64)
    requires
        r.tqw == of_whole(weight),
        1 <= m <= 3,
        r.tokens_generated < crate::float_laws::WHOLE_LIMIT,
        weight < crate::float_laws::WHOLE_LIMIT,
        r.tokens_generated * weight < crate::float_laws::WHOLE_LIMIT,
        r.tokens_generated * weight * m < crate::float_laws::WHOLE_LIMIT,
    ensures
        amount(r, of_whole(m)) == of_whole((r.tokens_generated * weight * m) as u64),
{
    lemma_constants();
    let t = r.tokens_generated as u64;
    crate::float_laws::law_product_of_wholes(t, weight);
    crate::float_laws::law_product_of_wholes((t * weight) as u64, m);
    crate::float_laws::law_whole_is_exact(m);
    crate::float_laws::law_whole_is_exact(3);
    crate::float_laws::law_whole_is_exact(1);
    crate::float_laws::law_order_is_that_of_values(of_whole(m), of_whole(3));
    crate::float_laws::law_order_is_that_of_values(of_whole(1), of_whole(m));
    let (k, o) = (m as int, vstd::arithmetic::power2::pow2(1074) as int);
    vstd::arithmetic::power2::lemma_pow2_pos(1074);
    assert(1 * o <= k * o <= 3 * o) by (nonlinear_arith)
        requires
            1 <= k <= 3,
            o > 0,
    ;
}

/// A payment takes the value from the payer and gives it to the receiver, exactly so for whole
/// balances. Who pays themselves keeps what they had. No other balance and no claim changes.
pub proof fn law_payment_moves_the_value(
    l: LedgerView,
    from: Seq<char>,
    to: Seq<char>,
    has: u64,
    gets: u64,
    value: u64,
    other: Seq<char>,
)
    requires
        value <= has < crate::float_laws::WHOLE_LIMIT,
        gets + value < crate::float_laws::WHOLE_LIMIT,
        balance_of(l, from) == of_whole(has),
        balance_of(l, to) == of_whole(gets),
    ensures
        ({
            let after = paid(l, from, to, of_whole(value));
            &&& from != to ==> balance_of(after, from) == of_whole((has - value) as u64)
            &&& from != to ==> balance_of(after, to) == of_whole((gets + value) as u64)
            &&& from == to ==> balance_of(after, from) == of_whole(has)
            &&& other != from && other != to ==> balance_of(after, other) == balance_of(l, other)
            &&& after.claimed == l.claimed
        }),
{
    crate::float_laws::law_difference_of_wholes(has, value);
    crate::float_laws::law_sum_of_wholes(gets, value);
    crate::float_laws::law_sum_of_wholes((has - value) as u64, value);
}

/// The balance of an account is what the ledger has for it, and nothing without an account.
pub proof fn law_balance_is_what_the_ledger_has(l: LedgerView, account: Seq<char>)
    ensures
        l.balances.contains_key(account) ==> balance_of(l, account) == l.balances[account],
        !l.balances.contains_key(account) ==> balance_of(l, account) == 0,
{
}

/// A claim is paid exactly where the receipt was not claimed before, both parties have signed it,
/// its amount is near enough to the computed one and the client has that much. Then the amount
/// moves from the client to the node and this receipt alone is marked as claimed.
pub proof fn law_claim_is_paid_when_in_order(
    l: LedgerView,
    r: ReceiptView,
    d: ReceiptDigits,
    power: u64,
)
    ensures
        ({
            let outcome = claim_outcome(l, r, d, power);
            let new = !l.claimed.contains(r.receipt_id);
            let signed = new && signatures_valid(r, d);
            let priced = signed && !differs(r.amount_itokens, amount(r, power));
            let covered = priced && !less(balance_of(l, r.client_pubkey), r.amount_itokens);
            &&& outcome is Ok <==> covered
            &&& outcome is Ok ==> {
                let after = paid(l, r.client_pubkey, r.node_pubkey, r.amount_itokens);
                &&& outcome->Ok_0.balances == after.balances
                &&& forall|id: Seq<char>| #[trigger]
                    outcome->Ok_0.claimed.contains(id) <==> l.claimed.contains(id) || id
                        == r.receipt_id
            }
            &&& !new ==> outcome == Err::<LedgerView, ClaimError>(ClaimError::AlreadyClaimed)
            &&& new && !signed ==> outcome == Err::<LedgerView, ClaimError>(
                ClaimError::InvalidSignatures,
            )
            &&& signed && !priced ==> outcome == Err::<LedgerView, ClaimError>(
                ClaimError::AmountMismatch(amount(r, power), r.amount_itokens),
            )
            &&& priced && !covered ==> outcome == Err::<LedgerView, ClaimError>(
                ClaimError::InsufficientBalance,
            )
        }),
{
}

/// Two amounts differ where they are further apart than 0.0001, to the rounding of their
/// difference: amounts that are no further apart do not differ, and amounts with a double between
/// that tolerance and their distance do.
pub proof fn law_amounts_differ_beyond_the_tolerance(a: u64, b: u64, c: u64)
    requires
        crate::float64::magnitude(a) < INFINITY,
        crate::float64::magnitude(b) < INFINITY,
        crate::float64::magnitude(c) < INFINITY,
    ensures
        ({
            let x = crate::float64::signed_units(a) - crate::float64::signed_units(b);
            let distance: int = if x < 0 {
                -x
            } else {
                x
            };
            let tolerance = crate::float64::units(AMOUNT_TOLERANCE);
            &&& distance <= tolerance ==> !differs(a, b)
            &&& tolerance < crate::float64::units(c) <= distance ==> differs(a, b)
            &&& tolerance == 0x1a_36e2_eb1c_432d * vstd::arithmetic::power2::pow2(1008)
        }),
{
    let v = opposite(b);
    assert(crate::float64::magnitude(v) == crate::float64::magnitude(b));
    assert(crate::float64::units(v) == crate::float64::units(b));
    assert(crate::float64::is_negative(v) == !crate::float64::is_negative(b));
    let x = crate::float64::signed_units(a) - crate::float64::signed_units(b);
    assert(crate::float64::signed_units(a) + crate::float64::signed_units(v) == x);
    crate::float64::lemma_units_of(AMOUNT_TOLERANCE, 0x1a_36e2_eb1c_432d, 1009);
    let s = sum(a, v);
    let plus: u64 = AMOUNT_TOLERANCE;
    let minus: u64 = opposite(AMOUNT_TOLERANCE);
    assert(crate::float64::magnitude(minus) == crate::float64::magnitude(plus));
    assert(crate::float64::units(minus) == crate::float64::units(plus));
    crate::float_laws::law_sum_is_faithful(a, v, plus);
    crate::float_laws::law_sum_is_faithful(a, v, minus);
    let up: u64 = (c % SIGN_BIT) as u64;
    let down: u64 = (up + SIGN_BIT) as u64;
    assert(crate::float64::magnitude(up) == crate::float64::magnitude(c)
        && crate::float64::magnitude(down) == crate::float64::magnitude(c));
    assert(crate::float64::units(up) == crate::float64::units(c) && crate::float64::units(down)
        == crate::float64::units(c));
    crate::float_laws::law_sum_is_faithful(a, v, up);
    crate::float_laws::law_sum_is_faithful(a, v, down);
    crate::float_laws::law_order_is_that_of_values(plus, up);
    let size: nat = if x < 0 {
        (-x) as nat
    } else {
        x as nat
    };
    crate::float64::lemma_rounded_monotone(size, size, 1);
    assert(crate::float64::magnitude(s) <= INFINITY);
    let m = crate::float64::magnitude(s) as u64;
    assert(crate::float64::magnitude(m) == m && !crate::float64::is_negative(m));
}

/// The signed text of a receipt is its fields with colons between them.
pub proof fn law_signed_text_lists_the_fields(r: ReceiptView, d: ReceiptDigits)
    ensures
        signed_text(r, d) == crate::text::with_between(
            seq![
                r.receipt_id,
                r.client_pubkey,
                r.node_pubkey,
                r.query_hash,
                decimal(r.tokens_generated as nat),
                d.tps@,
                d.tqw@,
                d.amount@,
                decimal(r.timestamp as nat),
            ],
            ':',
        ),
{
    reveal_strlit(":");
    assert(":"@ == seq![':']);
    let fields = seq![
        r.receipt_id,
        r.client_pubkey,
        r.node_pubkey,
        r.query_hash,
        decimal(r.tokens_generated as nat),
        d.tps@,
        d.tqw@,
        d.amount@,
        decimal(r.timestamp as nat),
    ];
    lemma_with_between(fields, 2);
    lemma_with_between(fields, 3);
    lemma_with_between(fields, 4);
    lemma_with_between(fields, 5);
    lemma_with_between(fields, 6);
    lemma_with_between(fields, 7);
    lemma_with_between(fields, 8);
    lemma_with_between(fields, 9);
    assert(fields.take(1)[0] == r.receipt_id);
    assert(fields.take(9) == fields);
    assert(crate::text::with_between(fields, ':') == signed_text(r, d));
}

proof fn lemma_with_between(fields: Seq<Seq<char>>, n: int)
    requires
        2 <= n <= fields.len(),
    ensures
        crate::text::with_between(fields.take(n), ':') == crate::text::with_between(
            fields.take(n - 1),
            ':',
        ) + seq![':'] + fields[n - 1],
{
    let all = fields.take(n);
    assert(all.drop_last() == fields.take(n - 1));
    let before = crate::text::with_between(fields.take(n - 1), ':');
    assert(before.push(':') == before + seq![':']);
}

/// A receipt is in order exactly where there are signatures of both parties on its text that their
/// keys accept.
pub proof fn law_both_parties_must_sign(r: ReceiptView, d: ReceiptDigits)
    ensures
        signatures_valid(r, d) <==> {
            let message = encode_utf8(signed_text(r, d));
            &&& r.node_signature is Some
            &&& r.client_signature is Some
            &&& signature_valid(r.node_pubkey, message, r.node_signature->Some_0)
            &&& signature_valid(r.client_pubkey, message, r.client_signature->Some_0)
        },
{
}

/// A text of white space alone counts for one token, like any text that is not empty.
pub proof fn law_token_estimate_of_space(s: Seq<char>)
    requires
        all_space(s),
        s.len() > 0,
    ensures
        token_estimate(s) == 1,
{
    law_words_ignore_outer_space(s, Seq::empty(), Seq::empty());
    assert(s + Seq::<char>::empty() + Seq::<char>::empty() == s);
}

/// A payment between two accounts gives each of them the double nearest to what it should have: no
/// double lies between the two.
pub proof fn law_payment_is_faithful(
    l: LedgerView,
    from: Seq<char>,
    to: Seq<char>,
    value: u64,
    c: u64,
)
    requires
        from != to,
        crate::float64::magnitude(value) < INFINITY,
        crate::float64::magnitude(balance_of(l, from)) < INFINITY,
        crate::float64::magnitude(balance_of(l, to)) < INFINITY,
        crate::float64::magnitude(c) < INFINITY,
    ensures
        ({
            let after = paid(l, from, to, value);
            let x = crate::float64::signed_units(balance_of(l, from));
            let y = crate::float64::signed_units(balance_of(l, to));
            let v = crate::float64::signed_units(value);
            let w = crate::float64::signed_units(c);
            let here = crate::float64::place(c);
            let left = crate::float64::place(balance_of(after, from));
            let got = crate::float64::place(balance_of(after, to));
            &&& w <= x - v ==> here <= left
            &&& w >= x - v ==> here >= left
            &&& w <= y + v ==> here <= got
            &&& w >= y + v ==> here >= got
        }),
{
    let m = opposite(value);
    assert(crate::float64::magnitude(m) == crate::float64::magnitude(value));
    assert(crate::float64::units(m) == crate::float64::units(value));
    assert(crate::float64::is_negative(m) == !crate::float64::is_negative(value));
    crate::float_laws::law_sum_is_faithful(balance_of(l, from), m, c);
    crate::float_laws::law_sum_is_faithful(balance_of(l, to), value, c);
}

/// The amount of a receipt is the product of its tokens and its weight, rounded, times its
/// multiplier, rounded: no double lies between either product and what it is rounded to.
pub proof fn law_amount_is_faithful(r: ReceiptView, power: u64, c: u64)
    requires
        r.tokens_generated < crate::float_laws::WHOLE_LIMIT,
        crate::float64::magnitude(r.tqw) < INFINITY,
        crate::float64::magnitude(c) < INFINITY,
        crate::float64::magnitude(product(of_whole(r.tokens_generated as u64), r.tqw)) < INFINITY,
    ensures
        ({
            let base = product(of_whole(r.tokens_generated as u64), r.tqw);
            let one = vstd::arithmetic::power2::pow2(1074);
            let w = crate::float64::signed_units(c) * one;
            let first = r.tokens_generated * one * crate::float64::signed_units(r.tqw);
            let second = crate::float64::signed_units(base) * crate::float64::signed_units(
                bounded(power),
            );
            let here = crate::float64::place(c);
            &&& w <= first ==> here <= crate::float64::place(base)
            &&& w >= first ==> here >= crate::float64::place(base)
            &&& w <= second ==> here <= crate::float64::place(amount(r, power))
            &&& w >= second ==> here >= crate::float64::place(amount(r, power))
        }),
{
    lemma_constants();
    law_multiplier_within_bounds(power);
    crate::float64::lemma_whole_bounds(3);
    crate::float_laws::law_whole_is_exact(r.tokens_generated as u64);
    crate::float64::lemma_units_of(LEAST_MULTIPLIER, 0x19_9999_9999_999a, 1019);
    let base = product(of_whole(r.tokens_generated as u64), r.tqw);
    assert(crate::float64::magnitude(bounded(power)) < INFINITY);
    crate::float_laws::law_product_is_faithful(of_whole(r.tokens_generated as u64), r.tqw, c);
    crate::float_laws::law_product_is_faithful(base, bounded(power), c);
}

} // verus!

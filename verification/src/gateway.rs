//! The chat interface of a node: queries of its user, their settlement and the answers.
use crate::clock::{is_reading, read_clock};
use crate::crypto::{ed25519_public, hex_text, node_signature_valid, SigningKey};
use crate::float64::{is_less, less, multiply, narrow, narrowed, product, ONE};
use crate::json::{
    double_at, double_in, flag_at, flag_in, item_place, items_at, items_in, place_of_item, text_at,
    text_in, whole_at, whole_in,
};
use crate::ledger::{claim_outcome, clock_view, payout_outcome, LedgerView, LocalLedger};
use crate::network::{P2PInferenceRequest, P2PInferenceView, P2PResponse, ResponseView};
use crate::node::{
    bare_receipt, client_signed, countersign, fresh_id, is_drawn_id, issue_receipt_as, node_signed,
    priced, Work, MOCK_MODEL,
};
use crate::receipt::{
    text_view, InferenceReceipt, ReceiptView, MAX_FUTURE_DRIFT_SECS, MAX_RECEIPT_AGE_SECS,
};
use crate::reputation::{
    after_failure, after_success, room_for_success, Records, ReputationDb,
};
use crate::request::{request_error_text, request_fault, InferenceRequest, RequestView};
use crate::routing::HarnessRouter;
use crate::text::join;
use crate::words::{pieces, pieces_of, text_views, word_count, words};
use vstd::prelude::*;

verus! {

// ---------------------------------------------------------------------------
// Queries
// ---------------------------------------------------------------------------

/// What a chat query asks for.
#[derive(Debug)]
pub struct ChatQuery {
    pub prompt: String,
    pub model: String,
    pub max_tokens: Option<usize>,
    /// Single precision, as its bits.
    pub temperature: u32,
    pub stream: bool,
}

/// The values of a chat query.
pub struct ChatView {
    pub prompt: Seq<char>,
    pub model: Seq<char>,
    pub max_tokens: Option<usize>,
    pub temperature: u32,
    pub stream: bool,
}

impl View for ChatQuery {
    type V = ChatView;

    open spec fn view(&self) -> ChatView {
        ChatView {
            prompt: self.prompt@,
            model: self.model@,
            max_tokens: self.max_tokens,
            temperature: self.temperature,
            stream: self.stream,
        }
    }
}

/// A chat query from what its JSON holds: the content of the last message, the model, the limit on
/// tokens, the temperature as a double and whether to stream. What is missing has a default.
pub open spec fn chat_from(
    prompt: Option<Seq<char>>,
    model: Option<Seq<char>>,
    max_tokens: Option<u64>,
    temperature: Option<u64>,
    stream: Option<bool>,
) -> ChatView {
    ChatView {
        prompt: match prompt {
            Some(p) => p,
            None => Seq::empty(),
        },
        model: match model {
            Some(m) => m,
            None => MOCK_MODEL@,
        },
        max_tokens: match max_tokens {
            Some(n) => Some(n as usize),
            None => None,
        },
        temperature: match temperature {
            Some(t) => narrowed(t),
            None => 0,
        },
        stream: match stream {
            Some(s) => s,
            None => false,
        },
    }
}

/// The content of the last message of a query.
pub open spec fn last_content(json: Seq<char>) -> Option<Seq<char>> {
    match items_in(json, "/messages"@) {
        Some(items) => if items.len() > 0 {
            text_in(json, item_place("/messages"@, (items.len() - 1) as nat, "/content"@))
        } else {
            None
        },
        None => None,
    }
}

/// A chat query.
pub open spec fn chat(json: Seq<char>) -> ChatView {
    chat_from(
        last_content(json),
        text_in(json, "/model"@),
        whole_in(json, "/max_tokens"@),
        double_in(json, "/temperature"@),
        flag_in(json, "/stream"@),
    )
}

/// A chat query from what its JSON holds.
pub fn chat_query(
    prompt: Option<String>,
    model: Option<String>,
    max_tokens: Option<u64>,
    temperature: Option<u64>,
    stream: Option<bool>,
) -> (r: ChatQuery)
    ensures
        r@ == chat_from(text_view(prompt), text_view(model), max_tokens, temperature, stream),
{
    let r = ChatQuery {
        prompt: match prompt {
            Some(p) => p,
            None => String::new(),
        },
        model: match model {
            Some(m) => m,
            None => MOCK_MODEL.to_owned(),
        },
        max_tokens: match max_tokens {
            Some(n) => Some(n as usize),
            None => None,
        },
        temperature: match temperature {
            Some(t) => narrow(t),
            None => 0,
        },
        stream: match stream {
            Some(s) => s,
            None => false,
        },
    };
    assert(r@.prompt == chat_from(
        text_view(prompt),
        text_view(model),
        max_tokens,
        temperature,
        stream,
    ).prompt);
    r
}

/// Read a chat query.
pub fn read_chat(json: &str) -> (r: ChatQuery)
    ensures
        r@ == chat(json@),
{
    let prompt = match items_at(json, "/messages") {
        Some(items) => if items.len() > 0 {
            text_at(json, &place_of_item("/messages", items.len() - 1, "/content"))
        } else {
            None
        },
        None => None,
    };
    chat_query(
        prompt,
        text_at(json, "/model"),
        whole_at(json, "/max_tokens"),
        double_at(json, "/temperature"),
        flag_at(json, "/stream"),
    )
}

/// A refusal: a status of HTTP and its words.
#[derive(Debug)]
pub struct Refusal {
    pub status: u16,
    pub message: String,
}

/// The status for a request that cannot be met as it is.
pub const BAD_REQUEST: u16 = 400;

/// The status for a request that failed on the way.
pub const INTERNAL_SERVER_ERROR: u16 = 500;

/// The request for a chat query under an identifier.
pub open spec fn request_of(query: ChatView, request_id: Seq<char>) -> RequestView {
    RequestView {
        request_id,
        prompt: query.prompt,
        model: query.model,
        max_tokens: query.max_tokens,
        temperature: query.temperature,
    }
}

/// The request for a chat query under an identifier, or the refusal. `temperature` is the
/// temperature of the query in digits.
pub fn open_request_as(query: &ChatQuery, request_id: String, temperature: &str) -> (r: Result<
    InferenceRequest,
    Refusal,
>)
    ensures
        match (r, request_fault(request_of(query@, request_id@))) {
            (Ok(req), None) => req@ == request_of(query@, request_id@),
            (Err(refusal), Some(e)) => refusal.status == BAD_REQUEST && refusal.message@
                == "Validation failed: "@ + request_error_text(e, temperature@),
            _ => false,
        },
{
    let req = InferenceRequest {
        request_id,
        prompt: query.prompt.clone(),
        model: query.model.clone(),
        max_tokens: query.max_tokens,
        temperature: query.temperature,
    };
    assert(req@ == request_of(query@, request_id@));
    match req.validate() {
        Ok(_) => Ok(req),
        Err(e) => Err(
            Refusal {
                status: BAD_REQUEST,
                message: join("Validation failed: ", &e.message(temperature)),
            },
        ),
    }
}

/// The request for a chat query under a fresh identifier, or the refusal. The identifier is never
/// what a query is refused for.
pub fn open_request(query: &ChatQuery, temperature: &str) -> (r: Result<InferenceRequest, Refusal>)
    ensures
        exists|id: String| #[trigger]
            is_drawn_id(id) && id@.len() == 36 && match (
                r,
                request_fault(request_of(query@, id@)),
            ) {
                (Ok(req), None) => req@ == request_of(query@, id@),
                (Err(refusal), Some(e)) => e !is RequestId && refusal.status == BAD_REQUEST
                    && refusal.message@ == "Validation failed: "@ + request_error_text(
                    e,
                    temperature@,
                ),
                _ => false,
            },
{
    let id = fresh_id();
    open_request_as(query, id, temperature)
}

// ---------------------------------------------------------------------------
// Choice of a peer
// ---------------------------------------------------------------------------

/// The peer that serves a query, by reputation; nothing where there is no candidate. The decay
/// factor of each candidate is given.
pub fn choose_peer(
    router: &HarnessRouter,
    model: &str,
    candidates: Vec<String>,
    decays: &Vec<u64>,
) -> (r: Option<String>)
    requires
        router.wf(),
        decays@.len() == candidates@.len(),
    ensures
        match r {
            None => candidates@.len() == 0,
            Some(peer) => candidates@.len() > 0 && exists|order: Seq<usize>| #[trigger]
                crate::ranking::is_ranking(
                    crate::routing::candidate_scores(
                        router.records(),
                        text_views(candidates@),
                        decays@,
                    ),
                    order,
                ) && peer@ == candidates@[order[0] as int]@,
        },
{
    match router.resolve_routing(model, candidates, decays) {
        Ok((primary, backups)) => {
            proof {
                let views = text_views(candidates@);
                let order = choose|order: Seq<usize>| #[trigger]
                    crate::ranking::is_ranking(
                        crate::routing::candidate_scores(router.records(), views, decays@),
                        order,
                    ) && seq![primary@] + text_views(backups@) == crate::routing::arranged(
                        views,
                        order,
                    );
                assert((seq![primary@] + text_views(backups@))[0] == primary@);
                assert(crate::routing::arranged(views, order)[0] == views[order[0] as int]);
            }
            Some(primary)
        },
        Err(_) => None,
    }
}

/// The query that goes to another node.
pub fn remote_query(req: &InferenceRequest, client_pubkey: &str) -> (r: P2PInferenceRequest)
    ensures
        r@ == (P2PInferenceView { req: req@, client_pubkey: client_pubkey@ }),
{
    P2PInferenceRequest { req: req.clone(), client_pubkey: client_pubkey.to_owned() }
}

// ---------------------------------------------------------------------------
// Settlement with another node
// ---------------------------------------------------------------------------

/// The least share of the local median that a receipt may be based on, 0.8 as a double.
pub const LOWER_TOLERANCE: u64 = 0x3fe9_9999_9999_999a;

/// The greatest share of the local median that a receipt may be based on, 1.2 as a double.
pub const UPPER_TOLERANCE: u64 = 0x3ff3_3333_3333_3333;

/// What a client finds wrong with a receipt before it signs: a median that is more than a fifth off
/// its own, or an amount that is not the computed one.
pub open spec fn objection(r: ReceiptView, local_median: u64) -> Option<Seq<char>> {
    if less(r.network_median_tps, product(local_median, LOWER_TOLERANCE)) || less(
        product(local_median, UPPER_TOLERANCE),
        r.network_median_tps,
    ) {
        Some("Receipt pricing/TPS is outside local client tolerance"@)
    } else if r.amount_nano != crate::receipt::receipt_amount(r) {
        Some("Receipt claimed amount is mathematically incorrect"@)
    } else {
        None
    }
}

/// What a client finds wrong with a receipt before it signs.
pub fn review_receipt(receipt: &InferenceReceipt, local_median: u64) -> (r: Option<String>)
    ensures
        text_view(r) == objection(receipt@, local_median),
{
    let lower: u64 = multiply(local_median, LOWER_TOLERANCE);
    let upper: u64 = multiply(local_median, UPPER_TOLERANCE);
    if is_less(receipt.network_median_tps, lower) || is_less(upper, receipt.network_median_tps) {
        return Some("Receipt pricing/TPS is outside local client tolerance".to_owned());
    }
    if receipt.amount_nano != receipt.compute_amount() {
        return Some("Receipt claimed amount is mathematically incorrect".to_owned());
    }
    None
}

/// How a query to another node ended: with a text and the receipt that was paid, or with a status
/// and words.
pub type Ending = Result<(Seq<char>, ReceiptView), (u16, Seq<char>)>;

/// How a query to another node ends, and the ledger after it. The client reviews the receipt,
/// signs it and has it claimed.
pub open spec fn settlement(
    l: LedgerView,
    reply: Result<ResponseView, Seq<char>>,
    local_median: u64,
    secret: Seq<u8>,
    clock: Result<u64, Seq<char>>,
) -> (LedgerView, Ending) {
    match reply {
        Ok(ResponseView::InferenceSuccess { text, receipt }) => match objection(
            receipt,
            local_median,
        ) {
            Some(words) => (l, Err((BAD_REQUEST, words))),
            None => match claim_outcome(l, client_signed(receipt, secret), clock) {
                Ok(after) => (after, Ok((text, client_signed(receipt, secret)))),
                Err(words) => (
                    l,
                    Err((INTERNAL_SERVER_ERROR, "Ledger verification error: "@ + words)),
                ),
            },
        },
        Ok(ResponseView::LedgerSync(_)) => (
            l,
            Err((INTERNAL_SERVER_ERROR, "Unexpected LedgerSync response"@)),
        ),
        Ok(ResponseView::Error(words)) => (
            l,
            Err((INTERNAL_SERVER_ERROR, "Remote peer error: "@ + words)),
        ),
        Err(words) => (l, Err((INTERNAL_SERVER_ERROR, "P2P routing error: "@ + words))),
    }
}

/// The histories after a query to a peer: a success of one second with the tokens of the receipt,
/// or a failure.
pub open spec fn judged(m: Records, peer: Seq<char>, ending: Ending, now: u64) -> Records {
    match ending {
        Ok((text, receipt)) => after_success(m, peer, ONE, receipt.tokens_generated as u32, now),
        Err(_) => after_failure(m, peer, now),
    }
}

/// The time that a clock told; zero where it failed.
pub open spec fn time_or_zero(clock: Result<u64, Seq<char>>) -> u64 {
    match clock {
        Ok(now) => now,
        Err(_) => 0,
    }
}

/// What a node replied, as values.
pub open spec fn reply_view(reply: Result<P2PResponse, String>) -> Result<ResponseView, Seq<char>> {
    match reply {
        Ok(response) => Ok(response@),
        Err(words) => Err(words@),
    }
}

/// Whether a result is the given ending.
pub open spec fn ends_as(r: Result<(String, InferenceReceipt), Refusal>, ending: Ending) -> bool {
    match (r, ending) {
        (Ok((text, receipt)), Ok((t, rec))) => text@ == t && receipt@ == rec,
        (Err(refusal), Err((status, words))) => refusal.status == status && refusal.message@
            == words,
        _ => false,
    }
}

/// The tokens that a reply charges for.
pub open spec fn tokens_in(reply: Result<ResponseView, Seq<char>>) -> u32 {
    match reply {
        Ok(ResponseView::InferenceSuccess { text, receipt }) => receipt.tokens_generated as u32,
        _ => 0,
    }
}

/// The tokens that a reply charges for, as they are counted for the peer.
pub fn charged_tokens(reply: &Result<P2PResponse, String>) -> (r: u32)
    ensures
        r == tokens_in(reply_view(*reply)),
{
    match reply {
        Ok(P2PResponse::InferenceSuccess { text, receipt }) => receipt.tokens_generated as u32,
        _ => 0,
    }
}

/// Whether a reply of a node is one that the client pays: its node signature is valid, it is made
/// out to the client, nothing is wrong with it, it is in time, and the ledger can pay it.
pub open spec fn is_payable(
    l: LedgerView,
    receipt: ReceiptView,
    local_median: u64,
    client_pubkey: Seq<char>,
    now: u64,
) -> bool {
    &&& node_signature_valid(receipt)
    &&& receipt.client_pubkey == client_pubkey
    &&& objection(receipt, local_median) is None
    &&& now - MAX_RECEIPT_AGE_SECS <= receipt.timestamp <= now + MAX_FUTURE_DRIFT_SECS
    &&& !l.claimed.contains(receipt.receipt_id)
    &&& payout_outcome(l, receipt) is Ok
}

/// End a query to a peer by its reply and by what the clock tells: review, sign and claim the
/// receipt, and count the success or the failure of the peer. A receipt that is payable is paid.
pub fn settle_remote_at(
    ledger: &mut LocalLedger,
    reputation: &mut ReputationDb,
    peer: &str,
    reply: Result<P2PResponse, String>,
    local_median: u64,
    client_key: &SigningKey,
    clock: &Result<u64, String>,
) -> (r: Result<(String, InferenceReceipt), Refusal>)
    requires
        old(ledger).wf(),
        old(reputation).wf(),
        room_for_success(old(reputation)@, peer@, tokens_in(reply_view(reply))),
    ensures
        final(ledger).wf(),
        final(ledger).path() == old(ledger).path(),
        final(reputation).wf(),
        final(reputation).path() == old(reputation).path(),
        ({
            let (after, ending) = settlement(
                old(ledger)@,
                reply_view(reply),
                local_median,
                client_key@,
                clock_view(*clock),
            );
            &&& ends_as(r, ending)
            &&& final(ledger)@ == after
            &&& final(reputation)@ == judged(
                old(reputation)@,
                peer@,
                ending,
                time_or_zero(clock_view(*clock)),
            )
        }),
        match (reply_view(reply), clock_view(*clock)) {
            (Ok(ResponseView::InferenceSuccess { text, receipt }), Ok(now)) => is_payable(
                old(ledger)@,
                receipt,
                local_median,
                hex_text(ed25519_public(client_key@)),
                now,
            ) ==> r is Ok,
            _ => true,
        },
{
    let now: u64 = match clock {
        Ok(now) => *now,
        Err(_) => 0,
    };
    let refusal = match reply {
        Ok(P2PResponse::InferenceSuccess { text, receipt }) => {
            let mut receipt = receipt;
            match review_receipt(&receipt, local_median) {
                Some(words) => Refusal { status: BAD_REQUEST, message: words },
                None => {
                    countersign(&mut receipt, client_key);
                    match ledger.claim_receipt_at(&receipt, clock) {
                        Ok(_) => {
                            reputation.record_success_at(
                                peer,
                                ONE,
                                receipt.tokens_generated as u32,
                                now,
                            );
                            return Ok((text, receipt));
                        },
                        Err(e) => Refusal {
                            status: INTERNAL_SERVER_ERROR,
                            message: join("Ledger verification error: ", &e),
                        },
                    }
                },
            }
        },
        Ok(P2PResponse::LedgerSync { balances, claimed_receipts }) => Refusal {
            status: INTERNAL_SERVER_ERROR,
            message: "Unexpected LedgerSync response".to_owned(),
        },
        Ok(P2PResponse::Error(e)) => Refusal {
            status: INTERNAL_SERVER_ERROR,
            message: join("Remote peer error: ", &e),
        },
        Err(e) => Refusal {
            status: INTERNAL_SERVER_ERROR,
            message: join("P2P routing error: ", &e),
        },
    };
    reputation.record_failure_at(peer, now);
    Err(refusal)
}

/// End a query to a peer by its reply at the present time.
pub fn settle_remote(
    ledger: &mut LocalLedger,
    reputation: &mut ReputationDb,
    peer: &str,
    reply: Result<P2PResponse, String>,
    local_median: u64,
    client_key: &SigningKey,
) -> (r: Result<(String, InferenceReceipt), Refusal>)
    requires
        old(ledger).wf(),
        old(reputation).wf(),
        room_for_success(old(reputation)@, peer@, tokens_in(reply_view(reply))),
    ensures
        final(ledger).wf(),
        final(ledger).path() == old(ledger).path(),
        final(reputation).wf(),
        final(reputation).path() == old(reputation).path(),
        exists|clock: Result<u64, String>| #[trigger]
            is_reading(clock) && ({
                let (after, ending) = settlement(
                    old(ledger)@,
                    reply_view(reply),
                    local_median,
                    client_key@,
                    clock_view(clock),
                );
                &&& ends_as(r, ending)
                &&& final(ledger)@ == after
                &&& final(reputation)@ == judged(
                    old(reputation)@,
                    peer@,
                    ending,
                    time_or_zero(clock_view(clock)),
                )
            }),
{
    let clock = read_clock();
    let r = settle_remote_at(ledger, reputation, peer, reply, local_median, client_key, &clock);
    proof {
        let told = clock_view(clock);
        let (after, ending) = settlement(
            old(ledger)@,
            reply_view(reply),
            local_median,
            client_key@,
            told,
        );
        assert(ends_as(r, ending));
    }
    r
}

/// A client pays no more than the computed price, pays nothing for a refused reply, and never pays
/// the same receipt twice.
pub proof fn law_settlement_is_fair(
    l: LedgerView,
    reply: Result<ResponseView, Seq<char>>,
    local_median: u64,
    secret: Seq<u8>,
    clock: Result<u64, Seq<char>>,
)
    ensures
        ({
            let (after, ending) = settlement(l, reply, local_median, secret, clock);
            match ending {
                Err(_) => after == l,
                Ok((text, receipt)) => {
                    &&& receipt.amount_nano == crate::receipt::receipt_amount(receipt)
                    &&& crate::crypto::signatures_valid(receipt)
                    &&& !l.claimed.contains(receipt.receipt_id)
                    &&& after.claimed.contains(receipt.receipt_id)
                    &&& settlement(after, reply, local_median, secret, clock).1 is Err
                },
            }
        }),
{
}

/// A receipt with the right amount that is based on the median of the client itself is not
/// objected to. Medians of speeds are not negative.
pub proof fn law_same_median_is_tolerated(r: ReceiptView, local_median: u64)
    requires
        r.network_median_tps == local_median,
        r.amount_nano == crate::receipt::receipt_amount(r),
        !crate::float64::is_negative(local_median),
    ensures
        objection(r, local_median) is None,
{
    if crate::float64::magnitude(local_median) < crate::float64::INFINITY {
        crate::float64::lemma_units_of(LOWER_TOLERANCE, 0x19_9999_9999_999a, 1022);
        crate::float64::lemma_units_of(UPPER_TOLERANCE, 0x13_3333_3333_3333, 1023);
        vstd::arithmetic::power2::lemma_pow2_adds(53, 1021);
        vstd::arithmetic::power2::lemma_pow2_adds(52, 1022);
        vstd::arithmetic::power2::lemma_pow2_pos(1021);
        vstd::arithmetic::power2::lemma_pow2_pos(1022);
        vstd::arithmetic::power2::lemma2_to64_rest();
        crate::float64::lemma_product_bounds(local_median, LOWER_TOLERANCE);
        crate::float64::lemma_product_bounds(local_median, UPPER_TOLERANCE);
    }
}

// ---------------------------------------------------------------------------
// Settlement of local work
// ---------------------------------------------------------------------------

/// The receipt for local work: priced and signed by the node and by the client.
pub open spec fn local_receipt(
    work: Work,
    id: Seq<char>,
    timestamp: u64,
    node_secret: Seq<u8>,
    client_secret: Seq<u8>,
) -> ReceiptView {
    client_signed(
        node_signed(priced(bare_receipt(work, id, timestamp)), node_secret),
        client_secret,
    )
}

/// Settle local work done at the time `now` under the given identifier: issue the receipt, sign it
/// as node and as client, claim it and count a success of the node. Where the keys are those that
/// the work names and the client can pay, the receipt is paid.
pub fn settle_local_at(
    ledger: &mut LocalLedger,
    reputation: &mut ReputationDb,
    work: &Work,
    id: String,
    elapsed: u64,
    node_key: &SigningKey,
    client_key: &SigningKey,
    now: u64,
) -> (r: (InferenceReceipt, Result<(), String>))
    requires
        old(ledger).wf(),
        old(reputation).wf(),
        room_for_success(
            old(reputation)@,
            work.node_pubkey@,
            work.tokens_generated as u32,
        ),
    ensures
        final(ledger).wf(),
        final(ledger).path() == old(ledger).path(),
        final(reputation).wf(),
        final(reputation).path() == old(reputation).path(),
        r.0@ == local_receipt(*work, id@, now, node_key@, client_key@),
        crate::ledger::ended_as(
            claim_outcome(old(ledger)@, r.0@, Ok(now)),
            old(ledger)@,
            final(ledger)@,
            r.1,
        ),
        final(reputation)@ == after_success(
            old(reputation)@,
            work.node_pubkey@,
            elapsed,
            work.tokens_generated as u32,
            now,
        ),
        work.node_pubkey@ == hex_text(ed25519_public(node_key@)) && work.client_pubkey@ == hex_text(
            ed25519_public(client_key@),
        ) && !old(ledger)@.claimed.contains(id@) && payout_outcome(old(ledger)@, r.0@) is Ok
            ==> r.1 is Ok,
{
    let mut receipt = issue_receipt_as(work, id, now, node_key);
    countersign(&mut receipt, client_key);
    let clock: Result<u64, String> = Ok(now);
    let claimed = ledger.claim_receipt_at(&receipt, &clock);
    reputation.record_success_at(
        &work.node_pubkey,
        elapsed,
        work.tokens_generated as u32,
        now,
    );
    (receipt, claimed)
}

/// Settle the work of the demonstration, done at the time `now` under the given identifier: issue
/// the receipt, sign it as node and as client and claim it. A success of the node is counted only
/// where the receipt was paid.
pub fn settle_demo_at(
    ledger: &mut LocalLedger,
    reputation: &mut ReputationDb,
    work: &Work,
    id: String,
    elapsed: u64,
    node_key: &SigningKey,
    client_key: &SigningKey,
    now: u64,
) -> (r: (InferenceReceipt, Result<(), String>))
    requires
        old(ledger).wf(),
        old(reputation).wf(),
        room_for_success(
            old(reputation)@,
            work.node_pubkey@,
            work.tokens_generated as u32,
        ),
    ensures
        final(ledger).wf(),
        final(ledger).path() == old(ledger).path(),
        final(reputation).wf(),
        final(reputation).path() == old(reputation).path(),
        r.0@ == local_receipt(*work, id@, now, node_key@, client_key@),
        crate::ledger::ended_as(
            claim_outcome(old(ledger)@, r.0@, Ok(now)),
            old(ledger)@,
            final(ledger)@,
            r.1,
        ),
        final(reputation)@ == if r.1 is Ok {
            after_success(
                old(reputation)@,
                work.node_pubkey@,
                elapsed,
                work.tokens_generated as u32,
                now,
            )
        } else {
            old(reputation)@
        },
        work.node_pubkey@ == hex_text(ed25519_public(node_key@)) && work.client_pubkey@ == hex_text(
            ed25519_public(client_key@),
        ) && !old(ledger)@.claimed.contains(id@) && payout_outcome(old(ledger)@, r.0@) is Ok
            ==> r.1 is Ok,
{
    let mut receipt = issue_receipt_as(work, id, now, node_key);
    countersign(&mut receipt, client_key);
    let clock: Result<u64, String> = Ok(now);
    let claimed = ledger.claim_receipt_at(&receipt, &clock);
    if claimed.is_ok() {
        reputation.record_success_at(
            &work.node_pubkey,
            elapsed,
            work.tokens_generated as u32,
            now,
        );
    }
    (receipt, claimed)
}

/// The refusal of a query that the local engine could not answer.
pub fn refuse_local(error: &str) -> (r: Refusal)
    ensures
        r.status == INTERNAL_SERVER_ERROR,
        r.message@ == "Local inference failed: "@ + error@,
{
    Refusal { status: INTERNAL_SERVER_ERROR, message: join("Local inference failed: ", error) }
}

// ---------------------------------------------------------------------------
// Answers
// ---------------------------------------------------------------------------

/// A complete answer to a chat query.
#[derive(Debug)]
pub struct ChatCompletion {
    pub id: String,
    pub content: String,
    pub model: String,
    pub created: u64,
    pub prompt_tokens: usize,
    pub completion_tokens: usize,
    pub total_tokens: usize,
}

/// The answer to a chat query. The prompt counts a token for each word.
pub fn complete_chat(
    request: &InferenceRequest,
    content: String,
    tokens: usize,
    created: u64,
) -> (r: ChatCompletion)
    requires
        words(request@.prompt).len() + tokens <= usize::MAX,
    ensures
        r.id@ == "chatcmpl-"@ + request@.request_id,
        r.content@ == content@,
        r.model@ == request@.model,
        r.created == created,
        r.prompt_tokens == words(request@.prompt).len(),
        r.completion_tokens == tokens,
        r.total_tokens == words(request@.prompt).len() + tokens,
{
    let prompt_tokens: usize = word_count(&request.prompt);
    ChatCompletion {
        id: join("chatcmpl-", &request.request_id),
        content,
        model: request.model.clone(),
        created,
        prompt_tokens,
        completion_tokens: tokens,
        total_tokens: prompt_tokens + tokens,
    }
}

/// A piece of a streamed answer. The last piece has no content.
#[derive(Debug)]
pub struct ChatChunk {
    pub id: String,
    pub model: String,
    pub created: u64,
    pub content: Option<String>,
}

/// The values of a piece of a streamed answer.
pub struct ChunkView {
    pub id: Seq<char>,
    pub model: Seq<char>,
    pub created: u64,
    pub content: Option<Seq<char>>,
}

impl View for ChatChunk {
    type V = ChunkView;

    open spec fn view(&self) -> ChunkView {
        ChunkView {
            id: self.id@,
            model: self.model@,
            created: self.created,
            content: text_view(self.content),
        }
    }
}

/// The data that mark the end of a streamed answer.
pub const END_OF_STREAM: &'static str = "[DONE]";

/// The values of pieces of a streamed answer.
pub open spec fn chunk_views(chunks: Seq<ChatChunk>) -> Seq<ChunkView> {
    chunks.map_values(|c: ChatChunk| c@)
}

/// The pieces of a streamed answer: the words, each with the space that follows it, and a last
/// piece without content.
pub open spec fn streamed(
    text: Seq<char>,
    id: Seq<char>,
    model: Seq<char>,
    created: u64,
) -> Seq<ChunkView> {
    pieces(text, ' ').map_values(
        |p: Seq<char>| ChunkView { id, model, created, content: Some(p) },
    ).push(ChunkView { id, model, created, content: None })
}

/// The pieces of a streamed answer.
pub fn stream_chat(text: &str, model: &str, request_id: &str, created: u64) -> (r: Vec<ChatChunk>)
    ensures
        chunk_views(r@) == streamed(text@, "chatcmpl-"@ + request_id@, model@, created),
{
    let id = join("chatcmpl-", request_id);
    let parts = pieces_of(text, ' ');
    let ghost all = pieces(text@, ' ').map_values(
        |p: Seq<char>| ChunkView { id: id@, model: model@, created, content: Some(p) },
    );
    let mut r: Vec<ChatChunk> = Vec::new();
    let mut i: usize = 0;
    assert(chunk_views(r@) == all.take(0));
    while i < parts.len()
        invariant
            i <= parts@.len() == all.len(),
            text_views(parts@) == pieces(text@, ' '),
            all == pieces(text@, ' ').map_values(
                |p: Seq<char>| ChunkView { id: id@, model: model@, created, content: Some(p) },
            ),
            chunk_views(r@) == all.take(i as int),
        decreases parts@.len() - i,
    {
        let ghost before = chunk_views(r@);
        let chunk = ChatChunk {
            id: id.clone(),
            model: model.to_owned(),
            created,
            content: Some(parts[i].clone()),
        };
        let ghost added = chunk@;
        r.push(chunk);
        proof {
            assert(chunk_views(r@) == before.push(added));
            assert(text_views(parts@)[i as int] == parts@[i as int]@);
            assert(added == all[i as int]);
            assert(all.take(i + 1) == all.take(i as int).push(all[i as int]));
        }
        i += 1;
    }
    let ghost before = chunk_views(r@);
    assert(all.take(all.len() as int) == all);
    let last = ChatChunk { id, model: model.to_owned(), created, content: None };
    let ghost added = last@;
    r.push(last);
    assert(chunk_views(r@) == before.push(added));
    r
}

/// The contents of pieces, put together.
pub open spec fn contents(chunks: Seq<ChunkView>) -> Seq<char>
    decreases chunks.len(),
{
    if chunks.len() == 0 {
        Seq::empty()
    } else {
        contents(chunks.drop_last()) + match chunks.last().content {
            Some(p) => p,
            None => Seq::empty(),
        }
    }
}

proof fn lemma_contents_of_pieces(
    parts: Seq<Seq<char>>,
    id: Seq<char>,
    model: Seq<char>,
    created: u64,
)
    ensures
        contents(
            parts.map_values(|p: Seq<char>| ChunkView { id, model, created, content: Some(p) }),
        ) == crate::words::joined(parts),
    decreases parts.len(),
{
    let chunks = parts.map_values(
        |p: Seq<char>| ChunkView { id, model, created, content: Some(p) },
    );
    if parts.len() > 0 {
        lemma_contents_of_pieces(parts.drop_last(), id, model, created);
        assert(chunks.drop_last() == parts.drop_last().map_values(
            |p: Seq<char>| ChunkView { id, model, created, content: Some(p) },
        ));
    }
}

/// What a client puts together from a streamed answer is the whole text, and only the last piece
/// has no content.
pub proof fn law_stream_carries_the_text(
    text: Seq<char>,
    id: Seq<char>,
    model: Seq<char>,
    created: u64,
)
    ensures
        contents(streamed(text, id, model, created)) == text,
        forall|i: int|
            0 <= i < streamed(text, id, model, created).len() ==> ((#[trigger] streamed(
                text,
                id,
                model,
                created,
            )[i]).content is None <==> i == streamed(text, id, model, created).len() - 1),
{
    let all = streamed(text, id, model, created);
    lemma_contents_of_pieces(pieces(text, ' '), id, model, created);
    crate::words::law_pieces_make_the_text(text, ' ');
    assert(all.drop_last() == pieces(text, ' ').map_values(
        |p: Seq<char>| ChunkView { id, model, created, content: Some(p) },
    ));
    assert(contents(all) == text + Seq::<char>::empty());
    assert(contents(all) == text);
}

// ---------------------------------------------------------------------------
// Laws of the chat interface
// ---------------------------------------------------------------------------

/// What a chat query tells is taken as it is; what it does not tell has a default: no prompt, the
/// mock model, no limit on tokens, temperature zero, no streaming.
pub proof fn law_chat_queries_have_defaults(
    prompt: Option<Seq<char>>,
    model: Option<Seq<char>>,
    max_tokens: Option<u64>,
    temperature: Option<u64>,
    stream: Option<bool>,
)
    ensures
        ({
            let q = chat_from(prompt, model, max_tokens, temperature, stream);
            &&& prompt is Some ==> q.prompt == prompt->Some_0
            &&& prompt is None ==> q.prompt.len() == 0
            &&& model is Some ==> q.model == model->Some_0
            &&& model is None ==> q.model == "mock-llama3-8b"@
            &&& max_tokens is Some <==> q.max_tokens is Some
            &&& max_tokens is Some && max_tokens->Some_0 <= usize::MAX ==> q.max_tokens->Some_0
                == max_tokens->Some_0
            &&& temperature is Some ==> q.temperature == narrowed(temperature->Some_0)
            &&& temperature is None ==> q.temperature == 0
            &&& q.stream == (stream == Some(true))
        }),
{
}

/// The prompt of a chat query is the content of its last message.
pub proof fn law_prompt_is_the_last_message(json: Seq<char>)
    ensures
        ({
            let messages = items_in(json, "/messages"@);
            let n = messages->Some_0.len();
            let place = "/messages"@ + "/"@ + crate::text::decimal((n - 1) as nat) + "/content"@;
            let q = chat(json);
            &&& messages is Some && n > 0 && text_in(json, place) is Some ==> q.prompt == text_in(
                json,
                place,
            )->Some_0
            &&& messages is Some && n > 0 && text_in(json, place) is None ==> q.prompt.len() == 0
            &&& messages is None || n == 0 ==> q.prompt.len() == 0
            &&& text_in(json, "/model"@) is Some ==> q.model == text_in(json, "/model"@)->Some_0
            &&& whole_in(json, "/max_tokens"@) is None ==> q.max_tokens is None
            &&& q.stream == (flag_in(json, "/stream"@) == Some(true))
        }),
{
}

/// The request for a query asks what the query asks.
pub proof fn law_request_asks_what_the_query_asks(query: ChatView, id: Seq<char>)
    ensures
        ({
            let r = request_of(query, id);
            &&& r.request_id == id
            &&& r.prompt == query.prompt
            &&& r.model == query.model
            &&& r.max_tokens == query.max_tokens
            &&& r.temperature == query.temperature
        }),
{
}

/// A median is tolerated from four fifths to six fifths of the client's own, to two to the power
/// -53: one that is no less than the one and no more than the other is not objected to, and one
/// with a double between it and such a bound is. Medians are finite and not negative.
pub proof fn law_medians_are_tolerated_within_a_fifth(
    r: ReceiptView,
    local_median: u64,
    between: u64,
)
    requires
        crate::float64::magnitude(local_median) < crate::float64::INFINITY,
        crate::float64::magnitude(r.network_median_tps) < crate::float64::INFINITY,
        crate::float64::magnitude(between) < crate::float64::INFINITY,
        !crate::float64::is_negative(local_median),
    ensures
        ({
            let own = crate::float64::signed_units(local_median);
            let told = crate::float64::signed_units(r.network_median_tps);
            let c = crate::float64::signed_units(between);
            let off = objection(r, local_median) == Some(
                "Receipt pricing/TPS is outside local client tolerance"@,
            );
            // 0.8 and 1.2 in steps of two to the power -53 and -52.
            let low = 7_205_759_403_792_794 * own;
            let high = 5_404_319_552_844_595 * own;
            &&& told * 0x20_0000_0000_0000 >= low && told * 0x10_0000_0000_0000 <= high ==> !off
            &&& told < c && c * 0x20_0000_0000_0000 <= low ==> off
            &&& told > c && c * 0x10_0000_0000_0000 >= high ==> off
        }),
{
    let (m, t, b) = (local_median, r.network_median_tps, between);
    let own = crate::float64::signed_units(m);
    let told = crate::float64::signed_units(t);
    let c = crate::float64::signed_units(b);
    crate::float64::lemma_units_of(LOWER_TOLERANCE, 0x19_9999_9999_999a, 1022);
    crate::float64::lemma_units_of(UPPER_TOLERANCE, 0x13_3333_3333_3333, 1023);
    vstd::arithmetic::power2::lemma_pow2_adds(53, 1021);
    vstd::arithmetic::power2::lemma_pow2_adds(52, 1022);
    vstd::arithmetic::power2::lemma_pow2_pos(1021);
    vstd::arithmetic::power2::lemma_pow2_pos(1022);
    vstd::arithmetic::power2::lemma2_to64_rest();
    let o = vstd::arithmetic::power2::pow2(1074) as int;
    let (e, g) = (
        vstd::arithmetic::power2::pow2(1021) as int,
        vstd::arithmetic::power2::pow2(1022) as int,
    );
    crate::float_laws::law_product_is_faithful(m, LOWER_TOLERANCE, t);
    crate::float_laws::law_product_is_faithful(m, UPPER_TOLERANCE, t);
    crate::float_laws::law_product_is_faithful(m, LOWER_TOLERANCE, b);
    crate::float_laws::law_product_is_faithful(m, UPPER_TOLERANCE, b);
    crate::float_laws::law_order_is_that_of_values(t, b);
    crate::float64::lemma_product_bounds(m, LOWER_TOLERANCE);
    crate::float64::lemma_product_bounds(m, UPPER_TOLERANCE);
    lemma_scaled(told, own, 0x20_0000_0000_0000, 7_205_759_403_792_794, e, o);
    lemma_scaled(told, own, 0x10_0000_0000_0000, 5_404_319_552_844_595, g, o);
    lemma_scaled(c, own, 0x20_0000_0000_0000, 7_205_759_403_792_794, e, o);
    lemma_scaled(c, own, 0x10_0000_0000_0000, 5_404_319_552_844_595, g, o);
    reveal_strlit("Receipt pricing/TPS is outside local client tolerance");
    reveal_strlit("Receipt claimed amount is mathematically incorrect");
    assert("Receipt pricing/TPS is outside local client tolerance"@[8] == 'p');
    assert("Receipt claimed amount is mathematically incorrect"@[8] == 'c');
}

proof fn lemma_scaled(x: int, own: int, k: int, f: int, e: int, o: int)
    requires
        o == k * e,
        e > 0,
    ensures
        x * k >= f * own ==> x * o >= own * (f * e),
        x * k <= f * own ==> x * o <= own * (f * e),
{
    assert(x * o == (x * k) * e && own * (f * e) == (f * own) * e) by (nonlinear_arith)
        requires
            o == k * e,
    ;
    assert(x * k >= f * own ==> (x * k) * e >= (f * own) * e) by (nonlinear_arith)
        requires
            e > 0,
    ;
    assert(x * k <= f * own ==> (x * k) * e <= (f * own) * e) by (nonlinear_arith)
        requires
            e > 0,
    ;
}

/// Where the median is tolerated, the client objects exactly to an amount that is not the computed
/// price.
pub proof fn law_wrong_amounts_are_objected_to(r: ReceiptView, local_median: u64)
    ensures
        r.amount_nano != crate::receipt::receipt_amount(r) ==> objection(r, local_median) is Some,
        objection(r, local_median) is None ==> r.amount_nano == crate::receipt::receipt_amount(r),
        objection(r, local_median) == Some(
            "Receipt claimed amount is mathematically incorrect"@,
        ) ==> r.amount_nano != crate::receipt::receipt_amount(r),
        objection(r, local_median) is Some ==> objection(r, local_median)->Some_0
            == "Receipt pricing/TPS is outside local client tolerance"@ || objection(
            r,
            local_median,
        )->Some_0 == "Receipt claimed amount is mathematically incorrect"@,
{
    reveal_strlit("Receipt pricing/TPS is outside local client tolerance");
    reveal_strlit("Receipt claimed amount is mathematically incorrect");
    assert("Receipt pricing/TPS is outside local client tolerance"@[8] == 'p');
    assert("Receipt claimed amount is mathematically incorrect"@[8] == 'c');
}

/// A reply is paid exactly where it is an answer with a receipt that the client does not object to
/// and that the ledger pays once the client has signed it. The client gets the text of the reply
/// and that receipt, and the ledger is that of the claim.
pub proof fn law_accepted_replies_are_paid(
    l: LedgerView,
    text: Seq<char>,
    receipt: ReceiptView,
    local_median: u64,
    secret: Seq<u8>,
    clock: Result<u64, Seq<char>>,
)
    ensures
        ({
            let reply = Ok::<ResponseView, Seq<char>>(
                ResponseView::InferenceSuccess { text, receipt },
            );
            let (after, ending) = settlement(l, reply, local_median, secret, clock);
            let signed = client_signed(receipt, secret);
            let claim = claim_outcome(l, signed, clock);
            let wrong = objection(receipt, local_median);
            &&& ending is Ok <==> wrong is None && claim is Ok
            &&& ending is Ok ==> after == claim->Ok_0 && ending->Ok_0 == (text, signed)
            &&& ending is Err ==> after == l
            &&& wrong is Some ==> ending == Err::<(Seq<char>, ReceiptView), (u16, Seq<char>)>(
                (400, wrong->Some_0),
            )
            &&& wrong is None && claim is Err ==> ending == Err::<
                (Seq<char>, ReceiptView),
                (u16, Seq<char>),
            >((500, "Ledger verification error: "@ + claim->Err_0))
        }),
{
}

/// A reply that is no answer is refused with its words, and nothing is paid.
pub proof fn law_other_replies_are_refused(
    l: LedgerView,
    reply: Result<ResponseView, Seq<char>>,
    local_median: u64,
    secret: Seq<u8>,
    clock: Result<u64, Seq<char>>,
)
    requires
        !(reply is Ok && reply->Ok_0 is InferenceSuccess),
    ensures
        ({
            let (after, ending) = settlement(l, reply, local_median, secret, clock);
            &&& after == l
            &&& ending is Err
            &&& ending->Err_0.0 == 500
            &&& reply is Err ==> ending->Err_0.1 == "P2P routing error: "@ + reply->Err_0
            &&& reply is Ok && reply->Ok_0 is Error ==> ending->Err_0.1 == "Remote peer error: "@
                + reply->Ok_0->Error_0
            &&& reply is Ok && reply->Ok_0 is LedgerSync ==> ending->Err_0.1
                == "Unexpected LedgerSync response"@
        }),
{
}

/// A peer whose reply was paid has one success more, of one second and the tokens of the receipt;
/// one whose reply was refused has one failure more. Nothing else of its history changes.
pub proof fn law_peers_are_judged_by_their_replies(
    m: Records,
    peer: Seq<char>,
    ending: Ending,
    now: u64,
)
    requires
        m.contains_key(peer),
        room_for_success(
            m,
            peer,
            match ending {
                Ok((text, receipt)) => receipt.tokens_generated as u32,
                Err(_) => 0,
            },
        ),
    ensures
        ({
            let (old_r, r) = (m[peer], judged(m, peer, ending, now)[peer]);
            &&& ending is Ok ==> {
                &&& r.successes == old_r.successes + 1
                &&& r.failures == old_r.failures
                &&& r.total_tokens_generated == old_r.total_tokens_generated
                    + ending->Ok_0.1.tokens_generated as u32
                &&& r.total_latency_secs == crate::float64::sum(
                    old_r.total_latency_secs,
                    crate::float64::of_whole(1),
                )
                &&& r.last_seen == now
            }
            &&& ending is Err ==> {
                &&& r.failures == old_r.failures + 1
                &&& r.successes == old_r.successes
                &&& r.total_tokens_generated == old_r.total_tokens_generated
                &&& r.total_latency_secs == old_r.total_latency_secs
                &&& r.last_seen == old_r.last_seen
            }
        }),
{
    crate::float_laws::law_whole_is_exact(1);
    crate::float64::lemma_one();
    crate::float64::lemma_units_exact(crate::float64::of_whole(1));
    assert(1 * vstd::arithmetic::power2::pow2(1074) == vstd::arithmetic::power2::pow2(1074));
}

/// The receipt for local work tells the work and carries its price and both signatures on all of
/// it.
pub proof fn law_local_receipt_tells_the_work(
    work: Work,
    id: Seq<char>,
    timestamp: u64,
    node_secret: Seq<u8>,
    client_secret: Seq<u8>,
)
    ensures
        ({
            let r = local_receipt(work, id, timestamp, node_secret, client_secret);
            &&& r.receipt_id == id
            &&& r.client_pubkey == work.client_pubkey@
            &&& r.node_pubkey == work.node_pubkey@
            &&& r.query_hash == hex_text(
                crate::crypto::sha256_digest(vstd::utf8::encode_utf8(work.prompt@)),
            )
            &&& r.tokens_generated == work.tokens_generated
            &&& r.tps == work.tps
            &&& r.network_median_tps == work.network_median_tps
            &&& r.tqw_nano == work.tqw_nano
            &&& r.amount_nano == crate::receipt::receipt_amount(r)
            &&& r.timestamp == timestamp
            &&& r.node_signature == Some(
                hex_text(
                    crate::crypto::ed25519_signature(
                        node_secret,
                        crate::crypto::signed_message(r),
                    ),
                ),
            )
            &&& r.client_signature == Some(
                hex_text(
                    crate::crypto::ed25519_signature(
                        client_secret,
                        crate::crypto::signed_message(r),
                    ),
                ),
            )
        }),
{
    crate::node::law_issued_receipt_tells_the_work(work, id, timestamp, node_secret);
    let n = node_signed(priced(bare_receipt(work, id, timestamp)), node_secret);
    crate::node::law_client_adds_its_signature(n, client_secret);
    crate::receipt::law_price_depends_on_work_alone(n, client_signed(n, client_secret));
    let s = hex_text(
        crate::crypto::ed25519_signature(client_secret, crate::crypto::signed_message(n)),
    );
    crate::crypto::law_signing_keeps_other_signature(n, s);
}

/// Each piece of a streamed answer carries the identifier, the model and the time of the answer,
/// and each but the last one a piece of the text that is not empty.
pub proof fn law_stream_pieces_carry_the_answer(
    text: Seq<char>,
    id: Seq<char>,
    model: Seq<char>,
    created: u64,
    i: int,
)
    requires
        0 <= i < streamed(text, id, model, created).len(),
    ensures
        ({
            let chunks = streamed(text, id, model, created);
            &&& chunks[i].id == id
            &&& chunks[i].model == model
            &&& chunks[i].created == created
            &&& chunks.len() == pieces(text, ' ').len() + 1
            &&& i < chunks.len() - 1 ==> chunks[i].content == Some(pieces(text, ' ')[i])
                && pieces(text, ' ')[i].len() > 0
            &&& i == chunks.len() - 1 ==> chunks[i].content is None
        }),
{
    crate::words::law_pieces_end_with_the_separator(text, ' ');
}

/// A query to another node returns what its ending says: the text and the receipt, or the status
/// and the words.
pub proof fn law_result_tells_the_ending(
    r: Result<(String, InferenceReceipt), Refusal>,
    ending: Ending,
)
    requires
        ends_as(r, ending),
    ensures
        r is Ok <==> ending is Ok,
        r is Ok ==> r->Ok_0.0@ == ending->Ok_0.0 && r->Ok_0.1@ == ending->Ok_0.1,
        r is Err ==> r->Err_0.status == ending->Err_0.0 && r->Err_0.message@ == ending->Err_0.1,
{
}

/// What a reply and a clock tell is taken as it is, and a clock that fails for time zero.
pub proof fn law_replies_and_times_are_taken_as_told(
    reply: Result<P2PResponse, String>,
    clock: Result<u64, String>,
)
    ensures
        reply is Ok ==> reply_view(reply) == Ok::<ResponseView, Seq<char>>(reply->Ok_0@),
        reply is Err ==> reply_view(reply) == Err::<ResponseView, Seq<char>>(reply->Err_0@),
        clock is Ok ==> time_or_zero(clock_view(clock)) == clock->Ok_0 && clock_view(clock) == Ok::<
            u64,
            Seq<char>,
        >(clock->Ok_0),
        clock is Err ==> time_or_zero(clock_view(clock)) == 0 && clock_view(clock) == Err::<
            u64,
            Seq<char>,
        >(clock->Err_0@),
        reply is Ok && reply->Ok_0@ is InferenceSuccess ==> tokens_in(reply_view(reply))
            == reply->Ok_0@->receipt.tokens_generated as u32,
{
}

/// A peer that was not known is known after its reply, with one success or one failure.
pub proof fn law_new_peers_are_judged_too(
    m: Records,
    peer: Seq<char>,
    ending: Ending,
    now: u64,
    other: Seq<char>,
)
    requires
        !m.contains_key(peer),
    ensures
        ({
            let after = judged(m, peer, ending, now);
            let r = after[peer];
            &&& after.contains_key(peer)
            &&& r.last_seen == now
            &&& ending is Ok ==> r.successes == 1 && r.failures == 0 && r.total_tokens_generated
                == ending->Ok_0.1.tokens_generated as u32
            &&& ending is Err ==> r.successes == 0 && r.failures == 1 && r.total_tokens_generated
                == 0
            &&& other != peer ==> (after.contains_key(other) <==> m.contains_key(other))
            &&& other != peer && m.contains_key(other) ==> after[other] == m[other]
        }),
{
}

/// A reply is paid where the node has signed it, it is made out to the client whose key signs, the
/// client does not object to it, it is no more than 300 seconds old and no more than 30 ahead, it
/// was not claimed before, and the ledger can pay it.
pub proof fn law_payable_replies_are_told_by_the_receipt(
    l: LedgerView,
    receipt: ReceiptView,
    local_median: u64,
    client_pubkey: Seq<char>,
    now: u64,
)
    ensures
        is_payable(l, receipt, local_median, client_pubkey, now) <==> {
            &&& node_signature_valid(receipt)
            &&& receipt.client_pubkey == client_pubkey
            &&& objection(receipt, local_median) is None
            &&& now - 300 <= receipt.timestamp <= now + 30
            &&& !l.claimed.contains(receipt.receipt_id)
            &&& crate::ledger::balance_of(l, receipt.client_pubkey) >= receipt.amount_nano
            &&& receipt.client_pubkey == receipt.node_pubkey || crate::ledger::balance_of(
                l,
                receipt.node_pubkey,
            ) + receipt.amount_nano <= u64::MAX
        },
{
}

} // verus!

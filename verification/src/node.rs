//! What a node does with queries, receipts and the ledgers of other nodes.
use crate::crypto::{
    ed25519_public, ed25519_signature, hex_text, node_signature_valid, sha256_digest, sha256_hash,
    sign_receipt_as_client, sign_receipt_as_node, signatures_valid, signed_message,
    with_client_signature, with_node_signature, SigningKey,
};
use crate::detector::{engine_views, DetectedEngine, EngineView};
use crate::float64::{multiply, product, truncate_to_u64, truncated_to_u64};
use crate::ledger::{imported, LedgerState, LocalLedger};
use crate::network::{Gossip, GossipView, P2PResponse, ResponseView};
use crate::network_stats::{NetworkStats, Report, StatsView};
use crate::receipt::{InferenceReceipt, ReceiptView};
use crate::request::{
    request_error_text, request_fault, InferenceRequest, ModelSpecView, RequestView,
};
use crate::text::{join, same_text};
use crate::words::text_views;
use vstd::prelude::*;
use vstd::utf8::encode_utf8;

verus! {

/// The address that stands for answers without an engine.
pub const MOCK_BACKEND: &'static str = "http://localhost:9999";

/// The model that is offered where no engine is found.
pub const MOCK_MODEL: &'static str = "mock-llama3-8b";

/// The weight of a model of which none is known: 0.01 iTokens per token.
pub const DEFAULT_TQW_NANO: u64 = 10_000_000;

/// The answer to a query of another node where no engine is found.
pub const MOCK_REMOTE_ANSWER: &'static str =
    "This response is served over the decentralised iToken P2P network!";

/// The answer to a local query where no engine is found.
pub const MOCK_LOCAL_ANSWER: &'static str =
    "Rayleigh scattering is the scattering of light by particles much smaller than the wavelength of the light, explaining why the sky appears blue.";

/// The address on which a node listens where none is given.
pub const DEFAULT_LISTEN_ADDRESS: &'static str = "/ip4/0.0.0.0/tcp/4001";

/// The address on which a node listens where the given one is taken.
pub const FALLBACK_LISTEN_ADDRESS: &'static str = "/ip4/0.0.0.0/tcp/0";

/// How often a node asks for the ledger of another when it starts.
pub const MAX_SYNC_ATTEMPTS: u32 = 5;

/// The nano-iTokens of an iToken as a double.
pub const NANO_PER_ITOKEN_DOUBLE: u64 = 0x41cd_cd65_0000_0000;

/// The prompt of the demonstration.
pub const DEMO_PROMPT: &'static str = "Explain Rayleigh scattering in one simple sentence.";

/// The tokens that the demonstration asks for.
pub const DEMO_MAX_TOKENS: usize = 50;

/// An amount of iTokens, a double, in whole nano-iTokens.
pub fn seed_nano(seed_amount: u64) -> (r: u64)
    ensures
        r == truncated_to_u64(product(seed_amount, NANO_PER_ITOKEN_DOUBLE)),
{
    truncate_to_u64(multiply(seed_amount, NANO_PER_ITOKEN_DOUBLE))
}

/// `uuid::Uuid::new_v4` draws a random identifier, which is written with 36 characters.
/// Nothing more is promised of it.
#[verifier::external_body]
fn random_id() -> (r: String)
    ensures
        r@.len() == 36,
{
    uuid::Uuid::new_v4().to_string()
}

/// Whether an identifier is one that was drawn at random.
pub closed spec fn is_drawn_id(id: String) -> bool {
    call_ensures(random_id, (), id)
}

/// Nothing but what was drawn is a drawn identifier.
proof fn law_drawn_ids_come_from_the_draw(id: String)
    ensures
        is_drawn_id(id) <==> call_ensures(random_id, (), id),
{
}

/// A fresh identifier of 36 characters.
pub fn fresh_id() -> (r: String)
    ensures
        r@.len() == 36,
        is_drawn_id(r),
{
    random_id()
}

// ---------------------------------------------------------------------------
// Engines
// ---------------------------------------------------------------------------

/// Where a query is answered: the address of the engine and the weight of its model.
#[derive(Debug)]
pub struct Backend {
    pub url: String,
    pub tqw_nano: u64,
}

/// The address and the weight for a query: those of the first engine and its first model.
pub open spec fn chosen_backend(engines: Seq<EngineView>) -> (Seq<char>, u64) {
    if engines.len() == 0 {
        (MOCK_BACKEND@, DEFAULT_TQW_NANO)
    } else if engines[0].active_models.len() == 0 {
        (engines[0].url, DEFAULT_TQW_NANO)
    } else {
        (engines[0].url, engines[0].active_models[0].tqw_nano)
    }
}

/// The address and the weight for a query: those of the first engine and its first model.
pub fn choose_backend(engines: &Vec<DetectedEngine>) -> (r: Backend)
    ensures
        (r.url@, r.tqw_nano) == chosen_backend(engine_views(engines@)),
{
    if engines.len() == 0 {
        return Backend { url: MOCK_BACKEND.to_owned(), tqw_nano: DEFAULT_TQW_NANO };
    }
    assert(engine_views(engines@)[0] == engines@[0]@);
    let tqw_nano: u64 = if engines[0].active_models.len() == 0 {
        DEFAULT_TQW_NANO
    } else {
        engines[0].active_models[0].tqw_nano
    };
    Backend { url: engines[0].url.clone(), tqw_nano }
}

impl Backend {
    /// Whether there is no engine behind the address.
    pub fn is_mock(&self) -> (r: bool)
        ensures
            r == (self.url@ == MOCK_BACKEND@),
    {
        same_text(&self.url, MOCK_BACKEND)
    }
}

/// The address, the model and the weight for the demonstration: those of the first engine and its
/// first model, where it has one.
pub open spec fn demo_choice(engines: Seq<EngineView>) -> (Seq<char>, Seq<char>, u64) {
    if engines.len() == 0 || engines[0].active_models.len() == 0 {
        (MOCK_BACKEND@, MOCK_MODEL@, DEFAULT_TQW_NANO)
    } else {
        let m = engines[0].active_models[0];
        (engines[0].url, m.name, m.tqw_nano)
    }
}

/// The address, the model and the weight for the demonstration.
pub fn choose_demo(engines: &Vec<DetectedEngine>) -> (r: (Backend, String))
    ensures
        (r.0.url@, r.1@, r.0.tqw_nano) == demo_choice(engine_views(engines@)),
{
    if engines.len() == 0 || engines[0].active_models.len() == 0 {
        assert(engines@.len() > 0 ==> engine_views(engines@)[0] == engines@[0]@);
        return (
            Backend { url: MOCK_BACKEND.to_owned(), tqw_nano: DEFAULT_TQW_NANO },
            MOCK_MODEL.to_owned(),
        );
    }
    assert(engine_views(engines@)[0] == engines@[0]@);
    (
        Backend {
            url: engines[0].url.clone(),
            tqw_nano: engines[0].active_models[0].tqw_nano,
        },
        engines[0].active_models[0].name.clone(),
    )
}

/// The request of the demonstration.
pub fn demo_request(request_id: String, model: String) -> (r: InferenceRequest)
    ensures
        r@ == (RequestView {
            request_id: request_id@,
            prompt: DEMO_PROMPT@,
            model: model@,
            max_tokens: Some(DEMO_MAX_TOKENS),
            temperature: 0,
        }),
{
    InferenceRequest {
        request_id,
        prompt: DEMO_PROMPT.to_owned(),
        model,
        max_tokens: Some(DEMO_MAX_TOKENS),
        temperature: 0,
    }
}

/// The names of models.
pub open spec fn model_names(models: Seq<ModelSpecView>) -> Seq<Seq<char>> {
    models.map_values(|m: ModelSpecView| m.name)
}

/// The names of the models of all engines, in order.
pub open spec fn engine_model_names(engines: Seq<EngineView>) -> Seq<Seq<char>>
    decreases engines.len(),
{
    if engines.len() == 0 {
        Seq::empty()
    } else {
        engine_model_names(engines.drop_last()) + model_names(engines.last().active_models)
    }
}

/// The models that a node offers: those of all engines, or the mock model where there are none.
pub open spec fn offered(engines: Seq<EngineView>) -> Seq<Seq<char>> {
    let names = engine_model_names(engines);
    if names.len() == 0 {
        seq![MOCK_MODEL@]
    } else {
        names
    }
}

/// The models that a node offers.
pub fn hosted_models(engines: &Vec<DetectedEngine>) -> (r: Vec<String>)
    ensures
        text_views(r@) == offered(engine_views(engines@)),
{
    let mut names: Vec<String> = Vec::new();
    let ghost all = engine_views(engines@);
    let mut i: usize = 0;
    assert(text_views(names@) == engine_model_names(all.take(0)));
    while i < engines.len()
        invariant
            i <= engines@.len(),
            all == engine_views(engines@),
            text_views(names@) == engine_model_names(all.take(i as int)),
        decreases engines@.len() - i,
    {
        let ghost before = text_views(names@);
        let ghost models = all[i as int].active_models;
        let mut j: usize = 0;
        assert(before + model_names(models).take(0) == before);
        while j < engines[i].active_models.len()
            invariant
                i < engines@.len(),
                all == engine_views(engines@),
                models == all[i as int].active_models,
                j <= models.len() == engines@[i as int].active_models@.len(),
                text_views(names@) == before + model_names(models).take(j as int),
            decreases models.len() - j,
        {
            let ghost now = text_views(names@);
            let name = engines[i].active_models[j].name.clone();
            let ghost added = name@;
            names.push(name);
            proof {
                assert(text_views(names@) == now.push(added));
                assert(models[j as int].name == added);
                assert(model_names(models).take(j + 1) == model_names(models).take(j as int).push(
                    added,
                ));
                assert(before + model_names(models).take(j as int).push(added) == (before
                    + model_names(models).take(j as int)).push(added));
            }
            j += 1;
        }
        proof {
            assert(model_names(models).take(models.len() as int) == model_names(models));
            assert(all.take(i + 1).drop_last() == all.take(i as int));
        }
        i += 1;
    }
    assert(all.take(all.len() as int) == all);
    if names.len() == 0 {
        names.push(MOCK_MODEL.to_owned());
        assert(text_views(names@) == seq![MOCK_MODEL@]);
    }
    names
}

// ---------------------------------------------------------------------------
// Receipts
// ---------------------------------------------------------------------------

/// What was done for a query.
#[derive(Debug)]
pub struct Work {
    pub client_pubkey: String,
    pub node_pubkey: String,
    pub prompt: String,
    pub tokens_generated: usize,
    /// Tokens per second, a double.
    pub tps: u64,
    /// The median of the network in tokens per second, a double.
    pub network_median_tps: u64,
    pub tqw_nano: u64,
}

/// The receipt for work, without a price and without signatures.
pub open spec fn bare_receipt(work: Work, id: Seq<char>, timestamp: u64) -> ReceiptView {
    ReceiptView {
        receipt_id: id,
        client_pubkey: work.client_pubkey@,
        node_pubkey: work.node_pubkey@,
        query_hash: hex_text(sha256_digest(encode_utf8(work.prompt@))),
        tokens_generated: work.tokens_generated,
        tps: work.tps,
        network_median_tps: work.network_median_tps,
        tqw_nano: work.tqw_nano,
        amount_nano: 0,
        timestamp,
        node_signature: None,
        client_signature: None,
    }
}

/// A receipt with its price.
pub open spec fn priced(r: ReceiptView) -> ReceiptView {
    ReceiptView { amount_nano: crate::receipt::receipt_amount(r) as u64, ..r }
}

/// A receipt that the node with the given secret key has signed.
pub open spec fn node_signed(r: ReceiptView, secret: Seq<u8>) -> ReceiptView {
    with_node_signature(r, hex_text(ed25519_signature(secret, signed_message(r))))
}

/// A receipt that the client with the given secret key has signed.
pub open spec fn client_signed(r: ReceiptView, secret: Seq<u8>) -> ReceiptView {
    with_client_signature(r, hex_text(ed25519_signature(secret, signed_message(r))))
}

/// The receipt of a node for work: priced and signed by the node. Where the key is that of the node
/// that the work names, the signature is valid.
pub fn issue_receipt_as(work: &Work, id: String, timestamp: u64, node_key: &SigningKey) -> (
    r: InferenceReceipt)
    ensures
        r@ == node_signed(priced(bare_receipt(*work, id@, timestamp)), node_key@),
        r@.amount_nano == crate::receipt::receipt_amount(r@),
        work.node_pubkey@ == hex_text(ed25519_public(node_key@)) ==> node_signature_valid(r@),
{
    let mut receipt = InferenceReceipt {
        receipt_id: id,
        client_pubkey: work.client_pubkey.clone(),
        node_pubkey: work.node_pubkey.clone(),
        query_hash: sha256_hash(&work.prompt),
        tokens_generated: work.tokens_generated,
        tps: work.tps,
        network_median_tps: work.network_median_tps,
        tqw_nano: work.tqw_nano,
        amount_nano: 0,
        timestamp,
        node_signature: None,
        client_signature: None,
    };
    assert(receipt@ == bare_receipt(*work, id@, timestamp));
    receipt.amount_nano = receipt.compute_amount();
    assert(receipt@ == priced(bare_receipt(*work, id@, timestamp)));
    sign_receipt_as_node(node_key, &mut receipt);
    receipt
}

/// The receipt of a node for work under a fresh identifier.
pub fn issue_receipt(work: &Work, timestamp: u64, node_key: &SigningKey) -> (r: InferenceReceipt)
    ensures
        r@.receipt_id.len() == 36,
        exists|id: String| #[trigger] is_drawn_id(id) && id@ == r@.receipt_id,
        r@ == node_signed(priced(bare_receipt(*work, r@.receipt_id, timestamp)), node_key@),
        r@.amount_nano == crate::receipt::receipt_amount(r@),
        work.node_pubkey@ == hex_text(ed25519_public(node_key@)) ==> node_signature_valid(r@),
{
    let id = fresh_id();
    issue_receipt_as(work, id, timestamp, node_key)
}

/// Add the signature of the client to a receipt that the node has signed. Where both keys are
/// those that the receipt names, it carries both signatures as a ledger asks for.
pub fn countersign(receipt: &mut InferenceReceipt, client_key: &SigningKey)
    ensures
        final(receipt)@ == client_signed(old(receipt)@, client_key@),
        node_signature_valid(old(receipt)@) && old(receipt)@.client_pubkey == hex_text(
            ed25519_public(client_key@),
        ) ==> signatures_valid(final(receipt)@),
        final(receipt)@.amount_nano == old(receipt)@.amount_nano,
        crate::receipt::receipt_amount(final(receipt)@) == crate::receipt::receipt_amount(
            old(receipt)@,
        ),
{
    sign_receipt_as_client(client_key, receipt);
    proof {
        crate::crypto::law_signing_keeps_other_signature(
            old(receipt)@,
            hex_text(ed25519_signature(client_key@, signed_message(old(receipt)@))),
        );
    }
}

// ---------------------------------------------------------------------------
// Queries of other nodes
// ---------------------------------------------------------------------------

/// Whether a query of another node is taken up; if not, the answer to it. `temperature` is the
/// temperature of the request in digits.
pub fn refuse_query(req: &InferenceRequest, temperature: &str) -> (r: Option<P2PResponse>)
    ensures
        match (r, request_fault(req@)) {
            (None, None) => true,
            (Some(answer), Some(e)) => answer.wf() && answer@ == ResponseView::Error(
                "Validation failed: "@ + request_error_text(e, temperature@),
            ),
            _ => false,
        },
{
    match req.validate() {
        Ok(_) => None,
        Err(e) => Some(P2PResponse::Error(join("Validation failed: ", &e.message(temperature)))),
    }
}

/// The answer to a query: the text and the receipt for it, with the computed price and, where the
/// key is that of the node that the work names, with a valid signature of the node.
pub fn answer_query(text: String, work: &Work, timestamp: u64, node_key: &SigningKey) -> (
    r: P2PResponse)
    ensures
        r.wf(),
        match r@ {
            ResponseView::InferenceSuccess { text: t, receipt } => {
                &&& t == text@
                &&& receipt.receipt_id.len() == 36
                &&& exists|id: String| #[trigger] is_drawn_id(id) && id@ == receipt.receipt_id
                &&& receipt == node_signed(
                    priced(bare_receipt(*work, receipt.receipt_id, timestamp)),
                    node_key@,
                )
                &&& receipt.amount_nano == crate::receipt::receipt_amount(receipt)
                &&& work.node_pubkey@ == hex_text(ed25519_public(node_key@))
                    ==> node_signature_valid(receipt)
            },
            _ => false,
        },
{
    let receipt = issue_receipt(work, timestamp, node_key);
    P2PResponse::InferenceSuccess { text, receipt }
}

/// The answer to a request for the ledger.
pub fn answer_sync(ledger: &LocalLedger) -> (r: P2PResponse)
    requires
        ledger.wf(),
    ensures
        r.wf(),
        r@ == ResponseView::LedgerSync(ledger@),
{
    let state = ledger.export_state();
    P2PResponse::LedgerSync {
        balances: state.balances,
        claimed_receipts: state.claimed_receipts,
    }
}

/// Keep the speed that a health report tells.
pub fn hear_gossip(stats: &mut NetworkStats, gossip: &Gossip, now: u64)
    requires
        old(stats).wf(),
    ensures
        final(stats).wf(),
        final(stats)@ == match gossip@ {
            GossipView::Health { peer_id, tps_avg, models } => StatsView {
                peers: old(stats)@.peers.insert(peer_id, Report { tps: tps_avg, seen: now }),
                ..old(stats)@
            },
            _ => old(stats)@,
        },
{
    match gossip {
        Gossip::Health { peer_id, tps_avg, models } => {
            stats.feed_heartbeat(peer_id, *tps_avg, now);
        },
        _ => {},
    }
}

// ---------------------------------------------------------------------------
// Taking over the ledger of another node
// ---------------------------------------------------------------------------

/// What to do about the ledger of another node.
#[derive(Debug, Clone, Copy, PartialEq, Eq, Structural)]
pub enum SyncStep {
    /// Ask the first connected peer.
    Ask,
    /// Wait and look again.
    Wait,
    /// Stop: the network is closed, the ledger was taken over, or there were enough attempts.
    Stop,
}

/// The attempts to take over the ledger of another node.
#[derive(Debug, Clone, Copy)]
pub struct SyncTask {
    pub attempts: u32,
}

/// What to do when an attempt ends without a ledger.
pub open spec fn after_attempt(attempts: u32) -> SyncStep {
    if attempts >= MAX_SYNC_ATTEMPTS {
        SyncStep::Stop
    } else {
        SyncStep::Wait
    }
}

impl SyncTask {
    /// No attempt yet.
    pub fn new() -> (r: SyncTask)
        ensures
            r.attempts == 0,
    {
        SyncTask { attempts: 0 }
    }

    /// Begin an attempt: whether the network is closed, and whether there is a connected peer.
    pub fn begin(&mut self, closed: bool, connected: bool) -> (r: SyncStep)
        requires
            old(self).attempts < MAX_SYNC_ATTEMPTS,
        ensures
            final(self).attempts == old(self).attempts + 1,
            r == (if closed {
                SyncStep::Stop
            } else if connected {
                SyncStep::Ask
            } else {
                after_attempt((old(self).attempts + 1) as u32)
            }),
    {
        self.attempts = self.attempts + 1;
        if closed {
            SyncStep::Stop
        } else if connected {
            SyncStep::Ask
        } else if self.attempts >= MAX_SYNC_ATTEMPTS {
            SyncStep::Stop
        } else {
            SyncStep::Wait
        }
    }

    /// Take the answer of a peer. A ledger is taken over; whether it held a claim that was new is
    /// told beside.
    pub fn finish(&self, ledger: &mut LocalLedger, reply: Result<P2PResponse, String>) -> (r: (
        SyncStep,
        bool,
    ))
        requires
            old(ledger).wf(),
            reply is Ok ==> reply->Ok_0.wf(),
        ensures
            final(ledger).wf(),
            final(ledger).path() == old(ledger).path(),
            match reply {
                Ok(response) => match response@ {
                    ResponseView::LedgerSync(other) => r.0 == SyncStep::Stop && final(ledger)@
                        == imported(old(ledger)@, other) && r.1 == !other.claimed.subset_of(
                        old(ledger)@.claimed,
                    ),
                    _ => r.0 == after_attempt(self.attempts) && !r.1 && final(ledger)@ == old(
                        ledger,
                    )@,
                },
                Err(_) => r.0 == after_attempt(self.attempts) && !r.1 && final(ledger)@ == old(
                    ledger,
                )@,
            },
    {
        let step = if self.attempts >= MAX_SYNC_ATTEMPTS {
            SyncStep::Stop
        } else {
            SyncStep::Wait
        };
        match reply {
            Ok(P2PResponse::LedgerSync { balances, claimed_receipts }) => {
                let external = LedgerState { balances, claimed_receipts };
                let grown = ledger.import_state(&external);
                (SyncStep::Stop, grown)
            },
            _ => (step, false),
        }
    }
}

/// However peers come and answer, the attempts end: the one that reaches the limit stops.
pub proof fn law_sync_ends(attempts: u32)
    requires
        attempts < MAX_SYNC_ATTEMPTS,
    ensures
        after_attempt((attempts + 1) as u32) == SyncStep::Wait <==> attempts + 1
            < MAX_SYNC_ATTEMPTS,
        after_attempt(MAX_SYNC_ATTEMPTS) == SyncStep::Stop,
{
}

// ---------------------------------------------------------------------------
// Laws of a node
// ---------------------------------------------------------------------------

/// A query goes to the first engine and is weighed as its first model. Without engines it goes to
/// no engine, and what is not known weighs 0.01 iTokens.
pub proof fn law_queries_go_to_the_first_engine(engines: Seq<EngineView>)
    ensures
        ({
            let (url, weight) = chosen_backend(engines);
            &&& engines.len() > 0 ==> url == engines[0].url
            &&& engines.len() == 0 ==> url == "http://localhost:9999"@
            &&& engines.len() > 0 && engines[0].active_models.len() > 0 ==> weight
                == engines[0].active_models[0].tqw_nano
            &&& engines.len() == 0 || engines[0].active_models.len() == 0 ==> weight == 10_000_000
        }),
        ({
            let (url, model, weight) = demo_choice(engines);
            let known = engines.len() > 0 && engines[0].active_models.len() > 0;
            &&& known ==> url == engines[0].url && model == engines[0].active_models[0].name
                && weight == engines[0].active_models[0].tqw_nano
            &&& !known ==> url == "http://localhost:9999"@ && model == "mock-llama3-8b"@ && weight
                == 10_000_000
        }),
{
}

/// The models of engines are listed engine by engine, each engine's in its order.
pub proof fn law_models_are_listed_engine_by_engine(a: Seq<EngineView>, b: Seq<EngineView>)
    ensures
        engine_model_names(a + b) == engine_model_names(a) + engine_model_names(b),
        a.len() == 1 ==> engine_model_names(a) == a[0].active_models.map_values(
            |m: ModelSpecView| m.name,
        ),
    decreases b.len(),
{
    if a.len() == 1 {
        assert(a.drop_last() == Seq::<EngineView>::empty());
        assert(engine_model_names(a.drop_last()) == Seq::<Seq<char>>::empty());
        assert(engine_model_names(a) == model_names(a[0].active_models));
        assert(model_names(a[0].active_models) == a[0].active_models.map_values(
            |m: ModelSpecView| m.name,
        ));
    }
    if b.len() == 0 {
        assert(a + b == a);
        assert(engine_model_names(a) + engine_model_names(b) == engine_model_names(a));
    } else {
        let t = b.drop_last();
        assert((a + b).drop_last() == a + t);
        law_models_are_listed_engine_by_engine(a, t);
        let last = model_names(b.last().active_models);
        assert((engine_model_names(a) + engine_model_names(t)) + last == engine_model_names(a) + (
        engine_model_names(t) + last));
    }
}

/// A node offers the models of its engines, and the mock model where there are none. It always
/// offers something.
pub proof fn law_node_offers_its_models(engines: Seq<EngineView>)
    ensures
        engine_model_names(engines).len() > 0 ==> offered(engines) == engine_model_names(engines),
        engine_model_names(engines).len() == 0 ==> offered(engines) == seq!["mock-llama3-8b"@],
        offered(engines).len() > 0,
{
}

/// A receipt tells the work that it is for: both parties, the hash of the prompt, the tokens, the
/// speeds, the weight and the time. It carries the price of that work and the signature of the node
/// on all of it, and none of the client.
pub proof fn law_issued_receipt_tells_the_work(
    work: Work,
    id: Seq<char>,
    timestamp: u64,
    secret: Seq<u8>,
)
    ensures
        ({
            let r = node_signed(priced(bare_receipt(work, id, timestamp)), secret);
            &&& r.receipt_id == id
            &&& r.client_pubkey == work.client_pubkey@
            &&& r.node_pubkey == work.node_pubkey@
            &&& r.query_hash == hex_text(sha256_digest(encode_utf8(work.prompt@)))
            &&& r.tokens_generated == work.tokens_generated
            &&& r.tps == work.tps
            &&& r.network_median_tps == work.network_median_tps
            &&& r.tqw_nano == work.tqw_nano
            &&& r.amount_nano == crate::receipt::receipt_amount(r)
            &&& r.timestamp == timestamp
            &&& r.client_signature is None
            &&& r.node_signature == Some(
                hex_text(ed25519_signature(secret, signed_message(r))),
            )
        }),
{
    let p = priced(bare_receipt(work, id, timestamp));
    let s = hex_text(ed25519_signature(secret, signed_message(p)));
    crate::crypto::law_signing_keeps_other_signature(p, s);
}

/// The client adds its signature on all of a receipt and changes nothing else.
pub proof fn law_client_adds_its_signature(r: ReceiptView, secret: Seq<u8>)
    ensures
        ({
            let after = client_signed(r, secret);
            &&& after.client_signature == Some(
                hex_text(ed25519_signature(secret, signed_message(after))),
            )
            &&& after == ReceiptView { client_signature: after.client_signature, ..r }
        }),
{
    let s = hex_text(ed25519_signature(secret, signed_message(r)));
    crate::crypto::law_signing_keeps_other_signature(r, s);
}

/// A node asks no more than five times for the ledger of another.
pub proof fn law_five_attempts(attempts: u32)
    ensures
        after_attempt(attempts) == SyncStep::Stop <==> attempts >= 5,
        after_attempt(attempts) == SyncStep::Wait <==> attempts < 5,
{
}

/// Whole iTokens are as many times 1000000000 nano-iTokens.
pub proof fn law_seed_of_whole_itokens(n: u64)
    requires
        n * 1_000_000_000 < crate::float_laws::WHOLE_LIMIT,
    ensures
        truncated_to_u64(product(crate::float64::of_whole(n), NANO_PER_ITOKEN_DOUBLE)) == n
            * 1_000_000_000,
{
    crate::float_laws::law_whole_is_exact(1_000_000_000);
    crate::float64::lemma_units_of(NANO_PER_ITOKEN_DOUBLE, 0x1d_cd65_0000_0000, 1052);
    vstd::arithmetic::power2::lemma_pow2_adds(23, 1051);
    assert(vstd::arithmetic::power2::pow2(23) == 0x80_0000) by {
        vstd::arithmetic::power2::lemma2_to64();
    }
    let (x, y) = (
        vstd::arithmetic::power2::pow2(23) as int,
        vstd::arithmetic::power2::pow2(1051) as int,
    );
    assert((1_000_000_000 * x) * y == 1_000_000_000 * (x * y)) by (nonlinear_arith);
    crate::float64::lemma_units_exact(NANO_PER_ITOKEN_DOUBLE);
    crate::float64::lemma_units_exact(crate::float64::of_whole(1_000_000_000));
    assert(NANO_PER_ITOKEN_DOUBLE == crate::float64::of_whole(1_000_000_000));
    crate::float_laws::law_product_of_wholes(n, 1_000_000_000);
    crate::float_laws::law_whole_reads_back((n * 1_000_000_000) as u64);
}

/// The demonstration asks for 50 tokens.
pub proof fn law_demonstration_asks_for_fifty_tokens()
    ensures
        DEMO_MAX_TOKENS == 50,
        DEMO_PROMPT@ == "Explain Rayleigh scattering in one simple sentence."@,
{
}

} // verus!

//! Messages between nodes, and the bookkeeping of what a node waits for.
//!
//! Times are nanoseconds since a fixed moment.
use crate::json::{double_at, double_in, items_at, items_in, optional_views, utf8_text};
use crate::ledger::LedgerView;
use crate::receipt::{InferenceReceipt, ReceiptView};
use crate::request::{InferenceRequest, RequestView};
use crate::table::{lemma_map_of_contains, map_of, Table, TextSet};
use crate::text::{join, same_text};
use crate::words::text_views;
use vstd::prelude::*;
use vstd::utf8::{decode_utf8, valid_utf8};

verus! {

/// The name of the protocol.
pub const PROTOCOL_VERSION: &'static str = "/itoken/1.0.0";

/// The topic of health reports.
pub const HEALTH_TOPIC: &'static str = "itoken/health/v1";

/// The topic of claimed receipts.
pub const LEDGER_TOPIC: &'static str = "itoken/ledger/v1";

/// How long a record of a model is kept: one hour.
pub const KAD_RECORD_TTL_SECS: u64 = 3600;

/// How long a search may take, in whole seconds.
pub const QUERY_TIMEOUT_SECS: u64 = 60;

/// The nanoseconds of a second.
pub const NANOS_PER_SEC: u64 = 1_000_000_000;

/// The answer to a request that cannot be taken up.
pub const BUSY_MESSAGE: &'static str = "Node is busy";

// ---------------------------------------------------------------------------
// Messages
// ---------------------------------------------------------------------------

/// A query of a client to another node.
#[derive(Debug)]
pub struct P2PInferenceRequest {
    pub req: InferenceRequest,
    pub client_pubkey: String,
}

/// The values of a query.
pub struct P2PInferenceView {
    pub req: RequestView,
    pub client_pubkey: Seq<char>,
}

impl View for P2PInferenceRequest {
    type V = P2PInferenceView;

    open spec fn view(&self) -> P2PInferenceView {
        P2PInferenceView { req: self.req@, client_pubkey: self.client_pubkey@ }
    }
}

impl Clone for P2PInferenceRequest {
    fn clone(&self) -> (r: Self)
        ensures
            r@ == self@,
    {
        P2PInferenceRequest { req: self.req.clone(), client_pubkey: self.client_pubkey.clone() }
    }
}

/// What a node asks another.
#[derive(Debug)]
pub enum P2PRequest {
    Inference(P2PInferenceRequest),
    SyncLedger,
}

impl Clone for P2PRequest {
    fn clone(&self) -> (r: Self)
        ensures
            match (*self, r) {
                (P2PRequest::Inference(a), P2PRequest::Inference(b)) => a@ == b@,
                (P2PRequest::SyncLedger, P2PRequest::SyncLedger) => true,
                _ => false,
            },
    {
        match self {
            P2PRequest::Inference(req) => P2PRequest::Inference(req.clone()),
            P2PRequest::SyncLedger => P2PRequest::SyncLedger,
        }
    }
}

/// What a node answers another.
#[derive(Debug)]
pub enum P2PResponse {
    InferenceSuccess { text: String, receipt: InferenceReceipt },
    LedgerSync { balances: Table<u64>, claimed_receipts: TextSet },
    Error(String),
}

/// The values of an answer.
pub enum ResponseView {
    InferenceSuccess { text: Seq<char>, receipt: ReceiptView },
    LedgerSync(LedgerView),
    Error(Seq<char>),
}

impl View for P2PResponse {
    type V = ResponseView;

    open spec fn view(&self) -> ResponseView {
        match self {
            P2PResponse::InferenceSuccess { text, receipt } => ResponseView::InferenceSuccess {
                text: text@,
                receipt: receipt@,
            },
            P2PResponse::LedgerSync { balances, claimed_receipts } => ResponseView::LedgerSync(
                LedgerView { balances: balances@, claimed: claimed_receipts@ },
            ),
            P2PResponse::Error(words) => ResponseView::Error(words@),
        }
    }
}

impl P2PResponse {
    /// Whether the tables of the answer are well formed.
    pub open spec fn wf(&self) -> bool {
        match self {
            P2PResponse::LedgerSync { balances, claimed_receipts } => balances.wf()
                && claimed_receipts.wf(),
            _ => true,
        }
    }

    /// A copy of the answer.
    pub fn duplicate(&self) -> (r: P2PResponse)
        requires
            self.wf(),
        ensures
            r.wf(),
            r@ == self@,
    {
        match self {
            P2PResponse::InferenceSuccess { text, receipt } => P2PResponse::InferenceSuccess {
                text: text.clone(),
                receipt: receipt.clone(),
            },
            P2PResponse::LedgerSync { balances, claimed_receipts } => P2PResponse::LedgerSync {
                balances: balances.duplicate(),
                claimed_receipts: claimed_receipts.duplicate(),
            },
            P2PResponse::Error(words) => P2PResponse::Error(words.clone()),
        }
    }
}

// ---------------------------------------------------------------------------
// Gossip
// ---------------------------------------------------------------------------

/// What a gossip message tells.
#[derive(Debug)]
pub enum Gossip {
    /// Nothing of interest.
    Nothing,
    /// The mean speed of a peer and the models that it serves.
    Health { peer_id: String, tps_avg: u64, models: Vec<String> },
    /// A claimed receipt, not read yet.
    Receipt(Vec<u8>),
}

/// The values of what a gossip message tells.
pub enum GossipView {
    Nothing,
    Health { peer_id: Seq<char>, tps_avg: u64, models: Seq<Seq<char>> },
    Receipt(Seq<u8>),
}

impl View for Gossip {
    type V = GossipView;

    open spec fn view(&self) -> GossipView {
        match self {
            Gossip::Nothing => GossipView::Nothing,
            Gossip::Health { peer_id, tps_avg, models } => GossipView::Health {
                peer_id: peer_id@,
                tps_avg: *tps_avg,
                models: text_views(models@),
            },
            Gossip::Receipt(data) => GossipView::Receipt(data@),
        }
    }
}

/// The texts among items, in order.
pub open spec fn texts_among(items: Seq<Option<Seq<char>>>) -> Seq<Seq<char>>
    decreases items.len(),
{
    if items.len() == 0 {
        Seq::empty()
    } else {
        let before = texts_among(items.drop_last());
        match items.last() {
            Some(t) => before.push(t),
            None => before,
        }
    }
}

/// What a health report tells from what its JSON holds: it needs a mean speed and a list of
/// models, of which the texts count.
pub open spec fn health_from(
    source: Seq<char>,
    tps_avg: Option<u64>,
    models: Option<Seq<Option<Seq<char>>>>,
) -> GossipView {
    match (tps_avg, models) {
        (Some(tps), Some(items)) => GossipView::Health {
            peer_id: source,
            tps_avg: tps,
            models: texts_among(items),
        },
        _ => GossipView::Nothing,
    }
}

/// What a health report tells.
pub open spec fn health(source: Seq<char>, data: Seq<u8>) -> GossipView {
    if valid_utf8(data) {
        let json = decode_utf8(data);
        health_from(source, double_in(json, "/tps_avg"@), items_in(json, "/models"@))
    } else {
        GossipView::Nothing
    }
}

/// What a gossip message tells.
pub open spec fn gossip(topic: Seq<char>, source: Seq<char>, data: Seq<u8>) -> GossipView {
    if topic == HEALTH_TOPIC@ {
        health(source, data)
    } else if topic == LEDGER_TOPIC@ {
        GossipView::Receipt(data)
    } else {
        GossipView::Nothing
    }
}

/// What a health report tells from what its JSON holds.
pub fn read_health(source: &str, tps_avg: Option<u64>, models: Option<Vec<Option<String>>>) -> (
    r: Gossip)
    ensures
        r@ == health_from(
            source@,
            tps_avg,
            match models {
                Some(items) => Some(optional_views(items@)),
                None => None,
            },
        ),
{
    match (tps_avg, models) {
        (Some(tps), Some(items)) => {
            let mut names: Vec<String> = Vec::new();
            let ghost all = optional_views(items@);
            let mut i: usize = 0;
            assert(text_views(names@) == texts_among(all.take(0)));
            while i < items.len()
                invariant
                    i <= items@.len(),
                    all == optional_views(items@),
                    text_views(names@) == texts_among(all.take(i as int)),
                decreases items@.len() - i,
            {
                let ghost before = text_views(names@);
                assert(all.take(i + 1).drop_last() == all.take(i as int));
                assert(all.take(i + 1).last() == all[i as int]);
                match &items[i] {
                    Some(name) => {
                        names.push(name.clone());
                        assert(text_views(names@) == before.push(name@));
                    },
                    None => {},
                }
                i += 1;
            }
            assert(all.take(all.len() as int) == all);
            Gossip::Health { peer_id: source.to_owned(), tps_avg: tps, models: names }
        },
        _ => Gossip::Nothing,
    }
}

/// What a gossip message tells. A speed that is told is a number.
pub fn read_gossip(topic: &str, source: &str, data: Vec<u8>) -> (r: Gossip)
    ensures
        r@ == gossip(topic@, source@, data@),
        r is Health ==> crate::float64::magnitude(r->tps_avg) < crate::float64::INFINITY,
{
    if same_text(topic, HEALTH_TOPIC) {
        match utf8_text(data.as_slice()) {
            Some(json) => {
                proof {
                    vstd::utf8::encode_utf8_valid_utf8(json@);
                    vstd::utf8::encode_utf8_decode_utf8(json@);
                }
                let tps_avg = double_at(&json, "/tps_avg");
                let models = items_at(&json, "/models");
                read_health(source, tps_avg, models)
            },
            None => Gossip::Nothing,
        }
    } else if same_text(topic, LEDGER_TOPIC) {
        Gossip::Receipt(data)
    } else {
        Gossip::Nothing
    }
}

// ---------------------------------------------------------------------------
// What a node waits for
// ---------------------------------------------------------------------------

/// The peer that the bytes of a record name; nothing where they name none.
pub uninterp spec fn peer_named_by(record: Seq<u8>) -> Option<Seq<char>>;

/// `libp2p::PeerId::from_bytes` reads the identity of a peer, which `to_string` writes in base 58.
#[verifier::external_body]
fn peer_of_record(record: &[u8]) -> (r: Option<String>)
    ensures
        crate::receipt::text_view(r) == peer_named_by(record@),
{
    libp2p::PeerId::from_bytes(record).ok().map(|peer| peer.to_string())
}

/// A search for the peers that serve a model.
#[derive(Debug)]
pub struct Search {
    pub peers: Vec<String>,
    pub started: u64,
}

/// The values of a search.
pub struct SearchView {
    pub peers: Seq<Seq<char>>,
    pub started: u64,
}

impl View for Search {
    type V = SearchView;

    open spec fn view(&self) -> SearchView {
        SearchView { peers: text_views(self.peers@), started: self.started }
    }
}

/// The peers that a search has found.
#[derive(Debug)]
pub struct Answer {
    pub id: String,
    pub peers: Vec<String>,
}

/// The values of what a node waits for.
pub struct PendingView {
    pub searches: Map<Seq<char>, SearchView>,
    pub requests: Set<Seq<char>>,
}

/// Whether a search takes too long at the time `now`.
pub open spec fn is_overdue(s: SearchView, now: u64) -> bool {
    (if now >= s.started {
        (now - s.started) / NANOS_PER_SEC as int
    } else {
        0
    }) > QUERY_TIMEOUT_SECS
}

/// The searches that do not take too long at the time `now`.
pub open spec fn in_time(searches: Map<Seq<char>, SearchView>, now: u64) -> Map<
    Seq<char>,
    SearchView,
> {
    Map::new(
        |k: Seq<char>| searches.contains_key(k) && !is_overdue(searches[k], now),
        |k: Seq<char>| searches[k],
    )
}

/// Searches with one more peer for a search; a search that is not known stays unknown.
pub open spec fn with_peer(
    searches: Map<Seq<char>, SearchView>,
    id: Seq<char>,
    peer: Option<Seq<char>>,
) -> Map<Seq<char>, SearchView> {
    match peer {
        Some(p) => if searches.contains_key(id) {
            searches.insert(
                id,
                SearchView { peers: searches[id].peers.push(p), started: searches[id].started },
            )
        } else {
            searches
        },
        None => searches,
    }
}

/// The values of answers: searches with the peers that they found.
pub open spec fn answer_views(answers: Seq<Answer>) -> Seq<(Seq<char>, Seq<Seq<char>>)> {
    answers.map_values(|a: Answer| (a.id@, text_views(a.peers@)))
}

/// Whether answers are those of exactly the searches that take too long, each once and with the
/// peers that were found.
pub open spec fn answers_overdue(
    answers: Seq<(Seq<char>, Seq<Seq<char>>)>,
    searches: Map<Seq<char>, SearchView>,
    now: u64,
) -> bool {
    &&& forall|i: int|
        0 <= i < answers.len() ==> {
            let a = #[trigger] answers[i];
            searches.contains_key(a.0) && is_overdue(searches[a.0], now) && a.1
                == searches[a.0].peers
        }
    &&& forall|k: Seq<char>| #[trigger]
        searches.contains_key(k) && is_overdue(searches[k], now) ==> exists|i: int|
            0 <= i < answers.len() && (#[trigger] answers[i]).0 == k
    &&& forall|i: int, j: int|
        0 <= i < j < answers.len() ==> (#[trigger] answers[i]).0 != (#[trigger] answers[j]).0
}

/// The searches and requests of which a node waits for the end.
pub struct Pending {
    searches: Table<Search>,
    requests: TextSet,
}

impl View for Pending {
    type V = PendingView;

    closed spec fn view(&self) -> PendingView {
        PendingView {
            searches: self.searches@.map_values(|s: Search| s@),
            requests: self.requests@,
        }
    }
}

/// A copy of texts.
pub fn copy_texts(texts: &Vec<String>) -> (r: Vec<String>)
    ensures
        text_views(r@) == text_views(texts@),
{
    let mut r: Vec<String> = Vec::new();
    let mut i: usize = 0;
    assert(text_views(r@) == text_views(texts@).take(0));
    while i < texts.len()
        invariant
            i <= texts@.len(),
            text_views(r@) == text_views(texts@).take(i as int),
        decreases texts@.len() - i,
    {
        let ghost before = text_views(r@);
        r.push(texts[i].clone());
        assert(text_views(r@) == before.push(texts@[i as int]@));
        assert(text_views(texts@).take(i + 1) == text_views(texts@).take(i as int).push(
            text_views(texts@)[i as int],
        ));
        i += 1;
    }
    assert(text_views(texts@).take(texts@.len() as int) == text_views(texts@));
    r
}

impl Pending {
    /// Whether the tables are well formed.
    pub closed spec fn wf(&self) -> bool {
        self.searches.wf() && self.requests.wf()
    }

    /// Nothing to wait for.
    pub fn new() -> (r: Pending)
        ensures
            r.wf(),
            r@ == (PendingView { searches: Map::empty(), requests: Set::empty() }),
    {
        let r = Pending { searches: Table::new(), requests: TextSet::new() };
        assert(r@.searches == Map::<Seq<char>, SearchView>::empty());
        r
    }

    /// A search begins at the time `now`.
    pub fn search_started(&mut self, id: &str, now: u64)
        requires
            old(self).wf(),
        ensures
            final(self).wf(),
            final(self)@ == (PendingView {
                searches: old(self)@.searches.insert(
                    id@,
                    SearchView { peers: Seq::empty(), started: now },
                ),
                ..old(self)@
            }),
    {
        let s = Search { peers: Vec::new(), started: now };
        assert(s@ == (SearchView { peers: Seq::empty(), started: now })) by {
            assert(text_views(s.peers@) == Seq::<Seq<char>>::empty());
        }
        let ghost value = s@;
        self.searches.insert(id.to_owned(), s);
        assert(self@.searches == old(self)@.searches.insert(id@, value));
    }

    /// A search found a record. The peer that it names counts, where it names one.
    pub fn record_found(&mut self, id: &str, record: &[u8])
        requires
            old(self).wf(),
        ensures
            final(self).wf(),
            final(self)@ == (PendingView {
                searches: with_peer(old(self)@.searches, id@, peer_named_by(record@)),
                ..old(self)@
            }),
    {
        let peer = peer_of_record(record);
        self.peer_found(id, peer);
    }

    /// A search found a record, with the peer that it names where it names one.
    pub fn peer_found(&mut self, id: &str, peer: Option<String>)
        requires
            old(self).wf(),
        ensures
            final(self).wf(),
            final(self)@ == (PendingView {
                searches: with_peer(
                    old(self)@.searches,
                    id@,
                    crate::receipt::text_view(peer),
                ),
                ..old(self)@
            }),
    {
        match peer {
            Some(p) => match self.searches.get(id) {
                Some(search) => {
                    let mut peers = copy_texts(&search.peers);
                    let ghost before = text_views(peers@);
                    let ghost added = p@;
                    peers.push(p);
                    assert(text_views(peers@) == before.push(added));
                    let s = Search { peers, started: search.started };
                    let ghost value = s@;
                    self.searches.insert(id.to_owned(), s);
                    assert(self@.searches == old(self)@.searches.insert(id@, value));
                },
                None => {},
            },
            None => {},
        }
    }

    /// A search has ended. Returns the peers that it found, where it was waited for.
    pub fn search_ended(&mut self, id: &str) -> (r: Option<Vec<String>>)
        requires
            old(self).wf(),
        ensures
            final(self).wf(),
            final(self)@ == (PendingView {
                searches: old(self)@.searches.remove(id@),
                ..old(self)@
            }),
            match r {
                Some(peers) => old(self)@.searches.contains_key(id@) && text_views(peers@)
                    == old(self)@.searches[id@].peers,
                None => !old(self)@.searches.contains_key(id@),
            },
    {
        let r = match self.searches.get(id) {
            Some(search) => Some(copy_texts(&search.peers)),
            None => None,
        };
        self.searches.remove(id);
        assert(self@.searches == old(self)@.searches.remove(id@));
        r
    }

    /// End the searches that take too long at the time `now`. Returns the peers that they found so
    /// far.
    pub fn end_overdue(&mut self, now: u64) -> (answers: Vec<Answer>)
        requires
            old(self).wf(),
        ensures
            final(self).wf(),
            final(self)@ == (PendingView {
                searches: in_time(old(self)@.searches, now),
                ..old(self)@
            }),
            answers_overdue(answer_views(answers@), old(self)@.searches, now),
    {
        let ghost rows = self.searches.row_seq();
        let ghost start = self@.searches;
        let mut answers: Vec<Answer> = Vec::new();
        let mut ids: Vec<String> = Vec::new();
        let mut i: usize = 0;
        assert(answer_views(answers@) == overdue_rows(rows.take(0), now));
        while i < self.searches.len()
            invariant
                self.wf(),
                *self == *old(self),
                rows == self.searches.row_seq(),
                i <= rows.len(),
                answers@.len() == ids@.len(),
                forall|a: int| 0 <= a < ids@.len() ==> (#[trigger] ids@[a])@ == answers@[a].id@,
                answer_views(answers@) == overdue_rows(rows.take(i as int), now),
            decreases rows.len() - i,
        {
            let search = self.searches.value(i);
            let ghost before = answer_views(answers@);
            proof {
                assert(rows.take(i + 1).drop_last() == rows.take(i as int));
                assert(rows.take(i + 1).last() == rows[i as int]);
            }
            if now.saturating_sub(search.started) / NANOS_PER_SEC > QUERY_TIMEOUT_SECS {
                let id = self.searches.key(i).clone();
                ids.push(id.clone());
                let answer = Answer { id, peers: copy_texts(&search.peers) };
                let ghost added = (answer.id@, text_views(answer.peers@));
                answers.push(answer);
                assert(answer_views(answers@) == before.push(added));
            }
            i += 1;
        }
        let ghost keys = crate::table::text_set(ids@);
        proof {
            assert(rows.take(rows.len() as int) == rows);
            let all = answer_views(answers@);
            lemma_overdue_answered(rows, now);
            let views = ids@.map_values(|t: String| t@);
            assert forall|k: Seq<char>| start.contains_key(k) implies (#[trigger] keys.contains(k)
                <==> is_overdue(start[k], now)) by {
                if keys.contains(k) {
                    let a = choose|a: int| 0 <= a < views.len() && views[a] == k;
                    assert(ids@[a]@ == answers@[a].id@);
                    assert(all[a].0 == k);
                }
                if is_overdue(start[k], now) {
                    let a = choose|a: int| 0 <= a < all.len() && (#[trigger] all[a]).0 == k;
                    assert(ids@[a]@ == k);
                    assert(views[a] == k);
                }
            }
        }
        self.searches.remove_all(&ids);
        assert(self@.searches == in_time(start, now));
        answers
    }

    /// A request was sent.
    pub fn request_sent(&mut self, id: &str)
        requires
            old(self).wf(),
        ensures
            final(self).wf(),
            final(self)@ == (PendingView {
                requests: old(self)@.requests.insert(id@),
                ..old(self)@
            }),
    {
        self.requests.insert(id.to_owned());
    }

    /// A request was answered. Returns whether the answer was waited for.
    pub fn response_arrived(&mut self, id: &str) -> (r: bool)
        requires
            old(self).wf(),
        ensures
            final(self).wf(),
            final(self)@ == (PendingView {
                requests: old(self)@.requests.remove(id@),
                ..old(self)@
            }),
            r == old(self)@.requests.contains(id@),
    {
        let r = self.requests.contains(id);
        self.requests.remove(id);
        r
    }

    /// A request failed. Returns the words for it, where the answer was waited for.
    pub fn request_failed(&mut self, id: &str, error: &str) -> (r: Option<String>)
        requires
            old(self).wf(),
        ensures
            final(self).wf(),
            final(self)@ == (PendingView {
                requests: old(self)@.requests.remove(id@),
                ..old(self)@
            }),
            crate::receipt::text_view(r) == (if old(self)@.requests.contains(id@) {
                Some("P2P request failed: "@ + error@)
            } else {
                None
            }),
    {
        if self.response_arrived(id) {
            Some(join("P2P request failed: ", error))
        } else {
            None
        }
    }
}

/// The searches of rows that take too long at the time `now`, with the peers that they found.
spec fn overdue_rows(rows: Seq<(Seq<char>, Search)>, now: u64) -> Seq<(Seq<char>, Seq<Seq<char>>)>
    decreases rows.len(),
{
    if rows.len() == 0 {
        Seq::empty()
    } else {
        let before = overdue_rows(rows.drop_last(), now);
        if is_overdue(rows.last().1@, now) {
            before.push((rows.last().0, rows.last().1@.peers))
        } else {
            before
        }
    }
}

proof fn lemma_overdue_answered(rows: Seq<(Seq<char>, Search)>, now: u64)
    requires
        crate::table::keys_distinct(rows),
    ensures
        answers_overdue(
            overdue_rows(rows, now),
            map_of(rows).map_values(|s: Search| s@),
            now,
        ),
    decreases rows.len(),
{
    let answers = overdue_rows(rows, now);
    let searches = map_of(rows).map_values(|s: Search| s@);
    if rows.len() > 0 {
        let t = rows.drop_last();
        let key = rows.last().0;
        assert(crate::table::keys_distinct(t)) by {
            assert forall|a: int, b: int| 0 <= a < b < t.len() implies (#[trigger] t[a]).0 != (
            #[trigger] t[b]).0 by {
                assert(rows[a].0 != rows[b].0);
            }
        }
        lemma_overdue_answered(t, now);
        lemma_map_of_contains(t, key);
        if map_of(t).contains_key(key) {
            let j = choose|j: int| 0 <= j < t.len() && (#[trigger] t[j]).0 == key;
            assert(rows[j].0 != rows[rows.len() - 1].0);
        }
        let before = overdue_rows(t, now);
        let less = map_of(t).map_values(|s: Search| s@);
        assert(searches == less.insert(key, rows.last().1@));
        assert forall|k: Seq<char>| #[trigger]
            searches.contains_key(k) && is_overdue(searches[k], now) implies exists|i: int|
            0 <= i < answers.len() && (#[trigger] answers[i]).0 == k by {
            if k == key {
                assert(answers[answers.len() - 1].0 == k);
            } else {
                assert(less.contains_key(k));
                let i = choose|i: int| 0 <= i < before.len() && (#[trigger] before[i]).0 == k;
                assert(answers[i].0 == k);
            }
        }
        assert forall|i: int| 0 <= i < before.len() implies (#[trigger] before[i]).0 != key by {
            assert(less.contains_key(before[i].0));
        }
        assert forall|i: int| 0 <= i < answers.len() implies ({
            let a = #[trigger] answers[i];
            searches.contains_key(a.0) && is_overdue(searches[a.0], now) && a.1
                == searches[a.0].peers
        }) by {
            if i < before.len() {
                assert(answers[i] == before[i]);
            }
        }
        assert forall|i: int, j: int| 0 <= i < j < answers.len() implies (
        #[trigger] answers[i]).0 != (#[trigger] answers[j]).0 by {
            assert(answers[i] == before[i]);
            if j < before.len() {
                assert(before[i].0 != before[j].0);
            }
        }
    }
}

/// No search stays pending for longer than the timeout beyond the time at which overdue searches
/// are ended: what is left was started within 61 seconds.
pub proof fn law_no_search_overdue(searches: Map<Seq<char>, SearchView>, now: u64, k: Seq<char>)
    requires
        in_time(searches, now).contains_key(k),
    ensures
        now - searches[k].started < (QUERY_TIMEOUT_SECS + 1) * NANOS_PER_SEC,
        in_time(in_time(searches, now), now) == in_time(searches, now),
{
    let s = searches[k];
    if now >= s.started {
        let d = now - s.started;
        assert(d / 1_000_000_000 <= 60);
        assert(d < 61_000_000_000);
    }
    assert(in_time(in_time(searches, now), now) == in_time(searches, now));
}

/// A search hands over the peers that were found for it, in the order in which they came, and once
/// it has ended, records that still come for it change nothing.
pub proof fn law_search_collects_peers(
    searches: Map<Seq<char>, SearchView>,
    id: Seq<char>,
    other: Seq<char>,
    a: Seq<char>,
    b: Seq<char>,
)
    requires
        searches.contains_key(id),
        other != id,
    ensures
        with_peer(with_peer(searches, id, Some(a)), id, Some(b))[id].peers
            == searches[id].peers.push(a).push(b),
        with_peer(searches, other, Some(a))[id] == searches[id],
        with_peer(searches.remove(id), id, Some(a)) == searches.remove(id),
{
}

/// A search is pending exactly as long as no 61 seconds have passed since it began, and it is
/// pending as it was.
pub proof fn law_searches_end_after_the_timeout(
    searches: Map<Seq<char>, SearchView>,
    now: u64,
    k: Seq<char>,
)
    ensures
        in_time(searches, now).contains_key(k) <==> searches.contains_key(k) && now
            < searches[k].started + 61_000_000_000,
        in_time(searches, now).contains_key(k) ==> in_time(searches, now)[k] == searches[k],
{
    if searches.contains_key(k) && now >= searches[k].started {
        let d = now - searches[k].started;
        assert(d / 1_000_000_000 > 60 <==> d >= 61_000_000_000);
    }
}

/// The searches that are answered as overdue are exactly those that do not stay pending.
pub proof fn law_searches_are_answered_or_pending(
    answers: Seq<(Seq<char>, Seq<Seq<char>>)>,
    searches: Map<Seq<char>, SearchView>,
    now: u64,
    k: Seq<char>,
)
    requires
        answers_overdue(answers, searches, now),
        searches.contains_key(k),
    ensures
        in_time(searches, now).contains_key(k) <==> !(exists|i: int|
            0 <= i < answers.len() && (#[trigger] answers[i]).0 == k),
        forall|i: int|
            0 <= i < answers.len() && (#[trigger] answers[i]).0 == k ==> answers[i].1
                == searches[k].peers,
{
}

/// A peer that is found is added behind the others of its search. A record that names no peer, and
/// one for a search that is not pending, change nothing.
pub proof fn law_found_peers_are_added(
    searches: Map<Seq<char>, SearchView>,
    id: Seq<char>,
    peer: Seq<char>,
    k: Seq<char>,
)
    ensures
        with_peer(searches, id, None) == searches,
        !searches.contains_key(id) ==> with_peer(searches, id, Some(peer)) == searches,
        searches.contains_key(id) ==> {
            let after = with_peer(searches, id, Some(peer));
            &&& after[id].peers.drop_last() == searches[id].peers
            &&& after[id].peers.last() == peer
            &&& after[id].started == searches[id].started
            &&& after.contains_key(k) <==> searches.contains_key(k)
            &&& k != id && searches.contains_key(k) ==> after[k] == searches[k]
        },
{
    if searches.contains_key(id) {
        let before = searches[id].peers;
        assert(before.push(peer).drop_last() == before);
    }
}

/// The texts among items are those of the items that are texts, in their order.
pub proof fn law_texts_among_items(items: Seq<Option<Seq<char>>>)
    ensures
        texts_among(items) == items.filter(|t: Option<Seq<char>>| t is Some).map_values(
            |t: Option<Seq<char>>| t->Some_0,
        ),
    decreases items.len(),
{
    reveal(Seq::filter);
    let keep = |t: Option<Seq<char>>| t is Some;
    let text = |t: Option<Seq<char>>| t->Some_0;
    if items.len() == 0 {
        assert(items.filter(keep).map_values(text) == Seq::<Seq<char>>::empty());
    } else {
        let before = items.drop_last();
        law_texts_among_items(before);
        if items.last() is Some {
            assert(items.filter(keep) == before.filter(keep).push(items.last()));
            assert(before.filter(keep).push(items.last()).map_values(text) == before.filter(
                keep,
            ).map_values(text).push(items.last()->Some_0));
        } else {
            assert(items.filter(keep) == before.filter(keep));
        }
    }
}

/// A message on the topic of health tells the speed and the models of its sender, where it holds
/// both; one on the topic of the ledger carries a receipt; others tell nothing.
pub proof fn law_messages_are_told_by_topic(topic: Seq<char>, source: Seq<char>, data: Seq<u8>)
    ensures
        ({
            let told = gossip(topic, source, data);
            let json = decode_utf8(data);
            let tps = double_in(json, "/tps_avg"@);
            let models = items_in(json, "/models"@);
            let complete = valid_utf8(data) && tps is Some && models is Some;
            &&& topic == "itoken/ledger/v1"@ ==> told == GossipView::Receipt(data)
            &&& topic == "itoken/health/v1"@ && complete ==> told is Health && told->peer_id
                == source && told->tps_avg == tps->Some_0 && told->models == texts_among(
                models->Some_0,
            )
            &&& topic == "itoken/health/v1"@ && !complete ==> told is Nothing
            &&& topic != "itoken/ledger/v1"@ && topic != "itoken/health/v1"@ ==> told is Nothing
        }),
{
    reveal_strlit("itoken/ledger/v1");
    reveal_strlit("itoken/health/v1");
    assert("itoken/ledger/v1"@[7] == 'l' && "itoken/health/v1"@[7] == 'h');
}

} // verus!

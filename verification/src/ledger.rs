//! The ledger of balances and claimed receipts.
use crate::amount::format_itokens;
use crate::clock::{is_reading, read_clock};
use crate::crypto::verify_receipt_signatures;
use crate::receipt::{
    InferenceReceipt, ReceiptView, MAX_FUTURE_DRIFT_SECS, MAX_RECEIPT_AGE_SECS,
};
use crate::table::{Table, TextSet};
use crate::text::{decimal_text, join, same_text};
use vstd::prelude::*;

verus! {

/// What a ledger holds.
#[derive(Debug)]
pub struct LedgerState {
    /// Balances in nano-iTokens.
    pub balances: Table<u64>,
    /// The receipt IDs already claimed, which keeps a receipt from being paid twice.
    pub claimed_receipts: TextSet,
}

/// The values that a ledger holds.
pub struct LedgerView {
    pub balances: Map<Seq<char>, u64>,
    pub claimed: Set<Seq<char>>,
}

impl View for LedgerState {
    type V = LedgerView;

    open spec fn view(&self) -> LedgerView {
        LedgerView { balances: self.balances@, claimed: self.claimed_receipts@ }
    }
}

impl LedgerState {
    /// Whether the parts are well formed.
    pub open spec fn wf(&self) -> bool {
        self.balances.wf() && self.claimed_receipts.wf()
    }

    /// A ledger without accounts.
    pub fn new() -> (r: LedgerState)
        ensures
            r.wf(),
            r@ == empty_ledger(),
    {
        LedgerState { balances: Table::new(), claimed_receipts: TextSet::new() }
    }
}

/// The ledger without accounts.
pub open spec fn empty_ledger() -> LedgerView {
    LedgerView { balances: Map::empty(), claimed: Set::empty() }
}

/// The balance of an account; nothing where there is no such account.
pub open spec fn balance_of(l: LedgerView, account: Seq<char>) -> u64 {
    if l.balances.contains_key(account) {
        l.balances[account]
    } else {
        0
    }
}

/// A ledger with one account at a given balance.
pub open spec fn with_balance(l: LedgerView, account: Seq<char>, balance: int) -> LedgerView {
    LedgerView { balances: l.balances.insert(account, balance as u64), claimed: l.claimed }
}

/// The ledger once the payer has paid and before the receiver has been paid.
pub open spec fn debited(l: LedgerView, from: Seq<char>, amount: u64) -> LedgerView {
    with_balance(l, from, balance_of(l, from) - amount)
}

/// What the receiver of a payment has afterwards. Who pays themselves has what they had.
pub open spec fn balance_after(
    l: LedgerView,
    from: Seq<char>,
    to: Seq<char>,
    amount: u64,
) -> int {
    balance_of(debited(l, from, amount), to) + amount
}

/// The ledger after a payment.
pub open spec fn paid(l: LedgerView, from: Seq<char>, to: Seq<char>, amount: u64) -> LedgerView {
    with_balance(debited(l, from, amount), to, balance_after(l, from, to, amount))
}

/// A ledger with one more claimed receipt.
pub open spec fn marked_claimed(l: LedgerView, id: Seq<char>) -> LedgerView {
    LedgerView { balances: l.balances, claimed: l.claimed.insert(id) }
}

/// What a transfer makes of a ledger, or the words of the refusal.
pub open spec fn transfer_outcome(
    l: LedgerView,
    from: Seq<char>,
    to: Seq<char>,
    amount: u64,
) -> Result<LedgerView, Seq<char>> {
    if amount == 0 {
        Err("Transfer amount must be positive"@)
    } else if balance_of(l, from) < amount {
        Err(
            "Insufficient balance: have "@ + crate::amount::itokens_text(
                balance_of(l, from) as nat,
            ) + " iTokens, need "@ + crate::amount::itokens_text(amount as nat),
        )
    } else if balance_after(l, from, to, amount) > u64::MAX {
        Err("Receiver balance overflow"@)
    } else {
        Ok(paid(l, from, to, amount))
    }
}

/// What paying a receipt makes of a ledger once the receipt itself has been found in order.
pub open spec fn payout_outcome(l: LedgerView, r: ReceiptView) -> Result<LedgerView, Seq<char>> {
    if balance_of(l, r.client_pubkey) < r.amount_nano {
        Err(
            "Client has insufficient balance: "@ + crate::amount::itokens_text(
                balance_of(l, r.client_pubkey) as nat,
            ) + " < "@ + crate::amount::itokens_text(r.amount_nano as nat),
        )
    } else if balance_after(l, r.client_pubkey, r.node_pubkey, r.amount_nano) > u64::MAX {
        Err("Node balance overflow"@)
    } else {
        Ok(
            marked_claimed(
                paid(l, r.client_pubkey, r.node_pubkey, r.amount_nano),
                r.receipt_id,
            ),
        )
    }
}

/// What claiming a receipt makes of a ledger, or the words of the refusal. The clock tells the
/// time or the words of its failure. The checks come in order: not claimed before, in time, signed
/// by both, the exact amount, covered.
pub open spec fn claim_outcome(
    l: LedgerView,
    r: ReceiptView,
    clock: Result<u64, Seq<char>>,
) -> Result<LedgerView, Seq<char>> {
    if l.claimed.contains(r.receipt_id) {
        Err("Receipt has already been claimed"@)
    } else {
        match clock {
            Err(words) => Err("System clock error: "@ + words),
            Ok(now) => timely_outcome(l, r, now),
        }
    }
}

/// What claiming a receipt that was not claimed before makes of a ledger at the time `now`.
pub open spec fn timely_outcome(l: LedgerView, r: ReceiptView, now: u64) -> Result<
    LedgerView,
    Seq<char>,
> {
    if r.timestamp + MAX_RECEIPT_AGE_SECS < now {
        Err(
            "Receipt has expired (age: "@ + crate::text::decimal((now - r.timestamp) as nat)
                + "s, max: 300s)"@,
        )
    } else if r.timestamp > now + MAX_FUTURE_DRIFT_SECS {
        Err("Receipt timestamp is in the future"@)
    } else if !crate::crypto::signatures_valid(r) {
        Err("Invalid receipt signatures"@)
    } else if r.amount_nano != crate::receipt::receipt_amount(r) {
        Err(
            "Receipt amount mismatch: expected "@ + crate::text::decimal(
                crate::receipt::receipt_amount(r),
            ) + " nano, got "@ + crate::text::decimal(r.amount_nano as nat) + " nano"@,
        )
    } else {
        payout_outcome(l, r)
    }
}

/// What claiming a receipt heard from other nodes makes of a ledger, or the words of the refusal.
/// Neither the clock nor the price is looked at, so that all nodes decide alike.
pub open spec fn gossip_outcome(l: LedgerView, r: ReceiptView) -> Result<LedgerView, Seq<char>> {
    if l.claimed.contains(r.receipt_id) {
        Err("Receipt has already been claimed"@)
    } else if !crate::crypto::signatures_valid(r) {
        Err("Invalid receipt signatures"@)
    } else {
        payout_outcome(l, r)
    }
}

/// What the registration of an account makes of a ledger.
pub open spec fn registered(l: LedgerView, account: Seq<char>, initial: u64) -> LedgerView {
    if l.balances.contains_key(account) {
        l
    } else {
        LedgerView { balances: l.balances.insert(account, initial), claimed: l.claimed }
    }
}

/// What the import of another ledger makes of a ledger: its balances win, its claims are added.
pub open spec fn imported(l: LedgerView, other: LedgerView) -> LedgerView {
    LedgerView {
        balances: l.balances.union_prefer_right(other.balances),
        claimed: l.claimed.union(other.claimed),
    }
}

/// Whether an operation on `before` ended as `outcome` says: with the new ledger, or with the
/// words of the refusal and the ledger as it was.
pub open spec fn ended_as(
    outcome: Result<LedgerView, Seq<char>>,
    before: LedgerView,
    after: LedgerView,
    r: Result<(), String>,
) -> bool {
    match (outcome, r) {
        (Ok(l), Ok(_)) => after == l,
        (Err(words), Err(message)) => message@ == words && after == before,
        _ => false,
    }
}

/// What a clock told, as a value.
pub open spec fn clock_view(clock: Result<u64, String>) -> Result<u64, Seq<char>> {
    match clock {
        Ok(now) => Ok(now),
        Err(words) => Err(words@),
    }
}

/// A ledger that belongs to a file.
pub struct LocalLedger {
    file_path: String,
    state: LedgerState,
}

impl View for LocalLedger {
    type V = LedgerView;

    closed spec fn view(&self) -> LedgerView {
        self.state@
    }
}

impl LocalLedger {
    /// Whether the state is well formed.
    pub closed spec fn wf(&self) -> bool {
        self.state.wf()
    }

    /// The path of the file that the ledger belongs to.
    pub closed spec fn path(&self) -> Seq<char> {
        self.file_path@
    }

    /// The ledger of a file. `stored` is what could be read from the file; without it the ledger
    /// starts empty.
    pub fn new(file_path: &str, stored: Option<LedgerState>) -> (r: LocalLedger)
        requires
            stored is Some ==> stored->Some_0.wf(),
        ensures
            r.wf(),
            r.path() == file_path@,
            r@ == match stored {
                Some(s) => s@,
                None => empty_ledger(),
            },
    {
        let state = match stored {
            Some(s) => s,
            None => LedgerState::new(),
        };
        LocalLedger { file_path: file_path.to_owned(), state }
    }

    /// A ledger has finitely many accounts.
    pub proof fn lemma_accounts_finite(&self)
        requires
            self.wf(),
        ensures
            self@.balances.dom().finite(),
    {
        crate::table::lemma_map_of_contains(self.state.balances.row_seq(), Seq::empty());
    }

    /// The path of the file that the ledger belongs to.
    pub fn file_path(&self) -> (r: &str)
        ensures
            r@ == self.path(),
    {
        &self.file_path
    }

    /// What the ledger holds.
    pub fn state(&self) -> (r: &LedgerState)
        requires
            self.wf(),
        ensures
            r.wf(),
            r@ == self@,
    {
        &self.state
    }

    /// Register a new account with an initial balance. An account that exists is left alone.
    pub fn register_account(&mut self, pubkey: &str, initial_nano: u64)
        requires
            old(self).wf(),
        ensures
            final(self).wf(),
            final(self).path() == old(self).path(),
            final(self)@ == registered(old(self)@, pubkey@, initial_nano),
            final(self)@.balances.contains_key(pubkey@),
            final(self)@.balances[pubkey@] == if old(self)@.balances.contains_key(pubkey@) {
                old(self)@.balances[pubkey@]
            } else {
                initial_nano
            },
    {
        if !self.state.balances.contains_key(pubkey) {
            self.state.balances.insert(pubkey.to_owned(), initial_nano);
        }
    }

    /// The balance of an account in nano-iTokens.
    pub fn get_balance(&self, pubkey: &str) -> (r: u64)
        requires
            self.wf(),
        ensures
            r == balance_of(self@, pubkey@),
            self@.balances.contains_key(pubkey@) ==> r == self@.balances[pubkey@],
            !self@.balances.contains_key(pubkey@) ==> r == 0,
    {
        match self.state.balances.get(pubkey) {
            Some(b) => *b,
            None => 0,
        }
    }

    /// Move an amount between accounts, unless the receiver would have more than a balance can
    /// hold.
    fn pay(&mut self, from: &str, to: &str, amount: u64) -> (done: bool)
        requires
            old(self).wf(),
            balance_of(old(self)@, from@) >= amount,
        ensures
            final(self).wf(),
            final(self).path() == old(self).path(),
            done == (balance_after(old(self)@, from@, to@, amount) <= u64::MAX),
            final(self)@ == if done {
                paid(old(self)@, from@, to@, amount)
            } else {
                old(self)@
            },
    {
        let from_bal = self.get_balance(from);
        let to_bal = if same_text(from, to) {
            from_bal - amount
        } else {
            self.get_balance(to)
        };
        match to_bal.checked_add(amount) {
            Some(sum) => {
                self.state.balances.insert(from.to_owned(), from_bal - amount);
                self.state.balances.insert(to.to_owned(), sum);
                true
            },
            None => false,
        }
    }

    /// Transfer nano-iTokens between accounts.
    pub fn transfer(&mut self, from: &str, to: &str, amount_nano: u64) -> (r: Result<(), String>)
        requires
            old(self).wf(),
        ensures
            final(self).wf(),
            final(self).path() == old(self).path(),
            ended_as(
                transfer_outcome(old(self)@, from@, to@, amount_nano),
                old(self)@,
                final(self)@,
                r,
            ),
            r is Ok <==> 0 < amount_nano <= balance_of(old(self)@, from@) && (from@ == to@
                || balance_of(old(self)@, to@) + amount_nano <= u64::MAX),
            r is Ok && from@ != to@ ==> balance_of(final(self)@, from@) == balance_of(
                old(self)@,
                from@,
            ) - amount_nano && balance_of(final(self)@, to@) == balance_of(old(self)@, to@)
                + amount_nano,
            r is Err || from@ == to@ ==> forall|k: Seq<char>| #[trigger]
                balance_of(final(self)@, k) == balance_of(old(self)@, k),
    {
        if amount_nano == 0 {
            return Err("Transfer amount must be positive".to_owned());
        }
        let from_bal = self.get_balance(from);
        if from_bal < amount_nano {
            let mut words = join("Insufficient balance: have ", &format_itokens(from_bal));
            words.append(" iTokens, need ");
            words.append(&format_itokens(amount_nano));
            return Err(words);
        }
        if self.pay(from, to, amount_nano) {
            Ok(())
        } else {
            Err("Receiver balance overflow".to_owned())
        }
    }

    fn pay_out(&mut self, receipt: &InferenceReceipt) -> (r: Result<(), String>)
        requires
            old(self).wf(),
        ensures
            final(self).wf(),
            final(self).path() == old(self).path(),
            ended_as(payout_outcome(old(self)@, receipt@), old(self)@, final(self)@, r),
    {
        let client_bal = self.get_balance(&receipt.client_pubkey);
        if client_bal < receipt.amount_nano {
            let mut words = join(
                "Client has insufficient balance: ",
                &format_itokens(client_bal),
            );
            words.append(" < ");
            words.append(&format_itokens(receipt.amount_nano));
            return Err(words);
        }
        if !self.pay(&receipt.client_pubkey, &receipt.node_pubkey, receipt.amount_nano) {
            return Err("Node balance overflow".to_owned());
        }
        self.state.claimed_receipts.insert(receipt.receipt_id.clone());
        Ok(())
    }

    /// Validate a receipt by what the clock tells and pay it out.
    pub fn claim_receipt_at(&mut self, receipt: &InferenceReceipt, clock: &Result<u64, String>) -> (
        r: Result<(), String>)
        requires
            old(self).wf(),
        ensures
            final(self).wf(),
            final(self).path() == old(self).path(),
            ended_as(
                claim_outcome(old(self)@, receipt@, clock_view(*clock)),
                old(self)@,
                final(self)@,
                r,
            ),
            r is Ok <==> {
                &&& !old(self)@.claimed.contains(receipt@.receipt_id)
                &&& *clock is Ok
                &&& clock->Ok_0 - 300 <= receipt.timestamp <= clock->Ok_0 + 30
                &&& crate::crypto::signatures_valid(receipt@)
                &&& receipt.amount_nano == crate::receipt::receipt_amount(receipt@)
                &&& balance_of(old(self)@, receipt@.client_pubkey) >= receipt.amount_nano
                &&& receipt@.client_pubkey == receipt@.node_pubkey || balance_of(
                    old(self)@,
                    receipt@.node_pubkey,
                ) + receipt.amount_nano <= u64::MAX
            },
    {
        if self.state.claimed_receipts.contains(&receipt.receipt_id) {
            return Err("Receipt has already been claimed".to_owned());
        }
        let now: u64 = match clock {
            Ok(now) => *now,
            Err(e) => return Err(join("System clock error: ", e)),
        };
        if now > receipt.timestamp && now - receipt.timestamp > MAX_RECEIPT_AGE_SECS {
            let mut words = join(
                "Receipt has expired (age: ",
                &decimal_text(now - receipt.timestamp),
            );
            words.append("s, max: 300s)");
            return Err(words);
        }
        if receipt.timestamp > now && receipt.timestamp - now > MAX_FUTURE_DRIFT_SECS {
            return Err("Receipt timestamp is in the future".to_owned());
        }
        if !verify_receipt_signatures(receipt) {
            return Err("Invalid receipt signatures".to_owned());
        }
        let expected_amount = receipt.compute_amount();
        if receipt.amount_nano != expected_amount {
            let mut words = join(
                "Receipt amount mismatch: expected ",
                &decimal_text(expected_amount),
            );
            words.append(" nano, got ");
            words.append(&decimal_text(receipt.amount_nano));
            words.append(" nano");
            return Err(words);
        }
        self.pay_out(receipt)
    }

    /// Validate a receipt at the present time and pay it out.
    pub fn claim_receipt(&mut self, receipt: &InferenceReceipt) -> (r: Result<(), String>)
        requires
            old(self).wf(),
        ensures
            final(self).wf(),
            final(self).path() == old(self).path(),
            exists|clock: Result<u64, String>| #[trigger]
                is_reading(clock) && ended_as(
                    claim_outcome(old(self)@, receipt@, clock_view(clock)),
                    old(self)@,
                    final(self)@,
                    r,
                ) && (r is Ok <==> {
                    &&& !old(self)@.claimed.contains(receipt@.receipt_id)
                    &&& clock is Ok
                    &&& clock->Ok_0 - 300 <= receipt.timestamp <= clock->Ok_0 + 30
                    &&& crate::crypto::signatures_valid(receipt@)
                    &&& receipt.amount_nano == crate::receipt::receipt_amount(receipt@)
                    &&& balance_of(old(self)@, receipt@.client_pubkey) >= receipt.amount_nano
                    &&& receipt@.client_pubkey == receipt@.node_pubkey || balance_of(
                        old(self)@,
                        receipt@.node_pubkey,
                    ) + receipt.amount_nano <= u64::MAX
                }),
    {
        let clock = read_clock();
        self.claim_receipt_at(receipt, &clock)
    }

    /// Claim a receipt heard from other nodes. Signatures, uniqueness and cover are checked; the
    /// clock and the price are not, which keeps nodes from deciding differently.
    pub fn claim_gossip_receipt(&mut self, receipt: &InferenceReceipt) -> (r: Result<(), String>)
        requires
            old(self).wf(),
        ensures
            final(self).wf(),
            final(self).path() == old(self).path(),
            ended_as(gossip_outcome(old(self)@, receipt@), old(self)@, final(self)@, r),
    {
        if self.state.claimed_receipts.contains(&receipt.receipt_id) {
            return Err("Receipt has already been claimed".to_owned());
        }
        if !verify_receipt_signatures(receipt) {
            return Err("Invalid receipt signatures".to_owned());
        }
        self.pay_out(receipt)
    }

    /// All balances and claimed receipts, for other nodes.
    pub fn export_state(&self) -> (r: LedgerState)
        requires
            self.wf(),
        ensures
            r.wf(),
            r@ == self@,
    {
        LedgerState {
            balances: self.state.balances.duplicate(),
            claimed_receipts: self.state.claimed_receipts.duplicate(),
        }
    }

    /// Take over the state of another node. Returns whether a claim was new, which is when the
    /// ledger is to be written to its file.
    pub fn import_state(&mut self, external: &LedgerState) -> (grown: bool)
        requires
            old(self).wf(),
            external.wf(),
        ensures
            final(self).wf(),
            final(self).path() == old(self).path(),
            final(self)@ == imported(old(self)@, external@),
            forall|k: Seq<char>|
                external@.balances.contains_key(k) ==> #[trigger] final(self)@.balances[k]
                    == external@.balances[k],
            forall|k: Seq<char>|
                !external@.balances.contains_key(k) ==> #[trigger] balance_of(final(self)@, k)
                    == balance_of(old(self)@, k),
            forall|id: Seq<char>| #[trigger]
                final(self)@.claimed.contains(id) <==> old(self)@.claimed.contains(id)
                    || external@.claimed.contains(id),
            grown == !external@.claimed.subset_of(old(self)@.claimed),
    {
        let mut grown = false;
        let mut i: usize = 0;
        let ghost items = external.claimed_receipts.item_seq();
        let ghost start = self@;
        assert(items.take(0).to_set() == Set::<Seq<char>>::empty());
        assert(start.claimed.union(Set::<Seq<char>>::empty()) == start.claimed);
        while i < external.claimed_receipts.len()
            invariant
                self.wf(),
                self.path() == old(self).path(),
                items == external.claimed_receipts.item_seq(),
                i <= items.len(),
                self@.balances == start.balances,
                self@.claimed == start.claimed.union(items.take(i as int).to_set()),
                grown == exists|j: int| 0 <= j < i && !start.claimed.contains(#[trigger] items[j]),
            decreases items.len() - i,
        {
            let item = external.claimed_receipts.item(i);
            let ghost before = items.take(i as int);
            let ghost after = items.take(i + 1);
            proof {
                assert(after == before.push(item@));
                assert forall|s: Seq<char>| #[trigger] after.to_set().contains(s) <==> (
                before.to_set().contains(s) || s == item@) by {
                    if before.to_set().contains(s) {
                        let j = choose|j: int| 0 <= j < before.len() && before[j] == s;
                        assert(after[j] == s);
                    }
                    assert(after[i as int] == item@);
                }
                assert(after.to_set() == before.to_set().insert(item@));
            }
            if !self.state.claimed_receipts.contains(item) {
                assert(!start.claimed.contains(items[i as int]));
                grown = true;
            } else {
                proof {
                    if !start.claimed.contains(item@) {
                        let j = choose|j: int| 0 <= j < before.len() && before[j] == item@;
                        assert(items[j] == item@);
                    }
                }
            }
            self.state.claimed_receipts.insert(item.clone());
            assert(self@.claimed == start.claimed.union(after.to_set()));
            i += 1;
        }
        proof {
            assert(items.take(items.len() as int) == items);
            assert forall|s: Seq<char>| #[trigger] external@.claimed.contains(s)
                <==> items.to_set().contains(s) by {
                external.claimed_receipts.lemma_items(s);
            }
            assert(items.to_set() == external@.claimed);
            if grown {
                let j = choose|j: int|
                    0 <= j < items.len() && !start.claimed.contains(#[trigger] items[j]);
                assert(items.to_set().contains(items[j]));
            } else {
                assert forall|s: Seq<char>| external@.claimed.contains(s) implies
                    start.claimed.contains(s) by {
                    external.claimed_receipts.lemma_items(s);
                    let j = choose|j: int| 0 <= j < items.len() && #[trigger] items[j] == s;
                    assert(items[j] == s);
                }
            }
        }
        let mut k: usize = 0;
        let ghost rows = external.balances.row_seq();
        let ghost claimed = self@.claimed;
        assert(crate::table::map_of(rows.take(0)) == Map::<Seq<char>, u64>::empty());
        assert(start.balances.union_prefer_right(Map::empty()) == start.balances);
        while k < external.balances.len()
            invariant
                self.wf(),
                self.path() == old(self).path(),
                rows == external.balances.row_seq(),
                k <= rows.len(),
                self@.claimed == claimed,
                self@.balances == start.balances.union_prefer_right(
                    crate::table::map_of(rows.take(k as int)),
                ),
            decreases rows.len() - k,
        {
            let key = external.balances.key(k);
            let value: u64 = *external.balances.value(k);
            let ghost before = rows.take(k as int);
            let ghost after = rows.take(k + 1);
            proof {
                assert(after.drop_last() == before);
                assert(after.last() == (key@, value));
            }
            self.state.balances.insert(key.clone(), value);
            assert(self@.balances == start.balances.union_prefer_right(
                crate::table::map_of(after),
            ));
            k += 1;
        }
        assert(rows.take(rows.len() as int) == rows);
        grown
    }
}

/// The sum of all balances.
pub open spec fn total(balances: Map<Seq<char>, u64>) -> int
    decreases balances.dom().len(),
{
    if balances.dom().finite() && !balances.dom().is_empty() {
        let k = balances.dom().choose();
        balances[k] + total(balances.remove(k))
    } else {
        0
    }
}

proof fn lemma_total_remove(m: Map<Seq<char>, u64>, k: Seq<char>)
    requires
        m.dom().finite(),
        m.contains_key(k),
    ensures
        total(m) == m[k] + total(m.remove(k)),
    decreases m.dom().len(),
{
    let c = m.dom().choose();
    assert(m.dom().contains(k));
    if c != k {
        lemma_total_remove(m.remove(c), k);
        lemma_total_remove(m.remove(k), c);
        assert(m.remove(c).remove(k) == m.remove(k).remove(c));
        reveal_with_fuel(total, 2);
    }
}

proof fn lemma_total_insert(m: Map<Seq<char>, u64>, k: Seq<char>, v: u64)
    requires
        m.dom().finite(),
    ensures
        total(m.insert(k, v)) == total(m) + v - (if m.contains_key(k) {
            m[k] as int
        } else {
            0
        }),
        m.insert(k, v).dom().finite(),
{
    lemma_total_remove(m.insert(k, v), k);
    assert(m.insert(k, v).remove(k) == m.remove(k));
    if m.contains_key(k) {
        lemma_total_remove(m, k);
    } else {
        assert(m.remove(k) == m);
    }
}

/// A payment neither makes nor loses money, also where someone pays themselves.
pub proof fn law_payment_conserves_total(
    l: LedgerView,
    from: Seq<char>,
    to: Seq<char>,
    amount: u64,
)
    requires
        l.balances.dom().finite(),
        amount <= balance_of(l, from),
        balance_after(l, from, to, amount) <= u64::MAX,
    ensures
        total(paid(l, from, to, amount).balances) == total(l.balances),
        paid(l, from, to, amount).balances.dom().finite(),
{
    lemma_total_insert(l.balances, from, (balance_of(l, from) - amount) as u64);
    lemma_total_insert(
        debited(l, from, amount).balances,
        to,
        balance_after(l, from, to, amount) as u64,
    );
}

/// A transfer that goes through keeps the sum of all balances.
pub proof fn law_transfer_conserves_total(
    l: LedgerView,
    from: Seq<char>,
    to: Seq<char>,
    amount: u64,
)
    requires
        l.balances.dom().finite(),
        transfer_outcome(l, from, to, amount) is Ok,
    ensures
        total(transfer_outcome(l, from, to, amount)->Ok_0.balances) == total(l.balances),
{
    law_payment_conserves_total(l, from, to, amount);
}

/// A claimed receipt keeps the sum of all balances, however it was claimed.
pub proof fn law_claim_conserves_total(
    l: LedgerView,
    r: ReceiptView,
    clock: Result<u64, Seq<char>>,
)
    requires
        l.balances.dom().finite(),
    ensures
        claim_outcome(l, r, clock) is Ok ==> total(claim_outcome(l, r, clock)->Ok_0.balances)
            == total(l.balances),
        gossip_outcome(l, r) is Ok ==> total(gossip_outcome(l, r)->Ok_0.balances) == total(
            l.balances,
        ),
{
    if payout_outcome(l, r) is Ok {
        law_payment_conserves_total(l, r.client_pubkey, r.node_pubkey, r.amount_nano);
    }
}

/// A receipt is paid once: after any claim of a receipt, every claim of a receipt with the same
/// ID is refused, at any time and on either way.
pub proof fn law_no_double_claim(
    l: LedgerView,
    first: ReceiptView,
    again: ReceiptView,
    clock: Result<u64, Seq<char>>,
    later: Result<u64, Seq<char>>,
)
    requires
        first.receipt_id == again.receipt_id,
    ensures
        claim_outcome(l, first, clock) is Ok ==> {
            let after = claim_outcome(l, first, clock)->Ok_0;
            &&& claim_outcome(after, again, later) == Err::<LedgerView, Seq<char>>(
                "Receipt has already been claimed"@,
            )
            &&& gossip_outcome(after, again) == Err::<LedgerView, Seq<char>>(
                "Receipt has already been claimed"@,
            )
        },
        gossip_outcome(l, first) is Ok ==> {
            let after = gossip_outcome(l, first)->Ok_0;
            &&& claim_outcome(after, again, later) == Err::<LedgerView, Seq<char>>(
                "Receipt has already been claimed"@,
            )
            &&& gossip_outcome(after, again) == Err::<LedgerView, Seq<char>>(
                "Receipt has already been claimed"@,
            )
        },
{
}

/// A receipt that is paid carries both signatures and the computed price, is neither too old nor
/// too far ahead, and is covered by the balance of the client.
pub proof fn law_paid_receipt_is_in_order(
    l: LedgerView,
    r: ReceiptView,
    clock: Result<u64, Seq<char>>,
)
    requires
        claim_outcome(l, r, clock) is Ok,
    ensures
        clock is Ok,
        crate::crypto::signatures_valid(r),
        r.amount_nano == crate::receipt::receipt_amount(r),
        clock->Ok_0 - MAX_RECEIPT_AGE_SECS <= r.timestamp <= clock->Ok_0 + MAX_FUTURE_DRIFT_SECS,
        balance_of(l, r.client_pubkey) >= r.amount_nano,
        !l.claimed.contains(r.receipt_id),
{
}

/// A claim moves the amount from the client to the node and touches nothing else. Where the two
/// are the same, no balance changes.
pub proof fn law_claim_moves_amount(l: LedgerView, r: ReceiptView, other: Seq<char>)
    requires
        gossip_outcome(l, r) is Ok,
    ensures
        ({
            let after = gossip_outcome(l, r)->Ok_0;
            &&& (r.client_pubkey != r.node_pubkey ==> balance_of(after, r.client_pubkey)
                == balance_of(l, r.client_pubkey) - r.amount_nano && balance_of(
                after,
                r.node_pubkey,
            ) == balance_of(l, r.node_pubkey) + r.amount_nano)
            &&& (r.client_pubkey == r.node_pubkey ==> balance_of(after, r.client_pubkey)
                == balance_of(l, r.client_pubkey))
            &&& (other != r.client_pubkey && other != r.node_pubkey ==> balance_of(after, other)
                == balance_of(l, other))
            &&& after.claimed == l.claimed.insert(r.receipt_id)
        }),
{
}

/// What the paying node accepts every other node with the same ledger accepts too, with the same
/// result and at any later time.
pub proof fn law_gossip_follows_claim(
    l: LedgerView,
    r: ReceiptView,
    clock: Result<u64, Seq<char>>,
)
    requires
        claim_outcome(l, r, clock) is Ok,
    ensures
        gossip_outcome(l, r) == claim_outcome(l, r, clock),
{
}

/// A second registration changes nothing, so a node that starts again keeps its balance.
pub proof fn law_registration_happens_once(
    l: LedgerView,
    account: Seq<char>,
    initial: u64,
    again: u64,
)
    ensures
        registered(registered(l, account, initial), account, again) == registered(
            l,
            account,
            initial,
        ),
{
}

/// The ledger after hearing receipts one by one. Receipts that are refused leave it as it is.
pub open spec fn after_gossip(l: LedgerView, receipts: Seq<ReceiptView>) -> LedgerView
    decreases receipts.len(),
{
    if receipts.len() == 0 {
        l
    } else {
        let before = after_gossip(l, receipts.drop_last());
        match gossip_outcome(before, receipts.last()) {
            Ok(after) => after,
            Err(_) => before,
        }
    }
}

/// Whatever receipts a node hears, in whatever order and however often, no
/// money is made or lost, and nothing that was claimed is forgotten.
pub proof fn law_gossip_history(l: LedgerView, receipts: Seq<ReceiptView>)
    requires
        l.balances.dom().finite(),
    ensures
        total(after_gossip(l, receipts).balances) == total(l.balances),
        after_gossip(l, receipts).balances.dom().finite(),
        l.claimed.subset_of(after_gossip(l, receipts).claimed),
    decreases receipts.len(),
{
    if receipts.len() > 0 {
        let earlier = receipts.drop_last();
        law_gossip_history(l, earlier);
        let before = after_gossip(l, earlier);
        let r = receipts[receipts.len() - 1];
        if payout_outcome(before, r) is Ok {
            law_payment_conserves_total(before, r.client_pubkey, r.node_pubkey, r.amount_nano);
        }
    }
}

/// The order in which two receipts are heard does not matter: where both are
/// paid in either order, the ledger is the same.
pub proof fn law_gossip_order_is_free(l: LedgerView, a: ReceiptView, b: ReceiptView)
    requires
        gossip_outcome(l, a) is Ok,
        gossip_outcome(l, b) is Ok,
        gossip_outcome(gossip_outcome(l, a)->Ok_0, b) is Ok,
        gossip_outcome(gossip_outcome(l, b)->Ok_0, a) is Ok,
    ensures
        gossip_outcome(gossip_outcome(l, a)->Ok_0, b) == gossip_outcome(
            gossip_outcome(l, b)->Ok_0,
            a,
        ),
{
    let x = gossip_outcome(gossip_outcome(l, a)->Ok_0, b)->Ok_0;
    let y = gossip_outcome(gossip_outcome(l, b)->Ok_0, a)->Ok_0;
    assert(x.claimed == y.claimed);
    assert forall|k: Seq<char>| x.balances.contains_key(k) == y.balances.contains_key(k) by {}
    assert forall|k: Seq<char>| x.balances.contains_key(k) implies x.balances[k]
        == y.balances[k] by {
        let da: int = if a.client_pubkey == a.node_pubkey {
            0
        } else if k == a.client_pubkey {
            -(a.amount_nano as int)
        } else if k == a.node_pubkey {
            a.amount_nano as int
        } else {
            0
        };
        let db: int = if b.client_pubkey == b.node_pubkey {
            0
        } else if k == b.client_pubkey {
            -(b.amount_nano as int)
        } else if k == b.node_pubkey {
            b.amount_nano as int
        } else {
            0
        };
        assert(balance_of(x, k) == balance_of(l, k) + da + db);
        assert(balance_of(y, k) == balance_of(l, k) + da + db);
    }
    assert(x.balances == y.balances);
}

/// A node without accounts that imports what another node exports has the same ledger, and an
/// import that is repeated changes nothing.
pub proof fn law_import_reproduces_export(l: LedgerView, other: LedgerView)
    ensures
        imported(empty_ledger(), other) == other,
        imported(imported(l, other), other) == imported(l, other),
{
    assert(imported(empty_ledger(), other).balances == other.balances);
    assert(imported(empty_ledger(), other).claimed == other.claimed);
    assert(imported(imported(l, other), other).balances == imported(l, other).balances);
    assert(imported(imported(l, other), other).claimed == imported(l, other).claimed);
}

/// A receipt that either side had paid is refused after an import.
pub proof fn law_import_keeps_claims(
    l: LedgerView,
    other: LedgerView,
    r: ReceiptView,
    clock: Result<u64, Seq<char>>,
)
    requires
        l.claimed.contains(r.receipt_id) || other.claimed.contains(r.receipt_id),
    ensures
        claim_outcome(imported(l, other), r, clock) is Err,
        gossip_outcome(imported(l, other), r) is Err,
{
}

/// The balance of an account is what the ledger has for it, and nothing without an account.
pub proof fn law_balance_is_what_the_ledger_has(l: LedgerView, account: Seq<char>)
    ensures
        l.balances.contains_key(account) ==> balance_of(l, account) == l.balances[account],
        !l.balances.contains_key(account) ==> balance_of(l, account) == 0,
{
}

/// A new account has its initial balance, an old one keeps what it had, and no other account and
/// no claim changes.
pub proof fn law_registration_opens_one_account(
    l: LedgerView,
    account: Seq<char>,
    initial: u64,
    other: Seq<char>,
)
    ensures
        ({
            let after = registered(l, account, initial);
            &&& after.balances.contains_key(account)
            &&& !l.balances.contains_key(account) ==> balance_of(after, account) == initial
            &&& l.balances.contains_key(account) ==> balance_of(after, account) == balance_of(
                l,
                account,
            )
            &&& other != account ==> balance_of(after, other) == balance_of(l, other) && (
            after.balances.contains_key(other) <==> l.balances.contains_key(other))
            &&& after.claimed == l.claimed
        }),
{
}

/// A transfer goes through exactly where the amount is positive, the sender has it and the
/// receiver can hold it. To oneself it always can be held.
pub proof fn law_transfer_goes_through_when_covered(
    l: LedgerView,
    from: Seq<char>,
    to: Seq<char>,
    amount: u64,
)
    ensures
        transfer_outcome(l, from, to, amount) is Ok <==> amount > 0 && balance_of(l, from) >= amount
            && (from == to || balance_of(l, to) + amount <= u64::MAX),
{
}

/// A transfer takes the amount from the sender and gives it to the receiver. No other balance, no
/// other account and no claim changes.
pub proof fn law_transfer_moves_amount(
    l: LedgerView,
    from: Seq<char>,
    to: Seq<char>,
    amount: u64,
    other: Seq<char>,
)
    requires
        transfer_outcome(l, from, to, amount) is Ok,
    ensures
        ({
            let after = transfer_outcome(l, from, to, amount)->Ok_0;
            &&& from != to ==> balance_of(after, from) == balance_of(l, from) - amount
            &&& from != to ==> balance_of(after, to) == balance_of(l, to) + amount
            &&& from == to ==> balance_of(after, from) == balance_of(l, from)
            &&& other != from && other != to ==> balance_of(after, other) == balance_of(l, other)
            &&& after.balances.contains_key(other) <==> l.balances.contains_key(other) || other
                == from || other == to
            &&& after.claimed == l.claimed
        }),
{
}

/// A refused transfer tells the first thing that is wrong with it: the amount, the cover, the
/// room.
pub proof fn law_transfer_refusals(l: LedgerView, from: Seq<char>, to: Seq<char>, amount: u64)
    ensures
        ({
            let outcome = transfer_outcome(l, from, to, amount);
            let refused = |words: Seq<char>| outcome == Err::<LedgerView, Seq<char>>(words);
            &&& amount == 0 ==> refused("Transfer amount must be positive"@)
            &&& amount > balance_of(l, from) ==> refused(
                "Insufficient balance: have "@ + crate::amount::itokens_text(
                    balance_of(l, from) as nat,
                ) + " iTokens, need "@ + crate::amount::itokens_text(amount as nat),
            )
            &&& 0 < amount <= balance_of(l, from) && from != to && balance_of(l, to) + amount
                > u64::MAX ==> refused("Receiver balance overflow"@)
        }),
{
}

/// A transfer and the same transfer back leave every balance as it was.
pub proof fn law_transfer_back_restores_balances(
    l: LedgerView,
    from: Seq<char>,
    to: Seq<char>,
    amount: u64,
    account: Seq<char>,
)
    requires
        transfer_outcome(l, from, to, amount) is Ok,
    ensures
        ({
            let there = transfer_outcome(l, from, to, amount)->Ok_0;
            let back = transfer_outcome(there, to, from, amount);
            back is Ok && balance_of(back->Ok_0, account) == balance_of(l, account)
        }),
{
    law_transfer_moves_amount(l, from, to, amount, account);
    law_transfer_moves_amount(l, from, to, amount, from);
    law_transfer_moves_amount(l, from, to, amount, to);
}

/// A receipt is paid exactly where it was not claimed before, the clock works, it is no more than
/// 300 seconds old and no more than 30 seconds ahead, both parties have signed it, its amount is
/// the computed price, the client has that much and the node can hold it.
pub proof fn law_claim_is_paid_when_in_order(
    l: LedgerView,
    r: ReceiptView,
    clock: Result<u64, Seq<char>>,
)
    ensures
        claim_outcome(l, r, clock) is Ok <==> {
            &&& !l.claimed.contains(r.receipt_id)
            &&& clock is Ok
            &&& clock->Ok_0 - 300 <= r.timestamp <= clock->Ok_0 + 30
            &&& crate::crypto::node_signature_valid(r)
            &&& crate::crypto::client_signature_valid(r)
            &&& r.amount_nano == crate::receipt::receipt_amount(r)
            &&& balance_of(l, r.client_pubkey) >= r.amount_nano
            &&& r.client_pubkey == r.node_pubkey || balance_of(l, r.node_pubkey) + r.amount_nano
                <= u64::MAX
        },
{
}

/// A receipt heard from other nodes is paid exactly where it was not claimed before, both parties
/// have signed it, the client has the amount and the node can hold it.
pub proof fn law_gossip_is_paid_when_in_order(l: LedgerView, r: ReceiptView)
    ensures
        gossip_outcome(l, r) is Ok <==> {
            &&& !l.claimed.contains(r.receipt_id)
            &&& crate::crypto::node_signature_valid(r)
            &&& crate::crypto::client_signature_valid(r)
            &&& balance_of(l, r.client_pubkey) >= r.amount_nano
            &&& r.client_pubkey == r.node_pubkey || balance_of(l, r.node_pubkey) + r.amount_nano
                <= u64::MAX
        },
{
}

/// A paid claim moves the amount from the client to the node and marks this receipt alone as
/// claimed. No other balance changes and no other account appears.
pub proof fn law_paid_claim_moves_amount(
    l: LedgerView,
    r: ReceiptView,
    clock: Result<u64, Seq<char>>,
    other: Seq<char>,
)
    requires
        claim_outcome(l, r, clock) is Ok,
    ensures
        ({
            let after = claim_outcome(l, r, clock)->Ok_0;
            let (client, node) = (r.client_pubkey, r.node_pubkey);
            &&& client != node ==> balance_of(after, client) == balance_of(l, client)
                - r.amount_nano
            &&& client != node ==> balance_of(after, node) == balance_of(l, node) + r.amount_nano
            &&& client == node ==> balance_of(after, client) == balance_of(l, client)
            &&& other != client && other != node ==> balance_of(after, other) == balance_of(
                l,
                other,
            )
            &&& after.balances.contains_key(other) <==> l.balances.contains_key(other) || other
                == client || other == node
            &&& forall|id: Seq<char>| #[trigger]
                after.claimed.contains(id) <==> l.claimed.contains(id) || id == r.receipt_id
        }),
{
}

/// A refused claim tells the first thing that is wrong: claimed before, the clock, the age, the
/// signatures, the amount, the cover, the room.
pub proof fn law_claim_refusals(l: LedgerView, r: ReceiptView, clock: Result<u64, Seq<char>>)
    ensures
        ({
            let outcome = claim_outcome(l, r, clock);
            let refused = |words: Seq<char>| outcome == Err::<LedgerView, Seq<char>>(words);
            let now = clock->Ok_0;
            let new = !l.claimed.contains(r.receipt_id);
            let timely = new && clock is Ok && now - 300 <= r.timestamp <= now + 30;
            let signed = timely && crate::crypto::signatures_valid(r);
            let price = crate::receipt::receipt_amount(r);
            let priced = signed && r.amount_nano == price;
            let held = balance_of(l, r.client_pubkey);
            &&& !new ==> refused("Receipt has already been claimed"@)
            &&& new && clock is Err ==> refused("System clock error: "@ + clock->Err_0)
            &&& new && clock is Ok && r.timestamp < now - 300 ==> refused(
                "Receipt has expired (age: "@ + crate::text::decimal((now - r.timestamp) as nat)
                    + "s, max: 300s)"@,
            )
            &&& new && clock is Ok && r.timestamp > now + 30 ==> refused(
                "Receipt timestamp is in the future"@,
            )
            &&& timely && !signed ==> refused("Invalid receipt signatures"@)
            &&& signed && !priced ==> refused(
                "Receipt amount mismatch: expected "@ + crate::text::decimal(price)
                    + " nano, got "@ + crate::text::decimal(r.amount_nano as nat) + " nano"@,
            )
            &&& priced && held < r.amount_nano ==> refused(
                "Client has insufficient balance: "@ + crate::amount::itokens_text(held as nat)
                    + " < "@ + crate::amount::itokens_text(r.amount_nano as nat),
            )
            &&& priced && held >= r.amount_nano && outcome is Err ==> refused(
                "Node balance overflow"@,
            )
        }),
{
}

/// A refused receipt of other nodes tells the first thing that is wrong: claimed before, the
/// signatures, the cover, the room.
pub proof fn law_gossip_refusals(l: LedgerView, r: ReceiptView)
    ensures
        ({
            let outcome = gossip_outcome(l, r);
            let refused = |words: Seq<char>| outcome == Err::<LedgerView, Seq<char>>(words);
            let new = !l.claimed.contains(r.receipt_id);
            let signed = new && crate::crypto::signatures_valid(r);
            let held = balance_of(l, r.client_pubkey);
            &&& !new ==> refused("Receipt has already been claimed"@)
            &&& new && !signed ==> refused("Invalid receipt signatures"@)
            &&& signed && held < r.amount_nano ==> refused(
                "Client has insufficient balance: "@ + crate::amount::itokens_text(held as nat)
                    + " < "@ + crate::amount::itokens_text(r.amount_nano as nat),
            )
            &&& signed && held >= r.amount_nano && outcome is Err ==> refused(
                "Node balance overflow"@,
            )
        }),
{
}

/// An operation that went through leaves the ledger of its outcome and reports success; a refused
/// one leaves the ledger as it was and reports the words.
pub proof fn law_refusals_change_nothing(
    outcome: Result<LedgerView, Seq<char>>,
    before: LedgerView,
    after: LedgerView,
    r: Result<(), String>,
)
    requires
        ended_as(outcome, before, after, r),
    ensures
        r is Ok <==> outcome is Ok,
        r is Ok ==> after == outcome->Ok_0,
        r is Err ==> after == before && r->Err_0@ == outcome->Err_0,
{
}

/// After an import every account of the other ledger has the balance that it has there, whatever it
/// was here, and every other account has the balance that it had here. What either side had claimed
/// is claimed, and nothing else.
pub proof fn law_import_takes_over_balances(l: LedgerView, other: LedgerView, k: Seq<char>)
    ensures
        ({
            let after = imported(l, other);
            &&& other.balances.contains_key(k) ==> balance_of(after, k) == other.balances[k]
            &&& !other.balances.contains_key(k) ==> balance_of(after, k) == balance_of(l, k)
            &&& after.balances.contains_key(k) <==> l.balances.contains_key(k)
                || other.balances.contains_key(k)
            &&& after.claimed.contains(k) <==> l.claimed.contains(k) || other.claimed.contains(k)
        }),
{
}

} // verus!

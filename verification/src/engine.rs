//! The ledger engine: applies transactions to client accounts in arrival
//! order and enforces the dispute / resolve / chargeback lifecycle.
//!
//! Every transition is specified by a pure step function over a
//! mathematical view of the engine (maps from client id to account and
//! from transaction id to history entry); the executable methods are
//! proved to follow it exactly. A rejected transaction never changes any
//! balance; its only possible effect is the implicit creation of the
//! zero-balance account of a client id seen for the first time.

use std::collections::HashMap;
use vstd::prelude::*;

use crate::client::{spec_new_client, Client};
use crate::decimal::{dec_in_range, Decimal};
use crate::transaction::Transaction;

verus! {

broadcast use vstd::std_specs::hash::group_hash_axioms;

/// Why the engine rejects a transaction. Rejections are silent no-ops at
/// the processing level: the record is dropped, balances stay unchanged.
#[derive(Debug, Clone, Copy, PartialEq, Eq, Structural)]
pub enum Rejection {
    /// The transaction id was already used by an accepted deposit or
    /// withdrawal.
    DuplicateTx,
    /// The account is locked by an earlier chargeback.
    Locked,
    /// A withdrawal asked for more than the available funds.
    InsufficientFunds,
    /// A dispute, resolve or chargeback referenced a transaction id with
    /// no history entry.
    UnknownTx,
    /// The client id on the record differs from the one stored with the
    /// referenced transaction.
    ClientMismatch,
    /// A dispute referenced a withdrawal, which is never disputable.
    NotDisputable,
    /// A dispute referenced an entry that is already under dispute.
    AlreadyDisputed,
    /// A resolve or chargeback referenced an entry not under dispute.
    NotDisputed,
    /// The exact result would leave the 64-bit scaled decimal range.
    OutOfRange,
}

/// Retained record of one accepted deposit or withdrawal, keyed by its
/// transaction id. A withdrawal is stored with a negated amount, which
/// marks it permanently non-disputable and reserves its id.
#[derive(Debug, Clone, Copy, PartialEq, Eq, Structural)]
pub struct HistoryEntry {
    pub cid: u16,
    pub amount: Decimal,
    pub disputed: bool,
}

impl HistoryEntry {
    /// Succeeds exactly when the entry records a deposit (non-negative
    /// stored amount); only deposits may be disputed.
    pub fn ensure_deposit(&self) -> (r: Result<(), Rejection>)
        ensures
            r is Ok <==> self.amount@ >= 0,
            r is Err ==> r->Err_0 == Rejection::NotDisputable,
    {
        if self.amount.0 < 0 {
            Err(Rejection::NotDisputable)
        } else {
            Ok(())
        }
    }

    /// Succeeds exactly when the entry is currently under dispute.
    pub fn ensure_disputed(&self) -> (r: Result<(), Rejection>)
        ensures
            r is Ok <==> self.disputed,
            r is Err ==> r->Err_0 == Rejection::NotDisputed,
    {
        if !self.disputed {
            Err(Rejection::NotDisputed)
        } else {
            Ok(())
        }
    }

    /// Succeeds exactly when the entry is not under dispute.
    pub fn ensure_not_disputed(&self) -> (r: Result<(), Rejection>)
        ensures
            r is Ok <==> !self.disputed,
            r is Err ==> r->Err_0 == Rejection::AlreadyDisputed,
    {
        if self.disputed {
            Err(Rejection::AlreadyDisputed)
        } else {
            Ok(())
        }
    }
}

/// Succeeds exactly when the client id stored with a history entry
/// matches the one supplied on a dispute, resolve or chargeback.
fn cid_matches(expected: u16, found: u16) -> (r: Result<(), Rejection>)
    ensures
        r is Ok <==> expected == found,
        r is Err ==> r->Err_0 == Rejection::ClientMismatch,
{
    if expected != found {
        Err(Rejection::ClientMismatch)
    } else {
        Ok(())
    }
}

/// Mathematical view of the engine: the account table and the history
/// table as maps.
#[verifier::ext_equal]
pub struct LedgerView {
    pub clients: Map<u16, Client>,
    pub history: Map<u32, HistoryEntry>,
}

/// The account table after a transaction references `cid`: unchanged if
/// the client exists, extended with a fresh zero-balance account if not.
pub open spec fn with_account(clients: Map<u16, Client>, cid: u16) -> Map<u16, Client> {
    if clients.contains_key(cid) {
        clients
    } else {
        clients.insert(cid, spec_new_client(cid))
    }
}

impl LedgerView {
    /// The engine's initial state: no accounts, no history.
    pub open spec fn empty() -> LedgerView {
        LedgerView { clients: Map::empty(), history: Map::empty() }
    }

    /// The state after a transaction references `cid`, before any rule is
    /// applied.
    pub open spec fn touch(self, cid: u16) -> LedgerView {
        LedgerView { clients: with_account(self.clients, cid), history: self.history }
    }
}

/// What a deposit does: rejected on a duplicate transaction id, a locked
/// account, or a sum out of range; otherwise the amount is added to the
/// available funds and a non-disputed history entry is recorded.
pub open spec fn step_deposit(s: LedgerView, cid: u16, tx: u32, amount: Decimal) -> (
    LedgerView,
    Option<Rejection>,
) {
    if s.history.contains_key(tx) {
        (s, Some(Rejection::DuplicateTx))
    } else {
        let s1 = s.touch(cid);
        let c = s1.clients[cid];
        if c.locked {
            (s1, Some(Rejection::Locked))
        } else if !dec_in_range(c.available@ + amount@) {
            (s1, Some(Rejection::OutOfRange))
        } else {
            (
                LedgerView {
                    clients: s1.clients.insert(
                        cid,
                        Client {
                            cid: c.cid,
                            available: Decimal((c.available@ + amount@) as i64),
                            held: c.held,
                            locked: c.locked,
                        },
                    ),
                    history: s1.history.insert(tx, HistoryEntry { cid, amount, disputed: false }),
                },
                None,
            )
        }
    }
}

/// What a withdrawal does: rejected on a duplicate transaction id, a
/// locked account, insufficient available funds, or a result out of
/// range; otherwise the amount is taken from the available funds and the
/// entry is recorded with a negated amount, so it can never be disputed.
pub open spec fn step_withdrawal(s: LedgerView, cid: u16, tx: u32, amount: Decimal) -> (
    LedgerView,
    Option<Rejection>,
) {
    if s.history.contains_key(tx) {
        (s, Some(Rejection::DuplicateTx))
    } else {
        let s1 = s.touch(cid);
        let c = s1.clients[cid];
        if c.locked {
            (s1, Some(Rejection::Locked))
        } else if c.available@ < amount@ {
            (s1, Some(Rejection::InsufficientFunds))
        } else if !dec_in_range(c.available@ - amount@) || !dec_in_range(-amount@) {
            (s1, Some(Rejection::OutOfRange))
        } else {
            (
                LedgerView {
                    clients: s1.clients.insert(
                        cid,
                        Client {
                            cid: c.cid,
                            available: Decimal((c.available@ - amount@) as i64),
                            held: c.held,
                            locked: c.locked,
                        },
                    ),
                    history: s1.history.insert(
                        tx,
                        HistoryEntry { cid, amount: Decimal((-amount@) as i64), disputed: false },
                    ),
                },
                None,
            )
        }
    }
}

/// What a dispute does: rejected on a locked account, an unknown
/// transaction id, a client id mismatch, a withdrawal entry, an entry
/// already disputed, or a result out of range; otherwise the entry is
/// marked disputed and its amount moves from available to held. The
/// available funds may go negative: a deposit spent before being
/// disputed puts the client into debt.
pub open spec fn step_dispute(s: LedgerView, cid: u16, tx: u32) -> (LedgerView, Option<Rejection>) {
    let s1 = s.touch(cid);
    let c = s1.clients[cid];
    if c.locked {
        (s1, Some(Rejection::Locked))
    } else if !s1.history.contains_key(tx) {
        (s1, Some(Rejection::UnknownTx))
    } else {
        let e = s1.history[tx];
        if e.cid != cid {
            (s1, Some(Rejection::ClientMismatch))
        } else if e.amount@ < 0 {
            (s1, Some(Rejection::NotDisputable))
        } else if e.disputed {
            (s1, Some(Rejection::AlreadyDisputed))
        } else if !dec_in_range(c.available@ - e.amount@) || !dec_in_range(c.held@ + e.amount@) {
            (s1, Some(Rejection::OutOfRange))
        } else {
            (
                LedgerView {
                    clients: s1.clients.insert(
                        cid,
                        Client {
                            cid: c.cid,
                            available: Decimal((c.available@ - e.amount@) as i64),
                            held: Decimal((c.held@ + e.amount@) as i64),
                            locked: c.locked,
                        },
                    ),
                    history: s1.history.insert(
                        tx,
                        HistoryEntry { cid: e.cid, amount: e.amount, disputed: true },
                    ),
                },
                None,
            )
        }
    }
}

/// What a resolve does: rejected on a locked account, an unknown
/// transaction id, a client id mismatch, an entry not under dispute, or
/// a result out of range; otherwise the dispute is lifted and the amount
/// moves back from held to available.
pub open spec fn step_resolve(s: LedgerView, cid: u16, tx: u32) -> (LedgerView, Option<Rejection>) {
    let s1 = s.touch(cid);
    let c = s1.clients[cid];
    if c.locked {
        (s1, Some(Rejection::Locked))
    } else if !s1.history.contains_key(tx) {
        (s1, Some(Rejection::UnknownTx))
    } else {
        let e = s1.history[tx];
        if e.cid != cid {
            (s1, Some(Rejection::ClientMismatch))
        } else if !e.disputed {
            (s1, Some(Rejection::NotDisputed))
        } else if !dec_in_range(c.available@ + e.amount@) || !dec_in_range(c.held@ - e.amount@) {
            (s1, Some(Rejection::OutOfRange))
        } else {
            (
                LedgerView {
                    clients: s1.clients.insert(
                        cid,
                        Client {
                            cid: c.cid,
                            available: Decimal((c.available@ + e.amount@) as i64),
                            held: Decimal((c.held@ - e.amount@) as i64),
                            locked: c.locked,
                        },
                    ),
                    history: s1.history.insert(
                        tx,
                        HistoryEntry { cid: e.cid, amount: e.amount, disputed: false },
                    ),
                },
                None,
            )
        }
    }
}

/// What a chargeback does: rejected on a locked account, an unknown
/// transaction id, a client id mismatch, an entry not under dispute, or
/// a result out of range; otherwise the dispute ends, the held amount is
/// withdrawn, and the account is locked permanently.
pub open spec fn step_chargeback(s: LedgerView, cid: u16, tx: u32) -> (
    LedgerView,
    Option<Rejection>,
) {
    let s1 = s.touch(cid);
    let c = s1.clients[cid];
    if c.locked {
        (s1, Some(Rejection::Locked))
    } else if !s1.history.contains_key(tx) {
        (s1, Some(Rejection::UnknownTx))
    } else {
        let e = s1.history[tx];
        if e.cid != cid {
            (s1, Some(Rejection::ClientMismatch))
        } else if !e.disputed {
            (s1, Some(Rejection::NotDisputed))
        } else if !dec_in_range(c.held@ - e.amount@) {
            (s1, Some(Rejection::OutOfRange))
        } else {
            (
                LedgerView {
                    clients: s1.clients.insert(
                        cid,
                        Client {
                            cid: c.cid,
                            available: c.available,
                            held: Decimal((c.held@ - e.amount@) as i64),
                            locked: true,
                        },
                    ),
                    history: s1.history.insert(
                        tx,
                        HistoryEntry { cid: e.cid, amount: e.amount, disputed: false },
                    ),
                },
                None,
            )
        }
    }
}

/// One step of the engine: the state after a transaction, and the reason
/// it was rejected, if it was.
pub open spec fn step(s: LedgerView, t: Transaction) -> (LedgerView, Option<Rejection>) {
    match t {
        Transaction::Deposit { cid, tx, amount } => step_deposit(s, cid, tx, amount),
        Transaction::Withdrawal { cid, tx, amount } => step_withdrawal(s, cid, tx, amount),
        Transaction::Dispute { cid, tx } => step_dispute(s, cid, tx),
        Transaction::Resolve { cid, tx } => step_resolve(s, cid, tx),
        Transaction::Chargeback { cid, tx } => step_chargeback(s, cid, tx),
    }
}

/// The state after applying a whole sequence of transactions in order.
pub open spec fn run(s: LedgerView, ts: Seq<Transaction>) -> LedgerView
    decreases ts.len(),
{
    if ts.len() == 0 {
        s
    } else {
        run(step(s, ts[0]).0, ts.drop_first())
    }
}

/// The result a caller sees for a given step outcome.
pub open spec fn outcome(e: Option<Rejection>) -> Result<(), Rejection> {
    match e {
        None => Ok(()),
        Some(rej) => Err(rej),
    }
}

/// Appending one transaction to a run applies one more step.
pub proof fn lemma_run_snoc(s: LedgerView, q: Seq<Transaction>, t: Transaction)
    ensures
        run(s, q.push(t)) == step(run(s, q), t).0,
    decreases q.len(),
{
    if q.len() == 0 {
        assert(q.push(t)[0] == t);
        assert(q.push(t).drop_first() =~= Seq::<Transaction>::empty());
        assert(run(s, q.push(t)) == run(step(s, t).0, Seq::<Transaction>::empty()));
        assert(run(s, q) == s);
    } else {
        assert(q.push(t)[0] == q[0]);
        assert(q.push(t).drop_first() =~= q.drop_first().push(t));
        lemma_run_snoc(step(s, q[0]).0, q.drop_first(), t);
        assert(run(s, q.push(t)) == run(step(s, q[0]).0, q.drop_first().push(t)));
        assert(run(s, q) == run(step(s, q[0]).0, q.drop_first()));
    }
}

/// The ledger engine: the account table, the history of disputable
/// transactions, and the order in which client ids first appeared (used
/// to hand the accounts out deterministically at the end).
pub struct Engine {
    clients: HashMap<u16, Client>,
    order: Vec<u16>,
    history: HashMap<u32, HistoryEntry>,
}

impl View for Engine {
    type V = LedgerView;

    closed spec fn view(&self) -> LedgerView {
        LedgerView { clients: self.clients@, history: self.history@ }
    }
}

impl Engine {
    /// Internal consistency: the first-appearance list holds each client
    /// id exactly once, and every account is keyed by its own id.
    pub closed spec fn wf(self) -> bool {
        &&& self.order@.no_duplicates()
        &&& (forall|i: int|
            0 <= i < self.order@.len() ==> self.clients@.contains_key(#[trigger] self.order@[i]))
        &&& (forall|k: u16| self.clients@.contains_key(k) ==> #[trigger] self.order@.contains(k))
        &&& (forall|k: u16| self.clients@.contains_key(k) ==> (#[trigger] self.clients@[k]).cid == k)
    }

    /// Creates an engine with no accounts and no history.
    pub fn new() -> (r: Engine)
        ensures
            r.wf(),
            r@ == LedgerView::empty(),
    {
        let r = Engine { clients: HashMap::new(), order: Vec::new(), history: HashMap::new() };
        proof {
            assert(r@ =~~= LedgerView::empty());
        }
        r
    }

    /// Makes sure the account of `cid` exists, creating it with zero
    /// balances on the client's first appearance.
    fn touch_client(&mut self, cid: u16)
        requires
            old(self).wf(),
        ensures
            final(self).wf(),
            final(self)@ == old(self)@.touch(cid),
            final(self)@.clients.contains_key(cid),
    {
        if !self.clients.contains_key(&cid) {
            self.clients.insert(cid, Client::new(cid));
            self.order.push(cid);
            proof {
                assert forall|i: int|
                    0 <= i < self.order@.len() implies self.clients@.contains_key(
                    #[trigger] self.order@[i],
                ) by {
                    if i < self.order@.len() - 1 {
                        assert(self.order@[i] == old(self).order@[i]);
                    }
                }
                assert forall|k: u16| self.clients@.contains_key(k) implies #[trigger] self.order@
                    .contains(k) by {
                    if k == cid {
                        assert(self.order@[self.order@.len() - 1] == cid);
                    } else {
                        assert(old(self).clients@.contains_key(k));
                        assert(old(self).order@.contains(k));
                        let i = choose|i: int|
                            0 <= i < old(self).order@.len() && old(self).order@[i] == k;
                        assert(self.order@[i] == k);
                    }
                }
                assert(self.order@.no_duplicates()) by {
                    assert(forall|i: int|
                        0 <= i < old(self).order@.len() ==> old(self).order@[i] == self.order@[i]);
                    assert(!old(self).order@.contains(cid));
                }
            }
        }
    }

    /// Borrows the account of `cid`, which must exist.
    fn get_client(&self, cid: u16) -> (r: &Client)
        requires
            self@.clients.contains_key(cid),
        ensures
            *r == self@.clients[cid],
    {
        match self.clients.get(&cid) {
            Some(c) => c,
            None => vstd::pervasive::unreached(),
        }
    }

    /// Gives access to the account of `cid`, creating it on first
    /// appearance.
    pub fn client(&mut self, cid: u16) -> (r: &Client)
        requires
            old(self).wf(),
        ensures
            final(self).wf(),
            final(self)@ == old(self)@.touch(cid),
            *r == final(self)@.clients[cid],
    {
        self.touch_client(cid);
        self.get_client(cid)
    }

    /// Records an accepted deposit or withdrawal under its transaction
    /// id.
    fn log(&mut self, tx: u32, cid: u16, amount: Decimal)
        requires
            old(self).wf(),
        ensures
            final(self).wf(),
            final(self)@.clients == old(self)@.clients,
            final(self)@.history == old(self)@.history.insert(
                tx,
                HistoryEntry { cid, amount, disputed: false },
            ),
    {
        self.history.insert(tx, HistoryEntry { cid, amount, disputed: false });
    }

    /// Succeeds exactly when no history entry uses the transaction id.
    fn ensure_unique(&self, tx: u32) -> (r: Result<(), Rejection>)
        ensures
            r is Ok <==> !self@.history.contains_key(tx),
            r is Err ==> r->Err_0 == Rejection::DuplicateTx,
    {
        if self.history.contains_key(&tx) {
            Err(Rejection::DuplicateTx)
        } else {
            Ok(())
        }
    }

    /// Applies one transaction, following the step function exactly; the
    /// returned error is the rejection reason, if any.
    pub fn process_transaction(&mut self, transaction: Transaction) -> (r: Result<(), Rejection>)
        requires
            old(self).wf(),
        ensures
            final(self).wf(),
            final(self)@ == step(old(self)@, transaction).0,
            r == outcome(step(old(self)@, transaction).1),
    {
        match transaction {
            Transaction::Deposit { tx, cid, amount } => self.process_deposit(tx, cid, amount),
            Transaction::Withdrawal { tx, cid, amount } => self.process_withdrawal(
                tx,
                cid,
                amount,
            ),
            Transaction::Dispute { tx, cid } => self.process_dispute(tx, cid),
            Transaction::Resolve { tx, cid } => self.process_resolve(tx, cid),
            Transaction::Chargeback { tx, cid } => self.process_chargeback(tx, cid),
        }
    }

    /// Applies a deposit.
    fn process_deposit(&mut self, tx: u32, cid: u16, amount: Decimal) -> (r: Result<
        (),
        Rejection,
    >)
        requires
            old(self).wf(),
        ensures
            final(self).wf(),
            final(self)@ == step_deposit(old(self)@, cid, tx, amount).0,
            r == outcome(step_deposit(old(self)@, cid, tx, amount).1),
    {
        match self.ensure_unique(tx) {
            Err(e) => return Err(e),
            Ok(()) => {},
        }
        self.touch_client(cid);
        let c = *self.get_client(cid);
        match c.ensure_unlocked() {
            Err(e) => return Err(e),
            Ok(()) => {},
        }
        match c.available.checked_add(amount) {
            None => Err(Rejection::OutOfRange),
            Some(available) => {
                self.clients.insert(
                    cid,
                    Client { cid: c.cid, available, held: c.held, locked: c.locked },
                );
                self.log(tx, cid, amount);
                proof {
                    assert(self@.clients.dom() =~= old(self)@.touch(cid).clients.dom().insert(cid));
                }
                Ok(())
            },
        }
    }

    /// Applies a withdrawal.
    fn process_withdrawal(&mut self, tx: u32, cid: u16, amount: Decimal) -> (r: Result<
        (),
        Rejection,
    >)
        requires
            old(self).wf(),
        ensures
            final(self).wf(),
            final(self)@ == step_withdrawal(old(self)@, cid, tx, amount).0,
            r == outcome(step_withdrawal(old(self)@, cid, tx, amount).1),
    {
        match self.ensure_unique(tx) {
            Err(e) => return Err(e),
            Ok(()) => {},
        }
        self.touch_client(cid);
        let c = *self.get_client(cid);
        match c.ensure_unlocked() {
            Err(e) => return Err(e),
            Ok(()) => {},
        }
        if c.available.0 >= amount.0 {
            let available = match c.available.0.checked_sub(amount.0) {
                None => return Err(Rejection::OutOfRange),
                Some(v) => v,
            };
            let negated = match 0i64.checked_sub(amount.0) {
                None => return Err(Rejection::OutOfRange),
                Some(v) => v,
            };
            self.clients.insert(
                cid,
                Client { cid: c.cid, available: Decimal(available), held: c.held, locked: c.locked },
            );
            // A withdrawal is stored negated so it can never be disputed,
            // while still reserving its transaction id.
            self.log(tx, cid, Decimal(negated));
            proof {
                assert(self@.clients.dom() =~= old(self)@.touch(cid).clients.dom().insert(cid));
            }
            Ok(())
        } else {
            Err(Rejection::InsufficientFunds)
        }
    }

    /// Applies a dispute.
    fn process_dispute(&mut self, tx: u32, cid: u16) -> (r: Result<(), Rejection>)
        requires
            old(self).wf(),
        ensures
            final(self).wf(),
            final(self)@ == step_dispute(old(self)@, cid, tx).0,
            r == outcome(step_dispute(old(self)@, cid, tx).1),
    {
        self.touch_client(cid);
        let c = *self.get_client(cid);
        match c.ensure_unlocked() {
            Err(e) => return Err(e),
            Ok(()) => {},
        }
        let entry = match self.history.get(&tx) {
            None => return Err(Rejection::UnknownTx),
            Some(e) => *e,
        };
        match cid_matches(entry.cid, cid) {
            Err(e) => return Err(e),
            Ok(()) => {},
        }
        match entry.ensure_deposit() {
            Err(e) => return Err(e),
            Ok(()) => {},
        }
        match entry.ensure_not_disputed() {
            Err(e) => return Err(e),
            Ok(()) => {},
        }
        let available = match c.available.0.checked_sub(entry.amount.0) {
            None => return Err(Rejection::OutOfRange),
            Some(v) => v,
        };
        let held = match c.held.0.checked_add(entry.amount.0) {
            None => return Err(Rejection::OutOfRange),
            Some(v) => v,
        };
        self.clients.insert(
            cid,
            Client { cid: c.cid, available: Decimal(available), held: Decimal(held), locked: c.locked },
        );
        self.history.insert(
            tx,
            HistoryEntry { cid: entry.cid, amount: entry.amount, disputed: true },
        );
        proof {
            assert(self@.clients.dom() =~= old(self)@.touch(cid).clients.dom().insert(cid));
        }
        Ok(())
    }

    /// Applies a resolve.
    fn process_resolve(&mut self, tx: u32, cid: u16) -> (r: Result<(), Rejection>)
        requires
            old(self).wf(),
        ensures
            final(self).wf(),
            final(self)@ == step_resolve(old(self)@, cid, tx).0,
            r == outcome(step_resolve(old(self)@, cid, tx).1),
    {
        self.touch_client(cid);
        let c = *self.get_client(cid);
        match c.ensure_unlocked() {
            Err(e) => return Err(e),
            Ok(()) => {},
        }
        let entry = match self.history.get(&tx) {
            None => return Err(Rejection::UnknownTx),
            Some(e) => *e,
        };
        match cid_matches(entry.cid, cid) {
            Err(e) => return Err(e),
            Ok(()) => {},
        }
        match entry.ensure_disputed() {
            Err(e) => return Err(e),
            Ok(()) => {},
        }
        let available = match c.available.0.checked_add(entry.amount.0) {
            None => return Err(Rejection::OutOfRange),
            Some(v) => v,
        };
        let held = match c.held.0.checked_sub(entry.amount.0) {
            None => return Err(Rejection::OutOfRange),
            Some(v) => v,
        };
        self.clients.insert(
            cid,
            Client { cid: c.cid, available: Decimal(available), held: Decimal(held), locked: c.locked },
        );
        self.history.insert(
            tx,
            HistoryEntry { cid: entry.cid, amount: entry.amount, disputed: false },
        );
        proof {
            assert(self@.clients.dom() =~= old(self)@.touch(cid).clients.dom().insert(cid));
        }
        Ok(())
    }

    /// Applies a chargeback.
    fn process_chargeback(&mut self, tx: u32, cid: u16) -> (r: Result<(), Rejection>)
        requires
            old(self).wf(),
        ensures
            final(self).wf(),
            final(self)@ == step_chargeback(old(self)@, cid, tx).0,
            r == outcome(step_chargeback(old(self)@, cid, tx).1),
    {
        self.touch_client(cid);
        let c = *self.get_client(cid);
        match c.ensure_unlocked() {
            Err(e) => return Err(e),
            Ok(()) => {},
        }
        let entry = match self.history.get(&tx) {
            None => return Err(Rejection::UnknownTx),
            Some(e) => *e,
        };
        match cid_matches(entry.cid, cid) {
            Err(e) => return Err(e),
            Ok(()) => {},
        }
        match entry.ensure_disputed() {
            Err(e) => return Err(e),
            Ok(()) => {},
        }
        let held = match c.held.0.checked_sub(entry.amount.0) {
            None => return Err(Rejection::OutOfRange),
            Some(v) => v,
        };
        self.clients.insert(
            cid,
            Client { cid: c.cid, available: c.available, held: Decimal(held), locked: true },
        );
        self.history.insert(
            tx,
            HistoryEntry { cid: entry.cid, amount: entry.amount, disputed: false },
        );
        proof {
            assert(self@.clients.dom() =~= old(self)@.touch(cid).clients.dom().insert(cid));
        }
        Ok(())
    }

    /// Hands out the final accounts, one per client id seen, in order of
    /// first appearance.
    pub fn into_clients(self) -> (r: Vec<Client>)
        requires
            self.wf(),
        ensures
            forall|i: int|
                0 <= i < r@.len() ==> self@.clients.contains_key((#[trigger] r@[i]).cid) && r@[i]
                    == self@.clients[r@[i].cid],
            forall|k: u16|
                self@.clients.contains_key(k) ==> exists|i: int|
                    0 <= i < r@.len() && (#[trigger] r@[i]).cid == k,
            forall|i: int, j: int| 0 <= i < j < r@.len() ==> r@[i].cid != r@[j].cid,
    {
        let mut r: Vec<Client> = Vec::new();
        let n = self.order.len();
        for idx in 0..n
            invariant
                n == self.order@.len(),
                self.wf(),
                r@.len() == idx,
                forall|i: int| 0 <= i < idx ==> #[trigger] r@[i] == self@.clients[self.order@[i]],
        {
            let cid = self.order[idx];
            r.push(*self.get_client(cid));
        }
        proof {
            assert forall|k: u16| self@.clients.contains_key(k) implies exists|i: int|
                0 <= i < r@.len() && (#[trigger] r@[i]).cid == k by {
                assert(self.order@.contains(k));
                let i = choose|i: int| 0 <= i < self.order@.len() && self.order@[i] == k;
                assert(r@[i] == self@.clients[k]);
                assert(r@[i].cid == k);
            }
        }
        r
    }
}

/// Processes a whole transaction sequence from the empty initial state
/// and returns the final accounts: exactly the account table that the
/// step function, folded over the input in order, arrives at. Invalid
/// transactions are silently rejected along the way.
pub fn process(transactions: Vec<Transaction>) -> (r: Vec<Client>)
    ensures
        ({
            let fin = run(LedgerView::empty(), transactions@);
            &&& forall|i: int|
                0 <= i < r@.len() ==> fin.clients.contains_key((#[trigger] r@[i]).cid) && r@[i]
                    == fin.clients[r@[i].cid]
            &&& forall|k: u16|
                fin.clients.contains_key(k) ==> exists|i: int|
                    0 <= i < r@.len() && (#[trigger] r@[i]).cid == k
            &&& forall|i: int, j: int| 0 <= i < j < r@.len() ==> r@[i].cid != r@[j].cid
        }),
{
    let mut engine = Engine::new();
    let n = transactions.len();
    for i in 0..n
        invariant
            n == transactions@.len(),
            engine.wf(),
            engine@ == run(LedgerView::empty(), transactions@.take(i as int)),
    {
        let t = transactions[i];
        // Invalid transactions are silently rejected.
        let _ = engine.process_transaction(t);
        proof {
            lemma_run_snoc(LedgerView::empty(), transactions@.take(i as int), t);
            assert(transactions@.take(i + 1) =~= transactions@.take(i as int).push(t));
        }
    }
    proof {
        assert(transactions@.take(n as int) =~= transactions@);
    }
    engine.into_clients()
}

/// The client id a transaction refers to.
pub open spec fn transaction_client(t: Transaction) -> u16 {
    match t {
        Transaction::Deposit { cid, .. } => cid,
        Transaction::Withdrawal { cid, .. } => cid,
        Transaction::Dispute { cid, .. } => cid,
        Transaction::Resolve { cid, .. } => cid,
        Transaction::Chargeback { cid, .. } => cid,
    }
}

/// Law: from a fresh ledger, a deposit followed by a withdrawal of the
/// same amount leaves the client with nothing available and nothing
/// held.
pub proof fn lemma_deposit_withdraw_cancel(cid: u16, tx1: u32, tx2: u32, amount: Decimal)
    requires
        tx1 != tx2,
        amount@ >= 0,
    ensures
        ({
            let s1 = step_deposit(LedgerView::empty(), cid, tx1, amount).0;
            let s2 = step_withdrawal(s1, cid, tx2, amount).0;
            &&& step_deposit(LedgerView::empty(), cid, tx1, amount).1 is None
            &&& step_withdrawal(s1, cid, tx2, amount).1 is None
            &&& s2.clients[cid].available@ == 0
            &&& s2.clients[cid].held@ == 0
        }),
{
}

/// Law: an accepted dispute moves exactly the disputed amount from
/// available to held and leaves the account's total unchanged.
pub proof fn lemma_dispute_moves_amount(s: LedgerView, cid: u16, tx: u32)
    requires
        step_dispute(s, cid, tx).1 is None,
    ensures
        ({
            let before = s.touch(cid).clients[cid];
            let after = step_dispute(s, cid, tx).0.clients[cid];
            let moved = s.history[tx].amount@;
            &&& after.available@ == before.available@ - moved
            &&& after.held@ == before.held@ + moved
            &&& after.available@ + after.held@ == before.available@ + before.held@
        }),
{
}

/// Law: after a successful dispute, disputing the same transaction id
/// again is rejected and changes nothing at all.
pub proof fn lemma_dispute_twice_no_effect(s: LedgerView, cid: u16, tx: u32)
    requires
        step_dispute(s, cid, tx).1 is None,
    ensures
        ({
            let s1 = step_dispute(s, cid, tx).0;
            &&& step_dispute(s1, cid, tx).1 == Some(Rejection::AlreadyDisputed)
            &&& step_dispute(s1, cid, tx).0 == s1
        }),
{
    let s1 = step_dispute(s, cid, tx).0;
    assert(s1.clients.contains_key(cid));
    assert(s1.touch(cid) =~~= s1);
}

/// Law: a withdrawal's history entry, stored with a negative amount, can
/// never be disputed: the dispute is rejected, the history is untouched,
/// and every existing account keeps its balances.
pub proof fn lemma_withdrawal_not_disputable(s: LedgerView, cid: u16, tx: u32)
    requires
        s.history.contains_key(tx),
        s.history[tx].amount@ < 0,
    ensures
        step_dispute(s, cid, tx).1 is Some,
        step_dispute(s, cid, tx).0.history == s.history,
        forall|k: u16|
            s.clients.contains_key(k) ==> step_dispute(s, cid, tx).0.clients[k] == #[trigger] s.clients[k],
{
}

/// Law: after a successful chargeback the account is locked, and every
/// later transaction naming that client is rejected with no change of
/// state.
pub proof fn lemma_chargeback_locks(s: LedgerView, cid: u16, tx: u32, t: Transaction)
    requires
        step_chargeback(s, cid, tx).1 is None,
        transaction_client(t) == cid,
    ensures
        step_chargeback(s, cid, tx).0.clients[cid].locked,
        step(step_chargeback(s, cid, tx).0, t).1 is Some,
        step(step_chargeback(s, cid, tx).0, t).0 == step_chargeback(s, cid, tx).0,
{
    let s1 = step_chargeback(s, cid, tx).0;
    assert(s1.clients.contains_key(cid));
    assert(s1.touch(cid) =~~= s1);
}

/// Law: a withdrawal of more than the available funds is rejected: the
/// history is untouched and every existing account keeps its balances.
pub proof fn lemma_overdraw_rejected(s: LedgerView, cid: u16, tx: u32, amount: Decimal)
    requires
        s.touch(cid).clients[cid].available@ < amount@,
    ensures
        step_withdrawal(s, cid, tx, amount).1 is Some,
        step_withdrawal(s, cid, tx, amount).0.history == s.history,
        forall|k: u16|
            s.clients.contains_key(k) ==> step_withdrawal(s, cid, tx, amount).0.clients[k]
                == #[trigger] s.clients[k],
{
}

} // verus!

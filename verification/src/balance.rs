//! The ledger's balance invariant: in every reachable state, a client's
//! held funds are exactly the sum of that client's disputed amounts.
//!
//! This is what makes the chargeback rule sound by construction: the
//! held funds always cover the amount a chargeback withdraws, so that
//! step can never fall out of the representable range.

use vstd::prelude::*;
use vstd::set::fold::{is_fun_commutative, lemma_fold_empty, lemma_fold_insert};

use crate::client::Client;
use crate::decimal::Decimal;
use crate::engine::{
    step, step_chargeback, step_deposit, step_dispute, step_resolve, step_withdrawal, HistoryEntry,
    LedgerView, Rejection,
};
use crate::transaction::Transaction;

verus! {

/// The transaction ids of `cid`'s entries currently under dispute.
pub open spec fn disputed_txs(history: Map<u32, HistoryEntry>, cid: u16) -> Set<u32> {
    history.dom().filter(|tx: u32| history[tx].disputed && history[tx].cid == cid)
}

/// Folding step that adds an entry's amount.
pub open spec fn add_amount(history: Map<u32, HistoryEntry>) -> spec_fn(int, u32) -> int {
    |acc: int, tx: u32| acc + history[tx].amount@
}

/// The sum of the amounts of `cid`'s disputed entries.
pub open spec fn held_sum(history: Map<u32, HistoryEntry>, cid: u16) -> int {
    disputed_txs(history, cid).fold(0, add_amount(history))
}

/// The set of disputed transactions is finite whenever the history is.
proof fn lemma_disputed_finite(h: Map<u32, HistoryEntry>, cid: u16)
    requires
        h.dom().finite(),
    ensures
        disputed_txs(h, cid).finite(),
{
    assert(disputed_txs(h, cid).subset_of(h.dom()));
    vstd::set_lib::lemma_set_subset_finite(h.dom(), disputed_txs(h, cid));
}

/// Adding amounts commutes, whatever the order of the entries.
proof fn lemma_add_amount_commutative(h: Map<u32, HistoryEntry>)
    ensures
        is_fun_commutative(add_amount(h)),
{
}

/// The balance invariant: the history is finite, every disputed entry
/// records a non-negative amount for an existing client, and each
/// client's held funds equal the sum of its disputed amounts.
pub open spec fn balanced(s: LedgerView) -> bool {
    &&& s.history.dom().finite()
    &&& (forall|tx: u32|
        s.history.contains_key(tx) && (#[trigger] s.history[tx]).disputed ==> s.history[tx].amount@
            >= 0 && s.clients.contains_key(s.history[tx].cid))
    &&& (forall|cid: u16|
        #[trigger] s.clients.contains_key(cid) ==> s.clients[cid].held@ == held_sum(
            s.history,
            cid,
        ))
}

/// Two histories that agree on the amounts of a set of transactions sum
/// to the same value over that set.
proof fn lemma_sum_congruent(s: Set<u32>, h1: Map<u32, HistoryEntry>, h2: Map<u32, HistoryEntry>)
    requires
        s.finite(),
        forall|tx: u32| s.contains(tx) ==> h1[tx].amount == #[trigger] h2[tx].amount,
    ensures
        s.fold(0, add_amount(h1)) == s.fold(0, add_amount(h2)),
{
    let pred = |ss: Set<u32>|
        (forall|tx: u32| ss.contains(tx) ==> h1[tx].amount == #[trigger] h2[tx].amount) ==> ss.fold(
            0,
            add_amount(h1),
        ) == ss.fold(0, add_amount(h2));
    assert(pred(Set::<u32>::empty())) by {
        lemma_fold_empty(0, add_amount(h1));
        lemma_fold_empty(0, add_amount(h2));
    }
    assert forall|ss: Set<u32>, a: u32|
        pred(ss) && ss.finite() && !ss.contains(a) implies #[trigger] pred(ss.insert(a)) by {
        if forall|tx: u32| ss.insert(a).contains(tx) ==> h1[tx].amount == #[trigger] h2[tx].amount {
            assert(forall|tx: u32|
                ss.contains(tx) ==> h1[tx].amount == #[trigger] h2[tx].amount) by {
                assert(forall|tx: u32| ss.contains(tx) ==> ss.insert(a).contains(tx));
            }
            lemma_add_amount_commutative(h1);
            lemma_add_amount_commutative(h2);
            lemma_fold_insert(ss, 0, add_amount(h1), a);
            lemma_fold_insert(ss, 0, add_amount(h2), a);
            assert(ss.insert(a).contains(a));
        }
    }
    vstd::set::fold::lemma_finite_set_induct(s, pred);
}

/// A sum of non-negative amounts is non-negative.
proof fn lemma_sum_nonneg(s: Set<u32>, h: Map<u32, HistoryEntry>)
    requires
        s.finite(),
        forall|tx: u32| s.contains(tx) ==> (#[trigger] h[tx]).amount@ >= 0,
    ensures
        s.fold(0, add_amount(h)) >= 0,
{
    let pred = |ss: Set<u32>|
        (forall|tx: u32| ss.contains(tx) ==> (#[trigger] h[tx]).amount@ >= 0) ==> ss.fold(
            0,
            add_amount(h),
        ) >= 0;
    assert(pred(Set::<u32>::empty())) by {
        lemma_fold_empty(0, add_amount(h));
    }
    assert forall|ss: Set<u32>, a: u32|
        pred(ss) && ss.finite() && !ss.contains(a) implies #[trigger] pred(ss.insert(a)) by {
        if forall|tx: u32| ss.insert(a).contains(tx) ==> (#[trigger] h[tx]).amount@ >= 0 {
            assert(forall|tx: u32| ss.contains(tx) ==> ss.insert(a).contains(tx));
            lemma_add_amount_commutative(h);
            lemma_fold_insert(ss, 0, add_amount(h), a);
            assert(ss.insert(a).contains(a));
        }
    }
    vstd::set::fold::lemma_finite_set_induct(s, pred);
}

/// A sum of non-negative amounts covers each single one of them.
proof fn lemma_sum_covers_element(s: Set<u32>, h: Map<u32, HistoryEntry>, tx: u32)
    requires
        s.finite(),
        s.contains(tx),
        forall|t: u32| s.contains(t) ==> (#[trigger] h[t]).amount@ >= 0,
    ensures
        s.fold(0, add_amount(h)) >= h[tx].amount@,
{
    let s0 = s.remove(tx);
    assert(s0.insert(tx) =~= s);
    lemma_sum_nonneg(s0, h);
    lemma_add_amount_commutative(h);
    lemma_fold_insert(s0, 0, add_amount(h), tx);
}

/// Referencing a client keeps the ledger balanced: a fresh account holds
/// nothing and has no disputed entries.
proof fn lemma_balanced_touch(s: LedgerView, cid: u16)
    requires
        balanced(s),
    ensures
        balanced(s.touch(cid)),
        s.touch(cid).clients.contains_key(cid),
{
    if !s.clients.contains_key(cid) {
        assert(disputed_txs(s.history, cid) =~= Set::<u32>::empty());
        lemma_fold_empty(0, add_amount(s.history));
    }
}

/// Recording a fresh, undisputed entry and changing only a client's
/// available funds keeps every held sum as it was.
proof fn lemma_balanced_log(s: LedgerView, cid: u16, tx: u32, entry: HistoryEntry, after: Client)
    requires
        balanced(s),
        s.clients.contains_key(cid),
        !s.history.contains_key(tx),
        !entry.disputed,
        after.held == s.clients[cid].held,
    ensures
        balanced(
            LedgerView {
                clients: s.clients.insert(cid, after),
                history: s.history.insert(tx, entry),
            },
        ),
{
    let h2 = s.history.insert(tx, entry);
    assert forall|k: u16| #[trigger]
        s.clients.insert(cid, after).contains_key(k) implies s.clients.insert(cid, after)[k].held@
        == held_sum(h2, k) by {
        lemma_disputed_finite(s.history, k);
        assert(disputed_txs(h2, k) =~= disputed_txs(s.history, k));
        lemma_sum_congruent(disputed_txs(s.history, k), h2, s.history);
        assert(s.clients.contains_key(k));
    }
}

/// An accepted deposit keeps the ledger balanced.
proof fn lemma_balanced_deposit(s: LedgerView, cid: u16, tx: u32, amount: Decimal)
    requires
        balanced(s),
    ensures
        balanced(step_deposit(s, cid, tx, amount).0),
{
    lemma_balanced_touch(s, cid);
    let s1 = s.touch(cid);
    if !s.history.contains_key(tx) && !s1.clients[cid].locked && crate::decimal::dec_in_range(
        s1.clients[cid].available@ + amount@,
    ) {
        let c = s1.clients[cid];
        let after = Client {
            cid: c.cid,
            available: Decimal((c.available@ + amount@) as i64),
            held: c.held,
            locked: c.locked,
        };
        lemma_balanced_log(s1, cid, tx, HistoryEntry { cid, amount, disputed: false }, after);
    }
}

/// An accepted withdrawal keeps the ledger balanced.
proof fn lemma_balanced_withdrawal(s: LedgerView, cid: u16, tx: u32, amount: Decimal)
    requires
        balanced(s),
    ensures
        balanced(step_withdrawal(s, cid, tx, amount).0),
{
    lemma_balanced_touch(s, cid);
    let s1 = s.touch(cid);
    if !s.history.contains_key(tx) && !s1.clients[cid].locked && s1.clients[cid].available@
        >= amount@ && crate::decimal::dec_in_range(s1.clients[cid].available@ - amount@)
        && crate::decimal::dec_in_range(-amount@) {
        let c = s1.clients[cid];
        let after = Client {
            cid: c.cid,
            available: Decimal((c.available@ - amount@) as i64),
            held: c.held,
            locked: c.locked,
        };
        lemma_balanced_log(
            s1,
            cid,
            tx,
            HistoryEntry { cid, amount: Decimal((-amount@) as i64), disputed: false },
            after,
        );
    }
}

/// Flipping one entry's disputed flag moves exactly that entry's amount
/// into or out of its client's held sum, and leaves every other client's
/// sum alone.
proof fn lemma_sum_after_flip(h: Map<u32, HistoryEntry>, tx: u32, entry: HistoryEntry)
    requires
        h.dom().finite(),
        h.contains_key(tx),
        h[tx].cid == entry.cid,
        h[tx].amount == entry.amount,
        h[tx].disputed != entry.disputed,
    ensures
        entry.disputed ==> held_sum(h.insert(tx, entry), entry.cid) == held_sum(h, entry.cid)
            + entry.amount@,
        !entry.disputed ==> held_sum(h, entry.cid) == held_sum(h.insert(tx, entry), entry.cid)
            + entry.amount@,
        forall|k: u16|
            k != entry.cid ==> held_sum(h.insert(tx, entry), k) == #[trigger] held_sum(h, k),
{
    let h2 = h.insert(tx, entry);
    let cid = entry.cid;
    lemma_disputed_finite(h, cid);
    assert(h2.dom() =~= h.dom());
    lemma_disputed_finite(h2, cid);
    lemma_add_amount_commutative(h);
    lemma_add_amount_commutative(h2);
    if entry.disputed {
        let old_set = disputed_txs(h, cid);
        assert(disputed_txs(h2, cid) =~= old_set.insert(tx));
        assert(!old_set.contains(tx));
        lemma_sum_congruent(old_set, h2, h);
        lemma_fold_insert(old_set, 0, add_amount(h2), tx);
    } else {
        let new_set = disputed_txs(h2, cid);
        assert(disputed_txs(h, cid) =~= new_set.insert(tx));
        assert(!new_set.contains(tx));
        lemma_sum_congruent(new_set, h, h2);
        lemma_fold_insert(new_set, 0, add_amount(h), tx);
    }
    assert forall|k: u16| k != cid implies held_sum(h2, k) == #[trigger] held_sum(h, k) by {
        lemma_disputed_finite(h, k);
        assert(disputed_txs(h2, k) =~= disputed_txs(h, k));
        lemma_sum_congruent(disputed_txs(h, k), h2, h);
    }
}

/// An accepted dispute keeps the ledger balanced.
proof fn lemma_balanced_dispute(s: LedgerView, cid: u16, tx: u32)
    requires
        balanced(s),
    ensures
        balanced(step_dispute(s, cid, tx).0),
{
    lemma_balanced_touch(s, cid);
    let s1 = s.touch(cid);
    let (s2, err) = step_dispute(s, cid, tx);
    if err is None {
        let e = s.history[tx];
        let flipped = HistoryEntry { cid: e.cid, amount: e.amount, disputed: true };
        lemma_sum_after_flip(s1.history, tx, flipped);
        assert forall|k: u16| #[trigger] s2.clients.contains_key(k) implies s2.clients[k].held@
            == held_sum(s2.history, k) by {
            if k == cid {
            } else {
                assert(s1.clients.contains_key(k));
            }
        }
    }
}

/// An accepted resolve keeps the ledger balanced.
proof fn lemma_balanced_resolve(s: LedgerView, cid: u16, tx: u32)
    requires
        balanced(s),
    ensures
        balanced(step_resolve(s, cid, tx).0),
{
    lemma_balanced_touch(s, cid);
    let s1 = s.touch(cid);
    let (s2, err) = step_resolve(s, cid, tx);
    if err is None {
        let e = s.history[tx];
        let flipped = HistoryEntry { cid: e.cid, amount: e.amount, disputed: false };
        lemma_sum_after_flip(s1.history, tx, flipped);
        assert forall|k: u16| #[trigger] s2.clients.contains_key(k) implies s2.clients[k].held@
            == held_sum(s2.history, k) by {
            if k == cid {
            } else {
                assert(s1.clients.contains_key(k));
            }
        }
    }
}

/// An accepted chargeback keeps the ledger balanced; moreover the held
/// funds always cover the charged amount, so a chargeback is never
/// rejected for leaving the representable range.
pub proof fn lemma_balanced_chargeback(s: LedgerView, cid: u16, tx: u32)
    requires
        balanced(s),
    ensures
        balanced(step_chargeback(s, cid, tx).0),
        step_chargeback(s, cid, tx).1 != Some(Rejection::OutOfRange),
        step_chargeback(s, cid, tx).1 is None ==> s.touch(cid).clients[cid].held@
            >= s.history[tx].amount@ >= 0,
{
    lemma_balanced_touch(s, cid);
    let s1 = s.touch(cid);
    let c = s1.clients[cid];
    if !c.locked && s.history.contains_key(tx) && s.history[tx].cid == cid
        && s.history[tx].disputed {
        let e = s.history[tx];
        // The held funds cover the disputed amount.
        let dset = disputed_txs(s.history, cid);
        lemma_disputed_finite(s.history, cid);
        assert(dset.contains(tx));
        lemma_sum_covers_element(dset, s.history, tx);
        assert(s.clients.contains_key(cid));
        assert(c.held@ >= e.amount@ >= 0);
        let flipped = HistoryEntry { cid: e.cid, amount: e.amount, disputed: false };
        lemma_sum_after_flip(s1.history, tx, flipped);
        let (s2, err) = step_chargeback(s, cid, tx);
        assert forall|k: u16| #[trigger] s2.clients.contains_key(k) implies s2.clients[k].held@
            == held_sum(s2.history, k) by {
            if k == cid {
            } else {
                assert(s1.clients.contains_key(k));
            }
        }
    }
}

/// Every single step keeps the ledger balanced.
pub proof fn lemma_step_preserves_balanced(s: LedgerView, t: Transaction)
    requires
        balanced(s),
    ensures
        balanced(step(s, t).0),
{
    match t {
        Transaction::Deposit { cid, tx, amount } => lemma_balanced_deposit(s, cid, tx, amount),
        Transaction::Withdrawal { cid, tx, amount } => lemma_balanced_withdrawal(
            s,
            cid,
            tx,
            amount,
        ),
        Transaction::Dispute { cid, tx } => lemma_balanced_dispute(s, cid, tx),
        Transaction::Resolve { cid, tx } => lemma_balanced_resolve(s, cid, tx),
        Transaction::Chargeback { cid, tx } => lemma_balanced_chargeback(s, cid, tx),
    }
}

/// Law: every state the engine reaches from the start is balanced: held
/// funds are exactly the outstanding disputed amounts, so the internal
/// premise of the chargeback rule holds by construction.
pub proof fn lemma_run_balanced(ts: Seq<Transaction>)
    ensures
        balanced(crate::engine::run(LedgerView::empty(), ts)),
    decreases ts.len(),
{
    if ts.len() == 0 {
        assert(balanced(LedgerView::empty())) by {
            assert(LedgerView::empty().history.dom() =~= Set::<u32>::empty());
        }
    } else {
        assert(balanced(LedgerView::empty())) by {
            assert(LedgerView::empty().history.dom() =~= Set::<u32>::empty());
        }
        lemma_run_prefix(LedgerView::empty(), ts);
    }
}

/// Helper: running any transaction sequence from a balanced state ends
/// balanced.
proof fn lemma_run_prefix(s: LedgerView, ts: Seq<Transaction>)
    requires
        balanced(s),
    ensures
        balanced(crate::engine::run(s, ts)),
    decreases ts.len(),
{
    if ts.len() > 0 {
        lemma_step_preserves_balanced(s, ts[0]);
        lemma_run_prefix(step(s, ts[0]).0, ts.drop_first());
    }
}

} // verus!

//! Per-client account state: spendable funds, funds held under dispute,
//! and the terminal lock flag set by a chargeback.

use vstd::prelude::*;

use crate::decimal::{dec_in_range, Decimal};
use crate::engine::Rejection;

verus! {

/// One client's account. Created implicitly, with zero balances and
/// unlocked, the first time any transaction references the client id.
#[derive(Debug, Clone, Copy, PartialEq, Eq, Structural)]
pub struct Client {
    pub cid: u16,
    pub available: Decimal,
    pub held: Decimal,
    pub locked: bool,
}

/// The account a freshly referenced client id starts with.
pub open spec fn spec_new_client(cid: u16) -> Client {
    Client { cid, available: Decimal(0), held: Decimal(0), locked: false }
}

impl Client {
    /// Creates the account a client starts with: zero balances, unlocked.
    pub fn new(cid: u16) -> (r: Self)
        ensures
            r == spec_new_client(cid),
    {
        Client { cid, available: Decimal(0), held: Decimal(0), locked: false }
    }

    /// Succeeds exactly when the account is not locked; a locked account
    /// accepts no further balance-mutating operation.
    pub fn ensure_unlocked(&self) -> (r: Result<(), Rejection>)
        ensures
            r is Ok <==> !self.locked,
            r is Err ==> r->Err_0 == Rejection::Locked,
    {
        if self.locked {
            Err(Rejection::Locked)
        } else {
            Ok(())
        }
    }

    /// Total funds of the account: available plus held, computed only at
    /// output time. `None` exactly when the exact sum would leave the
    /// 64-bit scaled range.
    pub fn total(&self) -> (r: Option<Decimal>)
        ensures
            match r {
                Some(d) => dec_in_range(self.available@ + self.held@) && d@ == self.available@
                    + self.held@,
                None => !dec_in_range(self.available@ + self.held@),
            },
    {
        self.available.checked_add(self.held)
    }
}

} // verus!

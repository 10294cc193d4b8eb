//! Accounts, the transaction log, and the ledger that the two make up.

use crate::amount::{Decimal, Funds, MAX_AMOUNT};
use vstd::prelude::*;

verus! {

/// What a client owns: the funds to spend, the funds held back by open
/// disputes, their sum, and whether a chargeback has frozen the account.
#[derive(Clone, Copy, Debug, PartialEq, Eq, Structural)]
pub struct AccInfo {
    pub available: Funds,
    pub held: Funds,
    pub total: Funds,
    pub locked: bool,
}

/// What the log keeps of a deposit or withdrawal: who made it, for how
/// much, and whether it is under dispute.
#[derive(Clone, Copy, Debug, PartialEq, Eq, Structural)]
pub struct Txs {
    pub client: u16,
    pub amount: Decimal,
    pub in_dispute: bool,
}

impl AccInfo {
    /// The total is the sum of what is available and what is held.
    pub open spec fn balanced(self) -> bool {
        self.total@ == self.available@ + self.held@
    }

    /// No balance is further than `bound` from zero.
    pub open spec fn within(self, bound: int) -> bool {
        &&& -bound <= self.available@ <= bound
        &&& -bound <= self.held@ <= bound
        &&& -bound <= self.total@ <= bound
    }

    /// The account that a first deposit opens.
    pub open spec fn opened(amount: Funds) -> AccInfo {
        AccInfo { available: amount, held: Funds(0), total: amount, locked: false }
    }

    /// The account after `amount` was paid in.
    pub open spec fn credited(self, amount: Funds) -> AccInfo {
        AccInfo {
            available: self.available.plus(amount),
            total: self.total.plus(amount),
            ..self
        }
    }

    /// The account after `amount` was paid out.
    pub open spec fn debited(self, amount: Funds) -> AccInfo {
        AccInfo {
            available: self.available.minus(amount),
            total: self.total.minus(amount),
            ..self
        }
    }

    /// The account after a logged amount was held back. The amount is
    /// taken as it was logged, and each balance is rounded after it moved.
    pub open spec fn disputed(self, amount: Decimal) -> AccInfo {
        AccInfo {
            available: self.available.minus_rounded(amount),
            held: self.held.plus_rounded(amount),
            ..self
        }
    }

    /// The account after a logged amount was released. The amount is taken
    /// as it was logged, and each balance is rounded after it moved.
    pub open spec fn resolved(self, amount: Decimal) -> AccInfo {
        AccInfo {
            available: self.available.plus_rounded(amount),
            held: self.held.minus_rounded(amount),
            ..self
        }
    }

    /// The account after a logged amount was charged back: frozen for
    /// good. The amount is taken as it was logged, and each balance is
    /// rounded after it moved.
    pub open spec fn charged_back(self, amount: Decimal) -> AccInfo {
        AccInfo {
            held: self.held.minus_rounded(amount),
            total: self.total.minus_rounded(amount),
            locked: true,
            ..self
        }
    }

    /// By how much the total is off the sum of what is available and what
    /// is held.
    pub open spec fn drift(self) -> int {
        self.total@ - self.available@ - self.held@
    }
}

impl Txs {
    /// The entry that a deposit or withdrawal leaves in the log.
    pub open spec fn logged(client: u16, amount: Decimal) -> Txs {
        Txs { client, amount, in_dispute: false }
    }

    /// The same entry with its dispute mark set to `mark`.
    pub open spec fn marked(self, mark: bool) -> Txs {
        Txs { in_dispute: mark, ..self }
    }
}

/// The state of a run: every client's account and every deposit and
/// withdrawal seen so far.
pub struct Ledger {
    pub accounts: Map<u16, AccInfo>,
    pub transactions: Map<u32, Txs>,
}

impl Ledger {
    /// The ledger made of these accounts and this log.
    pub open spec fn of(accounts: Map<u16, AccInfo>, transactions: Map<u32, Txs>) -> Ledger {
        Ledger { accounts, transactions }
    }

    /// The ledger before the first record.
    pub open spec fn empty() -> Ledger {
        Ledger { accounts: Map::empty(), transactions: Map::empty() }
    }

    /// Every account's total is the sum of its other two balances.
    pub open spec fn balanced(self) -> bool {
        forall|client: u16| #[trigger]
            self.accounts.contains_key(client) ==> self.accounts[client].balanced()
    }

    /// By how much the total of a client's account is off the sum of its
    /// other two balances; nothing where the client has no account.
    pub open spec fn drift_of(self, client: u16) -> int {
        if self.accounts.contains_key(client) {
            self.accounts[client].drift()
        } else {
            0
        }
    }

    /// No account's total is further than `bound` from the sum of its
    /// other two balances.
    pub open spec fn drift_within(self, bound: int) -> bool {
        forall|client: u16| #[trigger]
            self.accounts.contains_key(client) ==> -bound <= self.accounts[client].drift()
                <= bound
    }

    /// No logged amount lies exactly halfway between two neighbouring
    /// ten-thousandths.
    pub open spec fn plain(self) -> bool {
        forall|tx: u32| #[trigger]
            self.transactions.contains_key(tx) ==> !self.transactions[tx].amount.halfway()
    }

    /// No balance of any account is further than `bound` from zero.
    pub open spec fn within(self, bound: int) -> bool {
        forall|client: u16| #[trigger]
            self.accounts.contains_key(client) ==> self.accounts[client].within(bound)
    }

    /// Every balance can take one more movement of any amount without
    /// leaving the range of its machine integer.
    pub open spec fn has_room(self) -> bool {
        self.within(i128::MAX - MAX_AMOUNT)
    }
}

} // verus!

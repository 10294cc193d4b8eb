//! The five operations and the dispatch that checks a record before it
//! hands it to one of them.

use crate::account::{AccInfo, Ledger, Txs};
use crate::amount::{Decimal, Funds};
use crate::disputes::lemma_record_keeps_cover;
use crate::error::Errors;
use crate::laws::{
    lemma_record_keeps_balance, lemma_record_moves_drift, lemma_record_spares_locked,
};
use crate::record::{Input, Operation};
use std::collections::HashMap;
use vstd::prelude::*;

verus! {

broadcast use vstd::std_specs::hash::group_hash_axioms;

impl Ledger {
    /// A deposit enters the log, unless its identifier is taken, and is
    /// paid into the client's account, which it opens if there is none.
    /// A frozen account takes nothing.
    pub open spec fn after_deposit(self, client: u16, tx: u32, amount: Decimal, line: u64) -> Result<
        Ledger,
        Errors,
    > {
        if self.transactions.contains_key(tx) {
            Err(Errors::ConflictTransaction(line))
        } else {
            let account = if !self.accounts.contains_key(client) {
                AccInfo::opened(Funds::of(amount))
            } else if self.accounts[client].locked {
                self.accounts[client]
            } else {
                self.accounts[client].credited(Funds::of(amount))
            };
            Ok(
                Ledger {
                    accounts: self.accounts.insert(client, account),
                    transactions: self.transactions.insert(tx, Txs::logged(client, amount)),
                },
            )
        }
    }

    /// A withdrawal enters the log, unless its identifier is taken, and is
    /// paid out of the client's account if there is one, it is not frozen
    /// and it has the funds available.
    pub open spec fn after_withdrawal(
        self,
        client: u16,
        tx: u32,
        amount: Decimal,
        line: u64,
    ) -> Result<Ledger, Errors> {
        if self.transactions.contains_key(tx) {
            Err(Errors::ConflictTransaction(line))
        } else {
            let transactions = self.transactions.insert(tx, Txs::logged(client, amount));
            if self.accounts.contains_key(client) && !self.accounts[client].locked
                && self.accounts[client].available@ >= Funds::of(amount)@ {
                Ok(
                    Ledger {
                        accounts: self.accounts.insert(
                            client,
                            self.accounts[client].debited(Funds::of(amount)),
                        ),
                        transactions,
                    },
                )
            } else {
                Ok(Ledger { accounts: self.accounts, transactions })
            }
        }
    }

    /// A dispute of a logged transaction holds its amount back, whether or
    /// not that much is available. An unknown transaction changes nothing.
    /// A known one must be the client's own. After that a client without
    /// an account and a frozen account change nothing.
    pub open spec fn after_dispute(self, client: u16, tx: u32, line: u64) -> Result<
        Ledger,
        Errors,
    > {
        if !self.transactions.contains_key(tx) {
            Ok(self)
        } else if self.transactions[tx].client != client {
            Err(Errors::SecurityErrDivergentClientId(line))
        } else if !self.accounts.contains_key(client) || self.accounts[client].locked {
            Ok(self)
        } else {
            Ok(
                Ledger {
                    accounts: self.accounts.insert(
                        client,
                        self.accounts[client].disputed(self.transactions[tx].amount),
                    ),
                    transactions: self.transactions.insert(tx, self.transactions[tx].marked(true)),
                },
            )
        }
    }

    /// A resolve ends the dispute of a logged transaction and releases its
    /// amount. An unknown transaction changes nothing. A known one must be
    /// the client's own, under dispute or not. After that a transaction
    /// that is not under dispute, a client without an account and a frozen
    /// account change nothing.
    pub open spec fn after_resolve(self, client: u16, tx: u32, line: u64) -> Result<
        Ledger,
        Errors,
    > {
        if !self.transactions.contains_key(tx) {
            Ok(self)
        } else if self.transactions[tx].client != client {
            Err(Errors::SecurityErrDivergentClientId(line))
        } else if !self.transactions[tx].in_dispute || !self.accounts.contains_key(client)
            || self.accounts[client].locked {
            Ok(self)
        } else {
            Ok(
                Ledger {
                    accounts: self.accounts.insert(
                        client,
                        self.accounts[client].resolved(self.transactions[tx].amount),
                    ),
                    transactions: self.transactions.insert(tx, self.transactions[tx].marked(false)),
                },
            )
        }
    }

    /// A chargeback ends the dispute of a logged transaction, takes its
    /// amount out of the account and freezes the account. An unknown
    /// transaction changes nothing. A known one must be the client's own,
    /// under dispute or not. After that a transaction that is not under
    /// dispute, a client without an account and a frozen account change
    /// nothing.
    pub open spec fn after_chargeback(self, client: u16, tx: u32, line: u64) -> Result<
        Ledger,
        Errors,
    > {
        if !self.transactions.contains_key(tx) {
            Ok(self)
        } else if self.transactions[tx].client != client {
            Err(Errors::SecurityErrDivergentClientId(line))
        } else if !self.transactions[tx].in_dispute || !self.accounts.contains_key(client)
            || self.accounts[client].locked {
            Ok(self)
        } else {
            Ok(
                Ledger {
                    accounts: self.accounts.insert(
                        client,
                        self.accounts[client].charged_back(self.transactions[tx].amount),
                    ),
                    transactions: self.transactions.insert(tx, self.transactions[tx].marked(false)),
                },
            )
        }
    }

    /// The ledger after one record, the `line`-th of its stream, or the
    /// error that the record ends the run with. The operation is checked
    /// first, then the client, then the transaction, and the amount only
    /// where the operation needs one.
    pub open spec fn after_record(self, row: Input, line: u64) -> Result<Ledger, Errors> {
        if row.op_type is None {
            Err(Errors::InvalidOperation(line))
        } else if row.client is None {
            Err(Errors::InvalidClient(line))
        } else if row.tx is None {
            Err(Errors::InvalidTx(line))
        } else {
            let client = row.client->0;
            let tx = row.tx->0;
            match row.op_type->0 {
                Operation::Deposit => if row.amount is None {
                    Err(Errors::InvalidAmount(line))
                } else {
                    self.after_deposit(client, tx, row.amount->0, line)
                },
                Operation::Withdrawal => if row.amount is None {
                    Err(Errors::InvalidAmount(line))
                } else {
                    self.after_withdrawal(client, tx, row.amount->0, line)
                },
                Operation::Dispute => self.after_dispute(client, tx, line),
                Operation::Resolve => self.after_resolve(client, tx, line),
                Operation::Chargeback => self.after_chargeback(client, tx, line),
            }
        }
    }
}

/// What it means that an operation did what `outcome` says: it left the
/// ledger that `outcome` holds, or it returned the error that `outcome`
/// holds and left the ledger as it was.
pub open spec fn carried_out(
    before: Ledger,
    after: Ledger,
    r: Result<(), Errors>,
    outcome: Result<Ledger, Errors>,
) -> bool {
    match outcome {
        Ok(next) => r is Ok && after == next,
        Err(e) => r == Err::<(), Errors>(e) && after == before,
    }
}

/// Pays a deposit in.
pub fn deposit(
    row: Input,
    accounts: &mut HashMap<u16, AccInfo>,
    transactions: &mut HashMap<u32, Txs>,
    line: u64,
) -> (r: Result<(), Errors>)
    requires
        row.client is Some,
        row.tx is Some,
        row.amount is Some,
        Ledger::of(old(accounts)@, old(transactions)@).has_room(),
    ensures
        carried_out(
            Ledger::of(old(accounts)@, old(transactions)@),
            Ledger::of(final(accounts)@, final(transactions)@),
            r,
            Ledger::of(old(accounts)@, old(transactions)@).after_deposit(
                row.client->0,
                row.tx->0,
                row.amount->0,
                line,
            ),
        ),
{
    let client = row.client.unwrap();
    let tx = row.tx.unwrap();
    let amount = row.amount.unwrap();
    if transactions.contains_key(&tx) {
        return Err(Errors::ConflictTransaction(line));
    }
    transactions.insert(tx, Txs { client, amount, in_dispute: false });
    let units = Funds::get_amount(amount);
    match accounts.get(&client) {
        None => {
            accounts.insert(
                client,
                AccInfo { available: units, held: Funds(0), total: units, locked: false },
            );
        },
        Some(found) => {
            let account = *found;
            if !account.locked {
                accounts.insert(
                    client,
                    AccInfo {
                        available: Funds(account.available.0 + units.0),
                        held: account.held,
                        total: Funds(account.total.0 + units.0),
                        locked: account.locked,
                    },
                );
            }
            assert(accounts@ =~= old(accounts)@.insert(
                client,
                if account.locked {
                    account
                } else {
                    account.credited(units)
                },
            ));
        },
    }
    Ok(())
}

/// Pays a withdrawal out.
pub fn withdrawal(
    row: Input,
    accounts: &mut HashMap<u16, AccInfo>,
    transactions: &mut HashMap<u32, Txs>,
    line: u64,
) -> (r: Result<(), Errors>)
    requires
        row.client is Some,
        row.tx is Some,
        row.amount is Some,
        Ledger::of(old(accounts)@, old(transactions)@).has_room(),
    ensures
        carried_out(
            Ledger::of(old(accounts)@, old(transactions)@),
            Ledger::of(final(accounts)@, final(transactions)@),
            r,
            Ledger::of(old(accounts)@, old(transactions)@).after_withdrawal(
                row.client->0,
                row.tx->0,
                row.amount->0,
                line,
            ),
        ),
{
    let client = row.client.unwrap();
    let tx = row.tx.unwrap();
    let amount = row.amount.unwrap();
    if transactions.contains_key(&tx) {
        return Err(Errors::ConflictTransaction(line));
    }
    transactions.insert(tx, Txs { client, amount, in_dispute: false });
    let units = Funds::get_amount(amount);
    match accounts.get(&client) {
        None => {},
        Some(found) => {
            let account = *found;
            if !account.locked && account.available.0 >= units.0 {
                accounts.insert(
                    client,
                    AccInfo {
                        available: Funds(account.available.0 - units.0),
                        held: account.held,
                        total: Funds(account.total.0 - units.0),
                        locked: account.locked,
                    },
                );
            }
        },
    }
    Ok(())
}

/// Opens a dispute.
pub fn dispute(
    row: Input,
    accounts: &mut HashMap<u16, AccInfo>,
    transactions: &mut HashMap<u32, Txs>,
    line: u64,
) -> (r: Result<(), Errors>)
    requires
        row.client is Some,
        row.tx is Some,
        Ledger::of(old(accounts)@, old(transactions)@).has_room(),
    ensures
        carried_out(
            Ledger::of(old(accounts)@, old(transactions)@),
            Ledger::of(final(accounts)@, final(transactions)@),
            r,
            Ledger::of(old(accounts)@, old(transactions)@).after_dispute(
                row.client->0,
                row.tx->0,
                line,
            ),
        ),
{
    let client = row.client.unwrap();
    let tx = row.tx.unwrap();
    let entry = match transactions.get(&tx) {
        None => {
            return Ok(());
        },
        Some(found) => *found,
    };
    if entry.client != client {
        return Err(Errors::SecurityErrDivergentClientId(line));
    }
    let account = match accounts.get(&client) {
        None => {
            return Ok(());
        },
        Some(found) => *found,
    };
    if !account.locked {
        transactions.insert(
            tx,
            Txs { client: entry.client, amount: entry.amount, in_dispute: true },
        );
        accounts.insert(
            client,
            AccInfo {
                available: account.available.less(entry.amount),
                held: account.held.more(entry.amount),
                total: account.total,
                locked: account.locked,
            },
        );
    }
    Ok(())
}

/// Closes a dispute in the client's favour.
pub fn resolve(
    row: Input,
    accounts: &mut HashMap<u16, AccInfo>,
    transactions: &mut HashMap<u32, Txs>,
    line: u64,
) -> (r: Result<(), Errors>)
    requires
        row.client is Some,
        row.tx is Some,
        Ledger::of(old(accounts)@, old(transactions)@).has_room(),
    ensures
        carried_out(
            Ledger::of(old(accounts)@, old(transactions)@),
            Ledger::of(final(accounts)@, final(transactions)@),
            r,
            Ledger::of(old(accounts)@, old(transactions)@).after_resolve(
                row.client->0,
                row.tx->0,
                line,
            ),
        ),
{
    let client = row.client.unwrap();
    let tx = row.tx.unwrap();
    let entry = match transactions.get(&tx) {
        None => {
            return Ok(());
        },
        Some(found) => *found,
    };
    if entry.client != client {
        return Err(Errors::SecurityErrDivergentClientId(line));
    }
    if !entry.in_dispute {
        return Ok(());
    }
    let account = match accounts.get(&client) {
        None => {
            return Ok(());
        },
        Some(found) => *found,
    };
    if !account.locked {
        transactions.insert(
            tx,
            Txs { client: entry.client, amount: entry.amount, in_dispute: false },
        );
        accounts.insert(
            client,
            AccInfo {
                available: account.available.more(entry.amount),
                held: account.held.less(entry.amount),
                total: account.total,
                locked: account.locked,
            },
        );
    }
    Ok(())
}

/// Closes a dispute against the client and freezes the account.
pub fn chargeback(
    row: Input,
    accounts: &mut HashMap<u16, AccInfo>,
    transactions: &mut HashMap<u32, Txs>,
    line: u64,
) -> (r: Result<(), Errors>)
    requires
        row.client is Some,
        row.tx is Some,
        Ledger::of(old(accounts)@, old(transactions)@).has_room(),
    ensures
        carried_out(
            Ledger::of(old(accounts)@, old(transactions)@),
            Ledger::of(final(accounts)@, final(transactions)@),
            r,
            Ledger::of(old(accounts)@, old(transactions)@).after_chargeback(
                row.client->0,
                row.tx->0,
                line,
            ),
        ),
{
    let client = row.client.unwrap();
    let tx = row.tx.unwrap();
    let entry = match transactions.get(&tx) {
        None => {
            return Ok(());
        },
        Some(found) => *found,
    };
    if entry.client != client {
        return Err(Errors::SecurityErrDivergentClientId(line));
    }
    if !entry.in_dispute {
        return Ok(());
    }
    let account = match accounts.get(&client) {
        None => {
            return Ok(());
        },
        Some(found) => *found,
    };
    if !account.locked {
        transactions.insert(
            tx,
            Txs { client: entry.client, amount: entry.amount, in_dispute: false },
        );
        accounts.insert(
            client,
            AccInfo {
                available: account.available,
                held: account.held.less(entry.amount),
                total: account.total.less(entry.amount),
                locked: true,
            },
        );
    }
    Ok(())
}

/// Checks one record, the `line`-th of its stream, and carries it out.
pub fn operate_account(
    row: Input,
    accs: &mut HashMap<u16, AccInfo>,
    line: u64,
    txs: &mut HashMap<u32, Txs>,
) -> (r: Result<(), Errors>)
    requires
        Ledger::of(old(accs)@, old(txs)@).has_room(),
    ensures
        carried_out(
            Ledger::of(old(accs)@, old(txs)@),
            Ledger::of(final(accs)@, final(txs)@),
            r,
            Ledger::of(old(accs)@, old(txs)@).after_record(row, line),
        ),
        Ledger::of(old(accs)@, old(txs)@).balanced() && Ledger::of(old(accs)@, old(txs)@).plain()
            ==> Ledger::of(final(accs)@, final(txs)@).balanced(),
        forall|client: u16|
            -1 <= #[trigger] Ledger::of(final(accs)@, final(txs)@).drift_of(client) - Ledger::of(
                old(accs)@,
                old(txs)@,
            ).drift_of(client) <= 1,
        forall|client: u16| #[trigger]
            old(accs)@.contains_key(client) && old(accs)@[client].locked
                ==> final(accs)@.contains_key(client)
                && final(accs)@[client] == old(accs)@[client],
        Ledger::of(old(accs)@, old(txs)@).covers_disputes() ==> Ledger::of(
            final(accs)@,
            final(txs)@,
        ).covers_disputes(),
{
    proof {
        let before = Ledger::of(old(accs)@, old(txs)@);
        if before.covers_disputes() {
            lemma_record_keeps_cover(before, row, line);
        }
        if before.balanced() && before.plain() {
            lemma_record_keeps_balance(before, row, line);
        }
        if let Ok(next) = before.after_record(row, line) {
            assert forall|client: u16| -1 <= #[trigger] next.drift_of(client) - before.drift_of(
                client,
            ) <= 1 by {
                lemma_record_moves_drift(before, row, line, client);
            }
        }
        assert forall|client: u16| #[trigger]
            before.accounts.contains_key(client)
                && before.accounts[client].locked implies before.after_record(row, line) matches Ok(
            next,
        ) ==> next.accounts.contains_key(client) && next.accounts[client]
            == before.accounts[client] by {
            lemma_record_spares_locked(before, row, line, client);
        }
    }
    let op_type = match row.op_type {
        Some(op) => op,
        None => {
            return Err(Errors::InvalidOperation(line));
        },
    };
    if row.client.is_none() {
        return Err(Errors::InvalidClient(line));
    }
    if row.tx.is_none() {
        return Err(Errors::InvalidTx(line));
    }
    match op_type {
        Operation::Deposit => {
            if row.amount.is_none() {
                return Err(Errors::InvalidAmount(line));
            }
            deposit(row, accs, txs, line)
        },
        Operation::Withdrawal => {
            if row.amount.is_none() {
                return Err(Errors::InvalidAmount(line));
            }
            withdrawal(row, accs, txs, line)
        },
        Operation::Dispute => dispute(row, accs, txs, line),
        Operation::Resolve => resolve(row, accs, txs, line),
        Operation::Chargeback => chargeback(row, accs, txs, line),
    }
}

} // verus!

//! What the open disputes of a client claim of its account, and that the
//! account always holds at least that much.

use crate::account::{Ledger, Txs};
use crate::amount::{lemma_amount_in_range, lemma_moved, Funds, MAX_AMOUNT};
use crate::record::Input;
use vstd::prelude::*;

verus! {

/// One more than the largest transaction identifier.
pub open spec fn tx_count() -> nat {
    0x1_0000_0000
}

/// What the transaction `tx` claims of `client`: its amount if it is that
/// client's and under dispute, nothing otherwise.
pub open spec fn claim(log: Map<u32, Txs>, client: u16, tx: u32) -> int {
    if log.contains_key(tx) && log[tx].client == client && log[tx].in_dispute {
        Funds::of(log[tx].amount)@
    } else {
        0
    }
}

/// What the transactions with identifiers below `n` claim of `client`.
pub open spec fn claims_below(log: Map<u32, Txs>, client: u16, n: nat) -> int
    decreases n,
{
    if n == 0 {
        0
    } else {
        claims_below(log, client, (n - 1) as nat) + claim(log, client, (n - 1) as u32)
    }
}

/// What all the open disputes of `client` claim together.
pub open spec fn claims(log: Map<u32, Txs>, client: u16) -> int {
    claims_below(log, client, tx_count())
}

impl Ledger {
    /// Every transaction under dispute belongs to a client with an
    /// account, and every account holds at least what the open disputes of
    /// its client claim.
    pub open spec fn covers_disputes(self) -> bool {
        &&& forall|tx: u32| #[trigger]
            self.transactions.contains_key(tx) && self.transactions[tx].in_dispute
                ==> self.accounts.contains_key(self.transactions[tx].client)
        &&& forall|client: u16| #[trigger]
            self.accounts.contains_key(client) ==> self.accounts[client].held@ >= claims(
                self.transactions,
                client,
            )
    }
}

/// Claims are never negative.
pub proof fn lemma_claims_not_negative(log: Map<u32, Txs>, client: u16, n: nat)
    ensures
        claims_below(log, client, n) >= 0,
    decreases n,
{
    lemma_amount_in_range();
    if n > 0 {
        lemma_claims_not_negative(log, client, (n - 1) as nat);
    }
}

/// A client none of whose transactions is under dispute is claimed
/// nothing of.
pub proof fn lemma_no_dispute_no_claim(log: Map<u32, Txs>, client: u16, n: nat)
    requires
        forall|tx: u32| #[trigger]
            log.contains_key(tx) && log[tx].in_dispute ==> log[tx].client != client,
    ensures
        claims_below(log, client, n) == 0,
    decreases n,
{
    if n > 0 {
        lemma_no_dispute_no_claim(log, client, (n - 1) as nat);
    }
}

/// Writing one entry of the log changes the claims by what that entry's
/// claim changes.
pub proof fn lemma_claims_after_entry(
    log: Map<u32, Txs>,
    tx: u32,
    entry: Txs,
    client: u16,
    n: nat,
)
    requires
        n <= tx_count(),
    ensures
        claims_below(log.insert(tx, entry), client, n) == claims_below(log, client, n) + if tx
            < n {
            claim(log.insert(tx, entry), client, tx) - claim(log, client, tx)
        } else {
            0
        },
    decreases n,
{
    if n > 0 {
        lemma_claims_after_entry(log, tx, entry, client, (n - 1) as nat);
        let last = (n - 1) as u32;
        if last != tx {
            assert(claim(log.insert(tx, entry), client, last) == claim(log, client, last));
        }
    }
}

/// No record uncovers a dispute: if every account held what its open
/// disputes claim, it does so after the record too.
pub proof fn lemma_record_keeps_cover(ledger: Ledger, row: Input, line: u64)
    requires
        ledger.has_room(),
        ledger.covers_disputes(),
    ensures
        ledger.after_record(row, line) matches Ok(next) ==> next.covers_disputes(),
{
    lemma_amount_in_range();
    if let Ok(next) = ledger.after_record(row, line) {
        if next != ledger {
            let tx = row.tx->0;
            let written = row.client->0;
            let entry = next.transactions[tx];
            assert(next.transactions =~= ledger.transactions.insert(tx, entry));
            assert forall|other: u32| #[trigger]
                next.transactions.contains_key(other)
                    && next.transactions[other].in_dispute implies next.accounts.contains_key(
                next.transactions[other].client,
            ) by {
                if other != tx {
                    assert(ledger.transactions.contains_key(other));
                }
            }
            assert forall|client: u16| #[trigger]
                next.accounts.contains_key(client) implies next.accounts[client].held@ >= claims(
                next.transactions,
                client,
            ) by {
                lemma_claims_after_entry(ledger.transactions, tx, entry, client, tx_count());
                lemma_claims_not_negative(ledger.transactions, client, tx_count());
                if ledger.accounts.contains_key(client) {
                    let account = ledger.accounts[client];
                    assert(account.within(i128::MAX - MAX_AMOUNT));
                    assert(account.held@ >= claims(ledger.transactions, client));
                    if ledger.transactions.contains_key(tx) {
                        let amount = ledger.transactions[tx].amount;
                        lemma_moved(account.held, amount);
                        lemma_moved(account.total, amount);
                    }
                } else {
                    assert forall|other: u32| #[trigger]
                        ledger.transactions.contains_key(other)
                            && ledger.transactions[other].in_dispute
                            implies ledger.transactions[other].client != client by {
                        assert(ledger.accounts.contains_key(ledger.transactions[other].client));
                    }
                    lemma_no_dispute_no_claim(ledger.transactions, client, tx_count());
                }
            }
        }
    }
}

/// At every point of a run every account holds at least what the open
/// disputes of its client claim, and so never less than nothing.
pub proof fn lemma_records_keep_cover(records: Seq<Input>)
    requires
        records.len() <= u64::MAX,
    ensures
        Ledger::after_records(records) matches Ok(ledger) ==> ledger.covers_disputes() && forall|
            client: u16,
        | #[trigger]
            ledger.accounts.contains_key(client) ==> ledger.accounts[client].held@ >= 0,
    decreases records.len(),
{
    if records.len() > 0 {
        lemma_records_keep_cover(records.drop_last());
        crate::laws::lemma_records_reach(records.drop_last());
        if let Ok(ledger) = Ledger::after_records(records.drop_last()) {
            lemma_record_keeps_cover(ledger, records.last(), records.len() as u64);
        }
    }
    if let Ok(ledger) = Ledger::after_records(records) {
        assert forall|client: u16| #[trigger]
            ledger.accounts.contains_key(client) implies ledger.accounts[client].held@ >= 0 by {
            lemma_claims_not_negative(ledger.transactions, client, tx_count());
        }
    }
}

} // verus!

//! What holds of every record and of every stream of records.

use crate::account::{Ledger, Txs};
use crate::amount::{lemma_amount_in_range, lemma_moved, Decimal, Funds, MAX_AMOUNT};
use crate::ingest::outcome_of;
use crate::record::Input;
use vstd::prelude::*;

verus! {

/// No record moves an account's total further than one ten-thousandth
/// off the sum of what is available and what is held, or a new account's
/// at all.
pub proof fn lemma_record_moves_drift(ledger: Ledger, row: Input, line: u64, client: u16)
    requires
        ledger.has_room(),
    ensures
        ledger.after_record(row, line) matches Ok(next) ==> -1 <= next.drift_of(client)
            - ledger.drift_of(client) <= 1,
{
    lemma_amount_in_range();
    if let Ok(next) = ledger.after_record(row, line) {
        if ledger.accounts.contains_key(client) {
            let account = ledger.accounts[client];
            assert(account.within(i128::MAX - MAX_AMOUNT));
            if row.tx is Some && ledger.transactions.contains_key(row.tx->0) {
                let amount = ledger.transactions[row.tx->0].amount;
                lemma_moved(account.available, amount);
                lemma_moved(account.held, amount);
                lemma_moved(account.total, amount);
            }
        }
    }
}

/// No record unbalances an account, as long as no amount in the log lies
/// exactly halfway between two neighbouring ten-thousandths: if every
/// total was the sum of what is available and what is held, it is so
/// after the record too.
pub proof fn lemma_record_keeps_balance(ledger: Ledger, row: Input, line: u64)
    requires
        ledger.has_room(),
        ledger.balanced(),
        ledger.plain(),
    ensures
        ledger.after_record(row, line) matches Ok(next) ==> next.balanced(),
        ledger.after_record(row, line) matches Ok(next) ==> (row.amount matches Some(amount)
            ==> !amount.halfway()) ==> next.plain(),
{
    lemma_amount_in_range();
    if let Ok(next) = ledger.after_record(row, line) {
        assert forall|client: u16| #[trigger]
            next.accounts.contains_key(client) implies next.accounts[client].balanced() by {
            if ledger.accounts.contains_key(client) {
                let account = ledger.accounts[client];
                assert(account.balanced());
                assert(account.within(i128::MAX - MAX_AMOUNT));
                if row.tx is Some && ledger.transactions.contains_key(row.tx->0) {
                    let amount = ledger.transactions[row.tx->0].amount;
                    lemma_moved(account.available, amount);
                    lemma_moved(account.held, amount);
                    lemma_moved(account.total, amount);
                }
            }
        }
        if row.amount matches Some(amount) ==> !amount.halfway() {
            assert forall|tx: u32| #[trigger]
                next.transactions.contains_key(tx) implies !next.transactions[tx].amount.halfway(
            ) by {
                if ledger.transactions.contains_key(tx) {
                    assert(!ledger.transactions[tx].amount.halfway());
                }
            }
        }
    }
}

/// A frozen account stays as it is: no record changes its balances or
/// thaws it.
pub proof fn lemma_record_spares_locked(ledger: Ledger, row: Input, line: u64, client: u16)
    requires
        ledger.accounts.contains_key(client),
        ledger.accounts[client].locked,
    ensures
        ledger.after_record(row, line) matches Ok(next) ==> next.accounts.contains_key(client)
            && next.accounts[client] == ledger.accounts[client],
{
}

/// No record creates an account but a deposit for its client, and none
/// removes one.
pub proof fn lemma_record_keeps_accounts(ledger: Ledger, row: Input, line: u64, client: u16)
    ensures
        ledger.after_record(row, line) matches Ok(next) ==> {
            &&& ledger.accounts.contains_key(client) ==> next.accounts.contains_key(client)
            &&& next.accounts.contains_key(client) && !ledger.accounts.contains_key(client)
                ==> row.op_type == Some(crate::record::Operation::Deposit) && row.client == Some(
                client,
            )
        },
{
}

/// The log only grows, and only by deposits and withdrawals: no record
/// removes an entry or changes who made it or for how much, and a new
/// entry is the record's own, not under dispute.
pub proof fn lemma_record_keeps_log(ledger: Ledger, row: Input, line: u64, tx: u32)
    ensures
        ledger.after_record(row, line) matches Ok(next) ==> {
            &&& ledger.transactions.contains_key(tx) ==> next.transactions.contains_key(tx)
                && next.transactions[tx].client == ledger.transactions[tx].client
                && next.transactions[tx].amount == ledger.transactions[tx].amount
            &&& next.transactions.contains_key(tx) && !ledger.transactions.contains_key(tx) ==> {
                &&& row.op_type is Some && row.op_type->0.takes_amount()
                &&& row.tx == Some(tx)
                &&& row.client is Some && row.amount is Some
                &&& next.transactions[tx] == Txs::logged(row.client->0, row.amount->0)
            }
        },
{
}

/// A withdrawal never overdraws: what is available does not fall below
/// zero by it.
pub proof fn lemma_withdrawal_keeps_cover(
    ledger: Ledger,
    client: u16,
    tx: u32,
    amount: Decimal,
    line: u64,
)
    requires
        ledger.has_room(),
        ledger.accounts.contains_key(client),
        ledger.accounts[client].available@ >= 0,
    ensures
        ledger.after_withdrawal(client, tx, amount, line) matches Ok(next)
            ==> next.accounts.contains_key(client) && next.accounts[client].available@ >= 0,
{
    lemma_amount_in_range();
    assert(ledger.accounts[client].within(i128::MAX - MAX_AMOUNT));
}

/// A resolve undoes the dispute before it, unless the amount lies exactly
/// halfway between two neighbouring ten-thousandths: the account is as it
/// was before the dispute, and the transaction is no longer under dispute.
pub proof fn lemma_resolve_undoes_dispute(
    ledger: Ledger,
    client: u16,
    tx: u32,
    line: u64,
    next_line: u64,
)
    requires
        ledger.within(i128::MAX - 2 * MAX_AMOUNT),
        ledger.transactions.contains_key(tx),
        ledger.transactions[tx].client == client,
        !ledger.transactions[tx].amount.halfway(),
        ledger.accounts.contains_key(client),
        !ledger.accounts[client].locked,
    ensures
        ledger.after_dispute(client, tx, line) matches Ok(held) && held.after_resolve(
            client,
            tx,
            next_line,
        ) matches Ok(back) && back.accounts == ledger.accounts && back.transactions
            == ledger.transactions.insert(tx, ledger.transactions[tx].marked(false)),
{
    let account = ledger.accounts[client];
    let amount = ledger.transactions[tx].amount;
    assert(account.within(i128::MAX - 2 * MAX_AMOUNT));
    lemma_moved(account.available, amount);
    lemma_moved(account.held, amount);
    let held = ledger.after_dispute(client, tx, line)->Ok_0;
    lemma_moved(held.accounts[client].available, amount);
    lemma_moved(held.accounts[client].held, amount);
    let back = held.after_resolve(client, tx, next_line)->Ok_0;
    assert(back.accounts[client] == account);
    assert(back.accounts =~= ledger.accounts);
    assert(back.transactions =~= ledger.transactions.insert(
        tx,
        ledger.transactions[tx].marked(false),
    ));
}

/// A chargeback after a dispute takes the amount out of the account for
/// good, unless the amount lies exactly halfway between two neighbouring
/// ten-thousandths: what is held is as before the dispute, what is
/// available and the total are less by the amount, and the account is
/// frozen.
pub proof fn lemma_chargeback_after_dispute(
    ledger: Ledger,
    client: u16,
    tx: u32,
    line: u64,
    next_line: u64,
)
    requires
        ledger.within(i128::MAX - 2 * MAX_AMOUNT),
        ledger.transactions.contains_key(tx),
        ledger.transactions[tx].client == client,
        !ledger.transactions[tx].amount.halfway(),
        ledger.accounts.contains_key(client),
        !ledger.accounts[client].locked,
    ensures
        ledger.after_dispute(client, tx, line) matches Ok(held) && held.after_chargeback(
            client,
            tx,
            next_line,
        ) matches Ok(gone) && gone.accounts.contains_key(client) && ({
            let before = ledger.accounts[client];
            let after = gone.accounts[client];
            let amount = Funds::of(ledger.transactions[tx].amount);
            &&& after.held == before.held
            &&& after.available@ == before.available@ - amount@
            &&& after.total@ == before.total@ - amount@
            &&& after.locked
            &&& !gone.transactions[tx].in_dispute
        }),
{
    lemma_amount_in_range();
    let account = ledger.accounts[client];
    let amount = ledger.transactions[tx].amount;
    assert(account.within(i128::MAX - 2 * MAX_AMOUNT));
    lemma_moved(account.available, amount);
    lemma_moved(account.held, amount);
    lemma_moved(account.total, amount);
    let held = ledger.after_dispute(client, tx, line)->Ok_0;
    lemma_moved(held.accounts[client].held, amount);
}

/// One record moves every balance by at most the largest amount.
pub proof fn lemma_record_reach(ledger: Ledger, row: Input, line: u64, bound: int)
    requires
        0 <= bound <= i128::MAX - MAX_AMOUNT,
        ledger.within(bound),
    ensures
        ledger.after_record(row, line) matches Ok(next) ==> next.within(bound + MAX_AMOUNT),
{
    lemma_amount_in_range();
    if let Ok(next) = ledger.after_record(row, line) {
        assert forall|client: u16| #[trigger]
            next.accounts.contains_key(client) implies next.accounts[client].within(
            bound + MAX_AMOUNT,
        ) by {
            if ledger.accounts.contains_key(client) {
                let account = ledger.accounts[client];
                assert(account.within(bound));
                if row.tx is Some && ledger.transactions.contains_key(row.tx->0) {
                    let amount = ledger.transactions[row.tx->0].amount;
                    lemma_moved(account.available, amount);
                    lemma_moved(account.held, amount);
                    lemma_moved(account.total, amount);
                }
            }
        }
    }
}

/// After `n` records no balance is further from zero than `n` times the
/// largest amount.
pub proof fn lemma_records_reach(records: Seq<Input>)
    requires
        records.len() <= u64::MAX,
    ensures
        Ledger::after_records(records) matches Ok(ledger) ==> ledger.within(
            records.len() * MAX_AMOUNT,
        ) && ledger.has_room(),
    decreases records.len(),
{
    if records.len() > 0 {
        lemma_records_reach(records.drop_last());
        if let Ok(ledger) = Ledger::after_records(records.drop_last()) {
            let bound = records.drop_last().len() * MAX_AMOUNT;
            assert(0 <= bound <= u64::MAX * MAX_AMOUNT) by (nonlinear_arith)
                requires
                    bound == records.drop_last().len() * MAX_AMOUNT,
                    records.drop_last().len() <= u64::MAX,
                    MAX_AMOUNT >= 0,
            ;
            lemma_record_reach(ledger, records.last(), records.len() as u64, bound);
            assert(bound + MAX_AMOUNT == records.len() * MAX_AMOUNT) by (nonlinear_arith)
                requires
                    bound == (records.len() - 1) * MAX_AMOUNT,
            ;
        }
    }
    assert(records.len() * MAX_AMOUNT <= u64::MAX * MAX_AMOUNT) by (nonlinear_arith)
        requires
            records.len() <= u64::MAX,
            MAX_AMOUNT >= 0,
    ;
}

/// At every point of a run no account's total is further off the sum of
/// what is available and what is held than one ten-thousandth for each
/// record read.
pub proof fn lemma_records_keep_drift(records: Seq<Input>)
    requires
        records.len() <= u64::MAX,
    ensures
        Ledger::after_records(records) matches Ok(ledger) ==> ledger.drift_within(
            records.len() as int,
        ),
    decreases records.len(),
{
    if records.len() > 0 {
        lemma_records_keep_drift(records.drop_last());
        lemma_records_reach(records.drop_last());
        if let Ok(ledger) = Ledger::after_records(records.drop_last()) {
            if let Ok(next) = ledger.after_record(records.last(), records.len() as u64) {
                assert forall|client: u16| #[trigger]
                    next.accounts.contains_key(client) implies -records.len()
                    <= next.accounts[client].drift() <= records.len() by {
                    lemma_record_moves_drift(
                        ledger,
                        records.last(),
                        records.len() as u64,
                        client,
                    );
                    assert(next.drift_of(client) == next.accounts[client].drift());
                    if ledger.accounts.contains_key(client) {
                        assert(-(records.len() - 1) <= ledger.accounts[client].drift()
                            <= records.len() - 1);
                    }
                }
            }
        }
    }
}

/// At every point of a run every account is balanced, its total the sum
/// of what is available and what is held, as long as no amount in the
/// stream lies exactly halfway between two neighbouring ten-thousandths.
pub proof fn lemma_records_keep_balance(records: Seq<Input>)
    requires
        records.len() <= u64::MAX,
        forall|i: int|
            0 <= i < records.len() ==> ((#[trigger] records[i]).amount matches Some(amount)
                ==> !amount.halfway()),
    ensures
        Ledger::after_records(records) matches Ok(ledger) ==> ledger.balanced() && ledger.plain(),
    decreases records.len(),
{
    if records.len() > 0 {
        let front = records.drop_last();
        assert forall|i: int| 0 <= i < front.len() implies ((#[trigger] front[i]).amount matches Some(
            amount,
        ) ==> !amount.halfway()) by {
            assert(front[i] == records[i]);
        }
        lemma_records_keep_balance(front);
        lemma_records_reach(front);
        if let Ok(ledger) = Ledger::after_records(front) {
            assert(records.last() == records[records.len() - 1]);
            lemma_record_keeps_balance(ledger, records.last(), records.len() as u64);
        }
    }
}

/// A run ends with its first error: once a record was refused, whatever
/// follows it changes nothing.
pub proof fn lemma_error_ends_run(records: Seq<Input>, n: int)
    requires
        0 <= n <= records.len(),
        Ledger::after_records(records.take(n)) is Err,
    ensures
        Ledger::after_records(records) == Ledger::after_records(records.take(n)),
    decreases records.len() - n,
{
    if n < records.len() {
        assert(records.take(n + 1).drop_last() =~= records.take(n));
        lemma_error_ends_run(records, n + 1);
    } else {
        assert(records.take(n) =~= records);
    }
}

/// The error of a run names the record that was refused, and every record
/// before that one was carried out.
pub proof fn lemma_error_is_first(records: Seq<Input>)
    requires
        records.len() <= u64::MAX,
    ensures
        Ledger::after_records(records) matches Err(e) ==> 1 <= e.at() <= records.len()
            && Ledger::after_records(records.take(e.at() - 1)) is Ok,
    decreases records.len(),
{
    if records.len() > 0 {
        let front = records.drop_last();
        lemma_error_is_first(front);
        match Ledger::after_records(front) {
            Err(e) => {
                assert(front.take(e.at() - 1) =~= records.take(e.at() - 1));
            },
            Ok(ledger) => {
                assert(records.take(records.len() - 1) =~= front);
            },
        }
    }
}

/// Once a run has frozen an account, the account is the same at every
/// later point of the run.
pub proof fn lemma_locked_stays(records: Seq<Input>, n: int, client: u16)
    requires
        0 <= n <= records.len(),
        Ledger::after_records(records.take(n)) matches Ok(ledger) && ledger.accounts.contains_key(
            client,
        ) && ledger.accounts[client].locked,
        Ledger::after_records(records) is Ok,
    ensures
        Ledger::after_records(records)->Ok_0.accounts.contains_key(client),
        Ledger::after_records(records)->Ok_0.accounts[client] == Ledger::after_records(
            records.take(n),
        )->Ok_0.accounts[client],
    decreases records.len() - n,
{
    if n < records.len() {
        assert(records.take(n + 1).drop_last() =~= records.take(n));
        if Ledger::after_records(records.take(n + 1)) is Err {
            lemma_error_ends_run(records, n + 1);
        }
        lemma_record_spares_locked(
            Ledger::after_records(records.take(n))->Ok_0,
            records[n],
            (n + 1) as u64,
            client,
        );
        lemma_locked_stays(records, n + 1, client);
    } else {
        assert(records.take(n) =~= records);
    }
}

/// A run is a function of its stream: the same records, read twice from
/// an empty ledger, give the same accounts or the same error.
pub proof fn lemma_replay_agrees(first: Seq<Input>, second: Seq<Input>)
    requires
        first.len() == second.len(),
        forall|i: int| 0 <= i < first.len() ==> first[i] == second[i],
    ensures
        Ledger::after_records(first) == Ledger::after_records(second),
        outcome_of(first) == outcome_of(second),
{
    assert(first =~= second);
}

} // verus!

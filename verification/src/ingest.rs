//! A whole run: the records of a stream, one after the other, until the
//! stream ends or a record is refused.

use crate::account::{AccInfo, Ledger, Txs};
use crate::amount::MAX_AMOUNT;
use crate::disputes::lemma_records_keep_cover;
use crate::error::Errors;
use crate::laws::{
    lemma_error_ends_run, lemma_error_is_first, lemma_record_reach, lemma_records_keep_balance,
    lemma_records_keep_drift,
};
use crate::record::Input;
use crate::transactions::operate_account;
use std::collections::HashMap;
use vstd::prelude::*;

verus! {

broadcast use vstd::std_specs::hash::group_hash_axioms;

impl Ledger {
    /// The ledger after a whole stream, read in order from an empty
    /// ledger, or the error of the first record that was refused. Records
    /// are counted from one.
    pub open spec fn after_records(records: Seq<Input>) -> Result<Ledger, Errors>
        decreases records.len(),
    {
        if records.len() == 0 {
            Ok(Ledger::empty())
        } else {
            match Ledger::after_records(records.drop_last()) {
                Err(e) => Err(e),
                Ok(ledger) => ledger.after_record(records.last(), records.len() as u64),
            }
        }
    }
}

/// What a run over `records` hands back: every client's account after the
/// last record, or the error of the first record that was refused.
pub open spec fn outcome_of(records: Seq<Input>) -> Result<Map<u16, AccInfo>, Errors> {
    match Ledger::after_records(records) {
        Ok(ledger) => Ok(ledger.accounts),
        Err(e) => Err(e),
    }
}

/// Reads a stream of records in order, starting from an empty ledger, and
/// returns the accounts that it leaves. The first record that is refused
/// ends the run: its error is returned, no account is, and no later record
/// is looked at.
pub fn ingest(records: &[Input]) -> (r: Result<HashMap<u16, AccInfo>, Errors>)
    ensures
        match r {
            Ok(accounts) => outcome_of(records@) == Ok::<Map<u16, AccInfo>, Errors>(accounts@),
            Err(e) => outcome_of(records@) == Err::<Map<u16, AccInfo>, Errors>(e),
        },
        r matches Ok(accounts) ==> forall|client: u16| #[trigger]
            accounts@.contains_key(client) ==> -records@.len() <= accounts@[client].drift()
                <= records@.len() && accounts@[client].held@ >= 0,
        (forall|i: int|
            0 <= i < records@.len() ==> ((#[trigger] records@[i]).amount matches Some(amount)
                ==> !amount.halfway())) ==> (r matches Ok(accounts) ==> forall|client: u16| #[trigger]
            accounts@.contains_key(client) ==> accounts@[client].balanced()),
        r matches Err(e) ==> 1 <= e.at() <= records@.len() && Ledger::after_records(
            records@.take(e.at() - 1),
        ) is Ok,
{
    let mut accounts: HashMap<u16, AccInfo> = HashMap::new();
    let mut transactions: HashMap<u32, Txs> = HashMap::new();
    let mut i: usize = 0;
    proof {
        assert(records@.take(0) =~= Seq::<Input>::empty());
        assert(Ledger::of(accounts@, transactions@) == Ledger::empty());
    }
    while i < records.len()
        invariant
            i <= records@.len(),
            Ledger::after_records(records@.take(i as int)) == Ok::<Ledger, Errors>(
                Ledger::of(accounts@, transactions@),
            ),
            Ledger::of(accounts@, transactions@).within(i * MAX_AMOUNT),
        decreases records@.len() - i,
    {
        let line: u64 = (i + 1) as u64;
        let ghost before = Ledger::of(accounts@, transactions@);
        proof {
            assert(0 <= i * MAX_AMOUNT <= u64::MAX * MAX_AMOUNT) by (nonlinear_arith)
                requires
                    0 <= i <= u64::MAX,
                    MAX_AMOUNT >= 0,
            ;
            assert(records@.take(i + 1).drop_last() =~= records@.take(i as int));
            lemma_record_reach(before, records@[i as int], line, i * MAX_AMOUNT);
            assert(i * MAX_AMOUNT + MAX_AMOUNT == (i + 1) * MAX_AMOUNT) by (nonlinear_arith);
        }
        match operate_account(records[i], &mut accounts, line, &mut transactions) {
            Ok(()) => {},
            Err(e) => {
                proof {
                    lemma_error_ends_run(records@, i + 1);
                    lemma_error_is_first(records@);
                }
                return Err(e);
            },
        }
        i = i + 1;
    }
    proof {
        assert(records@.take(i as int) =~= records@);
        lemma_records_keep_drift(records@);
        lemma_records_keep_cover(records@);
        if forall|i: int|
            0 <= i < records@.len() ==> ((#[trigger] records@[i]).amount matches Some(amount)
                ==> !amount.halfway()) {
            lemma_records_keep_balance(records@);
        }
    }
    Ok(accounts)
}

} // verus!

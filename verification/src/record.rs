//! The records that drive the ledger.

use crate::amount::Decimal;
use vstd::prelude::*;

verus! {

/// The kind of movement a record asks for.
#[derive(Clone, Copy, Debug, PartialEq, Eq, Structural)]
pub enum Operation {
    Deposit,
    Withdrawal,
    Dispute,
    Resolve,
    Chargeback,
}

impl Operation {
    /// Whether a record of this kind must carry an amount.
    pub open spec fn takes_amount(self) -> bool {
        self is Deposit || self is Withdrawal
    }
}

/// One record of the stream. A field that could not be read is `None`,
/// never a default.
#[derive(Clone, Copy, Debug, PartialEq, Eq, Structural)]
pub struct Input {
    pub op_type: Option<Operation>,
    pub client: Option<u16>,
    pub tx: Option<u32>,
    pub amount: Option<Decimal>,
}

} // verus!

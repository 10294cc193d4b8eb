//! The errors that end a run.

use crate::text::{decimal_text, push_decimal};
use vstd::prelude::*;
use vstd::string::*;

verus! {

/// What was wrong with a record. Each variant carries the record's place
/// in the stream, counted from one.
#[derive(Clone, Copy, Debug, PartialEq, Eq, Structural)]
pub enum Errors {
    /// The record names no known operation.
    InvalidOperation(u64),
    /// The record names no client.
    InvalidClient(u64),
    /// The record names no transaction.
    InvalidTx(u64),
    /// A deposit or withdrawal carries no amount.
    InvalidAmount(u64),
    /// A deposit or withdrawal reuses the identifier of an earlier one.
    ConflictTransaction(u64),
    /// A dispute, resolve or chargeback names a transaction that another
    /// client made.
    SecurityErrDivergentClientId(u64),
}

impl Errors {
    /// The place in the stream of the record that was refused.
    pub open spec fn at(self) -> u64 {
        match self {
            Errors::InvalidOperation(line) => line,
            Errors::InvalidClient(line) => line,
            Errors::InvalidTx(line) => line,
            Errors::InvalidAmount(line) => line,
            Errors::ConflictTransaction(line) => line,
            Errors::SecurityErrDivergentClientId(line) => line,
        }
    }

    /// What the error says before it names the line.
    pub open spec fn label(self) -> Seq<char> {
        match self {
            Errors::InvalidOperation(_) => "Invalid Operation at line: "@,
            Errors::InvalidClient(_) => "Invalid Client at line: "@,
            Errors::InvalidTx(_) => "Invalid Tx at line: "@,
            Errors::InvalidAmount(_) => "Invalid Amount at line: "@,
            Errors::ConflictTransaction(_) => "Conflicting Transaction at line: "@,
            Errors::SecurityErrDivergentClientId(_) =>
                "Divergent Transaction and Client ID at line: "@,
        }
    }

    /// The error as a message: its label, then the line in decimal digits.
    pub open spec fn message(self) -> Seq<char> {
        self.label() + decimal_text(self.at() as nat)
    }

    /// The place in the stream of the record that was refused.
    pub fn line(&self) -> (line: u64)
        ensures
            line == self.at(),
    {
        match self {
            Errors::InvalidOperation(line) => *line,
            Errors::InvalidClient(line) => *line,
            Errors::InvalidTx(line) => *line,
            Errors::InvalidAmount(line) => *line,
            Errors::ConflictTransaction(line) => *line,
            Errors::SecurityErrDivergentClientId(line) => *line,
        }
    }

    /// The error as a message for a reader.
    pub fn to_string(&self) -> (text: String)
        ensures
            text@ == self.message(),
    {
        let label = match self {
            Errors::InvalidOperation(_) => "Invalid Operation at line: ",
            Errors::InvalidClient(_) => "Invalid Client at line: ",
            Errors::InvalidTx(_) => "Invalid Tx at line: ",
            Errors::InvalidAmount(_) => "Invalid Amount at line: ",
            Errors::ConflictTransaction(_) => "Conflicting Transaction at line: ",
            Errors::SecurityErrDivergentClientId(_) =>
                "Divergent Transaction and Client ID at line: ",
        };
        let mut text = String::from_str(label);
        push_decimal(&mut text, self.line() as u128);
        text
    }
}

} // verus!

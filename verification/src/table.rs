//! The accounts of a ledger as a table of text.

use crate::account::AccInfo;
use crate::text::{decimal_text, funds_text, push_decimal, push_funds};
use std::collections::HashMap;
use vstd::prelude::*;
use vstd::std_specs::iter::IteratorSpec;
use vstd::string::*;

verus! {

broadcast use vstd::std_specs::hash::group_hash_axioms;

/// The first line of the table: the names of its columns.
pub open spec fn header_text() -> Seq<char> {
    "client, available, held, total, locked"@
}

/// What separates two columns.
pub open spec fn comma_text() -> Seq<char> {
    seq![',', ' ']
}

/// A flag in words.
pub open spec fn flag_text(flag: bool) -> Seq<char> {
    if flag {
        seq!['t', 'r', 'u', 'e']
    } else {
        seq!['f', 'a', 'l', 's', 'e']
    }
}

/// The line of one account: a line break, then the client and the
/// account's four columns.
pub open spec fn row_text(client: u16, account: AccInfo) -> Seq<char> {
    seq!['\n'] + decimal_text(client as nat) + comma_text() + funds_text(account.available@)
        + comma_text() + funds_text(account.held@) + comma_text() + funds_text(account.total@)
        + comma_text() + flag_text(account.locked)
}

/// The lines of the clients in `order`, one after the other.
pub open spec fn rows_text(accounts: Map<u16, AccInfo>, order: Seq<u16>) -> Seq<char>
    decreases order.len(),
{
    if order.len() == 0 {
        Seq::empty()
    } else {
        rows_text(accounts, order.drop_last()) + row_text(order.last(), accounts[order.last()])
    }
}

/// The whole table with its rows in the given order.
pub open spec fn table_text(accounts: Map<u16, AccInfo>, order: Seq<u16>) -> Seq<char> {
    header_text() + rows_text(accounts, order)
}

/// `order` names every client of `accounts` once and nobody else.
pub open spec fn lists(order: Seq<u16>, accounts: Map<u16, AccInfo>) -> bool {
    order.no_duplicates() && order.to_set() == accounts.dom()
}

/// Writes the line of one account at the end of `out`.
fn push_row(out: &mut String, client: u16, account: &AccInfo)
    ensures
        final(out)@ == old(out)@ + row_text(client, *account),
{
    proof {
        reveal_strlit("\n");
        reveal_strlit(", ");
        reveal_strlit("true");
        reveal_strlit("false");
        assert("\n"@ =~= seq!['\n']);
        assert(", "@ =~= comma_text());
        assert("true"@ =~= flag_text(true));
        assert("false"@ =~= flag_text(false));
    }
    out.append("\n");
    push_decimal(out, client as u128);
    out.append(", ");
    push_funds(out, account.available);
    out.append(", ");
    push_funds(out, account.held);
    out.append(", ");
    push_funds(out, account.total);
    out.append(", ");
    if account.locked {
        out.append("true");
    } else {
        out.append("false");
    }
    proof {
        assert(out@ =~= old(out)@ + row_text(client, *account));
    }
}

/// Renders the accounts as a table: the header, then one line for each
/// client. The lines come in no particular order, but each client has
/// exactly one.
pub fn fmt_output(accounts: HashMap<u16, AccInfo>) -> (output: String)
    ensures
        exists|order: Seq<u16>| #[trigger]
            lists(order, accounts@) && output@ == table_text(accounts@, order),
{
    let mut output = String::from_str("client, available, held, total, locked");
    let ghost order: Seq<u16> = accounts.keys().remaining().unref();
    for client in it: accounts.keys()
        invariant
            it.seq().unref() == order,
            lists(order, accounts@),
            output@ == table_text(accounts@, order.take(it.index())),
    {
        proof {
            assert(order.take(it.index() + 1).drop_last() =~= order.take(it.index()));
            assert(order[it.index()] == *client);
            assert(order.to_set().contains(*client));
        }
        match accounts.get(client) {
            Some(account) => {
                push_row(&mut output, *client, account);
            },
            None => {
                proof {
                    assert(false);
                }
            },
        }
    }
    proof {
        assert(order.take(order.len() as int) =~= order);
    }
    output
}

} // verus!

use std::collections::HashMap;

use ledger::text::{push_decimal, push_funds};
use ledger::{fmt_output, AccInfo, Errors, Funds};

fn shown(units: i128) -> String {
    let mut out = String::new();
    push_funds(&mut out, Funds(units));
    out
}

fn counted(n: u128) -> String {
    let mut out = String::from("n=");
    push_decimal(&mut out, n);
    out
}

#[test]
fn numbers_in_decimal_digits() {
    assert_eq!(counted(0), "n=0");
    assert_eq!(counted(7), "n=7");
    assert_eq!(counted(10), "n=10");
    assert_eq!(counted(65535), "n=65535");
    assert_eq!(counted(u128::MAX), format!("n={}", u128::MAX));
}

#[test]
fn amounts_as_decimal_numbers() {
    assert_eq!(shown(0), "0");
    assert_eq!(shown(15000), "1.5");
    assert_eq!(shown(20000), "2");
    assert_eq!(shown(5803), "0.5803");
    assert_eq!(shown(20124), "2.0124");
    assert_eq!(shown(1), "0.0001");
    assert_eq!(shown(50), "0.005");
    assert_eq!(shown(100), "0.01");
    assert_eq!(shown(1000), "0.1");
    assert_eq!(shown(10001), "1.0001");
    assert_eq!(shown(1234567890), "123456.789");
    assert_eq!(shown(-40000), "-4");
    assert_eq!(shown(-5), "-0.0005");
    assert_eq!(shown(i128::MAX), "17014118346046923173168730371588410.5727");
    assert_eq!(shown(i128::MIN), "-17014118346046923173168730371588410.5728");
}

#[test]
fn amounts_are_written_behind_what_is_there() {
    let mut out = String::from("held: ");
    push_funds(&mut out, Funds(-12500));
    assert_eq!(out, "held: -1.25");
}

#[test]
fn messages_name_the_kind_and_the_line() {
    assert_eq!(Errors::InvalidOperation(2).to_string(), "Invalid Operation at line: 2");
    assert_eq!(Errors::InvalidClient(3).to_string(), "Invalid Client at line: 3");
    assert_eq!(Errors::InvalidTx(4).to_string(), "Invalid Tx at line: 4");
    assert_eq!(Errors::InvalidAmount(5).to_string(), "Invalid Amount at line: 5");
    assert_eq!(
        Errors::ConflictTransaction(120).to_string(),
        "Conflicting Transaction at line: 120"
    );
    assert_eq!(
        Errors::SecurityErrDivergentClientId(u64::MAX).to_string(),
        "Divergent Transaction and Client ID at line: 18446744073709551615"
    );
}

#[test]
fn errors_know_their_line() {
    assert_eq!(Errors::InvalidOperation(2).line(), 2);
    assert_eq!(Errors::InvalidClient(3).line(), 3);
    assert_eq!(Errors::InvalidTx(4).line(), 4);
    assert_eq!(Errors::InvalidAmount(5).line(), 5);
    assert_eq!(Errors::ConflictTransaction(6).line(), 6);
    assert_eq!(Errors::SecurityErrDivergentClientId(7).line(), 7);
}

#[test]
fn table_of_no_account() {
    assert_eq!(fmt_output(HashMap::new()), "client, available, held, total, locked");
}

#[test]
fn table_of_one_account() {
    let mut accounts = HashMap::new();
    accounts.insert(
        1,
        AccInfo { available: Funds(15000), held: Funds(0), total: Funds(15000), locked: false },
    );
    assert_eq!(
        fmt_output(accounts),
        "client, available, held, total, locked\n1, 1.5, 0, 1.5, false"
    );
}

#[test]
fn table_of_a_locked_account() {
    let mut accounts = HashMap::new();
    accounts.insert(
        65535,
        AccInfo { available: Funds(-5000), held: Funds(12345), total: Funds(7345), locked: true },
    );
    assert_eq!(
        fmt_output(accounts),
        "client, available, held, total, locked\n65535, -0.5, 1.2345, 0.7345, true"
    );
}

#[test]
fn table_has_one_line_for_each_account() {
    let mut accounts = HashMap::new();
    for client in 1..=20u16 {
        let units = client as i128 * 2500;
        accounts.insert(
            client,
            AccInfo {
                available: Funds(units),
                held: Funds(0),
                total: Funds(units),
                locked: client % 2 == 0,
            },
        );
    }
    let table = fmt_output(accounts);
    let mut lines: Vec<&str> = table.lines().collect();
    assert_eq!(lines.remove(0), "client, available, held, total, locked");
    assert_eq!(lines.len(), 20);
    lines.sort_by_key(|line| line.split(',').next().unwrap().parse::<u16>().unwrap());
    assert_eq!(lines[0], "1, 0.25, 0, 0.25, false");
    assert_eq!(lines[1], "2, 0.5, 0, 0.5, true");
    assert_eq!(lines[3], "4, 1, 0, 1, true");
    assert_eq!(lines[19], "20, 5, 0, 5, true");
}

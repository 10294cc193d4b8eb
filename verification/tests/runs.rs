use std::collections::HashMap;

use ledger::{ingest, AccInfo, Decimal, Errors, Funds, Input, Operation};

/// One row of a stream, each field as the text of its column. A field that
/// does not read is absent.
fn row(line: &str) -> Input {
    let fields: Vec<&str> = line.split(',').map(|field| field.trim()).collect();
    let field = |at: usize| fields.get(at).copied().unwrap_or("");
    let op_type = match field(0) {
        "deposit" => Some(Operation::Deposit),
        "withdrawal" => Some(Operation::Withdrawal),
        "dispute" => Some(Operation::Dispute),
        "resolve" => Some(Operation::Resolve),
        "chargeback" => Some(Operation::Chargeback),
        _ => None,
    };
    Input {
        op_type,
        client: field(1).parse().ok(),
        tx: field(2).parse().ok(),
        amount: Decimal::parse(field(3).as_bytes()),
    }
}

/// The rows of a stream below its header line.
fn rows(input: &str) -> Vec<Input> {
    input
        .lines()
        .map(|line| line.trim())
        .filter(|line| !line.is_empty())
        .skip(1)
        .map(row)
        .collect()
}

fn run(input: &str) -> Result<HashMap<u16, AccInfo>, Errors> {
    ingest(&rows(input))
}

fn funds(amount: f64) -> Funds {
    Funds((amount * 10000.0).round() as i128)
}

fn account(available: f64, held: f64, total: f64, locked: bool) -> AccInfo {
    AccInfo { available: funds(available), held: funds(held), total: funds(total), locked }
}

fn check(result: HashMap<u16, AccInfo>, expected_hashmap: &HashMap<u16, AccInfo>) {
    for (key, value) in result {
        let expected_account_info = expected_hashmap.get(&key);
        match expected_account_info {
            Some(acc) => {
                assert_eq!(acc.total, value.total);
                assert_eq!(acc.held, value.held);
                assert_eq!(acc.locked, value.locked);
                assert_eq!(acc.available, value.available);
            }
            None => assert!(false),
        }
    }
}

#[test]
fn default_test() {
    let input = "
    type, client, tx, amount
    deposit, 1, 1, 1.0
    deposit, 2, 2, 2.0
    deposit, 1, 3, 2.0
    withdrawal, 1, 4, 1.5
    withdrawal, 2, 5, 3.0";

    let mut expected_hashmap: HashMap<u16, AccInfo> = HashMap::new();

    expected_hashmap.insert(1, account(1.5, 0.0, 1.5, false));
    expected_hashmap.insert(2, account(2.0, 0.0, 2.0, false));

    let output = run(input);

    let result = output.ok().unwrap();
    assert_eq!(result.len(), 2);
    check(result, &expected_hashmap);
}

#[test]
fn four_decimal_places() {
    let input = "
    type, client, tx, amount
    deposit, 1, 1, 1.123456
    deposit, 2, 2, 2.123456
    deposit, 1, 3, 2.654321
    withdrawal, 1, 4, 1.7654321
    withdrawal, 2, 5, 1.5432345";

    let mut expected_hashmap: HashMap<u16, AccInfo> = HashMap::new();

    expected_hashmap.insert(1, account(2.0124, 0.0, 2.0124, false));
    expected_hashmap.insert(2, account(0.5803, 0.0, 0.5803, false));

    let output = run(input);

    let result = output.ok().unwrap();
    assert_eq!(result.len(), 2);
    check(result, &expected_hashmap);
}

#[test]
fn successful_dispute() {
    let input = "
    type, client, tx, amount
    deposit, 1, 1, 1.0
    deposit, 2, 2, 2.0
    deposit, 1, 3, 3.0
    withdrawal, 1, 4, 2.5
    withdrawal, 2, 5, 2.0
    dispute, 1, 1, ";

    let mut expected_hashmap: HashMap<u16, AccInfo> = HashMap::new();

    expected_hashmap.insert(1, account(0.5, 1.0, 1.5, false));
    expected_hashmap.insert(2, account(0.0, 0.0, 0.0, false));

    let output = run(input);

    let result = output.ok().unwrap();
    assert_eq!(result.len(), 2);
    check(result, &expected_hashmap);
}

#[test]
fn successful_resolve() {
    let input = "
    type, client, tx, amount
    deposit, 1, 1, 1.0
    deposit, 2, 2, 2.0
    deposit, 1, 3, 3.0
    withdrawal, 1, 4, 2.5
    withdrawal, 2, 5, 2.0
    dispute, 1, 1, 
    resolve, 1, 1, ";

    let mut expected_hashmap: HashMap<u16, AccInfo> = HashMap::new();

    expected_hashmap.insert(1, account(1.5, 0.0, 1.5, false));
    expected_hashmap.insert(2, account(0.0, 0.0, 0.0, false));

    let output = run(input);

    let result = output.ok().unwrap();
    assert_eq!(result.len(), 2);
    check(result, &expected_hashmap);
}

#[test]
fn successful_chargeback() {
    let input = "
    type, client, tx, amount
    deposit, 1, 1, 1.0
    deposit, 2, 2, 2.0
    deposit, 1, 3, 3.0
    withdrawal, 1, 4, 2.5
    withdrawal, 2, 5, 2.0
    dispute, 1, 1, 
    chargeback, 1, 1, ";

    let mut expected_hashmap: HashMap<u16, AccInfo> = HashMap::new();

    expected_hashmap.insert(1, account(0.5, 0.0, 0.5, true));
    expected_hashmap.insert(2, account(0.0, 0.0, 0.0, false));

    let output = run(input);

    let result = output.ok().unwrap();
    assert_eq!(result.len(), 2);
    check(result, &expected_hashmap);
}

#[test]
fn frozen_account_test() {
    let input = "type, client, tx, amount
    deposit, 1, 1, 1.0
    deposit, 2, 2, 2.0
    deposit, 1, 3, 3.0
    withdrawal, 1, 4, 2.5
    withdrawal, 2, 5, 2.0
    dispute, 1, 1, 
    chargeback, 1, 1, 
    deposit, 1, 6, 2.0
    withdrawal, 1, 7, 2.5
    dispute, 1, 3, 
    resolve, 1, 3, 
    dispute, 1, 4, 
    chargeback, 1, 4, ";

    let mut expected_hashmap: HashMap<u16, AccInfo> = HashMap::new();

    expected_hashmap.insert(1, account(0.5, 0.0, 0.5, true));
    expected_hashmap.insert(2, account(0.0, 0.0, 0.0, false));

    let output = run(input);

    let result = output.ok().unwrap();
    assert_eq!(result.len(), 2);
    check(result, &expected_hashmap);
}

#[test]
fn invalid_operation() {
    let input = "
    type, client, tx, amount
    deposit, 1, 1, 1.0
    test_operation, 1, 2, 3.0
    deposit, 1, 3, 3.0
    withdrawal, 1, 4, 2.5
    withdrawal, 2, 5, 3.0";

    let output = run(input);

    assert_eq!(output.err().unwrap().to_string(), "Invalid Operation at line: 2");
}

#[test]
fn invalid_clientid() {
    let input = "
    type, client, tx, amount
    deposit, 1, 1, 1.0
    deposit, 2, 2, 2.0
    deposit, invalid_client, 3, 3.0
    withdrawal, 1, 4, 1.5
    withdrawal, 2, 5, 2.0";

    let output = run(input);

    assert_eq!(output.err().unwrap().to_string(), "Invalid Client at line: 3");
}

#[test]
fn invalid_txid() {
    let expected_output = "
    type, client, tx, amount
    deposit, 1, 1, 1.0
    deposit, 2, 2, 2.0
    deposit, 1, 3, 2.0
    withdrawal, 1, invalid_tx, 1.5
    withdrawal, 2, 5, 3.0";

    let output = run(expected_output);

    assert_eq!(output.err().unwrap().to_string(), "Invalid Tx at line: 4");
}

#[test]
fn invalid_amount() {
    let expected_output = "
    type, client, tx, amount
    deposit, 1, 1, 1.0
    deposit, 2, 2, 2.0
    deposit, 1, 3, 3.0
    withdrawal, 1, 4, 1.5
    withdrawal, 2, 5, invalid_amout";

    let output = run(expected_output);

    assert_eq!(output.err().unwrap().to_string(), "Invalid Amount at line: 5");
}

#[test]
fn conflicting_transaction() {
    let expected_output = "
    type, client, tx, amount
    deposit, 1, 1, 1.0
    deposit, 2, 2, 2.0
    deposit, 1, 2, 3.0
    withdrawal, 1, 4, 2.5
    withdrawal, 2, 5, 3.0";

    let output = run(expected_output);

    assert_eq!(output.err().unwrap().to_string(), "Conflicting Transaction at line: 3");
}

#[test]
fn divergent_transaction_id() {
    let expected_output = "
    type, client, tx, amount
    deposit, 1, 1, 1.0
    deposit, 2, 2, 2.0
    deposit, 1, 3, 2.0
    withdrawal, 1, 4, 1.5
    withdrawal, 2, 5, 3.0
    dispute, 2, 1, ";

    let output = run(expected_output);

    assert_eq!(
        output.err().unwrap().to_string(),
        "Divergent Transaction and Client ID at line: 6"
    );
}

#[test]
fn resolve_missing_dispute() {
    let input = "
    type, client, tx, amount
    deposit, 1, 1, 1.0
    deposit, 2, 2, 2.0
    deposit, 1, 3, 3.0
    withdrawal, 1, 4, 2.5
    withdrawal, 2, 5, 2.0
    resolve, 2, 2, 
    deposit, 1, 6, 2.0";

    let mut expected_hashmap: HashMap<u16, AccInfo> = HashMap::new();

    expected_hashmap.insert(1, account(3.5, 0.0, 3.5, false));
    expected_hashmap.insert(2, account(0.0, 0.0, 0.0, false));

    let output = run(input);

    let result = output.ok().unwrap();
    assert_eq!(result.len(), 2);
    check(result, &expected_hashmap);
}

#[test]
fn chargeback_missing_dispute() {
    let input = "
    type, client, tx, amount
    deposit, 1, 1, 1.0
    deposit, 2, 2, 2.0
    deposit, 1, 3, 3.0
    withdrawal, 1, 4, 1.5
    withdrawal, 2, 5, 2.0
    chargeback, 1, 1, 
    deposit, 1, 6, 2.0";

    let mut expected_hashmap: HashMap<u16, AccInfo> = HashMap::new();

    expected_hashmap.insert(1, account(4.5, 0.0, 4.5, false));
    expected_hashmap.insert(2, account(0.0, 0.0, 0.0, false));

    let output = run(input);

    let result = output.ok().unwrap();
    assert_eq!(result.len(), 2);
    check(result, &expected_hashmap);
}

#[test]
fn withdrawal_missing_clientid() {
    let input = "
    type, client, tx, amount
    deposit, 1, 1, 1.0
    deposit, 1, 3, 3.0
    withdrawal, 1, 4, 1.0
    withdrawal, 2, 5, 2.0";

    let mut expected_hashmap: HashMap<u16, AccInfo> = HashMap::new();

    expected_hashmap.insert(1, account(3.0, 0.0, 3.0, false));

    let output = run(input);

    let result = output.ok().unwrap();
    assert_eq!(result.len(), 1);
    check(result, &expected_hashmap);
}

#[test]
fn dispute_missing_clientid() {
    let input = "
    type, client, tx, amount
    deposit, 1, 1, 1.0
    deposit, 1, 3, 2.5
    withdrawal, 1, 4, 1.5
    dispute, 2, 5, ";

    let mut expected_hashmap: HashMap<u16, AccInfo> = HashMap::new();

    expected_hashmap.insert(1, account(2.0, 0.0, 2.0, false));

    let output = run(input);

    let result = output.ok().unwrap();
    assert_eq!(result.len(), 1);
    check(result, &expected_hashmap);
}

#[test]
fn withdrawal_without_funds() {
    let input = "
    type, client, tx, amount
    deposit, 1, 1, 1.0
    deposit, 1, 3, 2.5
    withdrawal, 1, 4, 4.5";

    let mut expected_hashmap: HashMap<u16, AccInfo> = HashMap::new();

    expected_hashmap.insert(1, account(3.5, 0.0, 3.5, false));

    let output = run(input);

    let result = output.ok().unwrap();
    assert_eq!(result.len(), 1);
    check(result, &expected_hashmap);
}

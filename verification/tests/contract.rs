use avail_light::ledger::execute;
use avail_light::ledger::instantiate;
use avail_light::ledger::query;
use avail_light::ledger::BalancesResp;
use avail_light::ledger::ContractError;
use avail_light::ledger::ExecuteMsg;
use avail_light::ledger::InstantiateMsg;
use avail_light::ledger::Ledger;
use avail_light::ledger::QueryMsg;
use avail_light::ledger::Transfer;

fn mock_contract(balances: &Vec<(String, u128)>) -> Ledger {
    instantiate(InstantiateMsg { balances: balances.to_owned() })
}

fn query_balances(ledger: &Ledger) -> BalancesResp {
    query(ledger, QueryMsg::Balances {})
}

#[test]
fn instantiation() {
    let balances: Vec<(String, u128)> = vec![];
    let ledger = mock_contract(&balances);
    assert_eq!(query_balances(&ledger), BalancesResp { balances });

    let balances = vec![("a".to_string(), 1), ("b".to_string(), 10)];
    let ledger = mock_contract(&balances);
    assert_eq!(query_balances(&ledger), BalancesResp { balances });
}

#[test]
fn no_transfers() {
    let balances: Vec<(String, u128)> = vec![];
    let mut ledger = mock_contract(&balances);
    let msg = ExecuteMsg::TransferBalance { transfers: vec![] };

    let data = execute(&mut ledger, msg).unwrap();
    assert_eq!(data, BalancesResp { balances: vec![] });
}

#[test]
fn transfers_not_found() {
    let balances = vec![("a".to_string(), 1), ("b".to_string(), 10)];
    let mut ledger = mock_contract(&balances);
    let transfer = Transfer { from: "a".to_string(), to: "c".to_string(), amount: 1 };
    let msg = ExecuteMsg::TransferBalance { transfers: vec![transfer] };

    let error = execute(&mut ledger, msg).unwrap_err();

    assert_eq!(ContractError::NotFound { addr: "c".to_string() }, error);
}

#[test]
fn transfers_insufficient_balance() {
    let balances = vec![("a".to_string(), 1), ("b".to_string(), 10)];
    let mut ledger = mock_contract(&balances);
    let transfer = Transfer { from: "a".to_string(), to: "b".to_string(), amount: 1 };
    let msg = ExecuteMsg::TransferBalance { transfers: vec![transfer] };

    execute(&mut ledger, msg.clone()).unwrap();
    let error = execute(&mut ledger, msg).unwrap_err();

    assert_eq!(ContractError::InsufficientBalance, error);
}

#[test]
fn transfers() {
    let balances = vec![("a".to_string(), 9), ("b".to_string(), 1)];
    let mut ledger = mock_contract(&balances);
    let transfer = Transfer { from: "a".to_string(), to: "b".to_string(), amount: 4 };
    let msg = ExecuteMsg::TransferBalance { transfers: vec![transfer] };

    let balances_resp = execute(&mut ledger, msg).unwrap();

    let expected = BalancesResp {
        balances: vec![("a".to_string(), 5), ("b".to_string(), 5)],
    };

    assert_eq!(balances_resp, expected);
    assert_eq!(query_balances(&ledger), expected);
}

#[test]
fn duplicate_initial_keys_keep_the_last_value() {
    let balances = vec![("a".to_string(), 1), ("a".to_string(), 7)];
    let ledger = mock_contract(&balances);
    let expected = BalancesResp {
        balances: vec![("a".to_string(), 7), ("a".to_string(), 7)],
    };
    assert_eq!(query_balances(&ledger), expected);
}

#[test]
fn failed_batch_leaves_the_ledger_unchanged() {
    let balances = vec![("a".to_string(), 5), ("b".to_string(), 5)];
    let mut ledger = mock_contract(&balances);
    let good = Transfer { from: "a".to_string(), to: "b".to_string(), amount: 3 };
    let bad = Transfer { from: "a".to_string(), to: "b".to_string(), amount: 100 };
    let msg = ExecuteMsg::TransferBalance { transfers: vec![good, bad] };

    let error = execute(&mut ledger, msg).unwrap_err();
    assert_eq!(error, ContractError::InsufficientBalance);
    assert_eq!(query_balances(&ledger), BalancesResp { balances });
}

#[test]
fn credits_saturate_at_the_limit() {
    let balances = vec![("a".to_string(), 10), ("b".to_string(), u128::MAX)];
    let mut ledger = mock_contract(&balances);
    let transfer = Transfer { from: "a".to_string(), to: "b".to_string(), amount: 10 };
    let msg = ExecuteMsg::TransferBalance { transfers: vec![transfer] };

    let resp = execute(&mut ledger, msg).unwrap();
    let expected = BalancesResp {
        balances: vec![("a".to_string(), 0), ("b".to_string(), u128::MAX)],
    };
    assert_eq!(resp, expected);
}

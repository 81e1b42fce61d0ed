use move_parser::aggregate::{complete_transactions, pair_transactions_with_info, AggregateService, MissingValue};

#[test]
fn new_keeps_the_service() {
    let s = AggregateService::new(42u32);
    assert_eq!(*s.rpc_service(), 42);
}

#[test]
fn pairs_transactions_with_infos() {
    let r = pair_transactions_with_info(vec![Some("t1"), None, Some("t3")], vec![Some(1), Some(2), None]);
    assert_eq!(r, vec![Some(("t1", Some(1))), None, Some(("t3", None))]);
}

#[test]
fn pairing_stops_at_shorter_list() {
    let r = pair_transactions_with_info(vec![Some(1), Some(2)], vec![Some('a')]);
    assert_eq!(r, vec![Some((1, Some('a')))]);
}

#[test]
fn completes_when_all_found() {
    let r = complete_transactions(2, vec![Some("a"), Some("b")], vec![Some(1), Some(2)]);
    assert_eq!(r, Ok(vec![("a", 1), ("b", 2)]));
}

#[test]
fn missing_ledger_transaction() {
    let r = complete_transactions(2, vec![Some("a"), None], vec![Some(1), None]);
    assert_eq!(r, Err(MissingValue::LedgerTransaction(1)));
}

#[test]
fn missing_execution_info() {
    let r = complete_transactions(3, vec![Some("a"), Some("b"), None], vec![Some(1), None, Some(3)]);
    assert_eq!(r, Err(MissingValue::ExecutionInfo(1)));
}

#[test]
fn completion_covers_common_positions() {
    let r = complete_transactions(5, vec![Some("a"), Some("b")], vec![Some(1), Some(2), Some(3)]);
    assert_eq!(r, Ok(vec![("a", 1), ("b", 2)]));
    let r = complete_transactions(1, vec![Some("a"), None], vec![Some(1), None]);
    assert_eq!(r, Ok(vec![("a", 1)]));
}

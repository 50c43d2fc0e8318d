use popula_drip::{
    pair_replies, CollectRequest, Contract, DripError, MissingCoefficient, PromiseOutcome, Report, WeightTable,
};

const TGAS: u64 = 1_000_000_000_000;

fn s(x: &str) -> String {
    x.to_string()
}

fn src(x: &str) -> Option<String> {
    Some(x.to_string())
}

fn contract() -> Contract {
    let table = WeightTable { coefficients: vec![(s("x"), 2), (s("y"), 3)], missing: MissingCoefficient::Ignore };
    Contract::new(s("popula.near"), s("drip.popula.near"), table, 100)
}

fn request(collects: &[&str], attached: u128, prepaid_gas: u64) -> CollectRequest {
    CollectRequest {
        sender_id: s("alice.near"),
        collects: collects.iter().map(|c| s(c)).collect(),
        attached_deposit: attached,
        storage_available: 0,
        storage_byte_cost: 10,
        prepaid_gas,
    }
}

fn ok(body: &str) -> PromiseOutcome {
    PromiseOutcome::Successful(body.as_bytes().to_vec())
}

#[test]
fn batch_keeps_trusted_sources_in_request_order() {
    let mut c = contract();
    let batch = c.ft_collect(&request(&["a.popula.near", "b.evil.near", "c.popula.near"], 2_000, 100 * TGAS)).unwrap();
    assert_eq!(batch.account_id, s("alice.near"));
    assert_eq!(batch.collects, vec![s("a.popula.near"), s("c.popula.near")]);
    assert!(c.token.is_registered(&s("alice.near")));
    assert_eq!(c.token.ft_total_supply(), 0);
}

#[test]
fn replies_are_credited_to_the_source_at_their_position() {
    let mut c = contract();
    let batch = c.ft_collect(&request(&["a.popula.near", "b.evil.near", "c.popula.near"], 2_000, 100 * TGAS)).unwrap();
    // The host hands results back in batch order, whichever call finished first.
    let results = vec![ok(r#""5""#), ok(r#""7""#)];
    assert_eq!(c.resolve_collect(&batch.collects, &batch.account_id, &results), Ok(()));
    assert_eq!(c.token.ft_balance_by_contract(&s("alice.near"), &src("a.popula.near")), 5);
    assert_eq!(c.token.ft_balance_by_contract(&s("alice.near"), &src("c.popula.near")), 7);
    assert_eq!(c.token.ft_balance_by_contract(&s("alice.near"), &src("b.evil.near")), 0);
    assert!(!c.token.has_slot(&s("alice.near"), &src("b.evil.near")));
    assert_eq!(c.token.ft_total_supply(), 12);
}

#[test]
fn failed_and_unreadable_replies_credit_nothing() {
    let mut c = contract();
    let batch = c.ft_collect(&request(&["a.popula.near", "c.popula.near", "d.popula.near"], 3_000, 100 * TGAS)).unwrap();
    let results = vec![PromiseOutcome::Failed, ok("not json"), ok(r#"{"x": 10, "y": 4}"#)];
    assert_eq!(c.resolve_collect(&batch.collects, &batch.account_id, &results), Ok(()));
    assert_eq!(c.token.ft_balance_by_contract(&s("alice.near"), &src("a.popula.near")), 0);
    assert_eq!(c.token.ft_balance_by_contract(&s("alice.near"), &src("c.popula.near")), 0);
    assert!(!c.token.has_slot(&s("alice.near"), &src("c.popula.near")));
    assert_eq!(c.token.ft_balance_by_contract(&s("alice.near"), &src("d.popula.near")), 32);
    assert_eq!(c.token.ft_total_supply(), 32);
}

#[test]
fn pairing_follows_positions_and_drops_unmatched_results() {
    let collects = vec![s("a.popula.near"), s("c.popula.near")];
    let results = vec![ok(r#""1""#), PromiseOutcome::NotReady, ok(r#""3""#)];
    let pairs = pair_replies(&collects, &results);
    assert_eq!(pairs.len(), 1);
    assert_eq!(pairs[0].0, s("a.popula.near"));
    match &pairs[0].1 {
        Report::Amount(n) => assert_eq!(*n, 1),
        other => panic!("unexpected {:?}", other),
    }
}

#[test]
fn settlement_of_unregistered_account_fails_and_changes_nothing() {
    let mut c = contract();
    let reports = vec![(s("a.popula.near"), Report::Amount(4))];
    assert_eq!(c.settle_collect(&s("bob.near"), &reports), Err(DripError::NotRegistered));
    assert_eq!(c.token.ft_total_supply(), 0);
    let nothing = vec![(s("a.popula.near"), Report::Amount(0)), (s("b.evil.near"), Report::Amount(9))];
    assert_eq!(c.settle_collect(&s("bob.near"), &nothing), Ok(()));
}

#[test]
fn settlement_that_would_overflow_the_supply_applies_no_credit() {
    let mut c = contract();
    c.token.internal_register_account(&s("alice.near")).unwrap();
    let reports = vec![
        (s("a.popula.near"), Report::Amount(u128::MAX - 1)),
        (s("c.popula.near"), Report::Amount(5)),
    ];
    assert_eq!(c.settle_collect(&s("alice.near"), &reports), Err(DripError::SupplyOverflow));
    assert_eq!(c.token.ft_total_supply(), 0);
    assert!(!c.token.has_slot(&s("alice.near"), &src("a.popula.near")));
}

#[test]
fn untrusted_source_is_never_credited() {
    let mut c = contract();
    c.token.internal_register_account(&s("alice.near")).unwrap();
    assert_eq!(c.internal_set_drip(9, &s("b.evil.near"), &s("alice.near")), Ok(()));
    assert_eq!(c.token.ft_total_supply(), 0);
    assert_eq!(c.internal_set_drip(9, &s("a.popula.near"), &s("alice.near")), Ok(()));
    assert_eq!(c.token.ft_balance_by_contract(&s("alice.near"), &src("a.popula.near")), 9);
}

#[test]
fn request_beyond_budget_is_refused_before_any_call() {
    let mut c = contract();
    // Two calls and the reconciliation need 27 Tgas; 60 - 50 leaves 10.
    let r = c.ft_collect(&request(&["a.popula.near", "c.popula.near"], 2_000, 60 * TGAS));
    assert!(matches!(r, Err(DripError::InsufficientBudget)));
    assert!(!c.token.is_registered(&s("alice.near")));
    assert_eq!(c.token.ft_total_supply(), 0);
    let r = c.ft_collect(&request(&["a.popula.near"], 2_000, 10 * TGAS));
    assert!(matches!(r, Err(DripError::InsufficientBudget)));
}

#[test]
fn budget_exactly_covering_the_batch_is_enough() {
    let mut c = contract();
    let r = c.ft_collect(&request(&["a.popula.near", "c.popula.near"], 2_000, 77 * TGAS));
    assert!(r.is_ok());
}

#[test]
fn request_with_no_trusted_source_is_refused() {
    let mut c = contract();
    let r = c.ft_collect(&request(&["b.evil.near"], 2_000, 100 * TGAS));
    assert!(matches!(r, Err(DripError::NothingToCollect)));
    let r = c.ft_collect(&request(&[], 2_000, 100 * TGAS));
    assert!(matches!(r, Err(DripError::NothingToCollect)));
    assert!(!c.token.is_registered(&s("alice.near")));
}

#[test]
fn new_caller_must_pay_for_registration() {
    let mut c = contract();
    let r = c.ft_collect(&request(&["a.popula.near"], 999, 100 * TGAS));
    assert!(matches!(r, Err(DripError::InsufficientDeposit)));
    assert!(!c.token.is_registered(&s("alice.near")));
}

#[test]
fn new_slots_are_charged_against_credit_and_payment() {
    let mut c = contract();
    // Registration cost is 100 bytes at 10 each; three new slots cost 3000.
    let r = c.ft_collect(&request(&["a.popula.near", "c.popula.near", "d.popula.near"], 2_999, 100 * TGAS));
    assert!(matches!(r, Err(DripError::InsufficientDeposit)));
    c.token.internal_register_account(&s("alice.near")).unwrap();
    c.token.internal_deposit(&s("alice.near"), 1, &src("a.popula.near")).unwrap();
    let mut req = request(&["a.popula.near", "c.popula.near", "d.popula.near"], 1_000, 100 * TGAS);
    req.storage_available = 999;
    assert!(matches!(c.ft_collect(&req), Err(DripError::InsufficientDeposit)));
    req.storage_available = 1_000;
    assert!(c.ft_collect(&req).is_ok());
}

#[test]
fn only_the_owner_edits_the_allow_list() {
    let mut c = contract();
    assert_eq!(c.set_white_list(&s("mallory.near"), s("b.evil.near"), false), Err(DripError::Unauthorized));
    assert!(c.white_list.is_empty());
    assert_eq!(c.set_white_list(&s("popula.near"), s("b.evil.near"), false), Ok(()));
    assert_eq!(c.set_white_list(&s("popula.near"), s("b.evil.near"), false), Ok(()));
    assert_eq!(c.white_list, vec![s("b.evil.near")]);
    let batch = c.ft_collect(&request(&["b.evil.near"], 2_000, 100 * TGAS)).unwrap();
    assert_eq!(batch.collects, vec![s("b.evil.near")]);
    assert_eq!(c.set_white_list(&s("popula.near"), s("b.evil.near"), true), Ok(()));
    assert!(c.white_list.is_empty());
}

#[test]
fn weighting_table_is_readable() {
    let c = contract();
    assert_eq!(c.get_coe_map(), vec![(s("x"), 2), (s("y"), 3)]);
}

#[test]
fn storage_fee_is_compared_exactly_at_the_extremes() {
    let mut c = contract();
    c.token.internal_register_account(&s("alice.near")).unwrap();
    let mut req = request(&["a.popula.near", "c.popula.near"], u128::MAX, 100 * TGAS);
    req.storage_available = u128::MAX;
    req.storage_byte_cost = u128::MAX / 100;
    assert!(c.ft_collect(&req).is_ok());
    let mut req = request(&["a.popula.near", "c.popula.near", "d.popula.near"], u128::MAX, 100 * TGAS);
    req.storage_available = u128::MAX;
    req.storage_byte_cost = u128::MAX / 100;
    assert!(matches!(c.ft_collect(&req), Err(DripError::InsufficientDeposit)));
}

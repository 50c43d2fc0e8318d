use popula_drip::{
    decode_burn_reply, redemption_state, refund_amount, BurnReply, DripError, FungibleToken, PromiseOutcome,
    RedemptionState,
};

const TGAS: u64 = 1_000_000_000_000;

fn s(x: &str) -> String {
    x.to_string()
}

fn src(x: &str) -> Option<String> {
    Some(x.to_string())
}

fn funded() -> FungibleToken {
    let mut t = FungibleToken::new(0);
    t.internal_register_account(&s("alice.near")).unwrap();
    t.internal_deposit(&s("alice.near"), 100, &src("shop.popula.near")).unwrap();
    t
}

fn ok(body: &str) -> PromiseOutcome {
    PromiseOutcome::Successful(body.as_bytes().to_vec())
}

fn balance(t: &FungibleToken) -> u128 {
    t.ft_balance_by_contract(&s("alice.near"), &src("shop.popula.near"))
}

#[test]
fn debit_happens_before_the_remote_call() {
    let mut t = funded();
    let call = t.ft_burn_call(&s("alice.near"), s("shop.popula.near"), 100, s("order-7"), 1, 100 * TGAS).unwrap();
    assert_eq!(balance(&t), 0);
    assert_eq!(t.ft_total_supply(), 0);
    assert_eq!(call.contract_id, s("shop.popula.near"));
    assert_eq!(call.owner_id, s("alice.near"));
    assert_eq!(call.amount, 100);
    assert_eq!(call.msg, s("order-7"));
    assert_eq!(call.gas, 70 * TGAS);
}

#[test]
fn partial_use_refunds_the_unused_part() {
    let mut t = funded();
    t.ft_burn_call(&s("alice.near"), s("shop.popula.near"), 100, s(""), 1, 100 * TGAS).unwrap();
    let used = t.ft_resolve_burn(&s("alice.near"), 100, &s("shop.popula.near"), &ok(r#""30""#)).unwrap();
    assert_eq!(used, 70);
    assert_eq!(balance(&t), 30);
    assert_eq!(t.ft_total_supply(), 30);
}

#[test]
fn failed_call_restores_the_balance() {
    let mut t = funded();
    t.ft_burn_call(&s("alice.near"), s("shop.popula.near"), 100, s(""), 1, 100 * TGAS).unwrap();
    let used = t.ft_resolve_burn(&s("alice.near"), 100, &s("shop.popula.near"), &PromiseOutcome::Failed).unwrap();
    assert_eq!(used, 0);
    assert_eq!(balance(&t), 100);
    assert_eq!(t.ft_total_supply(), 100);
}

#[test]
fn unreadable_reply_restores_the_balance() {
    let mut t = funded();
    t.ft_burn_call(&s("alice.near"), s("shop.popula.near"), 40, s(""), 1, 100 * TGAS).unwrap();
    assert_eq!(t.ft_resolve_burn(&s("alice.near"), 40, &s("shop.popula.near"), &ok("{oops")), Ok(0));
    assert_eq!(balance(&t), 100);
}

#[test]
fn empty_reply_or_zero_unused_finalizes_the_debit() {
    let mut t = funded();
    t.ft_burn_call(&s("alice.near"), s("shop.popula.near"), 40, s(""), 1, 100 * TGAS).unwrap();
    assert_eq!(t.ft_resolve_burn(&s("alice.near"), 40, &s("shop.popula.near"), &ok("")), Ok(40));
    assert_eq!(balance(&t), 60);
    t.ft_burn_call(&s("alice.near"), s("shop.popula.near"), 10, s(""), 1, 100 * TGAS).unwrap();
    assert_eq!(t.ft_resolve_burn(&s("alice.near"), 10, &s("shop.popula.near"), &ok(r#""0""#)), Ok(10));
    assert_eq!(balance(&t), 50);
}

#[test]
fn unused_amount_above_the_debit_refunds_the_debit_only() {
    let mut t = funded();
    t.ft_burn_call(&s("alice.near"), s("shop.popula.near"), 40, s(""), 1, 100 * TGAS).unwrap();
    assert_eq!(t.internal_ft_resolve_burn(&s("alice.near"), 40, &s("shop.popula.near"), &BurnReply::Unused(500)), Ok((0, 0)));
    assert_eq!(balance(&t), 100);
}

#[test]
fn redemption_requires_exact_payment_budget_and_balance() {
    let mut t = funded();
    let r = t.ft_burn_call(&s("alice.near"), s("shop.popula.near"), 10, s(""), 0, 100 * TGAS);
    assert!(matches!(r, Err(DripError::InsufficientDeposit)));
    let r = t.ft_burn_call(&s("alice.near"), s("shop.popula.near"), 10, s(""), 2, 100 * TGAS);
    assert!(matches!(r, Err(DripError::InsufficientDeposit)));
    let r = t.ft_burn_call(&s("alice.near"), s("shop.popula.near"), 10, s(""), 1, 30 * TGAS);
    assert!(matches!(r, Err(DripError::InsufficientBudget)));
    let r = t.ft_burn_call(&s("alice.near"), s("shop.popula.near"), 101, s(""), 1, 100 * TGAS);
    assert!(matches!(r, Err(DripError::InsufficientBalance)));
    let r = t.ft_burn_call(&s("bob.near"), s("shop.popula.near"), 1, s(""), 1, 100 * TGAS);
    assert!(matches!(r, Err(DripError::NotRegistered)));
    assert_eq!(balance(&t), 100);
}

#[test]
fn refund_and_state_follow_the_reply() {
    assert_eq!(refund_amount(100, &BurnReply::Unused(30)), 30);
    assert_eq!(refund_amount(100, &BurnReply::Unused(300)), 100);
    assert_eq!(refund_amount(100, &BurnReply::Empty), 0);
    assert_eq!(refund_amount(100, &BurnReply::Unreadable), 100);
    assert_eq!(refund_amount(100, &BurnReply::Failed), 100);
    assert_eq!(redemption_state(100, 30), RedemptionState::PartiallyRefunded);
    assert_eq!(redemption_state(100, 100), RedemptionState::Refunded);
    assert_eq!(redemption_state(100, 0), RedemptionState::Finalized);
}

#[test]
fn acceptance_outcomes_decode() {
    assert_eq!(decode_burn_reply(&ok(r#""30""#)), BurnReply::Unused(30));
    assert_eq!(decode_burn_reply(&ok("")), BurnReply::Empty);
    assert_eq!(decode_burn_reply(&ok("30")), BurnReply::Unreadable);
    assert_eq!(decode_burn_reply(&PromiseOutcome::Failed), BurnReply::Failed);
    assert_eq!(decode_burn_reply(&PromiseOutcome::NotReady), BurnReply::Failed);
}

use popula_drip::{DripError, FungibleToken};

fn s(x: &str) -> String {
    x.to_string()
}

fn src(x: &str) -> Option<String> {
    Some(x.to_string())
}

#[test]
fn deposit_then_withdraw_moves_slot_and_supply_together() {
    let mut t = FungibleToken::new(128);
    assert_eq!(t.internal_register_account(&s("alice.near")), Ok(()));
    assert_eq!(t.internal_deposit(&s("alice.near"), 50, &src("a.popula.near")), Ok(()));
    assert_eq!(t.ft_balance_by_contract(&s("alice.near"), &src("a.popula.near")), 50);
    assert_eq!(t.ft_total_supply(), 50);
    assert_eq!(t.internal_withdraw(&s("alice.near"), 20, &src("a.popula.near")), Ok(()));
    assert_eq!(t.ft_balance_by_contract(&s("alice.near"), &src("a.popula.near")), 30);
    assert_eq!(t.ft_total_supply(), 30);
    assert_eq!(t.account_storage_usage(), 128);
}

#[test]
fn general_slot_is_separate_from_source_slots() {
    let mut t = FungibleToken::new(0);
    t.internal_register_account(&s("alice.near")).unwrap();
    t.internal_deposit(&s("alice.near"), 7, &None).unwrap();
    t.internal_deposit(&s("alice.near"), 5, &src("a.popula.near")).unwrap();
    assert_eq!(t.ft_balance_of(&s("alice.near")), 7);
    assert_eq!(t.ft_balance_by_contract(&s("alice.near"), &None), 7);
    assert_eq!(t.ft_balance_by_contract(&s("alice.near"), &src("a.popula.near")), 5);
    assert_eq!(t.ft_total_supply(), 12);
}

#[test]
fn total_supply_equals_sum_of_slots_after_many_operations() {
    let mut t = FungibleToken::new(0);
    let accounts = ["alice.near", "bob.near"];
    let sources = [None, src("a.popula.near"), src("b.popula.near")];
    for a in accounts.iter() {
        t.internal_register_account(&s(a)).unwrap();
    }
    let mut step: u128 = 1;
    for a in accounts.iter() {
        for so in sources.iter() {
            t.internal_deposit(&s(a), step * 10, so).unwrap();
            step += 1;
        }
    }
    t.internal_withdraw(&s("alice.near"), 5, &src("a.popula.near")).unwrap();
    t.internal_withdraw(&s("bob.near"), 60, &src("b.popula.near")).unwrap();
    assert_eq!(
        t.internal_withdraw(&s("bob.near"), 1_000, &None),
        Err(DripError::InsufficientBalance)
    );
    let mut sum: u128 = 0;
    for a in accounts.iter() {
        for so in sources.iter() {
            sum += t.ft_balance_by_contract(&s(a), so);
        }
    }
    assert_eq!(sum, t.ft_total_supply());
    assert_eq!(sum, 10 + 20 + 30 + 40 + 50 + 60 - 5 - 60);
}

#[test]
fn withdraw_more_than_balance_fails_and_changes_nothing() {
    let mut t = FungibleToken::new(0);
    t.internal_register_account(&s("alice.near")).unwrap();
    t.internal_deposit(&s("alice.near"), 10, &src("a.popula.near")).unwrap();
    assert_eq!(
        t.internal_withdraw(&s("alice.near"), 11, &src("a.popula.near")),
        Err(DripError::InsufficientBalance)
    );
    assert_eq!(t.ft_balance_by_contract(&s("alice.near"), &src("a.popula.near")), 10);
    assert_eq!(t.ft_total_supply(), 10);
}

#[test]
fn withdraw_from_missing_slot_fails_unless_zero() {
    let mut t = FungibleToken::new(0);
    t.internal_register_account(&s("alice.near")).unwrap();
    assert_eq!(
        t.internal_withdraw(&s("alice.near"), 1, &src("a.popula.near")),
        Err(DripError::InsufficientBalance)
    );
    assert_eq!(t.internal_withdraw(&s("alice.near"), 0, &src("a.popula.near")), Ok(()));
    assert!(!t.has_slot(&s("alice.near"), &src("a.popula.near")));
}

#[test]
fn deposit_that_overflows_the_slot_fails_with_balance_overflow() {
    let mut t = FungibleToken::new(0);
    t.internal_register_account(&s("alice.near")).unwrap();
    t.internal_deposit(&s("alice.near"), u128::MAX, &None).unwrap();
    assert_eq!(
        t.internal_deposit(&s("alice.near"), 1, &None),
        Err(DripError::BalanceOverflow)
    );
    assert_eq!(t.ft_balance_of(&s("alice.near")), u128::MAX);
    assert_eq!(t.ft_total_supply(), u128::MAX);
}

#[test]
fn deposit_that_overflows_the_supply_fails_with_supply_overflow() {
    let mut t = FungibleToken::new(0);
    t.internal_register_account(&s("alice.near")).unwrap();
    t.internal_register_account(&s("bob.near")).unwrap();
    t.internal_deposit(&s("alice.near"), u128::MAX - 1, &None).unwrap();
    assert_eq!(
        t.internal_deposit(&s("bob.near"), 2, &None),
        Err(DripError::SupplyOverflow)
    );
    assert_eq!(t.ft_balance_of(&s("bob.near")), 0);
    assert!(!t.has_slot(&s("bob.near"), &None));
    assert_eq!(t.ft_total_supply(), u128::MAX - 1);
}

#[test]
fn unregistered_account_cannot_be_credited_or_debited() {
    let mut t = FungibleToken::new(0);
    assert_eq!(
        t.internal_deposit(&s("ghost.near"), 1, &None),
        Err(DripError::NotRegistered)
    );
    assert_eq!(
        t.internal_withdraw(&s("ghost.near"), 0, &None),
        Err(DripError::NotRegistered)
    );
    assert_eq!(t.ft_total_supply(), 0);
    assert_eq!(t.ft_balance_of(&s("ghost.near")), 0);
    assert_eq!(t.ft_balance_by_contract(&s("ghost.near"), &src("a.popula.near")), 0);
}

#[test]
fn second_registration_fails() {
    let mut t = FungibleToken::new(0);
    assert!(!t.is_registered(&s("alice.near")));
    assert_eq!(t.internal_register_account(&s("alice.near")), Ok(()));
    assert!(t.is_registered(&s("alice.near")));
    assert_eq!(
        t.internal_register_account(&s("alice.near")),
        Err(DripError::AlreadyRegistered)
    );
}

use frankolang::{FrankolangError, FrankolangErrorKind, State};

fn key(fill: u8) -> [u8; 32] {
    [fill; 32]
}

fn failed(kind: FrankolangErrorKind) -> Result<(), FrankolangError> {
    Err(FrankolangError::new(kind))
}

#[test]
fn new_ledger_is_empty() {
    let state = State::new();
    assert_eq!(state.account_count(), 0);
    assert_eq!(state.total(), 0);
    assert_eq!(state.balance(key(1)), None);
}

#[test]
fn add_account_starts_at_zero() {
    let mut state = State::new();
    state.add_account(key(1));
    assert_eq!(state.account_count(), 1);
    assert_eq!(state.balance(key(1)), Some(0));
    assert_eq!(state.balance(key(2)), None);
}

#[test]
fn add_account_twice_is_add_account_once() {
    let mut once = State::new();
    once.add_account(key(1));
    once.raise_balance(key(1), 7).unwrap();
    let mut twice = State::new();
    twice.add_account(key(1));
    twice.raise_balance(key(1), 7).unwrap();
    twice.add_account(key(1));
    assert_eq!(twice.account_count(), once.account_count());
    assert_eq!(twice.balance(key(1)), once.balance(key(1)));
    assert_eq!(twice.balance(key(1)), Some(7));
    assert_eq!(twice.total(), 7);
}

#[test]
fn keys_that_differ_in_the_last_byte_are_different_accounts() {
    let mut other = key(1);
    other[31] = 2;
    let mut state = State::new();
    state.add_account(key(1));
    state.add_account(other);
    state.raise_balance(other, 5).unwrap();
    assert_eq!(state.account_count(), 2);
    assert_eq!(state.balance(key(1)), Some(0));
    assert_eq!(state.balance(other), Some(5));
}

#[test]
fn raise_balance_adds() {
    let mut state = State::new();
    state.add_account(key(1));
    assert_eq!(state.raise_balance(key(1), 40), Ok(()));
    assert_eq!(state.raise_balance(key(1), 2), Ok(()));
    assert_eq!(state.balance(key(1)), Some(42));
    assert_eq!(state.total(), 42);
}

#[test]
fn lower_balance_subtracts() {
    let mut state = State::new();
    state.add_account(key(1));
    state.raise_balance(key(1), 42).unwrap();
    assert_eq!(state.lower_balance(key(1), 40), Ok(()));
    assert_eq!(state.balance(key(1)), Some(2));
    assert_eq!(state.total(), 2);
    assert_eq!(state.lower_balance(key(1), 2), Ok(()));
    assert_eq!(state.balance(key(1)), Some(0));
}

#[test]
fn raise_balance_on_unknown_account_fails() {
    let mut state = State::new();
    state.add_account(key(1));
    assert_eq!(
        state.raise_balance(key(2), 1),
        failed(FrankolangErrorKind::UnknownAccount)
    );
    assert_eq!(state.account_count(), 1);
    assert_eq!(state.balance(key(2)), None);
    assert_eq!(state.total(), 0);
}

#[test]
fn lower_balance_on_unknown_account_fails() {
    let mut state = State::new();
    assert_eq!(
        state.lower_balance(key(2), 0),
        failed(FrankolangErrorKind::UnknownAccount)
    );
    assert_eq!(state.account_count(), 0);
}

#[test]
fn lower_balance_below_zero_fails_and_changes_nothing() {
    let mut state = State::new();
    state.add_account(key(1));
    state.raise_balance(key(1), 10).unwrap();
    assert_eq!(
        state.lower_balance(key(1), 11),
        failed(FrankolangErrorKind::InsufficientBalance)
    );
    assert_eq!(state.balance(key(1)), Some(10));
    assert_eq!(state.total(), 10);
}

#[test]
fn raise_balance_past_the_largest_balance_fails_and_changes_nothing() {
    let mut state = State::new();
    state.add_account(key(1));
    state.add_account(key(2));
    assert_eq!(state.raise_balance(key(1), u64::MAX - 5), Ok(()));
    assert_eq!(
        state.raise_balance(key(1), 6),
        failed(FrankolangErrorKind::BalanceOverflow)
    );
    assert_eq!(state.balance(key(1)), Some(u64::MAX - 5));
    assert_eq!(state.balance(key(2)), Some(0));
    assert_eq!(state.total(), (u64::MAX - 5) as u128);
    assert_eq!(state.raise_balance(key(1), 5), Ok(()));
    assert_eq!(state.balance(key(1)), Some(u64::MAX));
    assert_eq!(
        state.raise_balance(key(1), 1),
        failed(FrankolangErrorKind::BalanceOverflow)
    );
    assert_eq!(state.raise_balance(key(1), 0), Ok(()));
    assert_eq!(state.balance(key(1)), Some(u64::MAX));
}

#[test]
fn raise_balance_looks_at_the_account_not_at_the_sum() {
    let mut state = State::new();
    state.add_account(key(1));
    state.add_account(key(2));
    assert_eq!(state.raise_balance(key(1), u64::MAX), Ok(()));
    assert_eq!(state.raise_balance(key(2), 1), Ok(()));
    assert_eq!(state.balance(key(1)), Some(u64::MAX));
    assert_eq!(state.balance(key(2)), Some(1));
    assert_eq!(state.raise_balance(key(2), u64::MAX - 1), Ok(()));
    assert_eq!(state.balance(key(2)), Some(u64::MAX));
    assert_eq!(state.account_count(), 2);
    assert_eq!(state.total(), 2 * (u64::MAX as u128));
}

#[test]
fn two_credits_are_one_credit_of_their_sum() {
    let mut twice = State::new();
    twice.add_account(key(1));
    twice.add_account(key(2));
    twice.raise_balance(key(2), u64::MAX).unwrap();
    twice.raise_balance(key(1), 9).unwrap();
    let mut once = State::new();
    once.add_account(key(1));
    once.add_account(key(2));
    once.raise_balance(key(2), u64::MAX).unwrap();
    once.raise_balance(key(1), 9).unwrap();
    assert_eq!(twice.raise_balance(key(1), 30), Ok(()));
    assert_eq!(twice.raise_balance(key(1), u64::MAX - 39), Ok(()));
    assert_eq!(once.raise_balance(key(1), u64::MAX - 9), Ok(()));
    assert_eq!(twice.accounts(), once.accounts());
    assert_eq!(twice.balance(key(1)), Some(u64::MAX));
}

#[test]
fn accounts_are_listed_in_the_order_of_their_creation() {
    let mut state = State::new();
    state.add_account(key(2));
    state.add_account(key(1));
    state.add_account(key(2));
    state.raise_balance(key(1), 4).unwrap();
    let listed = state.accounts();
    assert_eq!(listed.len(), 2);
    assert_eq!(listed[0].public_key, key(2));
    assert_eq!(listed[0].balance, 0);
    assert_eq!(listed[1].public_key, key(1));
    assert_eq!(listed[1].balance, 4);
}

#[test]
fn error_carries_its_kind() {
    let error = FrankolangError::new(FrankolangErrorKind::InsufficientBalance);
    assert_eq!(error.kind(), FrankolangErrorKind::InsufficientBalance);
    assert_eq!(error.error_kind, FrankolangErrorKind::InsufficientBalance);
}

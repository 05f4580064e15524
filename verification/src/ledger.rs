//! The account ledger: a table of balances keyed by 32-byte public keys.
//!
//! The ledger is modelled as a sequence of accounts in the order in which
//! they were created, with pairwise distinct keys. Each balance is a `u64`.
//! A credit that would lift an account's balance above `u64::MAX` is
//! refused and changes nothing: no balance ever wraps or saturates. The sum
//! of all balances is an unbounded number.

use vstd::prelude::*;
use crate::error::{FrankolangError, FrankolangErrorKind};

verus! {

/// One account: a public key and what it holds.
#[derive(Clone, Copy, Debug, PartialEq, Eq)]
pub struct Account {
    pub public_key: [u8; 32],
    pub balance: u64,
}

/// Some account in `accounts` has the key `key`.
pub open spec fn has_account(accounts: Seq<Account>, key: [u8; 32]) -> bool {
    exists|i: int| 0 <= i < accounts.len() && (#[trigger] accounts[i]).public_key == key
}

/// No two accounts share a key.
pub open spec fn unique_keys(accounts: Seq<Account>) -> bool {
    forall|i: int, j: int|
        0 <= i < j < accounts.len() ==> (#[trigger] accounts[i]).public_key != (
        #[trigger] accounts[j]).public_key
}

/// The place of an account with the key `key`, where there is one.
pub open spec fn index_of(accounts: Seq<Account>, key: [u8; 32]) -> int {
    choose|i: int| 0 <= i < accounts.len() && (#[trigger] accounts[i]).public_key == key
}

/// The balance held under `key`, or `None` where the ledger has no such account.
pub open spec fn balance_of(accounts: Seq<Account>, key: [u8; 32]) -> Option<u64> {
    if has_account(accounts, key) {
        Some(accounts[index_of(accounts, key)].balance)
    } else {
        None
    }
}

/// The sum of all balances.
pub open spec fn total_balance(accounts: Seq<Account>) -> nat
    decreases accounts.len(),
{
    if accounts.len() == 0 {
        0
    } else {
        total_balance(accounts.drop_last()) + accounts.last().balance as nat
    }
}

/// The ledger with an account for `key`: unchanged where it has one, else
/// with a new, empty account at the end.
pub open spec fn with_account(accounts: Seq<Account>, key: [u8; 32]) -> Seq<Account> {
    if has_account(accounts, key) {
        accounts
    } else {
        accounts.push(Account { public_key: key, balance: 0 })
    }
}

/// The ledger with `change` added to the balance held under `key`.
pub open spec fn credited(accounts: Seq<Account>, key: [u8; 32], change: u64) -> Seq<Account> {
    Seq::new(
        accounts.len(),
        |i: int|
            if accounts[i].public_key == key {
                Account { public_key: key, balance: (accounts[i].balance + change) as u64 }
            } else {
                accounts[i]
            },
    )
}

/// The ledger with `change` taken from the balance held under `key`.
pub open spec fn debited(accounts: Seq<Account>, key: [u8; 32], change: u64) -> Seq<Account> {
    Seq::new(
        accounts.len(),
        |i: int|
            if accounts[i].public_key == key {
                Account { public_key: key, balance: (accounts[i].balance - change) as u64 }
            } else {
                accounts[i]
            },
    )
}

/// Why a credit of `change` to `key` is refused, if it is.
pub open spec fn credit_failure(accounts: Seq<Account>, key: [u8; 32], change: u64) -> Option<
    FrankolangErrorKind,
> {
    match balance_of(accounts, key) {
        None => Some(FrankolangErrorKind::UnknownAccount),
        Some(balance) => if balance + change > u64::MAX {
            Some(FrankolangErrorKind::BalanceOverflow)
        } else {
            None
        },
    }
}

/// Why a debit of `change` from `key` is refused, if it is.
pub open spec fn debit_failure(accounts: Seq<Account>, key: [u8; 32], change: u64) -> Option<
    FrankolangErrorKind,
> {
    match balance_of(accounts, key) {
        None => Some(FrankolangErrorKind::UnknownAccount),
        Some(balance) => if balance < change {
            Some(FrankolangErrorKind::InsufficientBalance)
        } else {
            None
        },
    }
}

/// With distinct keys, the account found at any place with the key `key` is
/// the one that `balance_of` speaks of.
pub proof fn lemma_balance_at(accounts: Seq<Account>, i: int)
    requires
        unique_keys(accounts),
        0 <= i < accounts.len(),
    ensures
        has_account(accounts, accounts[i].public_key),
        index_of(accounts, accounts[i].public_key) == i,
        balance_of(accounts, accounts[i].public_key) == Some(accounts[i].balance),
{
    let key = accounts[i].public_key;
    let j = index_of(accounts, key);
    assert(0 <= j < accounts.len() && accounts[j].public_key == key);
    if j < i {
        assert(accounts[j].public_key != accounts[i].public_key);
    } else if i < j {
        assert(accounts[i].public_key != accounts[j].public_key);
    }
}

/// Replacing one account's balance moves the sum by the difference.
pub proof fn lemma_total_update(accounts: Seq<Account>, i: int, account: Account)
    requires
        0 <= i < accounts.len(),
    ensures
        total_balance(accounts.update(i, account)) == total_balance(accounts)
            - accounts[i].balance + account.balance,
    decreases accounts.len(),
{
    let updated = accounts.update(i, account);
    if i < accounts.len() - 1 {
        lemma_total_update(accounts.drop_last(), i, account);
        assert(updated.drop_last() =~= accounts.drop_last().update(i, account));
    } else {
        assert(updated.drop_last() =~= accounts.drop_last());
    }
}

/// With distinct keys a credit changes exactly the one account under `key`.
pub proof fn lemma_credited_is_update(accounts: Seq<Account>, i: int, change: u64)
    requires
        unique_keys(accounts),
        0 <= i < accounts.len(),
    ensures
        credited(accounts, accounts[i].public_key, change) == accounts.update(
            i,
            Account {
                public_key: accounts[i].public_key,
                balance: (accounts[i].balance + change) as u64,
            },
        ),
{
    let key = accounts[i].public_key;
    let after = credited(accounts, key, change);
    let updated = accounts.update(
        i,
        Account { public_key: key, balance: (accounts[i].balance + change) as u64 },
    );
    assert forall|j: int| 0 <= j < accounts.len() implies after[j] == updated[j] by {
        if j < i {
            assert(accounts[j].public_key != accounts[i].public_key);
        } else if i < j {
            assert(accounts[i].public_key != accounts[j].public_key);
        }
    }
    assert(after =~= updated);
}

/// With distinct keys a debit changes exactly the one account under `key`.
pub proof fn lemma_debited_is_update(accounts: Seq<Account>, i: int, change: u64)
    requires
        unique_keys(accounts),
        0 <= i < accounts.len(),
    ensures
        debited(accounts, accounts[i].public_key, change) == accounts.update(
            i,
            Account {
                public_key: accounts[i].public_key,
                balance: (accounts[i].balance - change) as u64,
            },
        ),
{
    let key = accounts[i].public_key;
    let after = debited(accounts, key, change);
    let updated = accounts.update(
        i,
        Account { public_key: key, balance: (accounts[i].balance - change) as u64 },
    );
    assert forall|j: int| 0 <= j < accounts.len() implies after[j] == updated[j] by {
        if j < i {
            assert(accounts[j].public_key != accounts[i].public_key);
        } else if i < j {
            assert(accounts[i].public_key != accounts[j].public_key);
        }
    }
    assert(after =~= updated);
}

/// A debit that is not refused takes `change` from the balance under `key`
/// and from the sum of all balances, and from nothing else; the keys stay
/// distinct.
pub proof fn lemma_debited(accounts: Seq<Account>, key: [u8; 32], change: u64)
    requires
        unique_keys(accounts),
        debit_failure(accounts, key, change) is None,
    ensures
        unique_keys(debited(accounts, key, change)),
        total_balance(debited(accounts, key, change)) == total_balance(accounts) - change,
        balance_of(debited(accounts, key, change), key) == Some(
            (balance_of(accounts, key).unwrap() - change) as u64,
        ),
        forall|other: [u8; 32]|
            other != key ==> balance_of(debited(accounts, key, change), other) == balance_of(
                accounts,
                other,
            ),
{
    let i = index_of(accounts, key);
    let after = debited(accounts, key, change);
    lemma_balance_at(accounts, i);
    lemma_debited_is_update(accounts, i, change);
    lemma_total_update(
        accounts,
        i,
        Account { public_key: key, balance: (accounts[i].balance - change) as u64 },
    );
    lemma_same_keys(accounts, after);
    lemma_balance_at(after, i);
    assert forall|other: [u8; 32]| other != key implies balance_of(after, other) == balance_of(
        accounts,
        other,
    ) by {
        if has_account(accounts, other) {
            let j = index_of(accounts, other);
            lemma_balance_at(accounts, j);
            lemma_balance_at(after, j);
        }
    }
}

/// A credit that is not refused adds `change` to the balance under `key`
/// and to the sum of all balances, and to nothing else; the keys stay
/// distinct.
pub proof fn lemma_credited(accounts: Seq<Account>, key: [u8; 32], change: u64)
    requires
        unique_keys(accounts),
        credit_failure(accounts, key, change) is None,
    ensures
        unique_keys(credited(accounts, key, change)),
        total_balance(credited(accounts, key, change)) == total_balance(accounts) + change,
        balance_of(credited(accounts, key, change), key) == Some(
            (balance_of(accounts, key).unwrap() + change) as u64,
        ),
        forall|other: [u8; 32]|
            other != key ==> balance_of(credited(accounts, key, change), other) == balance_of(
                accounts,
                other,
            ),
{
    let i = index_of(accounts, key);
    let after = credited(accounts, key, change);
    lemma_balance_at(accounts, i);
    lemma_credited_is_update(accounts, i, change);
    lemma_total_update(
        accounts,
        i,
        Account { public_key: key, balance: (accounts[i].balance + change) as u64 },
    );
    lemma_same_keys(accounts, after);
    lemma_balance_at(after, i);
    assert forall|other: [u8; 32]| other != key implies balance_of(after, other) == balance_of(
        accounts,
        other,
    ) by {
        if has_account(accounts, other) {
            let j = index_of(accounts, other);
            lemma_balance_at(accounts, j);
            lemma_balance_at(after, j);
        }
    }
}

/// Two ledgers with the same keys at the same places hold the same accounts,
/// and the keys of one are distinct where those of the other are.
pub proof fn lemma_same_keys(before: Seq<Account>, after: Seq<Account>)
    requires
        before.len() == after.len(),
        forall|i: int|
            0 <= i < before.len() ==> (#[trigger] before[i]).public_key == after[i].public_key,
    ensures
        unique_keys(before) ==> unique_keys(after),
        forall|key: [u8; 32]| has_account(before, key) <==> has_account(after, key),
{
    assert forall|key: [u8; 32]| has_account(before, key) implies has_account(after, key) by {
        let i = index_of(before, key);
        assert(before[i].public_key == key);
        assert(after[i].public_key == key);
    }
    assert forall|key: [u8; 32]| has_account(after, key) implies has_account(before, key) by {
        let i = index_of(after, key);
        assert(before[i].public_key == after[i].public_key);
    }
    if unique_keys(before) {
        assert forall|i: int, j: int| 0 <= i < j < after.len() implies (#[trigger] after[i]).public_key
            != (#[trigger] after[j]).public_key by {
            assert(before[i].public_key != before[j].public_key);
        }
    }
}

/// Making sure of an account keeps the keys distinct, the sum of all balances
/// and every balance that was there; a new account holds nothing.
pub proof fn lemma_with_account(accounts: Seq<Account>, key: [u8; 32])
    requires
        unique_keys(accounts),
    ensures
        unique_keys(with_account(accounts, key)),
        has_account(with_account(accounts, key), key),
        total_balance(with_account(accounts, key)) == total_balance(accounts),
        balance_of(with_account(accounts, key), key) == Some(
            match balance_of(accounts, key) {
                Some(balance) => balance,
                None => 0,
            },
        ),
        forall|other: [u8; 32]|
            other != key ==> balance_of(with_account(accounts, key), other) == balance_of(
                accounts,
                other,
            ),
{
    let after = with_account(accounts, key);
    if !has_account(accounts, key) {
        let n = accounts.len() as int;
        assert(after.drop_last() =~= accounts);
        assert(after[n].public_key == key);
        assert forall|i: int, j: int| 0 <= i < j < after.len() implies (#[trigger] after[i]).public_key
            != (#[trigger] after[j]).public_key by {
            if j == n {
                assert(accounts[i].public_key != key);
            } else {
                assert(accounts[i].public_key != accounts[j].public_key);
            }
        }
        lemma_balance_at(after, n);
        assert forall|other: [u8; 32]| other != key implies balance_of(after, other)
            == balance_of(accounts, other) by {
            if has_account(accounts, other) {
                let j = index_of(accounts, other);
                lemma_balance_at(accounts, j);
                assert(after[j] == accounts[j]);
                lemma_balance_at(after, j);
            } else if has_account(after, other) {
                let j = index_of(after, other);
                assert(after[j].public_key == other);
                assert(j < n);
                assert(accounts[j].public_key == other);
            }
        }
    }
}

/// Whether two keys are the same, byte for byte.
pub fn same_key(a: &[u8; 32], b: &[u8; 32]) -> (same: bool)
    ensures
        same == (*a == *b),
{
    let mut i: usize = 0;
    while i < 32
        invariant
            i <= 32,
            forall|j: int| 0 <= j < i ==> a[j] == b[j],
        decreases 32 - i,
    {
        if a[i] != b[i] {
            return false;
        }
        i += 1;
    }
    assert(*a =~= *b);
    true
}

/// The ledger.
#[derive(Debug)]
pub struct State {
    accounts: Vec<Account>,
}

impl View for State {
    type V = Seq<Account>;

    closed spec fn view(&self) -> Seq<Account> {
        self.accounts@
    }
}

impl State {
    /// No two accounts of the ledger share a key.
    pub open spec fn wf(&self) -> bool {
        unique_keys(self@)
    }

    /// A ledger without accounts.
    pub fn new() -> (state: State)
        ensures
            state.wf(),
            state@ == Seq::<Account>::empty(),
    {
        State { accounts: Vec::new() }
    }

    fn position(&self, public_key: &[u8; 32]) -> (found: Option<usize>)
        ensures
            match found {
                Some(i) => i < self@.len() && self@[i as int].public_key == *public_key,
                None => !has_account(self@, *public_key),
            },
    {
        let mut i: usize = 0;
        while i < self.accounts.len()
            invariant
                i <= self.accounts.len(),
                forall|j: int| 0 <= j < i ==> self.accounts@[j].public_key != *public_key,
            decreases self.accounts.len() - i,
        {
            if same_key(&self.accounts[i].public_key, public_key) {
                return Some(i);
            }
            i += 1;
        }
        None
    }

    /// Credits `change` to the account under `public_key`.
    ///
    /// Fails, and leaves the ledger as it is, where there is no such account
    /// or where its balance would pass `u64::MAX`.
    pub fn raise_balance(&mut self, public_key: [u8; 32], change: u64) -> (result: Result<
        (),
        FrankolangError,
    >)
        requires
            old(self).wf(),
        ensures
            final(self).wf(),
            match credit_failure(old(self)@, public_key, change) {
                Some(kind) => result == Err::<(), FrankolangError>(
                    FrankolangError { error_kind: kind },
                ) && final(self)@ == old(self)@,
                None => result == Ok::<(), FrankolangError>(()) && final(self)@ == credited(
                    old(self)@,
                    public_key,
                    change,
                ),
            },
    {
        let i = match self.position(&public_key) {
            Some(i) => i,
            None => {
                return Err(FrankolangError::new(FrankolangErrorKind::UnknownAccount));
            },
        };
        let account = self.accounts[i];
        proof {
            lemma_balance_at(self@, i as int);
        }
        if change > u64::MAX - account.balance {
            return Err(FrankolangError::new(FrankolangErrorKind::BalanceOverflow));
        }
        proof {
            lemma_credited(self@, public_key, change);
            lemma_credited_is_update(self@, i as int, change);
        }
        self.accounts.set(i, Account { public_key, balance: account.balance + change });
        Ok(())
    }

    /// Takes `change` from the account under `public_key`.
    ///
    /// Fails, and leaves the ledger as it is, where there is no such account
    /// or where it holds less than `change`.
    pub fn lower_balance(&mut self, public_key: [u8; 32], change: u64) -> (result: Result<
        (),
        FrankolangError,
    >)
        requires
            old(self).wf(),
        ensures
            final(self).wf(),
            match debit_failure(old(self)@, public_key, change) {
                Some(kind) => result == Err::<(), FrankolangError>(
                    FrankolangError { error_kind: kind },
                ) && final(self)@ == old(self)@,
                None => result == Ok::<(), FrankolangError>(()) && final(self)@ == debited(
                    old(self)@,
                    public_key,
                    change,
                ),
            },
    {
        let i = match self.position(&public_key) {
            Some(i) => i,
            None => {
                return Err(FrankolangError::new(FrankolangErrorKind::UnknownAccount));
            },
        };
        let account = self.accounts[i];
        proof {
            lemma_balance_at(self@, i as int);
        }
        if account.balance < change {
            return Err(FrankolangError::new(FrankolangErrorKind::InsufficientBalance));
        }
        proof {
            lemma_debited(self@, public_key, change);
            lemma_debited_is_update(self@, i as int, change);
        }
        self.accounts.set(i, Account { public_key, balance: account.balance - change });
        Ok(())
    }

    /// Makes sure that the ledger has an account under `public_key`: a new
    /// one starts empty, an existing one is left alone.
    pub fn add_account(&mut self, public_key: [u8; 32])
        requires
            old(self).wf(),
        ensures
            final(self).wf(),
            final(self)@ == with_account(old(self)@, public_key),
    {
        if self.position(&public_key).is_some() {
            return ;
        }
        proof {
            lemma_with_account(self@, public_key);
        }
        self.accounts.push(Account { public_key, balance: 0 });
    }

    /// The balance held under `public_key`, if the ledger has that account.
    pub fn balance(&self, public_key: [u8; 32]) -> (held: Option<u64>)
        requires
            self.wf(),
        ensures
            held == balance_of(self@, public_key),
    {
        match self.position(&public_key) {
            Some(i) => {
                proof {
                    lemma_balance_at(self@, i as int);
                }
                Some(self.accounts[i].balance)
            },
            None => None,
        }
    }

    /// The accounts, in the order in which they were created.
    pub fn accounts(&self) -> (list: &Vec<Account>)
        ensures
            list@ == self@,
    {
        &self.accounts
    }

    /// How many accounts the ledger holds.
    pub fn account_count(&self) -> (count: usize)
        ensures
            count == self@.len(),
    {
        self.accounts.len()
    }

    /// The sum of all balances. It can pass `u64::MAX`, and always fits in
    /// a `u128`.
    pub fn total(&self) -> (sum: u128)
        ensures
            sum == total_balance(self@),
    {
        let mut sum: u128 = 0;
        let mut i: usize = 0;
        while i < self.accounts.len()
            invariant
                i <= self.accounts.len(),
                sum == total_balance(self.accounts@.take(i as int)),
                sum <= i * u64::MAX,
            decreases self.accounts.len() - i,
        {
            proof {
                assert(self.accounts@.take(i + 1).drop_last() =~= self.accounts@.take(i as int));
                assert((i + 1) * u64::MAX <= u128::MAX) by (nonlinear_arith)
                    requires
                        0 <= i < 0x1_0000_0000_0000_0000,
                ;
            }
            sum = sum + self.accounts[i].balance as u128;
            i += 1;
        }
        assert(self.accounts@.take(i as int) =~= self.accounts@);
        sum
    }
}

} // verus!

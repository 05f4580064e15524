//! What holds of the ledger, the instructions and the script engine, on
//! every input: each is a proof function, stated over the spec functions
//! that the contracts of the executable functions use.

use vstd::prelude::*;
use crate::error::FrankolangErrorKind;
use crate::instructions::{
    CheckHash,
    CoinbaseTransaction,
    FrankolangInstruction,
    Instruction,
    Payment,
    COINBASE_REWARD,
};
use crate::ledger::{
    lemma_balance_at,
    lemma_credited,
    lemma_debited,
    lemma_with_account,
    Account,
    balance_of,
    credit_failure,
    credited,
    debit_failure,
    debited,
    has_account,
    index_of,
    total_balance,
    unique_keys,
    with_account,
};
use crate::script::{run_accounts, run_failure};

verus! {

/// What an account holds, counting an absent account as holding nothing.
pub open spec fn held(accounts: Seq<Account>, key: [u8; 32]) -> u64 {
    match balance_of(accounts, key) {
        Some(balance) => balance,
        None => 0,
    }
}

/// Making sure of an account twice is the same as doing so once.
pub proof fn lemma_add_account_idempotent(accounts: Seq<Account>, key: [u8; 32])
    ensures
        with_account(with_account(accounts, key), key) == with_account(accounts, key),
{
    if !has_account(accounts, key) {
        let after = with_account(accounts, key);
        assert(after[accounts.len() as int].public_key == key);
    }
}

/// A credit or a debit on a key that the ledger does not hold fails with
/// `UnknownAccount`, whatever the amount.
pub proof fn lemma_unknown_account(accounts: Seq<Account>, key: [u8; 32], change: u64)
    requires
        !has_account(accounts, key),
    ensures
        credit_failure(accounts, key, change) == Some(FrankolangErrorKind::UnknownAccount),
        debit_failure(accounts, key, change) == Some(FrankolangErrorKind::UnknownAccount),
{
}

/// A credit to an account that can take it succeeds, whatever the other
/// accounts hold. It adds `change` to that balance and to the sum of all
/// balances; no account comes or goes and no other balance moves.
pub proof fn lemma_credit_fits(accounts: Seq<Account>, key: [u8; 32], change: u64)
    requires
        unique_keys(accounts),
        balance_of(accounts, key) is Some,
        balance_of(accounts, key).unwrap() + change <= u64::MAX,
    ensures
        credit_failure(accounts, key, change) is None,
        unique_keys(credited(accounts, key, change)),
        credited(accounts, key, change).len() == accounts.len(),
        balance_of(credited(accounts, key, change), key) == Some(
            (balance_of(accounts, key).unwrap() + change) as u64,
        ),
        total_balance(credited(accounts, key, change)) == total_balance(accounts) + change,
        forall|other: [u8; 32]|
            other != key ==> balance_of(credited(accounts, key, change), other) == balance_of(
                accounts,
                other,
            ),
{
    lemma_credited(accounts, key, change);
}

/// A credit that would lift the account above `u64::MAX` fails with
/// `BalanceOverflow`, and only such a credit to a known account does.
pub proof fn lemma_credit_overflows(accounts: Seq<Account>, key: [u8; 32], change: u64)
    ensures
        credit_failure(accounts, key, change) == Some(FrankolangErrorKind::BalanceOverflow) <==> (
        balance_of(accounts, key) is Some && balance_of(accounts, key).unwrap() + change
            > u64::MAX),
{
}

/// Two credits to one account are one credit of their sum, and all three
/// succeed, where the account can take both.
pub proof fn lemma_credits_add(accounts: Seq<Account>, key: [u8; 32], first: u64, second: u64)
    requires
        unique_keys(accounts),
        balance_of(accounts, key) is Some,
        balance_of(accounts, key).unwrap() + first + second <= u64::MAX,
    ensures
        credit_failure(accounts, key, first) is None,
        credit_failure(credited(accounts, key, first), key, second) is None,
        credit_failure(accounts, key, (first + second) as u64) is None,
        credited(credited(accounts, key, first), key, second) == credited(
            accounts,
            key,
            (first + second) as u64,
        ),
{
    let i = index_of(accounts, key);
    let once = credited(accounts, key, first);
    lemma_balance_at(accounts, i);
    lemma_credited(accounts, key, first);
    assert(credited(once, key, second) =~= credited(accounts, key, (first + second) as u64));
}

/// A payment that the sender can afford and the receiver can take succeeds
/// and keeps the sum of all balances. Between two different accounts the
/// sender then holds `amount` less, the receiver `amount` more than before
/// (counting from nothing where it was new), and every other balance is as
/// it was. A payment to oneself changes no balance.
pub proof fn lemma_payment_conserves(payment: Payment, accounts: Seq<Account>)
    requires
        unique_keys(accounts),
        balance_of(accounts, payment.sender_public_key) is Some,
        balance_of(accounts, payment.sender_public_key).unwrap() >= payment.amount,
        !payment.overfills_receiver(accounts),
    ensures
        payment.failure(accounts) is None,
        unique_keys(payment.applied(accounts)),
        total_balance(payment.applied(accounts)) == total_balance(accounts),
        payment.sender_public_key != payment.receiver_public_key ==> {
            &&& balance_of(payment.applied(accounts), payment.sender_public_key) == Some(
                (balance_of(accounts, payment.sender_public_key).unwrap() - payment.amount) as u64,
            )
            &&& balance_of(payment.applied(accounts), payment.receiver_public_key) == Some(
                (held(accounts, payment.receiver_public_key) + payment.amount) as u64,
            )
            &&& held(accounts, payment.receiver_public_key) + payment.amount <= u64::MAX
        },
        payment.sender_public_key == payment.receiver_public_key ==> balance_of(
            payment.applied(accounts),
            payment.sender_public_key,
        ) == balance_of(accounts, payment.sender_public_key),
        forall|other: [u8; 32]|
            other != payment.sender_public_key && other != payment.receiver_public_key
                ==> balance_of(payment.applied(accounts), other) == balance_of(accounts, other),
{
    let sender = payment.sender_public_key;
    let receiver = payment.receiver_public_key;
    let amount = payment.amount;
    let taken = debited(accounts, sender, amount);
    let opened = with_account(taken, receiver);
    lemma_debited(accounts, sender, amount);
    lemma_with_account(taken, receiver);
    lemma_credited(opened, receiver, amount);
}

/// A payment that the sender cannot afford fails with `InsufficientBalance`
/// and leaves the ledger as it was: the sender keeps its balance and the
/// receiver is neither created nor credited.
pub proof fn lemma_payment_insufficient(payment: Payment, accounts: Seq<Account>)
    requires
        balance_of(accounts, payment.sender_public_key) is Some,
        balance_of(accounts, payment.sender_public_key).unwrap() < payment.amount,
    ensures
        payment.failure(accounts) == Some(FrankolangErrorKind::InsufficientBalance),
        payment.applied(accounts) == accounts,
{
}

/// A payment from a key that the ledger does not hold fails with
/// `UnknownAccount` and leaves the ledger as it was.
pub proof fn lemma_payment_unknown_sender(payment: Payment, accounts: Seq<Account>)
    requires
        !has_account(accounts, payment.sender_public_key),
    ensures
        payment.failure(accounts) == Some(FrankolangErrorKind::UnknownAccount),
        payment.applied(accounts) == accounts,
{
}

/// A payment that the sender can afford but the receiver cannot take fails
/// with `BalanceOverflow` and leaves the ledger as it was: nothing is
/// debited, and no balance wraps or saturates.
pub proof fn lemma_payment_overfills(payment: Payment, accounts: Seq<Account>)
    requires
        balance_of(accounts, payment.sender_public_key) is Some,
        balance_of(accounts, payment.sender_public_key).unwrap() >= payment.amount,
        payment.overfills_receiver(accounts),
    ensures
        payment.failure(accounts) == Some(FrankolangErrorKind::BalanceOverflow),
        payment.applied(accounts) == accounts,
{
}

/// On an empty ledger a coinbase transaction succeeds and leaves exactly one
/// account: the miner's, holding the reward.
pub proof fn lemma_coinbase_on_empty(coinbase: CoinbaseTransaction)
    ensures
        coinbase.failure(Seq::<Account>::empty()) is None,
        coinbase.applied(Seq::<Account>::empty()) == seq![
            Account { public_key: coinbase.miner, balance: COINBASE_REWARD },
        ],
{
    let empty = Seq::<Account>::empty();
    let opened = with_account(empty, coinbase.miner);
    assert(!has_account(empty, coinbase.miner));
    assert(opened =~= seq![Account { public_key: coinbase.miner, balance: 0 }]);
    assert(credited(opened, coinbase.miner, COINBASE_REWARD) =~= seq![
        Account { public_key: coinbase.miner, balance: COINBASE_REWARD },
    ]);
}

/// A coinbase transaction succeeds wherever the miner is new or can take
/// the reward, whatever the other accounts hold. The miner then holds the
/// reward more than before (counting from nothing where it was new), the
/// sum of all balances is the reward higher, and every other balance is as
/// it was.
pub proof fn lemma_coinbase_rewards(coinbase: CoinbaseTransaction, accounts: Seq<Account>)
    requires
        unique_keys(accounts),
        held(accounts, coinbase.miner) + COINBASE_REWARD <= u64::MAX,
    ensures
        coinbase.failure(accounts) is None,
        unique_keys(coinbase.applied(accounts)),
        balance_of(coinbase.applied(accounts), coinbase.miner) == Some(
            (held(accounts, coinbase.miner) + COINBASE_REWARD) as u64,
        ),
        total_balance(coinbase.applied(accounts)) == total_balance(accounts) + COINBASE_REWARD,
        forall|other: [u8; 32]|
            other != coinbase.miner ==> balance_of(coinbase.applied(accounts), other)
                == balance_of(accounts, other),
{
    let opened = with_account(accounts, coinbase.miner);
    lemma_with_account(accounts, coinbase.miner);
    lemma_credited(opened, coinbase.miner, COINBASE_REWARD);
}

/// A coinbase transaction for a miner that cannot take the reward fails
/// with `BalanceOverflow` and leaves the ledger as it was.
pub proof fn lemma_coinbase_overfills(coinbase: CoinbaseTransaction, accounts: Seq<Account>)
    requires
        held(accounts, coinbase.miner) + COINBASE_REWARD > u64::MAX,
    ensures
        coinbase.failure(accounts) == Some(FrankolangErrorKind::BalanceOverflow),
        coinbase.applied(accounts) == accounts,
{
}

/// An instruction that fails leaves the ledger as it was.
pub proof fn lemma_failure_changes_nothing(instruction: Instruction, accounts: Seq<Account>)
    requires
        instruction.failure(accounts) is Some,
    ensures
        instruction.applied(accounts) == accounts,
{
}

/// No instruction lowers the sum of all balances or lets two accounts share
/// a key. A payment and a `CheckHash` keep the sum exactly; a coinbase
/// transaction that succeeds lifts it by the reward.
pub proof fn lemma_total_never_falls(instruction: Instruction, accounts: Seq<Account>)
    requires
        unique_keys(accounts),
    ensures
        unique_keys(instruction.applied(accounts)),
        total_balance(instruction.applied(accounts)) >= total_balance(accounts),
        !(instruction is CoinbaseTransaction) ==> total_balance(instruction.applied(accounts))
            == total_balance(accounts),
        instruction is CoinbaseTransaction && instruction.failure(accounts) is None
            ==> total_balance(instruction.applied(accounts)) == total_balance(accounts)
            + COINBASE_REWARD,
{
    match instruction {
        Instruction::Payment(payment) => {
            if payment.failure(accounts) is None {
                lemma_payment_conserves(payment, accounts);
            }
        },
        Instruction::CheckHash(_) => {},
        Instruction::CoinbaseTransaction(coinbase) => {
            if coinbase.failure(accounts) is None {
                lemma_coinbase_rewards(coinbase, accounts);
            }
        },
    }
}

/// Running a script never lowers the sum of all balances, and never lets
/// two accounts share a key.
pub proof fn lemma_run_total_never_falls(instructions: Seq<Instruction>, accounts: Seq<Account>)
    requires
        unique_keys(accounts),
    ensures
        unique_keys(run_accounts(instructions, accounts)),
        total_balance(run_accounts(instructions, accounts)) >= total_balance(accounts),
    decreases instructions.len(),
{
    if instructions.len() > 0 {
        let first = instructions.first();
        lemma_total_never_falls(first, accounts);
        if first.failure(accounts) is None {
            lemma_run_total_never_falls(instructions.drop_first(), first.applied(accounts));
        }
    }
}

/// A `CheckHash` put anywhere into an instruction list changes neither the
/// ledger that the run leaves nor its failure.
pub proof fn lemma_check_hash_neutral(
    instructions: Seq<Instruction>,
    at: int,
    accounts: Seq<Account>,
)
    requires
        0 <= at <= instructions.len(),
    ensures
        run_accounts(instructions.insert(at, Instruction::CheckHash(CheckHash)), accounts)
            == run_accounts(instructions, accounts),
        run_failure(instructions.insert(at, Instruction::CheckHash(CheckHash)), accounts)
            == run_failure(instructions, accounts),
    decreases at,
{
    let longer = instructions.insert(at, Instruction::CheckHash(CheckHash));
    if at == 0 {
        assert(longer.drop_first() =~= instructions);
    } else {
        let first = instructions.first();
        assert(longer.first() == first);
        assert(longer.drop_first() =~= instructions.drop_first().insert(
            at - 1,
            Instruction::CheckHash(CheckHash),
        ));
        if first.failure(accounts) is None {
            lemma_check_hash_neutral(instructions.drop_first(), at - 1, first.applied(accounts));
        }
    }
}

/// A run stops at the first instruction that fails: what follows it in the
/// list has no part in the outcome.
pub proof fn lemma_run_stops_at_failure(
    before: Seq<Instruction>,
    after: Seq<Instruction>,
    accounts: Seq<Account>,
)
    requires
        run_failure(before, accounts) is Some,
    ensures
        run_accounts(before + after, accounts) == run_accounts(before, accounts),
        run_failure(before + after, accounts) == run_failure(before, accounts),
    decreases before.len(),
{
    let whole = before + after;
    let first = before.first();
    assert(whole.first() == first);
    if first.failure(accounts) is None {
        assert(whole.drop_first() =~= before.drop_first() + after);
        lemma_run_stops_at_failure(before.drop_first(), after, first.applied(accounts));
    }
}

/// Where a first part of a list runs without failure, the run of the whole
/// list is the run of the rest on the ledger that the first part left.
pub proof fn lemma_run_in_parts(
    before: Seq<Instruction>,
    after: Seq<Instruction>,
    accounts: Seq<Account>,
)
    requires
        run_failure(before, accounts) is None,
    ensures
        run_accounts(before + after, accounts) == run_accounts(
            after,
            run_accounts(before, accounts),
        ),
        run_failure(before + after, accounts) == run_failure(
            after,
            run_accounts(before, accounts),
        ),
    decreases before.len(),
{
    let whole = before + after;
    if before.len() == 0 {
        assert(whole =~= after);
    } else {
        let first = before.first();
        assert(whole.first() == first);
        assert(whole.drop_first() =~= before.drop_first() + after);
        lemma_run_in_parts(before.drop_first(), after, first.applied(accounts));
    }
}

/// How many instructions at the front of the list succeed, one after the
/// other: the place of the first that fails, or the length of the list.
pub open spec fn run_steps(instructions: Seq<Instruction>, accounts: Seq<Account>) -> nat
    decreases instructions.len(),
{
    if instructions.len() == 0 || instructions.first().failure(accounts) is Some {
        0
    } else {
        1 + run_steps(instructions.drop_first(), instructions.first().applied(accounts))
    }
}

/// A run applies the instructions in order, each exactly once, up to the
/// first that fails. The instructions before that place all succeed; the run
/// fails exactly where there is such a place, with the failure of the
/// instruction at it, and the ledger is the one that this instruction left.
pub proof fn lemma_run_steps(instructions: Seq<Instruction>, accounts: Seq<Account>)
    ensures
        run_steps(instructions, accounts) <= instructions.len(),
        run_failure(instructions.take(run_steps(instructions, accounts) as int), accounts) is None,
        run_failure(instructions, accounts) is None <==> run_steps(instructions, accounts)
            == instructions.len(),
        run_steps(instructions, accounts) < instructions.len() ==> {
            let at = run_steps(instructions, accounts) as int;
            let reached = run_accounts(instructions.take(at), accounts);
            &&& instructions[at].failure(reached) is Some
            &&& run_failure(instructions, accounts) == instructions[at].failure(reached)
            &&& run_accounts(instructions, accounts) == instructions[at].applied(reached)
        },
    decreases instructions.len(),
{
    let at = run_steps(instructions, accounts) as int;
    if instructions.len() == 0 || instructions.first().failure(accounts) is Some {
        assert(instructions.take(0) =~= Seq::<Instruction>::empty());
    } else {
        let first = instructions.first();
        let rest = instructions.drop_first();
        lemma_run_steps(rest, first.applied(accounts));
        assert(instructions.take(at).first() == first);
        assert(instructions.take(at).drop_first() =~= rest.take(at - 1));
        if at < instructions.len() {
            assert(instructions[at] == rest[at - 1]);
        }
    }
}

} // verus!

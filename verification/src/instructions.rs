//! The instructions of a script and what each does to the ledger.
//!
//! What an instruction does is given by two spec functions of
//! [`FrankolangInstruction`]: the ledger it leaves, and the failure it
//! reports, if any. `execute_instruction` is proved to do exactly that.
//!
//! An instruction of this module that fails leaves the ledger as it was.

use vstd::prelude::*;
use crate::error::{FrankolangError, FrankolangErrorKind};
use crate::ledger::{
    lemma_debited,
    lemma_with_account,
    same_key,
    Account,
    State,
    balance_of,
    credited,
    debit_failure,
    debited,
    with_account,
};

verus! {

/// What a coinbase transaction credits to the miner.
pub const COINBASE_REWARD: u64 = 20000;

/// The result that stands for a failure of kind `failure`, or for success.
pub open spec fn outcome(failure: Option<FrankolangErrorKind>) -> Result<(), FrankolangError> {
    match failure {
        Some(kind) => Err(FrankolangError { error_kind: kind }),
        None => Ok(()),
    }
}

/// An instruction that a script can execute.
pub trait FrankolangInstruction {
    /// The ledger that the instruction leaves, whether it fails or not.
    spec fn applied(&self, accounts: Seq<Account>) -> Seq<Account>;

    /// The failure that the instruction reports on this ledger, if any.
    spec fn failure(&self, accounts: Seq<Account>) -> Option<FrankolangErrorKind>;

    /// Applies the instruction to the ledger: it leaves `applied` and
    /// returns `failure`, as a result.
    fn execute_instruction(&self, state: &mut State) -> (result: Result<(), FrankolangError>)
        requires
            old(state).wf(),
        ensures
            final(state).wf(),
            final(state)@ == self.applied(old(state)@),
            result == outcome(self.failure(old(state)@)),
    ;
}

/// Moves `amount` from the sender's account to the receiver's.
#[derive(Clone, Copy, Debug, PartialEq, Eq)]
pub struct Payment {
    pub sender_public_key: [u8; 32],
    pub receiver_public_key: [u8; 32],
    pub amount: u64,
}

impl Payment {
    /// A payment of `amount` from the sender to the receiver.
    pub fn new(sender_public_key: [u8; 32], receiver_public_key: [u8; 32], amount: u64) -> (payment:
        Payment)
        ensures
            payment.sender_public_key == sender_public_key,
            payment.receiver_public_key == receiver_public_key,
            payment.amount == amount,
    {
        Payment { sender_public_key, receiver_public_key, amount }
    }

    /// The receiver is another account than the sender's and holds so much
    /// that `amount` more would pass `u64::MAX`.
    pub open spec fn overfills_receiver(&self, accounts: Seq<Account>) -> bool {
        self.sender_public_key != self.receiver_public_key && match balance_of(
            accounts,
            self.receiver_public_key,
        ) {
            Some(balance) => balance + self.amount > u64::MAX,
            None => false,
        }
    }
}

impl FrankolangInstruction for Payment {
    /// A payment that fails leaves the ledger untouched. Otherwise the sender
    /// is debited, the receiver's account is made sure of, and it is credited.
    open spec fn applied(&self, accounts: Seq<Account>) -> Seq<Account> {
        if self.failure(accounts) is Some {
            accounts
        } else {
            credited(
                with_account(
                    debited(accounts, self.sender_public_key, self.amount),
                    self.receiver_public_key,
                ),
                self.receiver_public_key,
                self.amount,
            )
        }
    }

    /// A payment fails where the sender has no account, or too little in
    /// it; and, the sender being good for it, with `BalanceOverflow` where
    /// the receiver cannot take the amount.
    open spec fn failure(&self, accounts: Seq<Account>) -> Option<FrankolangErrorKind> {
        match debit_failure(accounts, self.sender_public_key, self.amount) {
            Some(kind) => Some(kind),
            None => if self.overfills_receiver(accounts) {
                Some(FrankolangErrorKind::BalanceOverflow)
            } else {
                None
            },
        }
    }

    /// The receiver's room is looked at before anything is debited, so that
    /// a payment is made whole or not at all.
    fn execute_instruction(&self, state: &mut State) -> (result: Result<(), FrankolangError>) {
        let overfills = if same_key(&self.sender_public_key, &self.receiver_public_key) {
            false
        } else {
            match state.balance(self.receiver_public_key) {
                Some(held) => self.amount > u64::MAX - held,
                None => false,
            }
        };
        if overfills {
            match state.balance(self.sender_public_key) {
                Some(held) => {
                    if held >= self.amount {
                        return Err(FrankolangError::new(FrankolangErrorKind::BalanceOverflow));
                    }
                },
                None => {},
            }
        }
        proof {
            if debit_failure(state@, self.sender_public_key, self.amount) is None {
                let taken = debited(state@, self.sender_public_key, self.amount);
                lemma_debited(state@, self.sender_public_key, self.amount);
                lemma_with_account(taken, self.receiver_public_key);
            }
        }
        match state.lower_balance(self.sender_public_key, self.amount) {
            Err(error) => {
                return Err(error);
            },
            Ok(()) => {},
        }
        state.add_account(self.receiver_public_key);
        state.raise_balance(self.receiver_public_key, self.amount)
    }
}

/// A placeholder that does nothing and always succeeds.
#[derive(Clone, Copy, Debug, PartialEq, Eq)]
pub struct CheckHash;

impl FrankolangInstruction for CheckHash {
    open spec fn applied(&self, accounts: Seq<Account>) -> Seq<Account> {
        accounts
    }

    open spec fn failure(&self, accounts: Seq<Account>) -> Option<FrankolangErrorKind> {
        None
    }

    fn execute_instruction(&self, state: &mut State) -> (result: Result<(), FrankolangError>) {
        Ok(())
    }
}

/// Creates `COINBASE_REWARD` units and credits them to the miner.
#[derive(Clone, Copy, Debug, PartialEq, Eq)]
pub struct CoinbaseTransaction {
    pub miner: [u8; 32],
}

impl CoinbaseTransaction {
    /// A coinbase transaction in favour of `miner`.
    pub fn new(miner: [u8; 32]) -> (coinbase: CoinbaseTransaction)
        ensures
            coinbase.miner == miner,
    {
        CoinbaseTransaction { miner }
    }
}

impl FrankolangInstruction for CoinbaseTransaction {
    /// The miner's account is made sure of and credited with the reward; a
    /// coinbase transaction that fails leaves the ledger untouched.
    open spec fn applied(&self, accounts: Seq<Account>) -> Seq<Account> {
        if self.failure(accounts) is Some {
            accounts
        } else {
            credited(with_account(accounts, self.miner), self.miner, COINBASE_REWARD)
        }
    }

    /// The reward is refused where the miner has an account that holds so
    /// much that the reward would lift it above `u64::MAX`, and only there.
    open spec fn failure(&self, accounts: Seq<Account>) -> Option<FrankolangErrorKind> {
        match balance_of(accounts, self.miner) {
            Some(balance) => if balance + COINBASE_REWARD > u64::MAX {
                Some(FrankolangErrorKind::BalanceOverflow)
            } else {
                None
            },
            None => None,
        }
    }

    fn execute_instruction(&self, state: &mut State) -> (result: Result<(), FrankolangError>) {
        proof {
            lemma_with_account(state@, self.miner);
        }
        state.add_account(self.miner);
        state.raise_balance(self.miner, COINBASE_REWARD)
    }
}

/// Any one of the instructions.
#[derive(Clone, Copy, Debug, PartialEq, Eq)]
pub enum Instruction {
    Payment(Payment),
    CheckHash(CheckHash),
    CoinbaseTransaction(CoinbaseTransaction),
}

impl FrankolangInstruction for Instruction {
    open spec fn applied(&self, accounts: Seq<Account>) -> Seq<Account> {
        match *self {
            Instruction::Payment(payment) => payment.applied(accounts),
            Instruction::CheckHash(check) => check.applied(accounts),
            Instruction::CoinbaseTransaction(coinbase) => coinbase.applied(accounts),
        }
    }

    open spec fn failure(&self, accounts: Seq<Account>) -> Option<FrankolangErrorKind> {
        match *self {
            Instruction::Payment(payment) => payment.failure(accounts),
            Instruction::CheckHash(check) => check.failure(accounts),
            Instruction::CoinbaseTransaction(coinbase) => coinbase.failure(accounts),
        }
    }

    fn execute_instruction(&self, state: &mut State) -> (result: Result<(), FrankolangError>) {
        match self {
            Instruction::Payment(payment) => payment.execute_instruction(state),
            Instruction::CheckHash(check) => check.execute_instruction(state),
            Instruction::CoinbaseTransaction(coinbase) => coinbase.execute_instruction(state),
        }
    }
}

} // verus!

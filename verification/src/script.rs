//! The script engine: an instruction list and the ledger it is run against.

use vstd::prelude::*;
use crate::error::{FrankolangError, FrankolangErrorKind};
use crate::instructions::{outcome, FrankolangInstruction, Instruction};
use crate::ledger::{Account, State};
use crate::wire::{decode, decode_script, encode, encode_script};

verus! {

/// The ledger that running `instructions` in order leaves: each instruction
/// is applied to what the one before it left, up to and including the first
/// that fails.
pub open spec fn run_accounts(instructions: Seq<Instruction>, accounts: Seq<Account>) -> Seq<
    Account,
>
    decreases instructions.len(),
{
    if instructions.len() == 0 {
        accounts
    } else if instructions.first().failure(accounts) is Some {
        instructions.first().applied(accounts)
    } else {
        run_accounts(instructions.drop_first(), instructions.first().applied(accounts))
    }
}

/// The failure of the first instruction that fails when `instructions` are
/// run in order, or `None` where all of them succeed.
pub open spec fn run_failure(instructions: Seq<Instruction>, accounts: Seq<Account>) -> Option<
    FrankolangErrorKind,
>
    decreases instructions.len(),
{
    if instructions.len() == 0 {
        None
    } else if instructions.first().failure(accounts) is Some {
        instructions.first().failure(accounts)
    } else {
        run_failure(instructions.drop_first(), instructions.first().applied(accounts))
    }
}

/// An instruction list, in the order in which it runs, together with the
/// ledger that it works on.
#[derive(Debug)]
pub struct FrankolangScript {
    pub instructions: Vec<Instruction>,
    pub state: State,
}

impl FrankolangScript {
    /// A script of the given instructions, with an empty ledger.
    pub fn from_instructions(instructions: Vec<Instruction>) -> (script: FrankolangScript)
        ensures
            script.instructions@ == instructions@,
            script.state.wf(),
            script.state@ == Seq::<Account>::empty(),
    {
        FrankolangScript { instructions, state: State::new() }
    }

    /// Reads a script from its byte form. The ledger starts empty.
    ///
    /// Succeeds exactly where `code` is the byte form of an instruction
    /// list; otherwise the error tells the first fault in the buffer.
    pub fn from_bytes(code: Vec<u8>) -> (read: Result<FrankolangScript, FrankolangError>)
        ensures
            match decode_script(code@) {
                Ok(instructions) => read matches Ok(script) && script.instructions@ == instructions
                    && script.state.wf() && script.state@ == Seq::<Account>::empty(),
                Err(cause) => read matches Err(error) && error.error_kind
                    == FrankolangErrorKind::DecodeError(cause),
            },
    {
        match decode(code.as_slice()) {
            Ok(instructions) => Ok(FrankolangScript::from_instructions(instructions)),
            Err(error) => Err(error),
        }
    }

    /// Writes the instruction list, not the ledger, as bytes: always
    /// succeeds, with the list's byte form.
    pub fn to_bytes(&self) -> (written: Result<Vec<u8>, FrankolangError>)
        ensures
            written matches Ok(bytes) && bytes@ == encode_script(self.instructions@),
    {
        encode(&self.instructions)
    }

    /// Runs the instructions in order against the script's ledger and stops
    /// at the first that fails, whose failure is returned. What the
    /// instructions before it did stays done.
    pub fn execute(&mut self) -> (result: Result<(), FrankolangError>)
        requires
            old(self).state.wf(),
        ensures
            final(self).instructions@ == old(self).instructions@,
            final(self).state.wf(),
            final(self).state@ == run_accounts(old(self).instructions@, old(self).state@),
            result == outcome(run_failure(old(self).instructions@, old(self).state@)),
    {
        let mut i: usize = 0;
        assert(self.instructions@.skip(0) =~= self.instructions@);
        while i < self.instructions.len()
            invariant
                i <= self.instructions.len(),
                self.instructions@ == old(self).instructions@,
                self.state.wf(),
                run_accounts(old(self).instructions@, old(self).state@) == run_accounts(
                    self.instructions@.skip(i as int),
                    self.state@,
                ),
                run_failure(old(self).instructions@, old(self).state@) == run_failure(
                    self.instructions@.skip(i as int),
                    self.state@,
                ),
            decreases self.instructions.len() - i,
        {
            let instruction = self.instructions[i];
            proof {
                let rest = self.instructions@.skip(i as int);
                assert(rest.first() == instruction);
                assert(rest.drop_first() =~= self.instructions@.skip(i + 1));
            }
            match instruction.execute_instruction(&mut self.state) {
                Err(error) => {
                    return Err(error);
                },
                Ok(()) => {},
            }
            i += 1;
        }
        Ok(())
    }
}

} // verus!

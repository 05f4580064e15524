//! The ways in which running, decoding or encoding a script can fail.

use vstd::prelude::*;

verus! {

/// Why a byte buffer is not the encoding of any instruction list.
#[derive(Clone, Copy, Debug, PartialEq, Eq, Structural)]
pub enum DecodeCause {
    /// A record starts with a byte that is the tag of no instruction.
    UnknownTag(u8),
    /// The buffer ends inside a record.
    Truncated,
}

/// The kinds of failure.
#[derive(Clone, Copy, Debug, PartialEq, Eq, Structural)]
pub enum FrankolangErrorKind {
    /// A balance operation named a key that the ledger does not hold.
    UnknownAccount,
    /// A debit asked for more than the account holds.
    InsufficientBalance,
    /// A credit would lift the account's balance above `u64::MAX`.
    BalanceOverflow,
    /// The input bytes are not a well-formed script.
    DecodeError(DecodeCause),
    /// The integer encoder gave no bytes for an amount.
    EncodeError,
}

/// The name of a kind of failure, as text.
pub open spec fn kind_name(kind: FrankolangErrorKind) -> Seq<char> {
    match kind {
        FrankolangErrorKind::UnknownAccount => "UnknownAccount"@,
        FrankolangErrorKind::InsufficientBalance => "InsufficientBalance"@,
        FrankolangErrorKind::BalanceOverflow => "BalanceOverflow"@,
        FrankolangErrorKind::DecodeError(DecodeCause::UnknownTag(_)) => "DecodeError: unknown tag"@,
        FrankolangErrorKind::DecodeError(DecodeCause::Truncated) => "DecodeError: truncated"@,
        FrankolangErrorKind::EncodeError => "EncodeError"@,
    }
}

/// A failure, carrying its kind.
#[derive(Clone, Copy, Debug, PartialEq, Eq, Structural)]
pub struct FrankolangError {
    pub error_kind: FrankolangErrorKind,
}

impl FrankolangError {
    /// A failure of the given kind.
    pub fn new(error_kind: FrankolangErrorKind) -> (e: FrankolangError)
        ensures
            e.error_kind == error_kind,
    {
        FrankolangError { error_kind }
    }

    /// The failure as text: the name of its kind.
    pub fn describe(&self) -> (text: &'static str)
        ensures
            text@ == kind_name(self.error_kind),
    {
        match self.error_kind {
            FrankolangErrorKind::UnknownAccount => "UnknownAccount",
            FrankolangErrorKind::InsufficientBalance => "InsufficientBalance",
            FrankolangErrorKind::BalanceOverflow => "BalanceOverflow",
            FrankolangErrorKind::DecodeError(DecodeCause::UnknownTag(_)) => {
                "DecodeError: unknown tag"
            },
            FrankolangErrorKind::DecodeError(DecodeCause::Truncated) => "DecodeError: truncated",
            FrankolangErrorKind::EncodeError => "EncodeError",
        }
    }

    /// The kind of this failure.
    pub fn kind(&self) -> (k: FrankolangErrorKind)
        ensures
            k == self.error_kind,
    {
        self.error_kind
    }
}

} // verus!

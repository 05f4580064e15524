//! The byte form of an instruction list.
//!
//! A script is the concatenation of its instructions' records, in order,
//! with nothing before, between or after them. A record is one tag byte,
//! which tells the instruction's variant, followed by the variant's fields:
//!
//! | instruction           | tag | fields                                         |
//! |-----------------------|-----|------------------------------------------------|
//! | `Payment`             | 1   | sender (32), receiver (32), amount (8, little-endian) |
//! | `CheckHash`           | 2   | none                                           |
//! | `CoinbaseTransaction` | 3   | miner (32)                                     |
//!
//! The amount is written and read by `bincode`; everything else is done here.

use vstd::prelude::*;
use vstd::bytes::{
    lemma_auto_spec_u64_to_from_le_bytes,
    spec_u64_from_le_bytes,
    spec_u64_to_le_bytes,
};
use vstd::slice::slice_subrange;
use crate::error::{DecodeCause, FrankolangError, FrankolangErrorKind};
use crate::instructions::{CheckHash, CoinbaseTransaction, Instruction, Payment};

verus! {

/// The tag byte of a `Payment` record.
pub const PAYMENT_TAG: u8 = 1;

/// The tag byte of a `CheckHash` record.
pub const CHECK_HASH_TAG: u8 = 2;

/// The tag byte of a `CoinbaseTransaction` record.
pub const COINBASE_TAG: u8 = 3;

/// The record of one instruction.
pub open spec fn encode_instruction(instruction: Instruction) -> Seq<u8> {
    match instruction {
        Instruction::Payment(payment) => seq![PAYMENT_TAG] + payment.sender_public_key@
            + payment.receiver_public_key@ + spec_u64_to_le_bytes(payment.amount),
        Instruction::CheckHash(_) => seq![CHECK_HASH_TAG],
        Instruction::CoinbaseTransaction(coinbase) => seq![COINBASE_TAG] + coinbase.miner@,
    }
}

/// The byte form of an instruction list: its records, one after the other.
pub open spec fn encode_script(instructions: Seq<Instruction>) -> Seq<u8>
    decreases instructions.len(),
{
    if instructions.len() == 0 {
        Seq::empty()
    } else {
        encode_instruction(instructions.first()) + encode_script(instructions.drop_first())
    }
}

/// How long a record with this tag is, tag included; `None` for a byte that
/// is no tag.
pub open spec fn record_len(tag: u8) -> Option<nat> {
    if tag == PAYMENT_TAG {
        Some(73)
    } else if tag == CHECK_HASH_TAG {
        Some(1)
    } else if tag == COINBASE_TAG {
        Some(33)
    } else {
        None
    }
}

/// The key whose bytes are `bytes`, for 32 of them.
pub open spec fn key_from(bytes: Seq<u8>) -> [u8; 32] {
    choose|key: [u8; 32]| key@ == bytes
}

/// The instruction that a complete record with a known tag stands for.
pub open spec fn decode_record(record: Seq<u8>) -> Instruction {
    if record[0] == PAYMENT_TAG {
        Instruction::Payment(
            Payment {
                sender_public_key: key_from(record.subrange(1, 33)),
                receiver_public_key: key_from(record.subrange(33, 65)),
                amount: spec_u64_from_le_bytes(record.subrange(65, 73)),
            },
        )
    } else if record[0] == CHECK_HASH_TAG {
        Instruction::CheckHash(CheckHash)
    } else {
        Instruction::CoinbaseTransaction(
            CoinbaseTransaction { miner: key_from(record.subrange(1, 33)) },
        )
    }
}

/// `instructions` put in front of what the rest of a buffer decoded to.
pub open spec fn preceded_by(
    instructions: Seq<Instruction>,
    rest: Result<Seq<Instruction>, DecodeCause>,
) -> Result<Seq<Instruction>, DecodeCause> {
    match rest {
        Ok(more) => Ok(instructions + more),
        Err(cause) => Err(cause),
    }
}

/// The instruction list that `bytes` is the form of, or why it is none: the
/// first record, from the front, that has no known tag or is cut short.
pub open spec fn decode_script(bytes: Seq<u8>) -> Result<Seq<Instruction>, DecodeCause>
    decreases bytes.len(),
{
    if bytes.len() == 0 {
        Ok(Seq::empty())
    } else {
        match record_len(bytes[0]) {
            None => Err(DecodeCause::UnknownTag(bytes[0])),
            Some(n) => if bytes.len() < n {
                Err(DecodeCause::Truncated)
            } else {
                preceded_by(
                    seq![decode_record(bytes.take(n as int))],
                    decode_script(bytes.skip(n as int)),
                )
            },
        }
    }
}

/// A key is the key of its own bytes.
pub proof fn lemma_key_from(key: [u8; 32])
    ensures
        key_from(key@) == key,
{
    let found = key_from(key@);
    assert(found@ == key@);
    assert(found =~= key);
}

/// Decoding the record of an instruction gives the instruction back.
pub proof fn lemma_record_round_trip(instruction: Instruction)
    ensures
        record_len(encode_instruction(instruction)[0]) == Some(
            encode_instruction(instruction).len(),
        ),
        decode_record(encode_instruction(instruction)) == instruction,
{
    let record = encode_instruction(instruction);
    lemma_auto_spec_u64_to_from_le_bytes();
    match instruction {
        Instruction::Payment(payment) => {
            assert(record.subrange(1, 33) =~= payment.sender_public_key@);
            assert(record.subrange(33, 65) =~= payment.receiver_public_key@);
            assert(record.subrange(65, 73) =~= spec_u64_to_le_bytes(payment.amount));
            lemma_key_from(payment.sender_public_key);
            lemma_key_from(payment.receiver_public_key);
        },
        Instruction::CheckHash(_) => {},
        Instruction::CoinbaseTransaction(coinbase) => {
            assert(record.subrange(1, 33) =~= coinbase.miner@);
            lemma_key_from(coinbase.miner);
        },
    }
}

/// Decoding the byte form of an instruction list gives the list back, field
/// for field and in the same order.
pub proof fn lemma_decode_encode(instructions: Seq<Instruction>)
    ensures
        decode_script(encode_script(instructions)) == Ok::<Seq<Instruction>, DecodeCause>(
            instructions,
        ),
    decreases instructions.len(),
{
    if instructions.len() > 0 {
        let first = instructions.first();
        let rest = instructions.drop_first();
        let record = encode_instruction(first);
        let bytes = encode_script(instructions);
        lemma_record_round_trip(first);
        lemma_decode_encode(rest);
        let n = record.len() as int;
        assert(bytes[0] == record[0]);
        assert(bytes.take(n) =~= record);
        assert(bytes.skip(n) =~= encode_script(rest));
        assert(seq![first] + rest =~= instructions);
    } else {
        assert(instructions =~= Seq::<Instruction>::empty());
    }
}

/// An array that agrees with `bytes` on its first `filled` places.
spec fn key_filled(bytes: Seq<u8>, filled: nat) -> [u8; 32]
    decreases filled,
{
    if filled == 0 {
        vstd::array::spec_array_fill_for_copy_type(0u8)
    } else {
        vstd::array::spec_array_update(
            key_filled(bytes, (filled - 1) as nat),
            filled - 1,
            bytes[filled - 1],
        )
    }
}

proof fn lemma_key_filled(bytes: Seq<u8>, filled: nat)
    requires
        bytes.len() == 32,
        filled <= 32,
    ensures
        forall|j: int| 0 <= j < filled ==> key_filled(bytes, filled)@[j] == bytes[j],
    decreases filled,
{
    if filled > 0 {
        lemma_key_filled(bytes, (filled - 1) as nat);
    }
}

/// Any 32 bytes are the bytes of a key.
pub proof fn lemma_key_bytes(bytes: Seq<u8>)
    requires
        bytes.len() == 32,
    ensures
        key_from(bytes)@ == bytes,
{
    let key = key_filled(bytes, 32);
    lemma_key_filled(bytes, 32);
    assert(key@ =~= bytes);
}

/// A complete record with a known tag is the record of the instruction that
/// it stands for.
pub proof fn lemma_record_of_decoded(record: Seq<u8>)
    requires
        record.len() > 0,
        record_len(record[0]) == Some(record.len()),
    ensures
        encode_instruction(decode_record(record)) == record,
{
    lemma_auto_spec_u64_to_from_le_bytes();
    if record[0] == PAYMENT_TAG {
        lemma_key_bytes(record.subrange(1, 33));
        lemma_key_bytes(record.subrange(33, 65));
        let amount = record.subrange(65, 73);
        assert(spec_u64_to_le_bytes(spec_u64_from_le_bytes(amount)) == amount);
        assert(encode_instruction(decode_record(record)) =~= record);
    } else if record[0] == CHECK_HASH_TAG {
        assert(encode_instruction(decode_record(record)) =~= record);
    } else {
        lemma_key_bytes(record.subrange(1, 33));
        assert(encode_instruction(decode_record(record)) =~= record);
    }
}

/// Only byte forms decode: a buffer that decodes to an instruction list is
/// the byte form of that list.
pub proof fn lemma_encode_decode(bytes: Seq<u8>)
    requires
        decode_script(bytes) is Ok,
    ensures
        encode_script(decode_script(bytes).unwrap()) == bytes,
    decreases bytes.len(),
{
    if bytes.len() == 0 {
        assert(bytes =~= Seq::<u8>::empty());
    } else {
        let n = record_len(bytes[0]).unwrap() as int;
        let record = bytes.take(n);
        let first = decode_record(record);
        let rest = decode_script(bytes.skip(n)).unwrap();
        let list = decode_script(bytes).unwrap();
        lemma_record_of_decoded(record);
        lemma_encode_decode(bytes.skip(n));
        assert(list == seq![first] + rest);
        assert(list.first() == first);
        assert(list.drop_first() =~= rest);
        assert(bytes =~= record + bytes.skip(n));
    }
}

/// Two instruction lists with the same byte form are the same list.
pub proof fn lemma_encode_injective(one: Seq<Instruction>, other: Seq<Instruction>)
    requires
        encode_script(one) == encode_script(other),
    ensures
        one == other,
{
    lemma_decode_encode(one);
    lemma_decode_encode(other);
}

/// The byte form of a list with one more instruction at its end.
pub proof fn lemma_encode_push(instructions: Seq<Instruction>, last: Instruction)
    ensures
        encode_script(instructions.push(last)) == encode_script(instructions) + encode_instruction(
            last,
        ),
    decreases instructions.len(),
{
    let longer = instructions.push(last);
    if instructions.len() == 0 {
        assert(longer.drop_first() =~= Seq::<Instruction>::empty());
        assert(encode_script(longer.drop_first()) =~= Seq::<u8>::empty());
        assert(encode_script(longer) =~= encode_instruction(last));
        assert(encode_script(instructions) + encode_instruction(last) =~= encode_instruction(
            last,
        ));
    } else {
        lemma_encode_push(instructions.drop_first(), last);
        assert(longer.drop_first() =~= instructions.drop_first().push(last));
        assert(encode_script(longer) =~= encode_script(instructions) + encode_instruction(last));
    }
}

#[verifier::external_type_specification]
#[verifier::external_body]
pub struct ExBincodeErrorKind(bincode::ErrorKind);

/// Calls `bincode::serialize` on a `u64`.
///
/// Trusted: that function writes integers at fixed width and little-endian,
/// so the bytes it returns are the eight bytes of `amount`, lowest first.
/// It sets no size limit and writes into a vector, so for an integer it
/// never returns its error.
#[verifier::external_body]
fn encode_amount(amount: u64) -> (encoded: Result<Vec<u8>, bincode::Error>)
    ensures
        encoded is Ok,
        encoded.unwrap()@ == spec_u64_to_le_bytes(amount),
{
    bincode::serialize(&amount)
}

/// Calls `bincode::deserialize` for a `u64`.
///
/// Trusted: that function reads the first eight bytes as a little-endian
/// integer and ignores what follows them; on fewer than eight bytes it
/// returns its error.
#[verifier::external_body]
fn decode_amount(bytes: &[u8]) -> (decoded: Result<u64, bincode::Error>)
    ensures
        match decoded {
            Ok(amount) => bytes@.len() >= 8 && amount == spec_u64_from_le_bytes(
                bytes@.subrange(0, 8),
            ),
            Err(_) => bytes@.len() < 8,
        },
{
    bincode::deserialize(bytes)
}

/// The amount field of a payment record, from what the integer encoder
/// returned: its bytes, or `EncodeError` where it gave none.
pub fn amount_field(encoded: Result<Vec<u8>, bincode::Error>) -> (field: Result<
    Vec<u8>,
    FrankolangError,
>)
    ensures
        match encoded {
            Ok(bytes) => field == Ok::<Vec<u8>, FrankolangError>(bytes),
            Err(_) => field == Err::<Vec<u8>, FrankolangError>(
                FrankolangError { error_kind: FrankolangErrorKind::EncodeError },
            ),
        },
{
    match encoded {
        Ok(bytes) => Ok(bytes),
        Err(_) => Err(FrankolangError::new(FrankolangErrorKind::EncodeError)),
    }
}

/// The amount of a payment record, from what the integer decoder returned:
/// the amount, or a truncated record where it gave none.
pub fn amount_read(decoded: Result<u64, bincode::Error>) -> (amount: Result<u64, FrankolangError>)
    ensures
        match decoded {
            Ok(value) => amount == Ok::<u64, FrankolangError>(value),
            Err(_) => amount == Err::<u64, FrankolangError>(
                FrankolangError {
                    error_kind: FrankolangErrorKind::DecodeError(DecodeCause::Truncated),
                },
            ),
        },
{
    match decoded {
        Ok(value) => Ok(value),
        Err(_) => Err(
            FrankolangError::new(FrankolangErrorKind::DecodeError(DecodeCause::Truncated)),
        ),
    }
}

fn push_key(out: &mut Vec<u8>, key: &[u8; 32])
    ensures
        final(out)@ == old(out)@ + key@,
{
    let mut i: usize = 0;
    while i < 32
        invariant
            i <= 32,
            out@ == old(out)@ + key@.take(i as int),
        decreases 32 - i,
    {
        out.push(key[i]);
        assert(key@.take(i + 1) =~= key@.take(i as int).push(key@[i as int]));
        i += 1;
    }
    assert(key@.take(32) =~= key@);
}

fn read_key(bytes: &[u8], start: usize) -> (key: [u8; 32])
    requires
        start + 32 <= bytes@.len(),
    ensures
        key@ == bytes@.subrange(start as int, start + 32),
        key == key_from(bytes@.subrange(start as int, start + 32)),
{
    let mut key: [u8; 32] = [0u8;32];
    let mut i: usize = 0;
    while i < 32
        invariant
            i <= 32,
            start + 32 <= bytes.len(),
            forall|j: int| 0 <= j < i ==> key@[j] == bytes@[start + j],
        decreases 32 - i,
    {
        key[i] = bytes[start + i];
        i += 1;
    }
    proof {
        assert(key@ =~= bytes@.subrange(start as int, start + 32));
        lemma_key_from(key);
    }
    key
}

/// Writes an instruction list as bytes: always succeeds, with the list's
/// byte form.
pub fn encode(instructions: &Vec<Instruction>) -> (encoded: Result<Vec<u8>, FrankolangError>)
    ensures
        encoded matches Ok(bytes) && bytes@ == encode_script(instructions@),
{
    let mut out: Vec<u8> = Vec::new();
    let mut i: usize = 0;
    assert(instructions@.take(0) =~= Seq::<Instruction>::empty());
    while i < instructions.len()
        invariant
            i <= instructions.len(),
            out@ == encode_script(instructions@.take(i as int)),
        decreases instructions.len() - i,
    {
        let ghost before = out@;
        proof {
            lemma_encode_push(instructions@.take(i as int), instructions@[i as int]);
            assert(instructions@.take(i + 1) =~= instructions@.take(i as int).push(
                instructions@[i as int],
            ));
        }
        match &instructions[i] {
            Instruction::Payment(payment) => {
                let mut amount = match amount_field(encode_amount(payment.amount)) {
                    Ok(bytes) => bytes,
                    Err(error) => {
                        return Err(error);
                    },
                };
                out.push(PAYMENT_TAG);
                push_key(&mut out, &payment.sender_public_key);
                push_key(&mut out, &payment.receiver_public_key);
                out.append(&mut amount);
                assert(out@ =~= before + encode_instruction(instructions@[i as int]));
            },
            Instruction::CheckHash(_) => {
                out.push(CHECK_HASH_TAG);
                assert(out@ =~= before + encode_instruction(instructions@[i as int]));
            },
            Instruction::CoinbaseTransaction(coinbase) => {
                out.push(COINBASE_TAG);
                push_key(&mut out, &coinbase.miner);
                assert(out@ =~= before + encode_instruction(instructions@[i as int]));
            },
        }
        i += 1;
    }
    assert(instructions@.take(i as int) =~= instructions@);
    Ok(out)
}

/// Putting a list in front of what follows it record by record.
proof fn lemma_preceded_by_push(
    instructions: Seq<Instruction>,
    next: Instruction,
    rest: Result<Seq<Instruction>, DecodeCause>,
)
    ensures
        preceded_by(instructions, preceded_by(seq![next], rest)) == preceded_by(
            instructions.push(next),
            rest,
        ),
{
    if let Ok(more) = rest {
        assert(instructions + (seq![next] + more) =~= instructions.push(next) + more);
    }
}

/// Reads an instruction list from bytes.
///
/// Succeeds exactly on the byte forms of instruction lists, with the list;
/// on any other buffer it reports why the buffer is none.
pub fn decode(code: &[u8]) -> (decoded: Result<Vec<Instruction>, FrankolangError>)
    ensures
        match decode_script(code@) {
            Ok(instructions) => decoded matches Ok(list) && list@ == instructions,
            Err(cause) => decoded == Err::<Vec<Instruction>, FrankolangError>(
                FrankolangError { error_kind: FrankolangErrorKind::DecodeError(cause) },
            ),
        },
{
    let mut instructions: Vec<Instruction> = Vec::new();
    let mut pos: usize = 0;
    assert(code@.skip(0) =~= code@);
    assert(instructions@ + Seq::<Instruction>::empty() =~= instructions@);
    while pos < code.len()
        invariant
            pos <= code@.len(),
            decode_script(code@) == preceded_by(
                instructions@,
                decode_script(code@.skip(pos as int)),
            ),
        decreases code@.len() - pos,
    {
        let ghost rest = code@.skip(pos as int);
        let ghost done = instructions@;
        let tag = code[pos];
        let left = code.len() - pos;
        assert(rest[0] == tag && rest.len() == left);
        let next: Instruction;
        let length: usize;
        if tag == PAYMENT_TAG {
            if left < 65 {
                return Err(
                    FrankolangError::new(FrankolangErrorKind::DecodeError(DecodeCause::Truncated)),
                );
            }
            let sender = read_key(code, pos + 1);
            let receiver = read_key(code, pos + 33);
            let amount = match amount_read(
                decode_amount(slice_subrange(code, pos + 65, code.len())),
            ) {
                Ok(amount) => amount,
                Err(error) => {
                    return Err(error);
                },
            };
            proof {
                let record = rest.take(73);
                assert(record.subrange(1, 33) =~= code@.subrange(pos + 1, pos + 33));
                assert(record.subrange(33, 65) =~= code@.subrange(pos + 33, pos + 65));
                assert(record.subrange(65, 73) =~= code@.subrange(
                    pos + 65,
                    code@.len() as int,
                ).subrange(0, 8));
            }
            next = Instruction::Payment(Payment::new(sender, receiver, amount));
            length = 73;
        } else if tag == CHECK_HASH_TAG {
            next = Instruction::CheckHash(CheckHash);
            length = 1;
        } else if tag == COINBASE_TAG {
            if left < 33 {
                return Err(
                    FrankolangError::new(FrankolangErrorKind::DecodeError(DecodeCause::Truncated)),
                );
            }
            let miner = read_key(code, pos + 1);
            proof {
                let record = rest.take(33);
                assert(record.subrange(1, 33) =~= code@.subrange(pos + 1, pos + 33));
            }
            next = Instruction::CoinbaseTransaction(CoinbaseTransaction::new(miner));
            length = 33;
        } else {
            return Err(
                FrankolangError::new(
                    FrankolangErrorKind::DecodeError(DecodeCause::UnknownTag(tag)),
                ),
            );
        }
        proof {
            assert(next == decode_record(rest.take(length as int)));
            assert(rest.skip(length as int) =~= code@.skip(pos + length));
            lemma_preceded_by_push(done, next, decode_script(code@.skip(pos + length)));
        }
        instructions.push(next);
        pos += length;
    }
    assert(code@.skip(pos as int) =~= Seq::<u8>::empty());
    Ok(instructions)
}

} // verus!

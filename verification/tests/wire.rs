use frankolang::instructions::{CheckHash, CoinbaseTransaction, Instruction, Payment};
use frankolang::wire::{
    amount_field, amount_read, decode, encode, CHECK_HASH_TAG, COINBASE_TAG, PAYMENT_TAG,
};
use frankolang::{DecodeCause, FrankolangError, FrankolangErrorKind, FrankolangScript};

const A: [u8; 32] = [0xaa; 32];
const B: [u8; 32] = [0xbb; 32];

fn decode_failure(cause: DecodeCause) -> FrankolangError {
    FrankolangError::new(FrankolangErrorKind::DecodeError(cause))
}

fn sample() -> Vec<Instruction> {
    vec![
        Instruction::CoinbaseTransaction(CoinbaseTransaction::new(A)),
        Instruction::CheckHash(CheckHash),
        Instruction::Payment(Payment::new(A, B, 0x0102_0304_0506_0708)),
        Instruction::Payment(Payment::new(B, A, u64::MAX)),
    ]
}

fn payment_record(sender: [u8; 32], receiver: [u8; 32], amount: [u8; 8]) -> Vec<u8> {
    let mut record = vec![1u8];
    record.extend_from_slice(&sender);
    record.extend_from_slice(&receiver);
    record.extend_from_slice(&amount);
    record
}

#[test]
fn tags_are_fixed() {
    assert_eq!(PAYMENT_TAG, 1);
    assert_eq!(CHECK_HASH_TAG, 2);
    assert_eq!(COINBASE_TAG, 3);
}

#[test]
fn empty_list_is_empty_buffer() {
    assert_eq!(encode(&Vec::new()), Ok(Vec::new()));
    assert_eq!(decode(&[]), Ok(Vec::new()));
}

#[test]
fn check_hash_is_its_tag() {
    assert_eq!(encode(&vec![Instruction::CheckHash(CheckHash)]), Ok(vec![2u8]));
}

#[test]
fn coinbase_is_tag_and_miner() {
    let mut expected = vec![3u8];
    expected.extend_from_slice(&A);
    assert_eq!(
        encode(&vec![Instruction::CoinbaseTransaction(CoinbaseTransaction::new(A))]),
        Ok(expected)
    );
}

#[test]
fn payment_is_tag_keys_and_little_endian_amount() {
    let expected = payment_record(A, B, [8, 7, 6, 5, 4, 3, 2, 1]);
    assert_eq!(expected.len(), 73);
    assert_eq!(
        encode(&vec![Instruction::Payment(Payment::new(A, B, 0x0102_0304_0506_0708))]),
        Ok(expected)
    );
}

#[test]
fn payment_amount_is_read_little_endian() {
    let record = payment_record(A, B, [100, 0, 0, 0, 0, 0, 0, 0]);
    assert_eq!(decode(&record), Ok(vec![Instruction::Payment(Payment::new(A, B, 100))]));
    let record = payment_record(B, A, [0, 0, 0, 0, 0, 0, 0, 1]);
    assert_eq!(decode(&record), Ok(vec![Instruction::Payment(Payment::new(B, A, 1 << 56))]));
}

#[test]
fn records_follow_each_other_in_order() {
    let mut expected = vec![3u8];
    expected.extend_from_slice(&A);
    expected.push(2);
    expected.extend(payment_record(A, B, [8, 7, 6, 5, 4, 3, 2, 1]));
    expected.extend(payment_record(B, A, [255; 8]));
    assert_eq!(encode(&sample()), Ok(expected.clone()));
    assert_eq!(decode(&expected), Ok(sample()));
}

#[test]
fn decode_undoes_encode() {
    let bytes = encode(&sample()).unwrap();
    assert_eq!(decode(&bytes), Ok(sample()));
}

#[test]
fn encode_undoes_decode() {
    let mut bytes = vec![2u8, 2, 3];
    bytes.extend_from_slice(&B);
    bytes.extend(payment_record(A, A, [9, 0, 0, 0, 0, 0, 0, 0]));
    let list = decode(&bytes).unwrap();
    assert_eq!(list.len(), 4);
    assert_eq!(encode(&list), Ok(bytes));
}

#[test]
fn unknown_tag_is_reported() {
    assert_eq!(decode(&[0]), Err(decode_failure(DecodeCause::UnknownTag(0))));
    assert_eq!(decode(&[2, 2, 4, 2]), Err(decode_failure(DecodeCause::UnknownTag(4))));
    assert_eq!(decode(&[255]), Err(decode_failure(DecodeCause::UnknownTag(255))));
}

#[test]
fn truncated_coinbase_is_reported() {
    let mut bytes = vec![3u8];
    bytes.extend_from_slice(&A[..31]);
    assert_eq!(decode(&bytes), Err(decode_failure(DecodeCause::Truncated)));
    assert_eq!(decode(&[3]), Err(decode_failure(DecodeCause::Truncated)));
}

#[test]
fn truncated_payment_is_reported() {
    let whole = payment_record(A, B, [1, 2, 3, 4, 5, 6, 7, 8]);
    for cut in 1..whole.len() {
        assert_eq!(decode(&whole[..cut]), Err(decode_failure(DecodeCause::Truncated)));
    }
    assert!(decode(&whole).is_ok());
}

#[test]
fn first_fault_from_the_front_is_reported() {
    let mut bytes = vec![3u8];
    bytes.extend_from_slice(&[7u8; 32]);
    bytes.push(9);
    bytes.push(3);
    assert_eq!(decode(&bytes), Err(decode_failure(DecodeCause::UnknownTag(9))));
    let mut bytes = vec![3u8];
    bytes.extend_from_slice(&[9u8; 10]);
    assert_eq!(decode(&bytes), Err(decode_failure(DecodeCause::Truncated)));
}

#[test]
fn key_bytes_are_not_taken_for_tags() {
    let mut bytes = vec![3u8];
    bytes.extend_from_slice(&[0u8; 32]);
    assert_eq!(
        decode(&bytes),
        Ok(vec![Instruction::CoinbaseTransaction(CoinbaseTransaction::new([0u8; 32]))])
    );
}

#[test]
fn amount_field_maps_the_encoder_outcome() {
    assert_eq!(amount_field(Ok(vec![1, 2, 3])), Ok(vec![1, 2, 3]));
    assert_eq!(
        amount_field(Err(Box::new(bincode::ErrorKind::SizeLimit))),
        Err(FrankolangError::new(FrankolangErrorKind::EncodeError))
    );
}

#[test]
fn amount_read_maps_the_decoder_outcome() {
    assert_eq!(amount_read(Ok(77)), Ok(77));
    assert_eq!(
        amount_read(Err(Box::new(bincode::ErrorKind::SizeLimit))),
        Err(decode_failure(DecodeCause::Truncated))
    );
}

#[test]
fn script_round_trips_through_bytes() {
    let script = FrankolangScript::from_instructions(sample());
    let bytes = script.to_bytes().unwrap();
    assert_eq!(bytes.len(), 33 + 1 + 73 + 73);
    let read = FrankolangScript::from_bytes(bytes.clone()).unwrap();
    assert_eq!(read.instructions, sample());
    assert_eq!(read.state.account_count(), 0);
    assert_eq!(read.to_bytes(), Ok(bytes));
}

#[test]
fn script_from_bytes_does_not_restore_a_ledger() {
    let mut script = FrankolangScript::from_instructions(vec![
        Instruction::CoinbaseTransaction(CoinbaseTransaction::new(A)),
        Instruction::Payment(Payment::new(A, B, 1)),
    ]);
    script.execute().unwrap();
    assert_eq!(script.state.account_count(), 2);
    let read = FrankolangScript::from_bytes(script.to_bytes().unwrap()).unwrap();
    assert_eq!(read.state.account_count(), 0);
    assert_eq!(read.state.total(), 0);
}

#[test]
fn script_from_bad_bytes_fails() {
    assert_eq!(
        FrankolangScript::from_bytes(vec![1, 2, 3]).err(),
        Some(decode_failure(DecodeCause::Truncated))
    );
    assert_eq!(
        FrankolangScript::from_bytes(vec![2, 77]).err(),
        Some(decode_failure(DecodeCause::UnknownTag(77)))
    );
}

#[test]
fn decoded_script_runs() {
    let mut bytes = vec![3u8];
    bytes.extend_from_slice(&A);
    bytes.extend(payment_record(A, B, [100, 0, 0, 0, 0, 0, 0, 0]));
    let mut script = FrankolangScript::from_bytes(bytes).unwrap();
    assert_eq!(script.execute(), Ok(()));
    assert_eq!(script.state.balance(A), Some(19900));
    assert_eq!(script.state.balance(B), Some(100));
}

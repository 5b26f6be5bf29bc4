use action_codec::action::Action;
use action_codec::action::Address;
use action_codec::action::DecodeError;
use action_codec::action::H160;
use action_codec::action::H256;
use action_codec::action::Public;
use action_codec::action::Signature;
use action_codec::action::Transaction;

fn addr(seed: u8) -> Address {
    Address { bytes: (0..20u8).map(|i| i.wrapping_add(seed)).collect() }
}

fn public(seed: u8) -> Public {
    Public { bytes: (0..64u8).map(|i| i.wrapping_mul(3).wrapping_add(seed)).collect() }
}

fn sig(seed: u8) -> Signature {
    Signature { bytes: (0..65u8).map(|i| i.wrapping_mul(7).wrapping_add(seed)).collect() }
}

fn h160(seed: u8) -> H160 {
    H160 { bytes: (0..20u8).map(|i| i.wrapping_add(seed)).collect() }
}

fn h256(seed: u8) -> H256 {
    H256 { bytes: (0..32u8).map(|i| i.wrapping_mul(5).wrapping_add(seed)).collect() }
}

fn round_trip(a: Action) {
    let encoded = a.encode();
    let decoded = Action::decode(&encoded).expect("canonical encoding must decode");
    assert_eq!(a, decoded);
}

#[test]
fn encode_and_decode_set_shard_owners() {
    round_trip(Action::SetShardOwners { shard_id: 1, owners: vec![addr(11), addr(77)] });
}

#[test]
fn encode_and_decode_set_shard_users() {
    round_trip(Action::SetShardUsers { shard_id: 1, users: vec![addr(21), addr(99)] });
}

#[test]
fn encode_and_decode_store() {
    round_trip(Action::Store {
        content: "CodeChain".to_string(),
        certifier: addr(5),
        signature: sig(13),
    });
}

#[test]
fn encode_and_decode_remove() {
    round_trip(Action::Remove { hash: h256(42), signature: sig(3) });
}

#[test]
fn encode_and_decode_asset_transaction() {
    let tx = Transaction::from_encoded(vec![0xc0]).expect("an empty list is one whole item");
    round_trip(Action::AssetTransaction { transaction: tx, approvals: vec![sig(1), sig(2)] });
}

#[test]
fn encode_and_decode_payment() {
    round_trip(Action::Payment { receiver: addr(9), amount: 0 });
    round_trip(Action::Payment { receiver: addr(9), amount: 1 });
    round_trip(Action::Payment { receiver: addr(9), amount: u64::MAX });
}

#[test]
fn encode_and_decode_set_regular_key() {
    round_trip(Action::SetRegularKey { key: public(4) });
}

#[test]
fn encode_and_decode_create_shard() {
    round_trip(Action::CreateShard);
}

#[test]
fn encode_and_decode_wrap_ccc() {
    round_trip(Action::WrapCCC {
        shard_id: 0xBEEF,
        lock_script_hash: h160(8),
        parameters: vec![vec![], vec![1, 2, 3], vec![0x80; 60]],
        amount: 123_456_789,
    });
}

#[test]
fn encode_and_decode_custom() {
    let a = Action::Custom { handler_id: u64::MAX, bytes: vec![0, 1, 0xFF] };
    let encoded = a.encode();
    // The escape discriminant 0xFF is kept distant from the sequential
    // range and encodes as a two-byte string item.
    assert_eq!(encoded[1], 0x81);
    assert_eq!(encoded[2], 0xFF);
    round_trip(a);
}

#[test]
fn encode_and_decode_empty_lists() {
    round_trip(Action::SetShardOwners { shard_id: 0, owners: vec![] });
    round_trip(Action::SetShardUsers { shard_id: 0xFFFF, users: vec![] });
    round_trip(Action::Store { content: String::new(), certifier: addr(0), signature: sig(0) });
}

#[test]
fn encode_and_decode_long_owner_list() {
    let owners: Vec<Address> = (0..40u8).map(addr).collect();
    round_trip(Action::SetShardOwners { shard_id: 7, owners });
}

#[test]
fn create_shard_encodes_to_single_item_list() {
    let encoded = Action::CreateShard.encode();
    assert_eq!(encoded, vec![0xc1, 0x04]);
    assert_eq!(Action::decode(&encoded), Ok(Action::CreateShard));
}

#[test]
fn set_shard_users_concrete_bytes() {
    let u1 = addr(50);
    let u2 = addr(60);
    let a = Action::SetShardUsers { shard_id: 1, users: vec![u1.clone(), u2.clone()] };
    // [6, 1, [U1, U2]]: each address is a 20-byte string behind a 0x94
    // header; the inner list holds 42 payload bytes, the outer list 45.
    let mut expected: Vec<u8> = vec![0xc0 + 45, 0x06, 0x01, 0xc0 + 42];
    expected.push(0x80 + 20);
    expected.extend_from_slice(&u1.bytes);
    expected.push(0x80 + 20);
    expected.extend_from_slice(&u2.bytes);
    assert_eq!(a.encode(), expected);
    assert_eq!(Action::decode(&expected), Ok(a));
}

#[test]
fn store_encodes_as_four_items() {
    let c = addr(70);
    let s = sig(80);
    let a = Action::Store { content: "X".to_string(), certifier: c.clone(), signature: s.clone() };
    // [8, "X", C, S]: "X" is the single byte 0x58; the signature needs a
    // long-form string header; the payload totals 90 bytes.
    let mut expected: Vec<u8> = vec![0xf8, 90, 0x08, 0x58];
    expected.push(0x80 + 20);
    expected.extend_from_slice(&c.bytes);
    expected.push(0xb7 + 1);
    expected.push(65);
    expected.extend_from_slice(&s.bytes);
    assert_eq!(a.encode(), expected);
    assert_eq!(Action::decode(&expected), Ok(a));
}

#[test]
fn payment_missing_amount_is_incorrect_arity() {
    // A two-item list [2, R] for the three-item Payment variant.
    let mut bytes: Vec<u8> = vec![0xc0 + 22, 0x02, 0x80 + 20];
    bytes.extend_from_slice(&addr(1).bytes);
    assert_eq!(Action::decode(&bytes), Err(DecodeError::IncorrectArity));
}

#[test]
fn payment_extra_item_is_incorrect_arity() {
    // A four-item list [2, R, 5, 5] for the three-item Payment variant.
    let mut bytes: Vec<u8> = vec![0xc0 + 24, 0x02, 0x80 + 20];
    bytes.extend_from_slice(&addr(1).bytes);
    bytes.push(0x05);
    bytes.push(0x05);
    assert_eq!(Action::decode(&bytes), Err(DecodeError::IncorrectArity));
}

#[test]
fn unknown_tags_are_rejected() {
    // [0], [10] and [99]: bytes outside {1..9, 0xFF} name no variant.
    assert_eq!(Action::decode(&vec![0xc1, 0x80]), Err(DecodeError::UnknownDiscriminant));
    assert_eq!(Action::decode(&vec![0xc1, 0x0a]), Err(DecodeError::UnknownDiscriminant));
    assert_eq!(Action::decode(&vec![0xc1, 0x63]), Err(DecodeError::UnknownDiscriminant));
}

#[test]
fn garbage_envelope_is_incorrect_arity() {
    // Not a list at all, an empty input, and a truncated list.
    assert_eq!(Action::decode(&vec![0x05]), Err(DecodeError::IncorrectArity));
    assert_eq!(Action::decode(&vec![]), Err(DecodeError::IncorrectArity));
    assert_eq!(Action::decode(&vec![0xc5, 0x02]), Err(DecodeError::IncorrectArity));
    // An empty list has no discriminant to read.
    assert_eq!(Action::decode(&vec![0xc0]), Err(DecodeError::IncorrectArity));
}

#[test]
fn bad_field_is_field_decode_failure() {
    // [2, [], 5]: the receiver item is a list, not a 20-byte string.
    let bytes: Vec<u8> = vec![0xc3, 0x02, 0xc0, 0x05];
    assert_eq!(Action::decode(&bytes), Err(DecodeError::FieldDecodeFailure));
    // [2, R, R]: the amount item is a 20-byte string, too wide for u64.
    let mut b2: Vec<u8> = vec![0xc0 + 43, 0x02, 0x80 + 20];
    b2.extend_from_slice(&addr(1).bytes);
    b2.push(0x80 + 20);
    b2.extend_from_slice(&addr(1).bytes);
    assert_eq!(Action::decode(&b2), Err(DecodeError::FieldDecodeFailure));
    // [3, K] with a 10-byte key: wrong width for a public key.
    let mut b3: Vec<u8> = vec![0xc0 + 12, 0x03, 0x80 + 10];
    b3.extend_from_slice(&[7u8; 10]);
    assert_eq!(Action::decode(&b3), Err(DecodeError::FieldDecodeFailure));
    // [8, C_bytes, A, S] with invalid UTF-8 content.
    let store = Action::Store { content: "ab".to_string(), certifier: addr(2), signature: sig(2) };
    let mut enc = store.encode();
    // After the two-byte list header and the tag, the content item "ab"
    // sits at offset 3..6 as [0x82, 'a', 'b']; 0xFF 0xFF is not UTF-8.
    assert_eq!(enc[3], 0x82);
    enc[4] = 0xFF;
    enc[5] = 0xFF;
    assert_eq!(Action::decode(&enc), Err(DecodeError::FieldDecodeFailure));
}

#[test]
fn non_canonical_encodings_are_rejected() {
    // [4] with the discriminant wrapped in a needless string header.
    assert_eq!(
        Action::decode(&vec![0xc2, 0x81, 0x04]),
        Err(DecodeError::FieldDecodeFailure)
    );
    // Payment amount 1 written with a leading zero byte.
    let mut bytes: Vec<u8> = vec![0xc0 + 25, 0x02, 0x80 + 20];
    bytes.extend_from_slice(&addr(1).bytes);
    bytes.push(0x82);
    bytes.push(0x00);
    bytes.push(0x01);
    assert_eq!(Action::decode(&bytes), Err(DecodeError::FieldDecodeFailure));
}

#[test]
fn encoding_and_hashing_are_deterministic() {
    let a = Action::SetShardOwners { shard_id: 1, owners: vec![addr(11), addr(77)] };
    let b = Action::SetShardOwners { shard_id: 1, owners: vec![addr(11), addr(77)] };
    assert_eq!(a.encode(), b.encode());
    assert_eq!(a.hash(), b.hash());
    assert_eq!(a.hash(), a.hash());
}

#[test]
fn single_field_change_is_visible() {
    let a = Action::SetShardOwners { shard_id: 1, owners: vec![addr(11), addr(77)] };
    let mut other = addr(77);
    other.bytes[19] ^= 1;
    let b = Action::SetShardOwners { shard_id: 1, owners: vec![addr(11), other] };
    assert_ne!(a.encode(), b.encode());
    assert_ne!(a.hash(), b.hash());
}

#[test]
fn owner_order_is_preserved() {
    let a = addr(11);
    let b = addr(77);
    let action = Action::SetShardOwners { shard_id: 1, owners: vec![a.clone(), b.clone()] };
    let decoded = Action::decode(&action.encode()).unwrap();
    match decoded {
        Action::SetShardOwners { shard_id, owners } => {
            assert_eq!(shard_id, 1);
            assert_eq!(owners, vec![a.clone(), b.clone()]);
        },
        _ => panic!("wrong variant"),
    }
    let swapped = Action::SetShardOwners { shard_id: 1, owners: vec![b, a] };
    assert_ne!(action.encode(), swapped.encode());
}

#[test]
fn hash_is_a_32_byte_digest() {
    let h = Action::CreateShard.hash();
    assert_eq!(h.bytes.len(), 32);
    // The digest is not the encoding itself.
    assert_ne!(h.bytes, Action::CreateShard.encode());
    // Distinct actions get distinct digests.
    assert_ne!(h, Action::Payment { receiver: addr(1), amount: 1 }.hash());
}

#[test]
fn transaction_must_be_one_whole_item() {
    assert!(Transaction::from_encoded(vec![0xc0]).is_some());
    assert!(Transaction::from_encoded(vec![0x7f]).is_some());
    // Trailing bytes after the item.
    assert!(Transaction::from_encoded(vec![0xc0, 0x00]).is_none());
    // A truncated item.
    assert!(Transaction::from_encoded(vec![0xc5, 0x01]).is_none());
    assert!(Transaction::from_encoded(vec![]).is_none());
}

#[test]
fn encode_and_decode_multibyte_content() {
    round_trip(Action::Store {
        content: "šárka — 每日のコンテンツ, long enough to need a long-form header".to_string(),
        certifier: addr(1),
        signature: sig(1),
    });
}

#[test]
fn shard_id_too_wide_is_field_decode_failure() {
    // [5, 70000, []]: 70000 does not fit the 16-bit shard id.
    let bytes: Vec<u8> = vec![0xc6, 0x05, 0x83, 0x01, 0x11, 0x70, 0xc0];
    assert_eq!(Action::decode(&bytes), Err(DecodeError::FieldDecodeFailure));
}

#[test]
fn asset_transaction_carries_raw_bytes_through() {
    // The sub-transaction is opaque: a nested list travels verbatim.
    let raw: Vec<u8> = vec![0xc4, 0x83, 0x01, 0x02, 0x03];
    let tx = Transaction::from_encoded(raw.clone()).unwrap();
    let a = Action::AssetTransaction { transaction: tx, approvals: vec![] };
    let encoded = a.encode();
    match Action::decode(&encoded).unwrap() {
        Action::AssetTransaction { transaction, .. } => assert_eq!(transaction.raw, raw),
        _ => panic!("wrong variant"),
    }
}

#[test]
fn short_approval_is_field_decode_failure() {
    // [1, tx, [S]] where S is 10 bytes: not a 65-byte signature.
    let mut bytes: Vec<u8> = vec![0xc0 + 14, 0x01, 0xc0, 0xc0 + 11, 0x80 + 10];
    bytes.extend_from_slice(&[9u8; 10]);
    assert_eq!(Action::decode(&bytes), Err(DecodeError::FieldDecodeFailure));
}

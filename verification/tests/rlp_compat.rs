//! Cross-checks against the rlp crate: the library's canonical encoding
//! is byte-for-byte ordinary RLP, and its envelopes are what an RLP
//! reader sees.
use action_codec::action::Action;
use action_codec::action::Address;
use action_codec::action::Signature;

fn addr(seed: u8) -> Address {
    Address { bytes: (0..20u8).map(|i| i.wrapping_add(seed)).collect() }
}

fn sig(seed: u8) -> Signature {
    Signature { bytes: (0..65u8).map(|i| i.wrapping_mul(7).wrapping_add(seed)).collect() }
}

#[test]
fn payment_matches_rlp_stream() {
    let receiver = addr(33);
    let a = Action::Payment { receiver: receiver.clone(), amount: 987_654_321 };
    let mut s = rlp::RlpStream::new();
    s.begin_list(3);
    s.append(&2u8);
    s.append(&receiver.bytes);
    s.append(&987_654_321u64);
    assert_eq!(a.encode(), s.out().to_vec());
}

#[test]
fn set_shard_owners_matches_rlp_stream() {
    let o1 = addr(1);
    let o2 = addr(2);
    let a = Action::SetShardOwners { shard_id: 42, owners: vec![o1.clone(), o2.clone()] };
    let mut s = rlp::RlpStream::new();
    s.begin_list(3);
    s.append(&5u8);
    s.append(&42u16);
    s.begin_list(2);
    s.append(&o1.bytes);
    s.append(&o2.bytes);
    assert_eq!(a.encode(), s.out().to_vec());
}

#[test]
fn store_matches_rlp_stream() {
    let certifier = addr(9);
    let signature = sig(4);
    let a = Action::Store {
        content: "CodeChain".to_string(),
        certifier: certifier.clone(),
        signature: signature.clone(),
    };
    let mut s = rlp::RlpStream::new();
    s.begin_list(4);
    s.append(&8u8);
    s.append(&"CodeChain".to_string());
    s.append(&certifier.bytes);
    s.append(&signature.bytes);
    assert_eq!(a.encode(), s.out().to_vec());
}

#[test]
fn payment_envelope_reads_as_three_items() {
    let a = Action::Payment { receiver: addr(33), amount: 7 };
    let encoded = a.encode();
    let r = rlp::Rlp::new(&encoded);
    assert!(r.is_list());
    assert_eq!(r.item_count().unwrap(), 3);
    assert_eq!(r.val_at::<u8>(0).unwrap(), 2);
    assert_eq!(r.val_at::<Vec<u8>>(1).unwrap(), addr(33).bytes);
    assert_eq!(r.val_at::<u64>(2).unwrap(), 7);
}

#[test]
fn create_shard_envelope_reads_as_one_item() {
    let encoded = Action::CreateShard.encode();
    let r = rlp::Rlp::new(&encoded);
    assert_eq!(r.item_count().unwrap(), 1);
    assert_eq!(r.val_at::<u8>(0).unwrap(), 4);
}

//! Byte-level behavior: hex, 256-bit arithmetic, the serial form,
//! hashing, signatures, and source-map parsing.

use svmdev::crypto;
use svmdev::error::Error;
use svmdev::hex::{read_hex, to_hex};
use svmdev::rlp;
use svmdev::solidity::{parse_source, parse_source_map, JumpType, SourceItem};
use svmdev::types::{decode_transaction, Transaction, TransactionAction};
use svmdev::u256::U256;

fn u(x: u64) -> U256 {
    U256::from_u64(x)
}

#[test]
fn hex_read_and_write() {
    assert_eq!(read_hex(b"0x0").unwrap(), vec![0u8]);
    assert_eq!(read_hex(b"0").unwrap(), vec![0u8]);
    assert_eq!(read_hex(b"0xdeadBEEF").unwrap(), vec![0xde, 0xad, 0xbe, 0xef]);
    assert_eq!(read_hex(b"0x1").unwrap(), vec![0x01]);
    assert!(read_hex(b"0xzz").is_err());
    assert_eq!(to_hex(&[0xde, 0xad]), b"0xdead".to_vec());
    assert_eq!(to_hex(&[]), b"0x".to_vec());
}

#[test]
fn u256_arithmetic() {
    assert_eq!(u(2).checked_add(&u(3)).unwrap(), u(5));
    assert_eq!(u(5).checked_sub(&u(3)).unwrap(), u(2));
    assert!(u(3).checked_sub(&u(5)).is_none());
    assert_eq!(u(21000).checked_mul(&u(3)).unwrap(), u(63000));
    assert!(u(7).lt(&u(8)));
    assert!(!u(8).lt(&u(8)));
    assert!(u(8).le(&u(8)));
    let max = U256 {
        w0: u64::MAX,
        w1: u64::MAX,
        w2: u64::MAX,
        w3: u64::MAX,
    };
    assert!(max.checked_add(&u(1)).is_none());
    assert!(max.checked_mul(&u(2)).is_none());
    // A product spanning several limbs.
    let a = U256 { w0: 0, w1: 1, w2: 0, w3: 0 };
    let p = a.checked_mul(&a).unwrap();
    assert_eq!(p, U256 { w0: 0, w1: 0, w2: 1, w3: 0 });
}

#[test]
fn u256_byte_forms() {
    assert_eq!(u(0).to_min_be(), Vec::<u8>::new());
    assert_eq!(u(1).to_min_be(), vec![1]);
    assert_eq!(u(0x1234).to_min_be(), vec![0x12, 0x34]);
    let b = u(0x1234).to_be_bytes();
    assert_eq!(b.len(), 32);
    assert_eq!(b[30], 0x12);
    assert_eq!(b[31], 0x34);
    assert_eq!(U256::from_be_bytes(&[0x12, 0x34]), u(0x1234));
    assert_eq!(U256::from_be_bytes(&[]), u(0));
}

fn sample_tx() -> Transaction {
    Transaction {
        nonce: u(1),
        gas_price: u(20),
        gas_limit: u(21000),
        action: TransactionAction::Call(vec![0x11; 20]),
        value: u(5),
        input: vec![1, 2, 3],
        v: 27,
        r: u(99),
        s: u(7),
    }
}

#[test]
fn transaction_round_trip() {
    let tx = sample_tx();
    let encoded = tx.rlp();
    let back = decode_transaction(&encoded).unwrap();
    assert_eq!(back.rlp(), encoded);
    assert_eq!(back.nonce, u(1));
    assert_eq!(back.value, u(5));
    assert_eq!(back.input, vec![1, 2, 3]);
    match back.action {
        TransactionAction::Call(a) => assert_eq!(a, vec![0x11; 20]),
        TransactionAction::Create => panic!("expected a call"),
    }
}

#[test]
fn transaction_hash_stable_under_reencoding() {
    let tx = sample_tx();
    let encoded = tx.rlp();
    let back = decode_transaction(&encoded).unwrap();
    assert_eq!(back.hash(), tx.hash());
}

#[test]
fn malformed_rlp_is_refused() {
    assert_eq!(decode_transaction(&[]).unwrap_err(), Error::RlpError);
    assert_eq!(decode_transaction(&[0xc1, 0x01]).unwrap_err(), Error::RlpError);
    let mut encoded = sample_tx().rlp();
    encoded.push(0);
    assert_eq!(decode_transaction(&encoded).unwrap_err(), Error::RlpError);
}

#[test]
fn keccak_known_digest() {
    let h = crypto::keccak(&[]);
    assert_eq!(
        to_hex(&h),
        b"0xc5d2460186f7233c927e7db2dcc703c0e500b653ca82273b7bfad8045d85a470".to_vec()
    );
}

#[test]
fn address_of_known_secret_key() {
    let mut secret = vec![0u8; 32];
    secret[31] = 1;
    let address = crypto::address_of_secret(&secret).unwrap();
    assert_eq!(
        to_hex(&address),
        b"0x7e5f4552091a69125d5dfcb7b8c2659029395bdf".to_vec()
    );
}

#[test]
fn signed_transaction_recovers_its_sender() {
    let mut secret = vec![0u8; 32];
    secret[31] = 1;
    let address = crypto::address_of_secret(&secret).unwrap();

    let mut tx = sample_tx();
    let hash = tx.signing_hash();
    let sig = crypto::secp_sign(&hash, &secret).unwrap();
    tx.v = 27 + sig[0] as u64;
    tx.r = U256::from_be_bytes(&sig[1..33]);
    tx.s = U256::from_be_bytes(&sig[33..65]);

    assert_eq!(tx.caller().unwrap(), address);
}

#[test]
fn empty_trie_root_is_canonical() {
    let t = svmdev::trie::trie_new();
    let root = svmdev::trie::trie_root(&t);
    assert_eq!(
        to_hex(&root),
        b"0x56e81f171bcc55a6ff8345e692c0f86e5b48e01b996cadc001622fb5e363b421".to_vec()
    );
}

#[test]
fn trie_root_depends_on_contents() {
    let mut t = svmdev::trie::trie_new();
    let empty = svmdev::trie::trie_root(&t);
    svmdev::trie::trie_insert(&mut t, b"key", b"value");
    let one = svmdev::trie::trie_root(&t);
    assert_ne!(empty, one);
    assert_eq!(svmdev::trie::trie_get(&t, b"key").unwrap(), b"value".to_vec());
    svmdev::trie::trie_delete(&mut t, b"key");
    assert_eq!(svmdev::trie::trie_root(&t), empty);
}

#[test]
fn rlp_string_forms() {
    let mut out = Vec::new();
    rlp::append_bytes(&mut out, &[0x7f]);
    assert_eq!(out, vec![0x7f]);
    let mut out = Vec::new();
    rlp::append_bytes(&mut out, &[0x80]);
    assert_eq!(out, vec![0x81, 0x80]);
    let mut out = Vec::new();
    rlp::append_bytes(&mut out, &[]);
    assert_eq!(out, vec![0x80]);
    let long = vec![7u8; 60];
    let mut out = Vec::new();
    rlp::append_bytes(&mut out, &long);
    assert_eq!(out[0], 0xb8);
    assert_eq!(out[1], 60);
    assert_eq!(&out[2..], &long[..]);
}

#[test]
fn source_items_intersect_by_span() {
    let a = SourceItem { offset: 0, length: 10, file_index: 1 };
    let b = SourceItem { offset: 5, length: 10, file_index: 1 };
    let c = SourceItem { offset: 10, length: 10, file_index: 1 };
    let d = SourceItem { offset: 5, length: 10, file_index: 2 };
    assert!(a.has_intersection(&b));
    assert!(!a.has_intersection(&c));
    assert!(!a.has_intersection(&d));
    let found = a.find_intersection(&[c, d, b]).unwrap();
    assert_eq!(found.0, 2);
    assert_eq!(found.1, b);
}

#[test]
fn parse_source_fields_repeat() {
    let items = parse_source("1:2:1;;3::2").unwrap();
    assert_eq!(items.len(), 3);
    assert_eq!(items[0], SourceItem { offset: 1, length: 2, file_index: 1 });
    assert_eq!(items[1], SourceItem { offset: 1, length: 1, file_index: 1 });
    assert_eq!(items[2], SourceItem { offset: 3, length: 3, file_index: 2 });
    assert!(parse_source("1:x:1").is_err());
}

#[test]
fn parse_source_missing_fields_inherit() {
    let items = parse_source("7:8:9;").unwrap();
    assert_eq!(items.len(), 2);
    assert_eq!(items[0], SourceItem { offset: 7, length: 8, file_index: 9 });
    assert_eq!(items[1], SourceItem { offset: 9, length: 9, file_index: 9 });
}

#[test]
fn parse_source_map_reads_jumps() {
    let items = parse_source_map("1:2:3:4:i;5:6:7:8:o;9:10:11:12:-").unwrap();
    assert_eq!(items.len(), 3);
    assert_eq!(items[0].source, SourceItem { offset: 1, length: 2, file_index: 3 });
    assert_eq!(items[0].jump, Some(JumpType::FunctionIn));
    assert_eq!(items[1].jump, Some(JumpType::FunctionOut));
    assert_eq!(items[2].jump, Some(JumpType::Regular));
    assert_eq!(parse_source_map("1:2:3").unwrap()[0].jump, None);
    assert!(parse_source_map("1:2:3:4:x").is_err());
}

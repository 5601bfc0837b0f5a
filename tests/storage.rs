use dozer_cache::index::{lex_less, IndexDatabase};
use dozer_cache::query::{apply_paging, Operator};
use dozer_cache::storage::{database_key_flag, Decode, Encode, LmdbDupValue, LmdbKey, LmdbValType, LmdbValue, NodeHandle, OpIdentifier};

#[test]
fn test_lmdb_key_types() {
    assert_eq!(u8::TYPE, LmdbValType::FixedSizeOtherThanU32OrUsize);
    assert_eq!(u32::TYPE, LmdbValType::U32);
    assert_eq!(u64::TYPE, LmdbValType::U64);
    assert_eq!(<[u8]>::TYPE, LmdbValType::VariableSize);
}

#[test]
fn integers_encode_big_endian() {
    assert_eq!(7u8.encode().as_ref(), &[7]);
    assert_eq!(0x01020304u32.encode().as_ref(), &[1, 2, 3, 4]);
    assert_eq!(0x0102030405060708u64.encode().as_ref(), &[1, 2, 3, 4, 5, 6, 7, 8]);
    assert_eq!(u32::decode(&[1, 2, 3, 4]), 0x01020304);
    assert_eq!(u64::decode(&[0, 0, 0, 0, 0, 0, 1, 0]), 256);
    assert_eq!(u8::decode(&[9]), 9);
}

#[test]
fn op_identifier_is_sixteen_bytes() {
    let op = OpIdentifier { txid: 1, seq_in_tx: 258 };
    let bytes = op.encode().as_ref().to_vec();
    assert_eq!(bytes, vec![0, 0, 0, 0, 0, 0, 0, 1, 0, 0, 0, 0, 0, 0, 1, 2]);
    assert_eq!(OpIdentifier::decode(&bytes), op);
    let h = NodeHandle { bytes: vec![3, 4] };
    assert_eq!(h.encode().as_ref(), &[3, 4]);
    assert_eq!(NodeHandle::decode(&[3, 4]), h);
    assert_eq!("ab".encode().as_ref(), b"ab");
}

#[test]
fn lexicographic_order() {
    assert!(lex_less(&[1], &[2]));
    assert!(lex_less(&[1], &[1, 0]));
    assert!(!lex_less(&[1, 0], &[1]));
    assert!(!lex_less(&[3], &[3]));
    assert!(lex_less(&[], &[0]));
}

#[test]
fn index_keeps_key_order() {
    let mut db = IndexDatabase::new();
    db.insert(vec![2], 5);
    db.insert(vec![1], 9);
    db.insert(vec![2], 1);
    db.insert(vec![1, 0], 3);
    assert_eq!(db.count(), 4);
    assert_eq!(db.scan(Operator::LTE, &[2]), vec![9, 3, 1, 5]);
    assert_eq!(db.scan(Operator::EQ, &[2]), vec![1, 5]);
    assert_eq!(db.scan(Operator::LT, &[2]), vec![9, 3]);
    assert_eq!(db.scan(Operator::GT, &[1]), vec![3, 1, 5]);
    assert_eq!(db.scan(Operator::GTE, &[1, 0]), vec![3, 1, 5]);
    assert!(db.remove(&[2], 1));
    assert!(!db.remove(&[2], 1));
    assert_eq!(db.count(), 3);
    assert_eq!(db.scan(Operator::EQ, &[2]), vec![5]);
}

#[test]
fn paging_skips_then_limits() {
    assert_eq!(apply_paging(vec![1, 2, 3, 4], 1, Some(2)), vec![2, 3]);
    assert_eq!(apply_paging(vec![1, 2, 3, 4], 3, Some(5)), vec![4]);
    assert_eq!(apply_paging(vec![1, 2, 3, 4], 9, None), Vec::<u64>::new());
    assert_eq!(apply_paging(vec![1, 2], 0, Some(0)), Vec::<u64>::new());
    assert_eq!(apply_paging(vec![1, 2], 0, None), vec![1, 2]);
}

#[test]
fn integer_keys_get_integer_comparison() {
    assert!(database_key_flag::<u32>().integer_key);
    assert!(database_key_flag::<u64>().integer_key);
    assert!(!database_key_flag::<u8>().integer_key);
    assert!(!database_key_flag::<[u8]>().integer_key);
    assert!(!database_key_flag::<str>().integer_key);
    assert!(!database_key_flag::<OpIdentifier>().integer_key);
}

fn round_trip<V: LmdbValue>(v: &V) -> Vec<u8> {
    let bytes = v.encode().as_ref().to_vec();
    V::decode(&bytes).encode().as_ref().to_vec()
}

fn key_kind<K: LmdbDupValue>() -> LmdbValType {
    K::TYPE
}

#[test]
fn value_and_dup_value_markers() {
    assert_eq!(round_trip(&0x0a0bu32), vec![0, 0, 10, 11]);
    assert_eq!(round_trip(&NodeHandle { bytes: vec![5] }), vec![5]);
    assert_eq!(key_kind::<u64>(), LmdbValType::U64);
    assert_eq!(key_kind::<OpIdentifier>(), LmdbValType::FixedSizeOtherThanU32OrUsize);
}

use lsm_engine::internal_key::InternalKeyValue;
use lsm_engine::mem_table::{bytes_equal, MemTable};
use lsm_engine::write_batch::ValueType;

#[test]
fn test_from_key() {
    let test_key = "test_key".to_string();
    let kv = InternalKeyValue::from(
        1,
        ValueType::KTypeValue,
        test_key.clone().into_bytes(),
        "test_value".to_string().into_bytes(),
    );
    assert_eq!(kv.get_key(), test_key.into_bytes());
}

#[test]
fn internal_key_value_parts() {
    let kv = InternalKeyValue::from(9, ValueType::KTypeDeletion, b"k".to_vec(), b"v".to_vec());
    assert_eq!(kv.get_key(), b"k".to_vec());
    assert_eq!(kv.get_sequence(), 9);
    assert_eq!(kv.get_type(), ValueType::KTypeDeletion);
    assert_eq!(kv.get_value(), b"v".to_vec());
    let seek = InternalKeyValue::from_key(b"k".to_vec());
    assert_eq!(seek.get_key(), b"k".to_vec());
    assert_eq!(seek.get_sequence(), u64::MAX);
    assert_eq!(seek.get_type(), ValueType::KTypeValue);
    assert_eq!(seek.get_value(), Vec::<u8>::new());
}

#[test]
fn memtable_newest_wins() {
    let mut table = MemTable::new();
    table.add(1, ValueType::KTypeValue, b"k".to_vec(), b"a".to_vec());
    assert_eq!(table.get(b"k"), Some(b"a".to_vec()));
    table.add(2, ValueType::KTypeValue, b"k".to_vec(), b"b".to_vec());
    assert_eq!(table.get(b"k"), Some(b"b".to_vec()));
    table.add(3, ValueType::KTypeDeletion, b"k".to_vec(), Vec::new());
    assert_eq!(table.get(b"k"), None);
    table.add(4, ValueType::KTypeValue, b"k".to_vec(), b"c".to_vec());
    assert_eq!(table.get(b"k"), Some(b"c".to_vec()));
}

#[test]
fn memtable_newest_wins_in_any_order_of_adding() {
    let mut table = MemTable::new();
    table.add(7, ValueType::KTypeValue, b"k".to_vec(), b"new".to_vec());
    table.add(3, ValueType::KTypeValue, b"k".to_vec(), b"old".to_vec());
    table.add(5, ValueType::KTypeDeletion, b"k".to_vec(), Vec::new());
    assert_eq!(table.get(b"k"), Some(b"new".to_vec()));
    table.add(u64::MAX, ValueType::KTypeDeletion, b"k".to_vec(), Vec::new());
    assert_eq!(table.get(b"k"), None);
}

#[test]
fn memtable_absent_key() {
    let mut table = MemTable::new();
    assert_eq!(table.get(b"k"), None);
    table.add(1, ValueType::KTypeValue, b"j".to_vec(), b"1".to_vec());
    table.add(2, ValueType::KTypeValue, b"l".to_vec(), b"2".to_vec());
    assert_eq!(table.get(b"k"), None);
    assert_eq!(table.get(b""), None);
    assert_eq!(table.get(b"j"), Some(b"1".to_vec()));
    assert_eq!(table.get(b"l"), Some(b"2".to_vec()));
}

#[test]
fn memtable_keys_that_start_alike() {
    let mut table = MemTable::new();
    table.add(1, ValueType::KTypeValue, b"a".to_vec(), b"1".to_vec());
    table.add(9, ValueType::KTypeValue, b"a\0".to_vec(), b"2".to_vec());
    table.add(8, ValueType::KTypeValue, b"ab".to_vec(), b"3".to_vec());
    table.add(7, ValueType::KTypeValue, Vec::new(), b"4".to_vec());
    table.add(6, ValueType::KTypeValue, vec![255, 255], b"5".to_vec());
    assert_eq!(table.get(b"a"), Some(b"1".to_vec()));
    assert_eq!(table.get(b"a\0"), Some(b"2".to_vec()));
    assert_eq!(table.get(b"ab"), Some(b"3".to_vec()));
    assert_eq!(table.get(b""), Some(b"4".to_vec()));
    assert_eq!(table.get(&[255, 255]), Some(b"5".to_vec()));
    assert_eq!(table.get(&[255]), None);
    assert_eq!(table.get(b"a\0\0"), None);
}

#[test]
fn memtable_second_version_with_one_sequence_is_dropped() {
    let mut table = MemTable::new();
    table.add(5, ValueType::KTypeValue, b"k".to_vec(), b"first".to_vec());
    table.add(5, ValueType::KTypeValue, b"k".to_vec(), b"second".to_vec());
    assert_eq!(table.get(b"k"), Some(b"first".to_vec()));
    table.add(5, ValueType::KTypeDeletion, b"k".to_vec(), Vec::new());
    assert_eq!(table.get(b"k"), Some(b"first".to_vec()));
    // the same sequence number under another key is another version
    table.add(5, ValueType::KTypeValue, b"other".to_vec(), b"third".to_vec());
    assert_eq!(table.get(b"other"), Some(b"third".to_vec()));
}

#[test]
fn memtable_empty_value_is_a_value() {
    let mut table = MemTable::new();
    table.add(1, ValueType::KTypeValue, b"k".to_vec(), Vec::new());
    assert_eq!(table.get(b"k"), Some(Vec::new()));
}

#[test]
fn bytes_equal_compares() {
    assert!(bytes_equal(b"", b""));
    assert!(bytes_equal(b"abc", b"abc"));
    assert!(!bytes_equal(b"abc", b"abd"));
    assert!(!bytes_equal(b"abc", b"ab"));
    assert!(!bytes_equal(b"", b"a"));
}

#[test]
fn internal_key_bytes() {
    let kv = InternalKeyValue::from(1, ValueType::KTypeValue, b"k".to_vec(), b"v".to_vec());
    assert_eq!(kv.to_bytes(), vec![107, 0, 0, 255, 255, 255, 255, 255, 255, 255, 254, 0, 118]);
    let kv = InternalKeyValue::from(
        0x0102030405060708,
        ValueType::KTypeDeletion,
        Vec::new(),
        Vec::new(),
    );
    assert_eq!(
        kv.into_bytes(),
        vec![0, 0, 0xfe, 0xfd, 0xfc, 0xfb, 0xfa, 0xf9, 0xf8, 0xf7, 1]
    );
    let seek = InternalKeyValue::from_key(b"k".to_vec());
    assert_eq!(seek.to_bytes(), vec![107, 0, 0, 0, 0, 0, 0, 0, 0, 0, 0, 0]);
}

#[test]
fn internal_key_escapes_zero_bytes() {
    let kv = InternalKeyValue::from(
        u64::MAX,
        ValueType::KTypeDeletion,
        vec![97, 0, 98, 0],
        vec![0, 0],
    );
    assert_eq!(
        kv.to_bytes(),
        vec![97, 0, 255, 98, 0, 255, 0, 0, 0, 0, 0, 0, 0, 0, 0, 0, 1, 0, 0]
    );
    assert_eq!(kv.get_key(), vec![97, 0, 98, 0]);
    assert_eq!(kv.get_sequence(), u64::MAX);
    assert_eq!(kv.get_type(), ValueType::KTypeDeletion);
    assert_eq!(kv.get_value(), vec![0, 0]);
}

#[test]
fn internal_key_round_trip() {
    let keys: Vec<Vec<u8>> =
        vec![Vec::new(), vec![0], vec![0, 0], vec![255], vec![0, 255], b"key".to_vec()];
    let sequences = [0u64, 1, 255, 256, 0x0102030405060708, u64::MAX - 1, u64::MAX];
    for key in &keys {
        for sequence in sequences {
            for kind in [ValueType::KTypeValue, ValueType::KTypeDeletion] {
                let kv = InternalKeyValue::from(sequence, kind, key.clone(), b"value".to_vec());
                let again = InternalKeyValue::decode(kv.to_bytes()).unwrap();
                assert_eq!(again, kv);
                assert_eq!(again.get_key(), *key);
                assert_eq!(again.get_sequence(), sequence);
                assert_eq!(again.get_type(), kind);
                assert_eq!(again.get_value(), b"value".to_vec());
            }
        }
    }
}

#[test]
fn internal_key_decode_refuses_what_is_no_entry() {
    // no end of the key
    assert_eq!(InternalKeyValue::decode(Vec::new()), None);
    assert_eq!(InternalKeyValue::decode(vec![107]), None);
    assert_eq!(InternalKeyValue::decode(vec![107, 0]), None);
    assert_eq!(InternalKeyValue::decode(vec![107, 0, 255]), None);
    // a zero byte followed by neither 0 nor 255
    assert_eq!(InternalKeyValue::decode(vec![107, 0, 7, 0, 0, 0, 0, 0, 0, 0, 0, 0, 0, 0]), None);
    // a sequence number cut short, and no rank
    assert_eq!(InternalKeyValue::decode(vec![107, 0, 0, 1, 2, 3]), None);
    assert_eq!(InternalKeyValue::decode(vec![107, 0, 0, 0, 0, 0, 0, 0, 0, 0, 0]), None);
    // an unknown rank
    assert_eq!(InternalKeyValue::decode(vec![107, 0, 0, 0, 0, 0, 0, 0, 0, 0, 0, 2]), None);
    assert!(InternalKeyValue::decode(vec![107, 0, 0, 0, 0, 0, 0, 0, 0, 0, 0, 1]).is_some());
}

#[test]
fn internal_key_bytes_stand_in_the_order_of_the_table() {
    // in the order of the table: by key, then the higher sequence number
    // first, then a value before a deletion
    let entries = vec![
        (Vec::new(), 5u64, ValueType::KTypeValue),
        (vec![0], 9, ValueType::KTypeValue),
        (vec![0, 0], 1, ValueType::KTypeValue),
        (vec![0, 1], 1, ValueType::KTypeValue),
        (vec![1], u64::MAX, ValueType::KTypeValue),
        (vec![1], u64::MAX, ValueType::KTypeDeletion),
        (vec![1], 1 << 56, ValueType::KTypeValue),
        (vec![1], 256, ValueType::KTypeValue),
        (vec![1], 255, ValueType::KTypeDeletion),
        (vec![1], 0, ValueType::KTypeValue),
        (vec![1, 0], 7, ValueType::KTypeValue),
        (vec![1, 0, 0], 7, ValueType::KTypeValue),
        (vec![1, 1], 3, ValueType::KTypeValue),
        (vec![2], 3, ValueType::KTypeValue),
        (vec![255], 3, ValueType::KTypeValue),
        (vec![255, 0], 3, ValueType::KTypeValue),
    ];
    let encoded: Vec<Vec<u8>> = entries
        .iter()
        .map(|(k, s, t)| InternalKeyValue::from(*s, *t, k.clone(), b"v".to_vec()).into_bytes())
        .collect();
    for i in 0..encoded.len() {
        for j in 0..encoded.len() {
            assert_eq!(encoded[i] < encoded[j], i < j);
        }
    }
}

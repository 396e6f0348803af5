use monumentum::engine::btree_index::BTreeIndex;
use monumentum::engine::key::{IndexKey, KeyOrder};
use monumentum::hash_index::{HashIndex, IndexKey as CellKey};
use monumentum::types::{Blob, Float, Integer, Text};
use monumentum::value::Value;

fn int_key(i: i64) -> IndexKey {
    IndexKey::Integer(i)
}

#[test]
fn test_btree_index_direct_methods() {
    let mut idx = BTreeIndex::new();
    idx.insert(int_key(1), 10);
    idx.insert(int_key(2), 20);
    idx.insert(int_key(1), 30);

    let indices = idx.get_indices(&int_key(1));
    assert!(indices.is_some());
    if let Some(slice) = indices {
        assert_eq!(slice.len(), 2);
        assert!(slice.contains(&10));
        assert!(slice.contains(&30));
    }

    idx.remove(&int_key(1), 10);
    let indices_after = idx.get_indices(&int_key(1));
    assert!(indices_after.is_some());
    if let Some(slice) = indices_after {
        assert_eq!(slice.len(), 1);
        assert_eq!(slice.first().copied(), Some(30));
    }

    idx.remove(&int_key(1), 30);
    assert!(idx.get_indices(&int_key(1)).is_none());
}

#[test]
fn test_btree_index_trait_impl() {
    let mut idx = BTreeIndex::new();
    let key = IndexKey::from_value(&Value::Integer(Integer::new(5))).unwrap();
    idx.insert(key.clone(), 100);
    let lookup = idx.get_indices(&key);
    assert!(lookup.is_some());
    if let Some(slice) = lookup {
        assert_eq!(slice.len(), 1);
        assert_eq!(slice.first().copied(), Some(100));
    }
    idx.remove(&key, 100);
    assert!(idx.get_indices(&key).is_none());
}

#[test]
fn btree_index_ignores_repeated_row() {
    let mut idx = BTreeIndex::new();
    idx.insert(int_key(7), 3);
    idx.insert(int_key(7), 3);
    assert_eq!(idx.get_indices(&int_key(7)), Some(&[3][..]));
    assert!(idx.contains(&int_key(7)));
    idx.clear();
    assert!(!idx.contains(&int_key(7)));
}

#[test]
fn test_hash_index_basic() {
    let mut idx = HashIndex::new();
    idx.insert(CellKey::Integer(1), 1);
    idx.insert(CellKey::Integer(2), 2);
    assert!(idx.contains(&CellKey::Integer(1)));
    assert!(idx.contains(&CellKey::Integer(2)));
    assert!(!idx.contains(&CellKey::Integer(3)));

    let indices = idx.get_indices(&CellKey::Integer(1));
    assert!(indices.is_some());
    if let Some(slice) = indices {
        assert_eq!(slice, &[1]);
    }

    idx.remove(&CellKey::Integer(1), 1);
    assert!(!idx.contains(&CellKey::Integer(1)));
}

#[test]
fn test_index_key_roundtrip() {
    let keys = vec![
        IndexKey::Integer(-42),
        IndexKey::Float(1.5_f64.to_bits()),
        IndexKey::Text("hello".to_string()),
        IndexKey::Blob(vec![1, 2, 3]),
        IndexKey::Boolean(true),
    ];

    for key in keys {
        let bytes = key.to_bytes();
        assert!(bytes.is_ok());
        if let Ok(bytes) = bytes {
            let decoded = IndexKey::from_bytes(&bytes);
            assert!(decoded.is_ok());
            if let Ok(decoded_key) = decoded {
                assert_eq!(key, decoded_key);
            }
        }
    }
}

#[test]
fn test_index_key_from_value() {
    let vals = vec![
        Value::Integer(Integer::new(42)),
        Float::try_from_bits(2.5_f64.to_bits()).map(Value::Float).unwrap_or(Value::Null),
        Value::Text(Text::new("text".to_string())),
        Value::Blob(Blob::new(vec![7])),
        Value::Boolean(true),
    ];

    for val in vals {
        let key = IndexKey::from_value(&val);
        assert!(key.is_some());
        let key = key.unwrap_or_else(|| unreachable!());
        let bytes = key.to_bytes();
        assert!(bytes.is_ok());
        if let Ok(bytes) = bytes {
            let decoded = IndexKey::from_bytes(&bytes);
            assert!(decoded.is_ok());
            if let Ok(decoded_key) = decoded {
                assert_eq!(key, decoded_key);
            }
        }
    }
}

#[test]
fn index_key_bytes_exact() {
    assert_eq!(IndexKey::Integer(1).to_bytes().unwrap(), vec![0, 1, 0, 0, 0, 0, 0, 0, 0]);
    assert_eq!(IndexKey::Text("ab".to_string()).to_bytes().unwrap(), vec![2, 2, 0, 0, 0, b'a', b'b']);
    assert_eq!(IndexKey::Boolean(false).to_bytes().unwrap(), vec![4, 0]);
    assert_eq!(IndexKey::Blob(vec![9]).to_bytes().unwrap(), vec![3, 1, 0, 0, 0, 9]);
}

#[test]
fn index_key_decode_errors_are_corruption() {
    let cases: Vec<Vec<u8>> = vec![vec![], vec![9], vec![0, 1, 2], vec![2, 5, 0, 0, 0, b'a'], vec![2, 1, 0, 0, 0, 0xff], vec![4]];
    for bytes in cases {
        let r = IndexKey::from_bytes(&bytes);
        assert!(matches!(r, Err(monumentum::error::DbError::Corruption(_))));
    }
    // trailing bytes after a key are ignored
    assert_eq!(IndexKey::from_bytes(&[4, 2, 99]).unwrap(), IndexKey::Boolean(true));
}

#[test]
fn index_key_null_has_no_key_and_zero_is_normalized() {
    assert_eq!(IndexKey::from_value(&Value::Null), None);
    let neg_zero = Value::Float(Float::try_from_bits((-0.0_f64).to_bits()).unwrap());
    assert_eq!(IndexKey::from_value(&neg_zero), Some(IndexKey::Float(0)));
}

#[test]
fn index_key_order() {
    assert_eq!(int_key(1).compare(&int_key(2)), KeyOrder::Less);
    assert_eq!(int_key(2).compare(&int_key(2)), KeyOrder::Equal);
    assert_eq!(IndexKey::Text("b".to_string()).compare(&IndexKey::Text("ab".to_string())), KeyOrder::Greater);
    assert_eq!(int_key(i64::MAX).compare(&IndexKey::Float(0)), KeyOrder::Less);
    assert_eq!(IndexKey::Boolean(false).compare(&IndexKey::Boolean(true)), KeyOrder::Less);
    assert!(IndexKey::Blob(vec![1]).less_than(&IndexKey::Blob(vec![1, 0])));
    // agrees with the derived order
    let a = IndexKey::Text("héllo".to_string());
    let b = IndexKey::Text("hello".to_string());
    assert_eq!(a.compare(&b) == KeyOrder::Less, a < b);
}

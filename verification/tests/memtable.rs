//! Tests of the sorted in-memory buffer.

use lsm_tree::memtable::MemTable;
use lsm_tree::LSMError;

/// An integer key, big-endian so that the bytewise key order matches the
/// integer order (all test keys are non-negative).
fn k_i32(i: i32) -> Vec<u8> {
    i.to_be_bytes().to_vec()
}

/// A string key: its raw bytes, whose bytewise order is the string order.
fn s_bytes(s: &str) -> Vec<u8> {
    s.as_bytes().to_vec()
}

/// A string value in its self-describing serialized form: a little-endian
/// u64 length prefix followed by the bytes.
fn framed(s: &str) -> Vec<u8> {
    let b = s.as_bytes();
    let mut v = (b.len() as u64).to_le_bytes().to_vec();
    v.extend_from_slice(b);
    v
}

/// An integer value in its serialized form: four little-endian bytes.
fn v_i32(i: i32) -> Vec<u8> {
    i.to_le_bytes().to_vec()
}

#[test]
fn test_memtable_basic_operations() -> Result<(), LSMError> {
    let mut table = MemTable::new();

    let mut total_size = 0;
    total_size += table.put(k_i32(1), framed("one"))?;
    total_size += table.put(k_i32(2), framed("two"))?;
    total_size += table.put(k_i32(3), framed("three"))?;

    assert_eq!(table.get(&k_i32(1)), Some(&framed("one")));
    assert_eq!(table.get(&k_i32(2)), Some(&framed("two")));
    assert_eq!(table.get(&k_i32(3)), Some(&framed("three")));
    assert_eq!(table.get(&k_i32(4)), None);

    total_size += table.put(k_i32(2), framed("TWO"))?;
    assert_eq!(table.get(&k_i32(2)), Some(&framed("TWO")));

    assert_eq!(table.size(), total_size);
    Ok(())
}

#[test]
fn test_memtable_ordering() -> Result<(), LSMError> {
    let mut table = MemTable::new();

    table.put(k_i32(5), framed("five"))?;
    table.put(k_i32(3), framed("three"))?;
    table.put(k_i32(1), framed("one"))?;
    table.put(k_i32(4), framed("four"))?;
    table.put(k_i32(2), framed("two"))?;

    let mut iter = table.iter().iter();
    assert_eq!(iter.next(), Some(&(k_i32(1), framed("one"))));
    assert_eq!(iter.next(), Some(&(k_i32(2), framed("two"))));
    assert_eq!(iter.next(), Some(&(k_i32(3), framed("three"))));
    assert_eq!(iter.next(), Some(&(k_i32(4), framed("four"))));
    assert_eq!(iter.next(), Some(&(k_i32(5), framed("five"))));
    assert_eq!(iter.next(), None);

    Ok(())
}

#[test]
fn test_memtable_empty() {
    let table = MemTable::new();

    assert_eq!(table.get(&k_i32(1)), None);
    assert_eq!(table.size(), 0);
    assert!(table.iter().iter().next().is_none());
}

#[test]
fn test_memtable_string_keys() -> Result<(), LSMError> {
    let mut table = MemTable::new();

    table.put(s_bytes("apple"), v_i32(1))?;
    table.put(s_bytes("banana"), v_i32(2))?;
    table.put(s_bytes("cherry"), v_i32(3))?;

    assert_eq!(table.get(&s_bytes("apple")), Some(&v_i32(1)));
    assert_eq!(table.get(&s_bytes("banana")), Some(&v_i32(2)));
    assert_eq!(table.get(&s_bytes("cherry")), Some(&v_i32(3)));
    assert_eq!(table.get(&s_bytes("date")), None);

    let mut iter = table.iter().iter();
    assert_eq!(iter.next(), Some(&(s_bytes("apple"), v_i32(1))));
    assert_eq!(iter.next(), Some(&(s_bytes("banana"), v_i32(2))));
    assert_eq!(iter.next(), Some(&(s_bytes("cherry"), v_i32(3))));
    assert_eq!(iter.next(), None);

    Ok(())
}

#[test]
fn test_memtable_large_dataset() -> Result<(), LSMError> {
    let mut table = MemTable::new();

    for i in 0..1000 {
        table.put(k_i32(i), framed(&format!("value_{}", i)))?;
    }

    assert_eq!(table.size(), 20890);

    assert_eq!(table.get(&k_i32(42)), Some(&framed("value_42")));
    assert_eq!(table.get(&k_i32(999)), Some(&framed("value_999")));
    assert_eq!(table.get(&k_i32(500)), Some(&framed("value_500")));

    assert_eq!(table.get(&k_i32(0)), Some(&framed("value_0")));
    assert_eq!(table.get(&k_i32(999)), Some(&framed("value_999")));
    assert_eq!(table.get(&k_i32(1000)), None);

    let mut prev = -1;
    for (k, _) in table.iter().iter() {
        let ki = i32::from_be_bytes([k[0], k[1], k[2], k[3]]);
        assert!(ki > prev);
        prev = ki;
    }

    Ok(())
}

#[derive(Debug, Eq, PartialEq, Ord, PartialOrd, Clone)]
struct CustomKey {
    primary: i32,
    secondary: String,
}

/// A composite key serialized so that the bytewise order matches the
/// derived field order (all test keys have a non-negative primary).
fn custom_key_bytes(k: &CustomKey) -> Vec<u8> {
    let mut v = k.primary.to_be_bytes().to_vec();
    v.extend_from_slice(k.secondary.as_bytes());
    v
}

#[test]
fn test_memtable_custom_type() -> Result<(), LSMError> {
    let mut table = MemTable::new();

    let key1 = CustomKey { primary: 1, secondary: "a".to_string() };
    let key2 = CustomKey { primary: 1, secondary: "b".to_string() };
    let key3 = CustomKey { primary: 2, secondary: "a".to_string() };

    table.put(custom_key_bytes(&key1), framed("value1"))?;
    table.put(custom_key_bytes(&key2), framed("value2"))?;
    table.put(custom_key_bytes(&key3), framed("value3"))?;

    assert_eq!(table.get(&custom_key_bytes(&key1)), Some(&framed("value1")));
    assert_eq!(table.get(&custom_key_bytes(&key2)), Some(&framed("value2")));
    assert_eq!(table.get(&custom_key_bytes(&key3)), Some(&framed("value3")));

    let mut iter = table.iter().iter();
    assert_eq!(iter.next(), Some(&(custom_key_bytes(&key1), framed("value1"))));
    assert_eq!(iter.next(), Some(&(custom_key_bytes(&key2), framed("value2"))));
    assert_eq!(iter.next(), Some(&(custom_key_bytes(&key3), framed("value3"))));
    assert_eq!(iter.next(), None);

    Ok(())
}

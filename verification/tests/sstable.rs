//! Tests of the sorted run: building one from a buffer and looking keys up
//! through its sparse index.

use lsm_tree::memtable::MemTable;
use lsm_tree::sstable::SSTable;
use lsm_tree::LSMError;

/// An integer key, big-endian so that the bytewise key order matches the
/// integer order (all test keys are non-negative).
fn k_i32(i: i32) -> Vec<u8> {
    i.to_be_bytes().to_vec()
}

/// A string key: its raw bytes, whose bytewise order is the string order.
fn s_bytes(s: &str) -> Vec<u8> {
    s.as_bytes().to_vec()
}

/// A string value in its self-describing serialized form: a little-endian
/// u64 length prefix followed by the bytes.
fn framed(s: &str) -> Vec<u8> {
    let b = s.as_bytes();
    let mut v = (b.len() as u64).to_le_bytes().to_vec();
    v.extend_from_slice(b);
    v
}

/// An integer value in its serialized form: four little-endian bytes.
fn v_i32(i: i32) -> Vec<u8> {
    i.to_le_bytes().to_vec()
}

#[test]
fn test_sstable_basic_operations() -> Result<(), LSMError> {
    let mut memtable = MemTable::new();
    memtable.put(k_i32(5), framed("five"))?;
    memtable.put(k_i32(3), framed("three"))?;
    memtable.put(k_i32(7), framed("seven"))?;
    memtable.put(k_i32(1), framed("one"))?;
    memtable.put(k_i32(9), framed("nine"))?;

    let sstable = SSTable::from_memtable(&memtable);

    assert_eq!(sstable.get(&k_i32(1))?, Some(framed("one")));
    assert_eq!(sstable.get(&k_i32(3))?, Some(framed("three")));
    assert_eq!(sstable.get(&k_i32(5))?, Some(framed("five")));
    assert_eq!(sstable.get(&k_i32(7))?, Some(framed("seven")));
    assert_eq!(sstable.get(&k_i32(9))?, Some(framed("nine")));

    assert_eq!(sstable.get(&k_i32(0))?, None);
    assert_eq!(sstable.get(&k_i32(2))?, None);
    assert_eq!(sstable.get(&k_i32(6))?, None);
    assert_eq!(sstable.get(&k_i32(8))?, None);
    assert_eq!(sstable.get(&k_i32(10))?, None);

    Ok(())
}

#[test]
fn test_sstable_large_dataset() -> Result<(), LSMError> {
    let mut memtable = MemTable::new();
    for i in 0..1000 {
        memtable.put(k_i32(i), framed(&format!("value_{}", i)))?;
    }

    let sstable = SSTable::from_memtable(&memtable);

    assert_eq!(sstable.get(&k_i32(42))?, Some(framed("value_42")));
    assert_eq!(sstable.get(&k_i32(999))?, Some(framed("value_999")));
    assert_eq!(sstable.get(&k_i32(500))?, Some(framed("value_500")));

    assert_eq!(sstable.get(&k_i32(0))?, Some(framed("value_0")));
    assert_eq!(sstable.get(&k_i32(999))?, Some(framed("value_999")));
    assert_eq!(sstable.get(&k_i32(1000))?, None);

    Ok(())
}

#[test]
fn test_sstable_empty() -> Result<(), LSMError> {
    let memtable = MemTable::new();
    let sstable = SSTable::from_memtable(&memtable);

    assert_eq!(sstable.get(&k_i32(1))?, None);
    Ok(())
}

#[test]
fn test_sstable_string_keys() -> Result<(), LSMError> {
    let mut memtable = MemTable::new();
    memtable.put(s_bytes("apple"), v_i32(1))?;
    memtable.put(s_bytes("banana"), v_i32(2))?;
    memtable.put(s_bytes("cherry"), v_i32(3))?;

    let sstable = SSTable::from_memtable(&memtable);

    assert_eq!(sstable.get(&s_bytes("aaa"))?, None);

    assert_eq!(sstable.get(&s_bytes("apple"))?, Some(v_i32(1)));
    assert_eq!(sstable.get(&s_bytes("banana"))?, Some(v_i32(2)));
    assert_eq!(sstable.get(&s_bytes("cherry"))?, Some(v_i32(3)));
    assert_eq!(sstable.get(&s_bytes("date"))?, None);

    Ok(())
}

#[test]
fn test_sstable_image_layout() -> Result<(), LSMError> {
    // One record: key [1, 2], value [3]. The image must be exactly the
    // record count as eight little-endian bytes, then the framed key, then
    // the framed value.
    let mut memtable = MemTable::new();
    memtable.put(vec![1u8, 2u8], vec![3u8])?;
    let sstable = SSTable::from_memtable(&memtable);

    let mut expected: Vec<u8> = Vec::new();
    expected.extend_from_slice(&1u64.to_le_bytes());
    expected.extend_from_slice(&2u64.to_le_bytes());
    expected.extend_from_slice(&[1, 2]);
    expected.extend_from_slice(&1u64.to_le_bytes());
    expected.extend_from_slice(&[3]);
    assert_eq!(sstable.image(), &expected);

    Ok(())
}

#[test]
fn test_sstable_spans_index_boundaries() -> Result<(), LSMError> {
    // Twenty-five records cross two index boundaries (records 0, 10, 20 are
    // sampled): present keys in every bracket are found, absent keys between
    // records, before the range and past the end report absence.
    let mut memtable = MemTable::new();
    for i in 0..25 {
        memtable.put(k_i32(2 * i + 1), framed(&format!("value_{}", 2 * i + 1)))?;
    }
    let sstable = SSTable::from_memtable(&memtable);

    for i in 0..25 {
        let key = 2 * i + 1;
        assert_eq!(sstable.get(&k_i32(key))?, Some(framed(&format!("value_{}", key))));
        assert_eq!(sstable.get(&k_i32(key + 1))?, None);
    }
    assert_eq!(sstable.get(&k_i32(0))?, None);

    Ok(())
}

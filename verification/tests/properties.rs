//! Property-flavoured tests on concrete values: the size counter's
//! monotonic growth and lookup correctness over runs of many sizes.

use lsm_tree::memtable::MemTable;
use lsm_tree::sstable::SSTable;
use lsm_tree::LSMError;

/// An integer key, big-endian so that the bytewise key order matches the
/// integer order (all test keys are non-negative).
fn k_i32(i: i32) -> Vec<u8> {
    i.to_be_bytes().to_vec()
}

/// A string value in its self-describing serialized form: a little-endian
/// u64 length prefix followed by the bytes.
fn framed(s: &str) -> Vec<u8> {
    let b = s.as_bytes();
    let mut v = (b.len() as u64).to_le_bytes().to_vec();
    v.extend_from_slice(b);
    v
}

#[test]
fn test_size_counter_monotonic() -> Result<(), LSMError> {
    // The cumulative counter never decreases across puts, overwrites of the
    // same key included: it grows by exactly key length plus value length.
    let mut table = MemTable::new();
    let mut last = table.size();
    for i in 0..50 {
        let key = k_i32(i % 5);
        let value = framed(&format!("value_{}", i));
        let reported = table.put(key.clone(), value.clone())?;
        assert_eq!(reported, key.len() + value.len());
        assert_eq!(table.size(), last + reported);
        assert!(table.size() >= last);
        last = table.size();
    }
    Ok(())
}

#[test]
fn test_is_empty_tracks_contents() -> Result<(), LSMError> {
    let mut table = MemTable::new();
    assert!(table.is_empty());
    table.put(k_i32(1), framed("one"))?;
    assert!(!table.is_empty());
    table.put(k_i32(1), framed("uno"))?;
    assert!(!table.is_empty());
    Ok(())
}

#[test]
fn test_lookup_correct_for_all_small_sizes() -> Result<(), LSMError> {
    // For every record count up to a few brackets wide, every inserted key
    // is found with its value and every key strictly between two inserted
    // keys is reported absent.
    for n in 0..40 {
        let mut memtable = MemTable::new();
        for i in 0..n {
            memtable.put(k_i32(2 * i), framed(&format!("value_{}", 2 * i)))?;
        }
        let sstable = SSTable::from_memtable(&memtable);
        for i in 0..n {
            assert_eq!(
                sstable.get(&k_i32(2 * i))?,
                Some(framed(&format!("value_{}", 2 * i))),
                "run of {} records: key {} lost",
                n,
                2 * i
            );
            assert_eq!(sstable.get(&k_i32(2 * i + 1))?, None);
        }
        assert_eq!(sstable.get(&k_i32(2 * n))?, None);
    }
    Ok(())
}

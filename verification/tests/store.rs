//! Tests of the store coordinator: layered visibility, flush triggering, and
//! retrievability across flushes.

use lsm_tree::{Config, LSMError, LSMTree};

/// A string key or value: its raw bytes.
fn s_bytes(s: &str) -> Vec<u8> {
    s.as_bytes().to_vec()
}

fn setup() -> LSMTree {
    let config = Config {
        memtable_size_threshold: 1024,
        data_dir: "test_data".to_string(),
    };
    LSMTree::with_config(config).unwrap()
}

#[test]
fn test_basic_operations() -> Result<(), LSMError> {
    let mut lsm = setup();

    lsm.insert(s_bytes("key1"), s_bytes("value1"))?;
    assert_eq!(lsm.get(&s_bytes("key1"))?, Some(s_bytes("value1")));

    assert_eq!(lsm.get(&s_bytes("nonexistent"))?, None);

    lsm.insert(s_bytes("key1"), s_bytes("value2"))?;
    assert_eq!(lsm.get(&s_bytes("key1"))?, Some(s_bytes("value2")));

    Ok(())
}

#[test]
fn test_memtable_flush() -> Result<(), LSMError> {
    let mut lsm = setup();

    for i in 0..100 {
        let key = format!("key{}", i);
        let value = format!("value{}", i);
        lsm.insert(s_bytes(&key), s_bytes(&value))?;
    }

    assert!(lsm.run_count() > 0, "No SSTable files were created");

    for i in 0..100 {
        let key = format!("key{}", i);
        let expected_value = format!("value{}", i);
        assert_eq!(
            lsm.get(&s_bytes(&key))?,
            Some(s_bytes(&expected_value)),
            "Failed to read key {}",
            key
        );
    }

    Ok(())
}

#[test]
fn test_large_dataset() -> Result<(), LSMError> {
    let mut lsm = setup();
    let num_entries = 10_000;

    for i in 0..num_entries {
        let key = format!("key{:05}", i);
        let value = format!("value{:05}", i);
        lsm.insert(s_bytes(&key), s_bytes(&value))?;
    }

    for i in (0..num_entries).step_by(100) {
        let key = format!("key{:05}", i);
        let expected_value = format!("value{:05}", i);
        assert_eq!(
            lsm.get(&s_bytes(&key))?,
            Some(s_bytes(&expected_value)),
            "Failed to read key {}",
            key
        );
    }

    Ok(())
}

#[test]
fn test_explicit_flush_preserves_contents() -> Result<(), LSMError> {
    // Flushing moves the buffer's contents into a new run without changing
    // what the store returns.
    let mut lsm = setup();

    lsm.insert(s_bytes("alpha"), s_bytes("1"))?;
    lsm.insert(s_bytes("beta"), s_bytes("2"))?;
    assert_eq!(lsm.run_count(), 0);

    lsm.flush_memtable()?;
    assert_eq!(lsm.run_count(), 1);
    assert_eq!(lsm.get(&s_bytes("alpha"))?, Some(s_bytes("1")));
    assert_eq!(lsm.get(&s_bytes("beta"))?, Some(s_bytes("2")));

    // A write after the flush shadows the flushed value.
    lsm.insert(s_bytes("alpha"), s_bytes("3"))?;
    assert_eq!(lsm.get(&s_bytes("alpha"))?, Some(s_bytes("3")));

    lsm.flush_memtable()?;
    assert_eq!(lsm.run_count(), 2);
    assert_eq!(lsm.get(&s_bytes("alpha"))?, Some(s_bytes("3")));
    assert_eq!(lsm.get(&s_bytes("beta"))?, Some(s_bytes("2")));

    Ok(())
}

#[test]
fn test_default_config() {
    let config = Config::default();
    assert_eq!(config.memtable_size_threshold, 1024 * 1024);
    assert_eq!(config.data_dir, "data".to_string());

    let lsm = LSMTree::new().unwrap();
    assert_eq!(lsm.run_count(), 0);
}

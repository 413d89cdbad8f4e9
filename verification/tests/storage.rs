use cykv::{CyStore, DirEntry, KvEngine, NoCacheManager, Result};

fn no_cache_storage(dir: Vec<DirEntry>) -> Result<CyStore<NoCacheManager>> {
    CyStore::open(dir, NoCacheManager {})
}

fn dir_size(dir: &[DirEntry]) -> u64 {
    dir.iter().map(|entry| entry.data.len() as u64).sum()
}

#[test]
fn get_stored_value() -> Result<()> {
    let mut store = no_cache_storage(Vec::new())?;

    store.set("key1".to_owned(), "value1".to_owned())?;
    store.set("key2".to_owned(), "value2".to_owned())?;

    assert_eq!(store.get("key1".to_owned())?, Some("value1".to_owned()));
    assert_eq!(store.get("key2".to_owned())?, Some("value2".to_owned()));

    // Open from disk again and check persistent data
    let dir = store.directory();
    drop(store);
    let mut store = no_cache_storage(dir)?;
    assert_eq!(store.get("key1".to_owned())?, Some("value1".to_owned()));
    assert_eq!(store.get("key2".to_owned())?, Some("value2".to_owned()));

    Ok(())
}

#[test]
fn overwrite_value() -> Result<()> {
    let mut store = no_cache_storage(Vec::new())?;

    store.set("key1".to_owned(), "value1".to_owned())?;
    assert_eq!(store.get("key1".to_owned())?, Some("value1".to_owned()));
    store.set("key1".to_owned(), "value2".to_owned())?;
    assert_eq!(store.get("key1".to_owned())?, Some("value2".to_owned()));

    // Open from disk again and check persistent data
    let dir = store.directory();
    drop(store);
    let mut store = no_cache_storage(dir)?;
    assert_eq!(store.get("key1".to_owned())?, Some("value2".to_owned()));
    store.set("key1".to_owned(), "value3".to_owned())?;
    assert_eq!(store.get("key1".to_owned())?, Some("value3".to_owned()));

    Ok(())
}

#[test]
fn get_non_existent_value() -> Result<()> {
    let mut store = no_cache_storage(Vec::new())?;

    store.set("key1".to_owned(), "value1".to_owned())?;
    assert_eq!(store.get("key2".to_owned())?, None);

    // Open from disk again and check persistent data
    let dir = store.directory();
    drop(store);
    let mut store = no_cache_storage(dir)?;
    assert_eq!(store.get("key2".to_owned())?, None);

    Ok(())
}

#[test]
fn remove_non_existent_key() -> Result<()> {
    let mut store = no_cache_storage(Vec::new())?;
    assert!(store.remove("key1".to_owned()).is_err());
    Ok(())
}

#[test]
fn remove_key() -> Result<()> {
    let mut store = no_cache_storage(Vec::new())?;
    store.set("key1".to_owned(), "value1".to_owned())?;
    assert!(store.remove("key1".to_owned()).is_ok());
    assert_eq!(store.get("key1".to_owned())?, None);
    Ok(())
}

// Insert data until total size of the directory decreases.
// Test data correctness after compaction.
#[test]
fn compaction() -> Result<()> {
    let mut store = no_cache_storage(Vec::new())?;

    let mut current_size = store.size();
    for iter in 0..1000 {
        for key_id in 0..1000 {
            let key = format!("key{}", key_id);
            let value = format!("{}", iter);
            store.set(key, value)?;
        }

        let new_size = store.size();
        if new_size > current_size {
            current_size = new_size;
            continue;
        }
        // Compaction triggered

        // reopen and check content
        let dir = store.directory();
        drop(store);
        let mut store = no_cache_storage(dir)?;
        for key_id in 0..1000 {
            let key = format!("key{}", key_id);
            assert_eq!(store.get(key)?, Some(format!("{}", iter)));
        }
        return Ok(());
    }

    panic!("No compaction detected");
}

// The same with long values and a store that is opened anew for every
// round, so that the displaced bytes are counted on replay.
#[test]
fn compaction_across_reopens() -> Result<()> {
    let mut dir: Vec<DirEntry> = Vec::new();

    let mut current_size = dir_size(&dir);
    for iter in 0..1000 {
        let mut store = no_cache_storage(dir)?;

        for key_id in 0..100 {
            let key = format!("key{}", key_id);
            let value = format!("{}{}", iter, "v".repeat(8000));
            store.set(key, value)?;
        }

        dir = store.directory();
        drop(store);

        let new_size = dir_size(&dir);
        if new_size > current_size {
            current_size = new_size;
            continue;
        }
        // Compaction triggered

        // reopen and check content
        let mut store = no_cache_storage(dir)?;
        for key_id in 0..100 {
            let key = format!("key{}", key_id);
            assert_eq!(store.get(key)?, Some(format!("{}{}", iter, "v".repeat(8000))));
        }
        return Ok(());
    }

    panic!("No compaction detected");
}

use cykv::codec::encode;
use cykv::{
    Command, CyKvError, CyStore, DirEntry, DiskOp, KvEngine, LogIndex, LruCacheManager,
    NoCacheManager, COMPACT_THRESHOLD,
};
use std::collections::BTreeMap;

fn entry(name: &str, data: Vec<u8>) -> DirEntry {
    DirEntry { name: name.to_owned(), data }
}

fn records(commands: &[Command]) -> Vec<u8> {
    let mut bytes = Vec::new();
    for command in commands {
        bytes.extend_from_slice(&encode(command).unwrap());
    }
    bytes
}

fn put(key: &str, value: &str) -> Command {
    Command::Put { key: key.to_owned(), value: value.to_owned() }
}

fn remove(key: &str) -> Command {
    Command::Remove { key: key.to_owned() }
}

fn names(dir: &[DirEntry]) -> Vec<String> {
    dir.iter().map(|entry| entry.name.clone()).collect()
}

#[test]
fn open_starts_a_log_behind_the_last() {
    let store = CyStore::open(Vec::new(), NoCacheManager {}).unwrap();
    assert_eq!(store.log_id(), 1);
    assert_eq!(names(&store.directory()), vec!["1.log"]);
    let dir = vec![entry("7.log", Vec::new()), entry("3.log", Vec::new())];
    let store = CyStore::open(dir, NoCacheManager {}).unwrap();
    assert_eq!(store.log_id(), 8);
    assert_eq!(names(&store.directory()), vec!["3.log", "7.log", "8.log"]);
}

#[test]
fn open_passes_over_files_that_are_no_logs() {
    let dir = vec![
        entry("keydir.json", b"{}".to_vec()),
        entry(".log", vec![1, 2, 3]),
        entry("notes.txt", vec![4]),
        entry("log", vec![5]),
        entry("2.log", records(&[put("a", "1")])),
    ];
    let mut store = CyStore::open(dir, NoCacheManager {}).unwrap();
    assert_eq!(store.log_id(), 3);
    assert_eq!(store.get("a".to_owned()), Ok(Some("1".to_owned())));
    assert_eq!(names(&store.directory()), vec!["2.log", "3.log"]);
}

#[test]
fn open_refuses_a_log_whose_name_gives_no_id() {
    for name in ["x.log", "1.log.log", "-1.log", "4294967296.log", "1 .log", "..log", "+.log"] {
        let dir = vec![entry(name, Vec::new())];
        assert_eq!(CyStore::open(dir, NoCacheManager {}).err(), Some(CyKvError::Internal));
    }
    // Leading zeros and a plus sign are accepted.
    let dir = vec![entry("007.log", Vec::new()), entry("+9.log", Vec::new())];
    assert_eq!(CyStore::open(dir, NoCacheManager {}).unwrap().log_id(), 10);
}

#[test]
fn open_refuses_two_logs_of_one_id() {
    let dir = vec![entry("1.log", Vec::new()), entry("01.log", Vec::new())];
    assert_eq!(CyStore::open(dir, NoCacheManager {}).err(), Some(CyKvError::Internal));
}

#[test]
fn open_refuses_a_directory_with_the_greatest_id() {
    let dir = vec![entry("4294967295.log", Vec::new())];
    assert_eq!(CyStore::open(dir, NoCacheManager {}).err(), Some(CyKvError::Internal));
    let dir = vec![entry("4294967294.log", Vec::new())];
    assert_eq!(CyStore::open(dir, NoCacheManager {}).unwrap().log_id(), 4294967295);
}

#[test]
fn open_refuses_a_log_that_is_no_sequence_of_records() {
    let mut bytes = records(&[put("a", "1")]);
    bytes.push(0);
    let dir = vec![entry("1.log", bytes)];
    assert_eq!(CyStore::open(dir, NoCacheManager {}).err(), Some(CyKvError::Deserialize));
    let bytes = records(&[put("a", "1"), put("b", "2")]);
    let dir = vec![entry("1.log", bytes[..bytes.len() - 3].to_vec())];
    assert_eq!(CyStore::open(dir, NoCacheManager {}).err(), Some(CyKvError::Deserialize));
}

#[test]
fn open_replays_the_logs_in_the_order_of_their_ids() {
    let dir = vec![
        entry("10.log", records(&[put("a", "new"), remove("b")])),
        entry("9.log", records(&[put("a", "old"), put("b", "old"), put("c", "kept")])),
    ];
    let mut store = CyStore::open(dir, NoCacheManager {}).unwrap();
    assert_eq!(store.get("a".to_owned()), Ok(Some("new".to_owned())));
    assert_eq!(store.get("b".to_owned()), Ok(None));
    assert_eq!(store.get("c".to_owned()), Ok(Some("kept".to_owned())));
    // The displaced records of `a` and `b` are garbage.
    let garbage = encode(&put("a", "old")).unwrap().len() + encode(&put("b", "old")).unwrap().len();
    assert_eq!(store.uncompacted(), garbage as u64);
}

#[test]
fn set_and_remove_count_the_displaced_bytes() {
    let mut store = CyStore::open(Vec::new(), NoCacheManager {}).unwrap();
    store.set("k".to_owned(), "v1".to_owned()).unwrap();
    assert_eq!(store.uncompacted(), 0);
    store.set("k".to_owned(), "value2".to_owned()).unwrap();
    let first = encode(&put("k", "v1")).unwrap().len() as u64;
    assert_eq!(first, 37 + 1 + 2);
    assert_eq!(store.uncompacted(), first);
    store.remove("k".to_owned()).unwrap();
    let second = encode(&put("k", "value2")).unwrap().len() as u64;
    let tombstone = encode(&remove("k")).unwrap().len() as u64;
    assert_eq!(tombstone, 28 + 1);
    assert_eq!(store.uncompacted(), first + second + tombstone);
    assert_eq!(store.size(), (first + second + tombstone) as u128);
}

#[test]
fn remove_of_an_absent_key_names_the_key_and_writes_nothing() {
    let mut store = CyStore::open(Vec::new(), NoCacheManager {}).unwrap();
    store.set("key1".to_owned(), "v".to_owned()).unwrap();
    let size = store.size();
    assert_eq!(
        store.remove("key2".to_owned()),
        Err(CyKvError::KeyNotFound("key2".to_owned()))
    );
    assert_eq!(store.size(), size);
    assert_eq!(store.get("key1".to_owned()), Ok(Some("v".to_owned())));
}

#[test]
fn scan_gives_the_values_in_the_order_of_the_keys() {
    let mut store = CyStore::open(Vec::new(), NoCacheManager {}).unwrap();
    for key in ["b", "a", "d", "c", "ab", "", "é", "z"] {
        store.set(key.to_owned(), format!("<{}>", key)).unwrap();
    }
    store.remove("c".to_owned()).unwrap();
    let scan = |store: &mut CyStore<NoCacheManager>, begin: &str, end: &str| {
        store.scan(begin.to_owned(), end.to_owned())
    };
    assert_eq!(
        scan(&mut store, "a", "d"),
        Ok(vec!["<a>".to_owned(), "<ab>".to_owned(), "<b>".to_owned(), "<d>".to_owned()])
    );
    assert_eq!(scan(&mut store, "aa", "c"), Ok(vec!["<ab>".to_owned(), "<b>".to_owned()]));
    assert_eq!(scan(&mut store, "b", "b"), Ok(vec!["<b>".to_owned()]));
    assert_eq!(scan(&mut store, "c", "c"), Ok(Vec::new()));
    assert_eq!(scan(&mut store, "e", "y"), Ok(Vec::new()));
    // The order is that of the bytes: `z` comes before `é`.
    assert_eq!(
        scan(&mut store, "", "\u{10ffff}"),
        Ok(["", "a", "ab", "b", "d", "z", "é"].iter().map(|k| format!("<{}>", k)).collect())
    );
    assert_eq!(
        scan(&mut store, "b", "a"),
        Err(CyKvError::KeyNotFound("begin > end".to_owned()))
    );
}

#[test]
fn compact_writes_the_live_records_to_one_new_log() {
    let mut store = CyStore::open(vec![entry("4.log", Vec::new())], NoCacheManager {}).unwrap();
    for round in 0..3 {
        for key in ["b", "a", "c"] {
            store.set(key.to_owned(), format!("{}{}", key, round)).unwrap();
        }
    }
    store.remove("b".to_owned()).unwrap();
    assert_eq!(store.log_id(), 5);
    let before = store.size();
    assert_eq!(store.compact(), Ok(()));
    assert_eq!(store.log_id(), 6);
    assert_eq!(store.uncompacted(), 0);
    let dir = store.directory();
    assert_eq!(names(&dir), vec!["6.log"]);
    // The log holds the records of the keys, in the order of the keys.
    assert_eq!(dir[0].data, records(&[put("a", "a2"), put("c", "c2")]));
    assert!(store.size() <= before);
    // The index gives each key the new log, and the place and length of
    // its record there.
    let first = records(&[put("a", "a2")]).len() as u64;
    let second = records(&[put("c", "c2")]).len() as u64;
    assert_eq!(store.keydir().len(), 2);
    let at = store.keydir().get(&"a".to_owned()).unwrap();
    assert_eq!((at.id, at.command_pos, at.len), (6, 0, first));
    let at = store.keydir().get(&"c".to_owned()).unwrap();
    assert_eq!((at.id, at.command_pos, at.len), (6, first, second));
    assert!(store.keydir().get(&"b".to_owned()).is_none());
    assert_eq!(store.get("a".to_owned()), Ok(Some("a2".to_owned())));
    assert_eq!(store.get("b".to_owned()), Ok(None));
    assert_eq!(store.get("c".to_owned()), Ok(Some("c2".to_owned())));
    // The next record goes to the new log.
    store.set("d".to_owned(), "d0".to_owned()).unwrap();
    let dir = store.directory();
    assert_eq!(names(&dir), vec!["6.log"]);
    assert_eq!(dir[0].data, records(&[put("a", "a2"), put("c", "c2"), put("d", "d0")]));
    // A store that is opened on the directory holds the same.
    let mut store = CyStore::open(dir, NoCacheManager {}).unwrap();
    assert_eq!(store.log_id(), 7);
    assert_eq!(
        store.scan("".to_owned(), "z".to_owned()),
        Ok(vec!["a2".to_owned(), "c2".to_owned(), "d0".to_owned()])
    );
}

#[test]
fn compaction_fires_at_the_threshold() {
    let mut store = CyStore::open(Vec::new(), NoCacheManager {}).unwrap();
    let value = "x".repeat(1 << 20);
    let record = 37 + 1 + (1 << 20) as u64;
    let mut sets = 0;
    loop {
        store.set("k".to_owned(), value.clone()).unwrap();
        sets += 1;
        if store.log_id() != 1 {
            break;
        }
        assert_eq!(store.uncompacted(), (sets - 1) * record);
        assert!(store.uncompacted() < COMPACT_THRESHOLD);
    }
    // The set that brings the displaced bytes to the threshold compacts.
    assert_eq!(sets, COMPACT_THRESHOLD.div_ceil(record) + 1);
    assert_eq!(store.log_id(), 2);
    assert_eq!(store.uncompacted(), 0);
    assert_eq!(store.size(), record as u128);
    assert_eq!(names(&store.directory()), vec!["2.log"]);
    assert_eq!(store.get("k".to_owned()), Ok(Some(value)));
}

fn apply(mirror: &mut BTreeMap<u32, Vec<u8>>, ops: Vec<DiskOp>) {
    for op in ops {
        match op {
            DiskOp::Create { id } => {
                mirror.insert(id, Vec::new());
            }
            DiskOp::Write { id, offset, data } => {
                let file = mirror.get_mut(&id).unwrap();
                if !data.is_empty() {
                    if file.len() < offset + data.len() {
                        file.resize(offset + data.len(), 0);
                    }
                    file[offset..offset + data.len()].copy_from_slice(&data);
                }
            }
            DiskOp::Remove { id } => {
                mirror.remove(&id);
            }
        }
    }
}

fn journal_leads_to_the_directory<M: cykv::CacheManager>(manager: M) {
    let dir = vec![entry("2.log", records(&[put("a", "1")])), entry("5.log", Vec::new())];
    let mut mirror: BTreeMap<u32, Vec<u8>> = BTreeMap::new();
    mirror.insert(2, dir[0].data.clone());
    mirror.insert(5, Vec::new());
    let mut store = CyStore::open(dir, manager).unwrap();
    let same = |store: &CyStore<M>, mirror: &BTreeMap<u32, Vec<u8>>| {
        let dir = store.directory();
        let files: Vec<(String, Vec<u8>)> =
            mirror.iter().map(|(id, data)| (format!("{}.log", id), data.clone())).collect();
        dir.into_iter().map(|e| (e.name, e.data)).collect::<Vec<_>>() == files
    };
    apply(&mut mirror, store.take_journal());
    assert!(same(&store, &mirror));
    for i in 0..200 {
        store.set(format!("key{}", i % 17), "v".repeat(i * 40)).unwrap();
        if i % 5 == 0 {
            store.remove(format!("key{}", i % 17)).unwrap();
        }
        if i % 50 == 49 {
            store.compact().unwrap();
        }
        if i % 7 == 0 {
            apply(&mut mirror, store.take_journal());
            assert!(same(&store, &mirror));
        }
    }
    apply(&mut mirror, store.take_journal());
    assert!(same(&store, &mirror));
    assert!(store.take_journal().is_empty());
}

#[test]
fn the_journal_leads_to_the_directory() {
    journal_leads_to_the_directory(NoCacheManager {});
    journal_leads_to_the_directory(LruCacheManager::new(3 * 4096));
}

fn store_and_model<M: cykv::CacheManager>(manager: M) -> Vec<DirEntry> {
    let mut store = CyStore::open(Vec::new(), manager).unwrap();
    let mut model: BTreeMap<String, String> = BTreeMap::new();
    let mut seed: u32 = 12345;
    for step in 0..3000 {
        seed = seed.wrapping_mul(1103515245).wrapping_add(12345);
        let key = format!("key{}", (seed >> 16) % 40);
        let value = format!("value{}-{}", step, "y".repeat(((seed >> 8) % 300) as usize));
        match (seed >> 4) % 4 {
            0 => {
                let expected = model.remove(&key);
                let got = store.remove(key.clone());
                match expected {
                    Some(_) => assert_eq!(got, Ok(())),
                    None => assert_eq!(got, Err(CyKvError::KeyNotFound(key))),
                }
            }
            1 => assert_eq!(store.get(key.clone()), Ok(model.get(&key).cloned())),
            _ => {
                assert_eq!(store.set(key.clone(), value.clone()), Ok(()));
                model.insert(key, value);
            }
        }
        if step % 1000 == 999 {
            assert_eq!(store.compact(), Ok(()));
        }
    }
    assert_eq!(
        store.scan("".to_owned(), "z".to_owned()),
        Ok(model.values().cloned().collect::<Vec<_>>())
    );
    for (key, value) in &model {
        assert_eq!(store.get(key.clone()), Ok(Some(value.clone())));
    }
    store.directory()
}

#[test]
fn every_manager_gives_the_same_store() {
    let direct = store_and_model(NoCacheManager {});
    for cache_bytes in [100 << 20, 2 * 4096, 0] {
        let cached = store_and_model(LruCacheManager::new(cache_bytes));
        assert_eq!(names(&cached), names(&direct));
        for (a, b) in cached.iter().zip(direct.iter()) {
            assert_eq!(a.data, b.data);
        }
    }
    // A store that is opened on the directory holds what the other held.
    let mut first = CyStore::open(direct, NoCacheManager {}).unwrap();
    let values = first.scan("".to_owned(), "z".to_owned()).unwrap();
    let mut second = CyStore::open(first.directory(), LruCacheManager::new(4096)).unwrap();
    assert_eq!(second.scan("".to_owned(), "z".to_owned()), Ok(values));
}

#[test]
fn set_twice_then_get_gives_the_second_value() {
    let mut store = CyStore::open(Vec::new(), LruCacheManager::new(1 << 20)).unwrap();
    store.set("k".to_owned(), "v1".to_owned()).unwrap();
    store.set("k".to_owned(), "v2".to_owned()).unwrap();
    assert_eq!(store.get("k".to_owned()), Ok(Some("v2".to_owned())));
    store.remove("k".to_owned()).unwrap();
    assert_eq!(store.get("k".to_owned()), Ok(None));
}

#[test]
fn a_reopened_store_holds_what_the_store_held() {
    let mut store = CyStore::open(Vec::new(), LruCacheManager::new(8192)).unwrap();
    for i in 0..50 {
        store.set(format!("k{}", i % 9), format!("v{}", i)).unwrap();
    }
    store.remove("k3".to_owned()).unwrap();
    let values = store.scan("".to_owned(), "z".to_owned()).unwrap();
    let id = store.log_id();
    let size = store.size();
    let mut again = store.reopen(NoCacheManager {}).unwrap();
    assert_eq!(again.log_id(), id + 1);
    assert_eq!(again.size(), size);
    assert_eq!(again.scan("".to_owned(), "z".to_owned()), Ok(values));
    assert_eq!(again.get("k3".to_owned()), Ok(None));
    assert_eq!(again.get("k4".to_owned()), Ok(Some("v49".to_owned())));
    // On replay the displaced records count as garbage: all records but
    // the live ones, which are the last of each key but `k3`. The record
    // that erases `k3` is not counted.
    let record = |i: u64| encode(&put(&format!("k{}", i % 9), &format!("v{}", i))).unwrap().len() as u64;
    let all: u64 = (0..50).map(record).sum();
    let live: u64 = [41, 42, 43, 44, 45, 46, 47, 49].iter().map(|i| record(*i)).sum();
    assert_eq!(again.uncompacted(), all - live);
}

#[test]
fn read_command_gives_what_stands_at_a_place() {
    let log = records(&[put("a", "1"), remove("a"), put("b", "2")]);
    let first = records(&[put("a", "1")]).len() as u64;
    let second = records(&[remove("a")]).len() as u64;
    let all = log.len() as u64;
    let mut store = CyStore::open(vec![entry("1.log", log)], NoCacheManager {}).unwrap();
    assert_eq!(store.read_command(&LogIndex::new(1, 0, first)), Ok(put("a", "1")));
    // A record that erases a key is read as what it is.
    assert_eq!(store.read_command(&LogIndex::new(1, first, second)), Ok(remove("a")));
    assert_eq!(store.read_command(&LogIndex::new(1, first + second, 0)), Ok(put("b", "2")));
    // No record stands in the middle of one, at the end of the log or behind it.
    assert_eq!(store.read_command(&LogIndex::new(1, 1, first)), Err(CyKvError::Deserialize));
    assert_eq!(store.read_command(&LogIndex::new(1, all, 0)), Err(CyKvError::Deserialize));
    assert_eq!(store.read_command(&LogIndex::new(1, all + 9, 0)), Err(CyKvError::Deserialize));
    assert_eq!(store.read_command(&LogIndex::new(2, 0, 0)), Err(CyKvError::Deserialize));
    // The directory has no such log.
    assert_eq!(store.read_command(&LogIndex::new(9, 0, first)), Err(CyKvError::Io));
    // Reading has changed nothing.
    assert_eq!(store.get("a".to_owned()), Ok(None));
    assert_eq!(store.get("b".to_owned()), Ok(Some("2".to_owned())));
    assert_eq!(names(&store.directory()), vec!["1.log", "2.log"]);
}

#[test]
fn a_set_that_compacts_takes_the_displaced_bytes_away() {
    let mut store = CyStore::open(Vec::new(), NoCacheManager {}).unwrap();
    let value = "y".repeat(1 << 22);
    let mut last = 0;
    let mut compacted = false;
    for _ in 0..12 {
        let before = store.size();
        let counted = store.uncompacted() as u128;
        let id = store.log_id();
        store.set("k".to_owned(), value.clone()).unwrap();
        if store.log_id() != id {
            compacted = true;
            let record = 37 + 1 + (1u128 << 22);
            // The displaced bytes, those of this set among them, have left.
            assert!(store.size() + counted + record <= before + record);
            assert!(store.size() <= before);
            assert_eq!(store.size(), record);
            let at = store.keydir().get(&"k".to_owned()).unwrap();
            assert_eq!((at.id, at.command_pos, at.len), (id + 1, 0, record as u64));
        } else {
            assert!(store.size() > last);
        }
        last = store.size();
    }
    assert!(compacted);
}

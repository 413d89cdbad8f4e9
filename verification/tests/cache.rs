use cykv::{
    Cache, CacheManager, Chunk, ChunkState, CyKvError, Disk, DiskOp, LruCacheManager,
    NoCacheManager, SeekFrom, State,
};

const CHUNK: usize = 4096;

fn pattern(len: usize, seed: u8) -> Vec<u8> {
    (0..len).map(|i| (i as u8).wrapping_mul(31).wrapping_add(seed)).collect()
}

#[test]
fn chunk_state_flags() {
    let mut state = ChunkState::with_state(State::Empty);
    assert!(state.is_empty());
    assert!(!state.is_dirty());
    state.set(State::Dirty);
    assert!(state.is_empty());
    assert!(state.is_dirty());
    state.clear(State::Empty);
    assert!(!state.is_empty());
    assert!(state.is_dirty());
    state.set(State::NoFlag);
    assert!(state.is_dirty());
    state.assign(State::Empty);
    assert!(state.is_empty());
    assert!(!state.is_dirty());
    state.clear_all();
    assert!(!state.is_empty());
    assert!(!state.is_dirty());
    let state = ChunkState::with_state(State::NoFlag);
    assert!(!state.is_empty());
    assert!(!state.is_dirty());
}

#[test]
fn disk_write_fills_a_gap_with_zeros() {
    let mut disk = Disk::new();
    disk.create(3);
    disk.write(3, 0, &[1, 2, 3]);
    disk.write(3, 5, &[9]);
    assert_eq!(disk.file(3), &vec![1, 2, 3, 0, 0, 9]);
    disk.write(3, 1, &[7, 7]);
    assert_eq!(disk.file(3), &vec![1, 7, 7, 0, 0, 9]);
    disk.write(3, 40, &[]);
    assert_eq!(disk.file_len(3), 6);
    assert_eq!(disk.size(), 6);
    assert_eq!(disk.ids(), vec![3]);
    assert_eq!(disk.max_id(), Some(3));
}

#[test]
fn disk_journal_records_every_change() {
    let mut disk = Disk::new();
    disk.create(2);
    disk.write(2, 0, &[5, 6]);
    disk.create(1);
    disk.remove(2);
    assert_eq!(
        disk.take_journal(),
        vec![
            DiskOp::Create { id: 2 },
            DiskOp::Write { id: 2, offset: 0, data: vec![5, 6] },
            DiskOp::Create { id: 1 },
            DiskOp::Remove { id: 2 },
        ]
    );
    assert!(disk.take_journal().is_empty());
    assert!(disk.contains(1));
    assert!(!disk.contains(2));
}

#[test]
fn chunk_loads_reads_writes_and_stores() {
    let mut disk = Disk::new();
    disk.create(1);
    disk.write(1, 0, &pattern(CHUNK + 10, 0));
    let mut chunk = Chunk::new();
    assert!(!chunk.has_file());
    chunk.attach(&mut disk, 1, 1).unwrap();
    assert!(chunk.has_file());
    assert_eq!(chunk.file_id, 1);
    assert_eq!(chunk.index, 1);
    // The second chunk of the log holds its last ten bytes.
    assert_eq!(chunk.read(&disk, 100, 0).unwrap(), pattern(CHUNK + 10, 0)[CHUNK..].to_vec());
    assert_eq!(chunk.read(&disk, 3, 8).unwrap(), pattern(CHUNK + 10, 0)[CHUNK + 8..].to_vec());
    assert_eq!(chunk.read(&disk, 3, 10).unwrap(), Vec::<u8>::new());
    // A write behind the bytes of the chunk fills the gap with zeros.
    assert_eq!(chunk.write(&[1, 2, 3], 12).unwrap(), 3);
    assert!(chunk.state.is_dirty());
    assert_eq!(chunk.store(&mut disk).unwrap(), 15);
    assert!(!chunk.state.is_dirty());
    assert_eq!(chunk.store(&mut disk).unwrap(), 0);
    let mut expected = pattern(CHUNK + 10, 0);
    expected.extend_from_slice(&[0, 0, 1, 2, 3]);
    assert_eq!(disk.file(1), &expected);
    // A chunk takes no more than it has room for.
    assert_eq!(chunk.write(&pattern(20, 1), (CHUNK - 4) as u64).unwrap(), 4);
    assert_eq!(chunk.write(&pattern(20, 1), CHUNK as u64).unwrap(), 0);
    assert_eq!(chunk.write(&pattern(20, 1), CHUNK as u64 + 1).unwrap(), 0);
    chunk.clear(&mut disk).unwrap();
    assert!(!chunk.has_file());
    assert_eq!(disk.file_len(1), 2 * CHUNK);
}

fn exercise<M: CacheManager>(mut manager: M) -> Vec<u8> {
    let mut disk = Disk::new();
    let mut handle = manager.open(&mut disk, 7);
    assert!(disk.contains(7));
    assert_eq!(handle.offset(), 0);
    // A write across three chunks.
    let first = pattern(2 * CHUNK + 100, 3);
    assert_eq!(manager.write(&mut disk, &mut handle, &first), Ok(first.len()));
    assert_eq!(handle.offset(), first.len() as u64);
    // A second handle reads what the first wrote.
    let mut reader = manager.open(&mut disk, 7);
    assert_eq!(manager.read(&mut disk, &mut reader, 10), first[..10].to_vec());
    assert_eq!(reader.offset(), 10);
    assert_eq!(manager.seek(&disk, &mut reader, SeekFrom::Start(4090)), Ok(4090));
    assert_eq!(manager.read(&mut disk, &mut reader, 20), first[4090..4110].to_vec());
    assert_eq!(manager.seek(&disk, &mut reader, SeekFrom::End(-5)), Ok(first.len() as u64 - 5));
    assert_eq!(manager.read(&mut disk, &mut reader, 20), first[first.len() - 5..].to_vec());
    assert_eq!(manager.read(&mut disk, &mut reader, 20), Vec::<u8>::new());
    assert_eq!(manager.seek(&disk, &mut reader, SeekFrom::Current(-3)), Ok(first.len() as u64 - 3));
    assert_eq!(manager.seek(&disk, &mut reader, SeekFrom::Start(0)), Ok(0));
    assert_eq!(manager.seek(&disk, &mut reader, SeekFrom::Current(-1)), Err(CyKvError::Io));
    assert_eq!(reader.offset(), 0);
    assert_eq!(manager.read(&mut disk, &mut reader, first.len() + 9), first);
    // An overwrite in the middle, then an append behind a gap.
    assert_eq!(manager.seek(&disk, &mut handle, SeekFrom::Start(4000)), Ok(4000));
    let second = pattern(300, 9);
    assert_eq!(manager.write(&mut disk, &mut handle, &second), Ok(300));
    assert_eq!(manager.seek(&disk, &mut handle, SeekFrom::End(5000)), Ok(first.len() as u64 + 5000));
    assert_eq!(manager.write(&mut disk, &mut handle, &[1, 2, 3]), Ok(3));
    assert_eq!(manager.write(&mut disk, &mut handle, &[]), Ok(0));
    assert_eq!(manager.flush(&mut disk, &mut handle), Ok(()));
    let mut expected = first.clone();
    expected[4000..4300].copy_from_slice(&second);
    expected.resize(first.len() + 5000, 0);
    expected.extend_from_slice(&[1, 2, 3]);
    assert_eq!(disk.file(7), &expected);
    assert_eq!(manager.seek(&disk, &mut reader, SeekFrom::Start(0)), Ok(0));
    assert_eq!(manager.read(&mut disk, &mut reader, expected.len()), expected);
    // Another log, and the first one deleted.
    let mut other = manager.open(&mut disk, 8);
    assert_eq!(manager.write(&mut disk, &mut other, &[4, 5, 6]), Ok(3));
    manager.remove(&mut disk, 7);
    assert!(!disk.contains(7));
    // A log of the same id again starts empty.
    let mut again = manager.open(&mut disk, 7);
    assert_eq!(manager.read(&mut disk, &mut again, 10), Vec::<u8>::new());
    assert_eq!(manager.write(&mut disk, &mut again, &[8]), Ok(1));
    assert_eq!(manager.seek(&disk, &mut again, SeekFrom::Start(0)), Ok(0));
    assert_eq!(manager.read(&mut disk, &mut again, 10), vec![8]);
    assert_eq!(manager.seek(&disk, &mut other, SeekFrom::Start(1)), Ok(1));
    assert_eq!(manager.read(&mut disk, &mut other, 10), vec![5, 6]);
    expected
}

#[test]
fn no_cache_behaves_as_the_file() {
    exercise(NoCacheManager {});
}

#[test]
fn lru_cache_behaves_as_the_file() {
    let direct = exercise(NoCacheManager {});
    // Room for many chunks, for two, for one, and for none.
    for cache_bytes in [100 << 20, 2 * CHUNK as u64, CHUNK as u64 + 7, 0] {
        assert_eq!(exercise(LruCacheManager::new(cache_bytes)), direct);
    }
}

#[test]
fn lru_cache_gives_up_the_chunk_used_least_recently() {
    let mut disk = Disk::new();
    let mut manager = LruCacheManager::new(2 * CHUNK as u64 + 100);
    let mut handle = manager.open(&mut disk, 4);
    assert_eq!(manager.len(), 0);
    // Writing three chunks leaves the last two in the cache.
    assert_eq!(manager.write(&mut disk, &mut handle, &pattern(3 * CHUNK, 5)), Ok(3 * CHUNK));
    assert_eq!(manager.len(), 2);
    assert!(!manager.is_cached(4, 0));
    assert!(manager.is_cached(4, 1));
    assert!(manager.is_cached(4, 2));
    // Reading chunk 1 makes chunk 2 the one used least recently.
    assert_eq!(manager.seek(&disk, &mut handle, SeekFrom::Start(CHUNK as u64 + 9)), Ok(4105));
    assert_eq!(manager.read(&mut disk, &mut handle, 4), pattern(3 * CHUNK, 5)[4105..4109].to_vec());
    assert_eq!(manager.len(), 2);
    // So chunk 0, read next, takes the place of chunk 2.
    assert_eq!(manager.seek(&disk, &mut handle, SeekFrom::Start(1)), Ok(1));
    assert_eq!(manager.read(&mut disk, &mut handle, 2), pattern(3 * CHUNK, 5)[1..3].to_vec());
    assert!(manager.is_cached(4, 0));
    assert!(manager.is_cached(4, 1));
    assert!(!manager.is_cached(4, 2));
    // A chunk of another log is a chunk of its own.
    let mut other = manager.open(&mut disk, 5);
    assert_eq!(manager.write(&mut disk, &mut other, &[1]), Ok(1));
    assert!(manager.is_cached(5, 0));
    assert!(manager.is_cached(4, 0));
    assert!(!manager.is_cached(4, 1));
    // Deleting a log forgets its chunks.
    manager.remove(&mut disk, 4);
    assert!(!manager.is_cached(4, 0));
    assert!(manager.is_cached(5, 0));
    assert_eq!(manager.len(), 1);
    // A read takes the chunks from the one of its first byte to the one
    // of the byte behind its last, also where that one gives no byte.
    let mut manager = LruCacheManager::new(8 * CHUNK as u64);
    let mut handle = manager.open(&mut disk, 6);
    assert_eq!(manager.write(&mut disk, &mut handle, &pattern(3 * CHUNK, 7)), Ok(3 * CHUNK));
    manager.remove(&mut disk, 6);
    let mut handle = manager.open(&mut disk, 6);
    assert_eq!(manager.write(&mut disk, &mut handle, &pattern(2 * CHUNK, 7)), Ok(2 * CHUNK));
    assert_eq!(manager.len(), 2);
    assert_eq!(manager.seek(&disk, &mut handle, SeekFrom::Start(10)), Ok(10));
    assert_eq!(manager.read(&mut disk, &mut handle, 2 * CHUNK).len(), 2 * CHUNK - 10);
    assert!(manager.is_cached(6, 2));
    assert_eq!(manager.len(), 3);
    assert_eq!(manager.read(&mut disk, &mut handle, 1), Vec::<u8>::new());
    assert_eq!(manager.len(), 3);
    // A cache without room holds nothing.
    let mut none = LruCacheManager::new(CHUNK as u64 - 1);
    let mut handle = none.open(&mut disk, 5);
    assert_eq!(none.read(&mut disk, &mut handle, 1), vec![1]);
    assert_eq!(none.len(), 0);
    assert!(!none.is_cached(5, 0));
}

#[test]
fn a_new_chunk_holds_nothing_in_a_buffer_of_zeros() {
    let chunk = Chunk::new();
    assert!(!chunk.has_file());
    assert_eq!(chunk.len, 0);
    assert_eq!(chunk.buf, vec![0u8; CHUNK]);
    assert!(!chunk.state.is_dirty());
}

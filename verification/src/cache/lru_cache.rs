//! The manager that keeps chunks of the logs in a cache, which gives up
//! the chunk that was used least recently when it is full. Every write
//! goes through to the log at once, so the cache never holds bytes that
//! the log does not.
use crate::cache::chunk::Chunk;
use crate::cache::no_cache::seek_to;
use crate::cache::{
    read_at, Cache, CacheManager, SeekFrom, CHUNK_SIZE, CHUNK_SIZE_SHIFT, DEFAULT_CACHE_SIZE,
};
use crate::disk::{lemma_write_at, lemma_write_at_twice, write_at, Disk};
use crate::error::CyKvError;
use vstd::prelude::*;

verus! {

#[verifier::external_type_specification]
#[verifier::external_body]
#[verifier::reject_recursive_types(K)]
#[verifier::reject_recursive_types(V)]
#[verifier::reject_recursive_types(S)]
pub struct ExLruCache<K, V, S>(lru::LruCache<K, V, S>);

#[verifier::external_type_specification]
#[verifier::external_body]
pub struct ExDefaultHasher(lru::DefaultHasher);

/// What a cache holds: each chunk under the log and the part of the log
/// that it is for, from the one used least recently to the one used most
/// recently.
pub uninterp spec fn lru_entries(cache: lru::LruCache<(u32, usize), Chunk>) -> Seq<((u32, usize), Chunk)>;

/// The number of chunks that a cache holds at most.
pub uninterp spec fn lru_capacity(cache: lru::LruCache<(u32, usize), Chunk>) -> nat;

/// No entry has the key `key`.
pub open spec fn absent(entries: Seq<((u32, usize), Chunk)>, key: (u32, usize)) -> bool {
    forall|i: int| 0 <= i < entries.len() ==> (#[trigger] entries[i]).0 != key
}

/// `lru::LruCache::unbounded`: a cache that holds nothing, and that may
/// hold as many entries as there can be.
#[verifier::external_body]
fn lru_unbounded() -> (cache: lru::LruCache<(u32, usize), Chunk>)
    ensures
        lru_entries(cache) == Seq::<((u32, usize), Chunk)>::empty(),
        lru_capacity(cache) == usize::MAX,
{
    lru::LruCache::unbounded()
}

/// `lru::LruCache::resize`, on a cache that holds no more than `cap`
/// entries: it holds what it held, and may hold `cap` entries.
#[verifier::external_body]
fn lru_resize(cache: &mut lru::LruCache<(u32, usize), Chunk>, cap: usize)
    requires
        lru_entries(*old(cache)).len() <= cap,
    ensures
        lru_entries(*final(cache)) == lru_entries(*old(cache)),
        lru_capacity(*final(cache)) == cap,
{
    cache.resize(cap)
}

/// `lru::LruCache::contains`: whether the cache holds an entry of `key`.
/// The order of the entries is not touched.
#[verifier::external_body]
fn lru_contains(cache: &lru::LruCache<(u32, usize), Chunk>, key: &(u32, usize)) -> (out: bool)
    ensures
        out == !absent(lru_entries(*cache), *key),
{
    cache.contains(key)
}

/// `lru::LruCache::len`: the number of entries that the cache holds.
#[verifier::external_body]
fn lru_len(cache: &lru::LruCache<(u32, usize), Chunk>) -> (out: usize)
    ensures
        out == lru_entries(*cache).len(),
{
    cache.len()
}

/// `lru::LruCache::pop`: takes the entry of `key` out of the cache, where
/// there is one, and hands out its chunk. The other entries stay as they
/// are, in their order.
#[verifier::external_body]
fn lru_pop(cache: &mut lru::LruCache<(u32, usize), Chunk>, key: &(u32, usize)) -> (out: Option<Chunk>)
    ensures
        lru_capacity(*final(cache)) == lru_capacity(*old(cache)),
        match out {
            Some(chunk) => exists|i: int|
                0 <= i < lru_entries(*old(cache)).len() && #[trigger] lru_entries(*old(cache))[i]
                    == (*key, chunk) && lru_entries(*final(cache)) == lru_entries(
                    *old(cache),
                ).remove(i),
            None => absent(lru_entries(*old(cache)), *key) && lru_entries(*final(cache))
                == lru_entries(*old(cache)),
        },
{
    cache.pop(key)
}

/// `lru::LruCache::push`, for a key that the cache does not hold: the
/// entry becomes the one used most recently. A cache that is full gives
/// up the entry used least recently for it, and hands that out. A cache
/// that may hold nothing stays empty.
#[verifier::external_body]
fn lru_push(cache: &mut lru::LruCache<(u32, usize), Chunk>, key: (u32, usize), chunk: Chunk) -> (out: Option<((u32, usize), Chunk)>)
    requires
        absent(lru_entries(*old(cache)), key),
    ensures
        lru_capacity(*final(cache)) == lru_capacity(*old(cache)),
        if lru_capacity(*old(cache)) == 0 {
            out is None && lru_entries(*final(cache)) == lru_entries(*old(cache))
        } else if lru_entries(*old(cache)).len() == lru_capacity(*old(cache)) {
            out == Some(lru_entries(*old(cache))[0]) && lru_entries(*final(cache)) == lru_entries(
                *old(cache),
            ).drop_first().push((key, chunk))
        } else {
            out is None && lru_entries(*final(cache)) == lru_entries(*old(cache)).push(
                (key, chunk),
            )
        },
{
    cache.push(key, chunk)
}

/// The chunk holds, clean, what the logs `files` hold at its place.
pub open spec fn coherent(key: (u32, usize), chunk: Chunk, files: Map<u32, Seq<u8>>) -> bool {
    &&& chunk.wf()
    &&& chunk.attached
    &&& chunk.file_id == key.0
    &&& chunk.index == key.1
    &&& !chunk.state.dirty()
    &&& !chunk.state.empty()
    &&& files.contains_key(key.0)
    &&& chunk.start() <= files[key.0].len()
    &&& chunk.data() == read_at(files[key.0], chunk.start(), chunk.len as int)
}

/// The entries have their keys once each, and each chunk holds what the
/// logs hold at its place.
pub open spec fn all_coherent(entries: Seq<((u32, usize), Chunk)>, files: Map<u32, Seq<u8>>) -> bool {
    &&& forall|i: int, j: int|
        0 <= i < j < entries.len() ==> (#[trigger] entries[i]).0 != (#[trigger] entries[j]).0
    &&& forall|i: int|
        0 <= i < entries.len() ==> coherent((#[trigger] entries[i]).0, entries[i].1, files)
}

/// The places without `key`.
pub open spec fn without(places: Seq<(u32, usize)>, key: (u32, usize)) -> Seq<(u32, usize)> {
    if places.contains(key) {
        places.remove(places.index_of(key))
    } else {
        places
    }
}

/// The places after `key`, which is not among them, was put into a cache
/// that may hold `capacity` chunks: `key` is the last, and where the cache
/// was full, the first has gone. A cache that may hold nothing holds
/// nothing.
pub open spec fn put_back(
    places: Seq<(u32, usize)>,
    key: (u32, usize),
    capacity: nat,
) -> Seq<(u32, usize)> {
    if capacity == 0 {
        places
    } else if places.len() == capacity {
        places.drop_first().push(key)
    } else {
        places.push(key)
    }
}

/// The places of the chunks in a cache after the chunk `key` was used: it
/// is the one used most recently, and where the cache was full without
/// it, the one used least recently has gone.
pub open spec fn touched(
    places: Seq<(u32, usize)>,
    key: (u32, usize),
    capacity: nat,
) -> Seq<(u32, usize)> {
    put_back(without(places, key), key, capacity)
}

/// The places after the chunks `from` up to `to` of the log `file_id` were
/// used, one after the other.
pub open spec fn touched_range(
    places: Seq<(u32, usize)>,
    file_id: u32,
    from: int,
    to: int,
    capacity: nat,
) -> Seq<(u32, usize)>
    decreases to - from,
{
    if from >= to {
        places
    } else {
        touched(
            touched_range(places, file_id, from, to - 1, capacity),
            (file_id, (to - 1) as usize),
            capacity,
        )
    }
}

/// The places without the chunks below `to` of the log `file_id`.
pub open spec fn forgotten(places: Seq<(u32, usize)>, file_id: u32, to: int) -> Seq<(u32, usize)>
    decreases to,
{
    if to <= 0 {
        places
    } else {
        without(forgotten(places, file_id, to - 1), (file_id, (to - 1) as usize))
    }
}

/// The number of the chunk behind the last of `len` bytes from `offset`
/// on: the chunks that hold those bytes are the ones from the chunk of
/// `offset` up to this one.
pub open spec fn chunks_end(offset: int, len: int) -> int {
    if len <= 0 {
        offset / (CHUNK_SIZE as int)
    } else {
        (offset + len - 1) / (CHUNK_SIZE as int) + 1
    }
}

/// The places of the entries.
pub open spec fn places_of(entries: Seq<((u32, usize), Chunk)>) -> Seq<(u32, usize)> {
    entries.map_values(|e: ((u32, usize), Chunk)| e.0)
}

/// Taking an entry out of the cache takes its place out of the places.
proof fn lemma_without(entries: Seq<((u32, usize), Chunk)>, i: int)
    requires
        0 <= i < entries.len(),
        forall|a: int, b: int|
            0 <= a < b < entries.len() ==> (#[trigger] entries[a]).0 != (#[trigger] entries[b]).0,
    ensures
        places_of(entries.remove(i)) == without(places_of(entries), entries[i].0),
{
    let places = places_of(entries);
    let key = entries[i].0;
    assert(places[i] == key);
    let j = places.index_of(key);
    assert(0 <= j < places.len() && places[j] == key);
    if j < i {
        assert(entries[j].0 != entries[i].0);
    } else if i < j {
        assert(entries[i].0 != entries[j].0);
    }
    assert(places_of(entries.remove(i)) =~= places.remove(i));
}

/// Where no entry has the key, the places are without it.
proof fn lemma_without_absent(entries: Seq<((u32, usize), Chunk)>, key: (u32, usize))
    requires
        absent(entries, key),
    ensures
        without(places_of(entries), key) == places_of(entries),
{
    let places = places_of(entries);
    if places.contains(key) {
        let j = choose|j: int| 0 <= j < places.len() && places[j] == key;
        assert(entries[j].0 == key);
    }
}

/// The manager of the cache of chunks.
pub struct LruCacheManager {
    chunk_cache: lru::LruCache<(u32, usize), Chunk>,
}

/// A handle of the manager of the cache of chunks.
pub struct LruHandle {
    file_id: u32,
    cur_offset: u64,
}

impl LruHandle {
    pub fn new(file_id: u32) -> (handle: Self)
        ensures
            handle.file_id() == file_id,
            handle.position() == 0,
    {
        Self { file_id, cur_offset: 0 }
    }

    /// The number of the chunk that holds the byte at `offset`.
    pub fn offset_to_index(offset: u64) -> (index: u64)
        ensures
            index == offset / (CHUNK_SIZE as u64),
    {
        assert(offset >> 12u64 == offset / 4096u64) by (bit_vector);
        offset >> CHUNK_SIZE_SHIFT
    }
}

impl Cache for LruHandle {
    closed spec fn file_id(&self) -> u32 {
        self.file_id
    }

    closed spec fn position(&self) -> u64 {
        self.cur_offset
    }

    fn offset(&self) -> (offset: u64) {
        self.cur_offset
    }
}

/// Writing into the chunk at its place and then the chunk to the log is
/// writing to the log.
proof fn lemma_chunk_write(file: Seq<u8>, start: int, within: int, piece: Seq<u8>)
    requires
        0 <= start,
        0 <= within,
        piece.len() > 0,
        within + piece.len() <= CHUNK_SIZE,
    ensures
        write_at(file, start, write_at(read_at(file, start, CHUNK_SIZE as int), within, piece))
            == write_at(file, start + within, piece),
{
    let loaded = read_at(file, start, CHUNK_SIZE as int);
    let data = write_at(loaded, within, piece);
    let a = write_at(file, start, data);
    let b = write_at(file, start + within, piece);
    lemma_write_at(loaded, within, piece);
    lemma_write_at(file, start, data);
    lemma_write_at(file, start + within, piece);
    assert(a.len() == b.len());
    assert forall|p: int| 0 <= p < a.len() implies a[p] == b[p] by {
        if p < start {
        } else if p < start + data.len() {
            let q = p - start;
            assert(a[start + q] == data[q]);
            if q < within {
                if q < loaded.len() {
                    assert(data[q] == loaded[q]);
                    assert(loaded[q] == file[start + q]);
                } else {
                    assert(data[q] == 0);
                }
            } else if q < within + piece.len() {
                assert(data[within + (q - within)] == piece[q - within]);
                assert(b[start + within + (q - within)] == piece[q - within]);
            } else {
                assert(data[q] == loaded[q]);
                assert(loaded[q] == file[start + q]);
            }
        } else {
        }
    }
    assert(a =~= b);
}

impl Default for LruCacheManager {
    /// A manager whose cache has the size `DEFAULT_CACHE_SIZE`.
    fn default() -> (manager: Self)
        ensures
            manager.inv(Map::empty()),
            manager.cached() == Seq::<(u32, usize)>::empty(),
            manager.capacity() == DEFAULT_CACHE_SIZE / CHUNK_SIZE,
    {
        LruCacheManager::new(DEFAULT_CACHE_SIZE as u64)
    }
}

impl LruCacheManager {
    /// The number of chunks that the cache holds at most.
    pub closed spec fn capacity(&self) -> nat {
        lru_capacity(self.chunk_cache)
    }

    /// The places of the chunks that the cache holds, from the one used
    /// least recently to the one used most recently.
    pub closed spec fn cached(&self) -> Seq<(u32, usize)> {
        places_of(lru_entries(self.chunk_cache))
    }

    /// The cache holds no more chunks than it may.
    pub proof fn lemma_capacity(&self, files: Map<u32, Seq<u8>>)
        requires
            self.inv(files),
        ensures
            self.cached().len() <= self.capacity(),
    {
    }

    /// Whether the cache holds the chunk for the part `index` of the log
    /// `file_id`.
    pub fn is_cached(&self, file_id: u32, index: usize) -> (out: bool)
        ensures
            out == self.cached().contains((file_id, index)),
    {
        let key = (file_id, index);
        let out = lru_contains(&self.chunk_cache, &key);
        proof {
            let entries = lru_entries(self.chunk_cache);
            if out {
                let i = choose|i: int| 0 <= i < entries.len() && (#[trigger] entries[i]).0 == key;
                assert(self.cached()[i] == key);
            }
            if self.cached().contains(key) {
                let i = choose|i: int| 0 <= i < self.cached().len() && self.cached()[i] == key;
                assert(entries[i].0 == key);
            }
        }
        out
    }

    /// The number of chunks that the cache holds.
    pub fn len(&self) -> (out: usize)
        ensures
            out == self.cached().len(),
    {
        lru_len(&self.chunk_cache)
    }

    /// A manager whose cache holds `cache_bytes / CHUNK_SIZE` chunks.
    pub fn new(cache_bytes: u64) -> (manager: Self)
        ensures
            manager.inv(Map::empty()),
            manager.cached() == Seq::<(u32, usize)>::empty(),
            manager.capacity() == if cache_bytes / (CHUNK_SIZE as u64) <= usize::MAX {
                (cache_bytes / (CHUNK_SIZE as u64)) as nat
            } else {
                usize::MAX as nat
            },
    {
        let chunks = cache_bytes / (CHUNK_SIZE as u64);
        let cap: usize = if chunks <= usize::MAX as u64 {
            chunks as usize
        } else {
            usize::MAX
        };
        let mut chunk_cache = lru_unbounded();
        lru_resize(&mut chunk_cache, cap);
        let manager = Self { chunk_cache };
        assert(manager.cached() =~= Seq::<(u32, usize)>::empty());
        manager
    }

    /// Takes the chunk for the part `index` of the log `file_id` out of
    /// the cache, or a new one where the cache has none, and makes it hold
    /// what the log holds there.
    fn fetch(&mut self, disk: &mut Disk, file_id: u32, index: usize) -> (chunk: Chunk)
        requires
            old(disk).wf(),
            old(self).inv(old(disk)@),
            old(disk)@.contains_key(file_id),
            index * CHUNK_SIZE <= usize::MAX,
        ensures
            final(disk).wf(),
            final(disk)@ == old(disk)@,
            final(disk).base() == old(disk).base(),
            all_coherent(lru_entries(final(self).chunk_cache), final(disk)@),
            absent(lru_entries(final(self).chunk_cache), (file_id, index)),
            final(self).capacity() == old(self).capacity(),
            lru_entries(final(self).chunk_cache).len() <= final(self).capacity(),
            final(self).cached() == without(old(self).cached(), (file_id, index)),
            chunk.wf(),
            chunk.attached,
            chunk.file_id == file_id,
            chunk.index == index,
            !chunk.state.dirty(),
            !chunk.state.empty(),
            chunk.data() == read_at(old(disk)@[file_id], index * CHUNK_SIZE, CHUNK_SIZE as int),
    {
        let ghost entries = lru_entries(self.chunk_cache);
        let key = (file_id, index);
        let mut chunk = match lru_pop(&mut self.chunk_cache, &key) {
            Some(chunk) => chunk,
            None => Chunk::new(),
        };
        proof {
            let after = lru_entries(self.chunk_cache);
            if after != entries {
                let i = choose|i: int|
                    0 <= i < entries.len() && #[trigger] entries[i] == (key, chunk) && after
                        == entries.remove(i);
                lemma_without(entries, i);
                assert forall|j: int| 0 <= j < after.len() implies (#[trigger] after[j]).0
                    != key by {
                    let k = if j < i { j } else { j + 1 };
                    assert(after[j] == entries[k]);
                    if k < i {
                        assert(entries[k].0 != entries[i].0);
                    } else {
                        assert(entries[i].0 != entries[k].0);
                    }
                }
                assert forall|a: int, b: int| 0 <= a < b < after.len() implies (#[trigger] after[a]).0
                    != (#[trigger] after[b]).0 by {
                    let ka = if a < i { a } else { a + 1 };
                    let kb = if b < i { b } else { b + 1 };
                    assert(after[a] == entries[ka]);
                    assert(after[b] == entries[kb]);
                    assert(entries[ka].0 != entries[kb].0);
                }
                assert forall|j: int| 0 <= j < after.len() implies coherent(
                    (#[trigger] after[j]).0,
                    after[j].1,
                    disk@,
                ) by {
                    let k = if j < i { j } else { j + 1 };
                    assert(after[j] == entries[k]);
                    assert(coherent(entries[k].0, entries[k].1, disk@));
                }
                assert(coherent(entries[i].0, entries[i].1, disk@));
            } else {
                if exists|i: int|
                    0 <= i < entries.len() && #[trigger] entries[i] == (key, chunk) && after
                        == entries.remove(i) {
                    let i = choose|i: int|
                        0 <= i < entries.len() && #[trigger] entries[i] == (key, chunk) && after
                            == entries.remove(i);
                    assert(entries.remove(i).len() != entries.len());
                }
                lemma_without_absent(entries, key);
            }
        }
        if !chunk.has_file() {
            let _ = chunk.attach(disk, file_id, index);
            assert(disk@ =~= old(disk)@);
            let _ = chunk.load(disk);
        } else {
            // A chunk of the cache holds what the log held when the chunk
            // was last used. Where the log has grown in the part of the
            // chunk since, the chunk is loaded again.
            let size = disk.file_len(file_id);
            let start = index * CHUNK_SIZE;
            assert(chunk.data().len() == chunk.len);
            let there = if size - start < CHUNK_SIZE {
                size - start
            } else {
                CHUNK_SIZE
            };
            if chunk.len < there {
                let _ = chunk.load(disk);
            } else {
                assert(chunk.data() =~= read_at(disk@[file_id], start as int, CHUNK_SIZE as int));
            }
        }
        chunk
    }

    /// Puts a chunk that holds what the log holds into the cache.
    fn keep(&mut self, disk: &mut Disk, chunk: Chunk)
        requires
            old(disk).wf(),
            all_coherent(lru_entries(old(self).chunk_cache), old(disk)@),
            lru_entries(old(self).chunk_cache).len() <= old(self).capacity(),
            absent(lru_entries(old(self).chunk_cache), (chunk.file_id, chunk.index)),
            coherent((chunk.file_id, chunk.index), chunk, old(disk)@),
        ensures
            final(disk).wf(),
            final(disk)@ == old(disk)@,
            final(disk).base() == old(disk).base(),
            final(self).inv(final(disk)@),
            final(self).capacity() == old(self).capacity(),
            final(self).cached() == put_back(
                old(self).cached(),
                (chunk.file_id, chunk.index),
                old(self).capacity(),
            ),
    {
        let ghost entries = lru_entries(self.chunk_cache);
        let key = (chunk.file_id, chunk.index);
        let evicted = lru_push(&mut self.chunk_cache, key, chunk);
        proof {
            let after = lru_entries(self.chunk_cache);
            assert(places_of(after) =~= put_back(places_of(entries), key, old(self).capacity()));
            if after != entries {
                let kept = if entries.len() == lru_capacity(old(self).chunk_cache) {
                    entries.drop_first()
                } else {
                    entries
                };
                let shift: int = if entries.len() == lru_capacity(old(self).chunk_cache) {
                    1
                } else {
                    0
                };
                assert(after == kept.push((key, chunk)));
                assert forall|a: int, b: int| 0 <= a < b < after.len() implies (#[trigger] after[a]).0
                    != (#[trigger] after[b]).0 by {
                    assert(after[a] == entries[a + shift]);
                    if b < kept.len() {
                        assert(after[b] == entries[b + shift]);
                        assert(entries[a + shift].0 != entries[b + shift].0);
                    } else {
                        assert(entries[a + shift].0 != key);
                    }
                }
                assert forall|j: int| 0 <= j < after.len() implies coherent(
                    (#[trigger] after[j]).0,
                    after[j].1,
                    disk@,
                ) by {
                    if j < kept.len() {
                        assert(after[j] == entries[j + shift]);
                        assert(coherent(entries[j + shift].0, entries[j + shift].1, disk@));
                    }
                }
            }
        }
        if let Some((_, mut old_chunk)) = evicted {
            assert(old_chunk == entries[0].1);
            assert(coherent(entries[0].0, entries[0].1, disk@));
            let _ = old_chunk.store(disk);
        }
    }

    /// Reads up to `len` bytes at `offset` of the log `file_id`, as far as
    /// the chunk `index`, which holds that offset, has them.
    fn read_chunk(&mut self, disk: &mut Disk, file_id: u32, offset: u64, index: usize, len: usize) -> (out: Vec<u8>)
        requires
            old(disk).wf(),
            old(self).inv(old(disk)@),
            old(disk)@.contains_key(file_id),
            index * CHUNK_SIZE <= offset < index * CHUNK_SIZE + CHUNK_SIZE,
            offset <= old(disk)@[file_id].len(),
        ensures
            final(disk).wf(),
            final(disk)@ == old(disk)@,
            final(disk).base() == old(disk).base(),
            final(self).inv(final(disk)@),
            final(self).capacity() == old(self).capacity(),
            final(self).cached() == touched(
                old(self).cached(),
                (file_id, index),
                old(self).capacity(),
            ),
            out@ == read_at(
                old(disk)@[file_id],
                offset as int,
                if len <= index * CHUNK_SIZE + CHUNK_SIZE - offset {
                    len as int
                } else {
                    index * CHUNK_SIZE + CHUNK_SIZE - offset
                },
            ),
    {
        proof {
            disk.lemma_sized();
        }
        let ghost file = disk@[file_id];
        let mut chunk = self.fetch(disk, file_id, index);
        let within = offset - (index * CHUNK_SIZE) as u64;
        let out = match chunk.read(disk, len, within) {
            Ok(bytes) => bytes,
            Err(_) => Vec::new(),
        };
        proof {
            let start = index * CHUNK_SIZE;
            let room = start + CHUNK_SIZE - offset;
            let wanted = read_at(
                file,
                offset as int,
                if len <= room {
                    len as int
                } else {
                    room
                },
            );
            assert(chunk.data() == read_at(file, start, CHUNK_SIZE as int));
            assert(out@ =~= wanted);
            assert(chunk.data() =~= read_at(file, chunk.start(), chunk.len as int));
        }
        self.keep(disk, chunk);
        out
    }

    /// Writes as many bytes of `buf` at `offset` of the log `file_id` as
    /// the chunk `index`, which holds that offset, has room for: into the
    /// chunk, and through to the log.
    fn write_chunk(&mut self, disk: &mut Disk, file_id: u32, offset: u64, index: usize, buf: &[u8]) -> (out: usize)
        requires
            old(disk).wf(),
            old(self).inv(old(disk)@),
            old(disk)@.contains_key(file_id),
            index * CHUNK_SIZE <= offset < index * CHUNK_SIZE + CHUNK_SIZE,
            buf@.len() > 0,
            offset + buf@.len() <= usize::MAX,
        ensures
            final(disk).wf(),
            final(disk).base() == old(disk).base(),
            final(self).inv(final(disk)@),
            final(self).capacity() == old(self).capacity(),
            final(self).cached() == touched(
                old(self).cached(),
                (file_id, index),
                old(self).capacity(),
            ),
            out > 0,
            out == if buf@.len() <= index * CHUNK_SIZE + CHUNK_SIZE - offset {
                buf@.len() as int
            } else {
                index * CHUNK_SIZE + CHUNK_SIZE - offset
            },
            final(disk)@ == old(disk)@.insert(
                file_id,
                write_at(old(disk)@[file_id], offset as int, buf@.subrange(0, out as int)),
            ),
    {
        proof {
            disk.lemma_sized();
        }
        let ghost files = disk@;
        let ghost file = disk@[file_id];
        let mut chunk = self.fetch(disk, file_id, index);
        let ghost loaded = chunk.data();
        let within = offset - (index * CHUNK_SIZE) as u64;
        let written = match chunk.write(buf, within) {
            Ok(written) => written,
            Err(_) => 0,
        };
        let ghost piece = buf@.subrange(0, written as int);
        let ghost start = index * CHUNK_SIZE;
        proof {
            lemma_write_at(loaded, within as int, piece);
            lemma_chunk_write(file, start, within as int, piece);
        }
        let _ = chunk.sync(disk);
        proof {
            let after = write_at(file, offset as int, piece);
            assert(disk@ == files.insert(file_id, after));
            lemma_written(file, start, chunk.data());
            let entries = lru_entries(self.chunk_cache);
            assert forall|j: int| 0 <= j < entries.len() implies coherent(
                (#[trigger] entries[j]).0,
                entries[j].1,
                disk@,
            ) by {
                assert(coherent(entries[j].0, entries[j].1, files));
                lemma_other_kept(entries[j].1, files, file_id, index as int, offset as int, piece);
            }
        }
        self.keep(disk, chunk);
        written
    }
}

/// What was written to a log at an offset stands there.
proof fn lemma_written(file: Seq<u8>, start: int, data: Seq<u8>)
    requires
        0 <= start,
        data.len() > 0,
    ensures
        data == read_at(write_at(file, start, data), start, data.len() as int),
{
    let after = write_at(file, start, data);
    lemma_write_at(file, start, data);
    assert forall|q: int| 0 <= q < data.len() implies data[q] == #[trigger] after.subrange(
        start,
        start + data.len(),
    )[q] by {
        assert(after[start + q] == data[q]);
    }
    assert(data =~= after.subrange(start, start + data.len()));
}

/// A write into one chunk of a log leaves the chunks of other places
/// holding what the logs hold.
proof fn lemma_other_kept(
    other: Chunk,
    files: Map<u32, Seq<u8>>,
    file_id: u32,
    index: int,
    offset: int,
    piece: Seq<u8>,
)
    requires
        coherent((other.file_id, other.index), other, files),
        files.contains_key(file_id),
        other.file_id == file_id ==> other.index != index,
        0 <= index,
        index * CHUNK_SIZE <= offset,
        offset + piece.len() <= index * CHUNK_SIZE + CHUNK_SIZE,
    ensures
        coherent(
            (other.file_id, other.index),
            other,
            files.insert(file_id, write_at(files[file_id], offset, piece)),
        ),
{
    if other.file_id == file_id {
        let file = files[file_id];
        let after = write_at(file, offset, piece);
        let s = other.start();
        let n = other.len as int;
        assert(other.data().len() == n);
        lemma_apart(other.index as int, index);
        lemma_write_at(file, offset, piece);
        assert forall|q: int| 0 <= q < n implies #[trigger] after.subrange(s, s + n)[q]
            == file.subrange(s, s + n)[q] by {
            assert(after[s + q] == file[s + q]);
        }
        assert(after.subrange(s, s + n) =~= file.subrange(s, s + n));
    }
}

/// Two chunks of a log do not overlap.
proof fn lemma_apart(a: int, b: int)
    requires
        0 <= a,
        0 <= b,
        a != b,
    ensures
        a * CHUNK_SIZE + CHUNK_SIZE <= b * CHUNK_SIZE || b * CHUNK_SIZE + CHUNK_SIZE <= a
            * CHUNK_SIZE,
{
    assert(a < b ==> (a + 1) * CHUNK_SIZE <= b * CHUNK_SIZE) by (nonlinear_arith);
    assert(b < a ==> (b + 1) * CHUNK_SIZE <= a * CHUNK_SIZE) by (nonlinear_arith);
    assert((a + 1) * CHUNK_SIZE == a * CHUNK_SIZE + CHUNK_SIZE) by (nonlinear_arith);
    assert((b + 1) * CHUNK_SIZE == b * CHUNK_SIZE + CHUNK_SIZE) by (nonlinear_arith);
}

impl CacheManager for LruCacheManager {
    type Handle = LruHandle;

    closed spec fn inv(&self, files: Map<u32, Seq<u8>>) -> bool {
        &&& lru_entries(self.chunk_cache).len() <= lru_capacity(self.chunk_cache)
        &&& all_coherent(lru_entries(self.chunk_cache), files)
    }

    proof fn lemma_inv_grows(&self, before: Map<u32, Seq<u8>>, after: Map<u32, Seq<u8>>) {
        let entries = lru_entries(self.chunk_cache);
        assert forall|i: int| 0 <= i < entries.len() implies coherent(
            (#[trigger] entries[i]).0,
            entries[i].1,
            after,
        ) by {
            assert(coherent(entries[i].0, entries[i].1, before));
            assert(before.contains_key(entries[i].0.0));
        }
    }

    fn open(&mut self, disk: &mut Disk, file_id: u32) -> (handle: LruHandle)
        ensures
            final(self).cached() == old(self).cached(),
            final(self).capacity() == old(self).capacity(),
    {
        if !disk.contains(file_id) {
            proof {
                self.lemma_inv_grows(disk@, disk@.insert(file_id, Seq::empty()));
            }
            disk.create(file_id);
        }
        LruHandle::new(file_id)
    }

    fn seek(&self, disk: &Disk, handle: &mut LruHandle, pos: SeekFrom) -> (out: Result<u64, CyKvError>) {
        match seek_to(pos, disk.file_len(handle.file_id), handle.cur_offset) {
            Some(offset) => {
                handle.cur_offset = offset;
                Ok(offset)
            },
            None => Err(CyKvError::Io),
        }
    }

    fn read(&mut self, disk: &mut Disk, handle: &mut LruHandle, len: usize) -> (out: Vec<u8>)
        ensures
            final(self).capacity() == old(self).capacity(),
            final(self).cached() == if old(handle).position() < old(disk)@[old(
                handle,
            ).file_id()].len() {
                touched_range(
                    old(self).cached(),
                    old(handle).file_id(),
                    old(handle).position() as int / (CHUNK_SIZE as int),
                    (old(handle).position() + out@.len()) / (CHUNK_SIZE as int) + 1,
                    old(self).capacity(),
                )
            } else {
                old(self).cached()
            },
    {
        let mut out: Vec<u8> = Vec::new();
        let size = disk.file_len(handle.file_id);
        let start = handle.cur_offset;
        if start >= size as u64 {
            return out;
        }
        let ghost places = self.cached();
        let ghost cap = self.capacity();
        let ghost file = disk@[handle.file_id];
        let end: u64 = if len as u64 <= size as u64 - start {
            start + len as u64
        } else {
            size as u64
        };
        // The chunks from the one of the first byte to the one of the
        // byte behind the last are taken from the cache, one after the
        // other; each gives the bytes that it has of those that are asked.
        let first = LruHandle::offset_to_index(start);
        let last = LruHandle::offset_to_index(end);
        let mut index = first;
        let mut pos: u64 = start;
        while index <= last
            invariant
                disk.wf(),
                disk@ == old(disk)@,
                disk.base() == old(disk).base(),
                self.inv(disk@),
                disk@.contains_key(handle.file_id),
                file == disk@[handle.file_id],
                size == file.len(),
                start <= pos <= end <= size,
                first == start / 4096,
                last == end / 4096,
                first <= index <= last + 1,
                index <= last ==> index * 4096 <= pos < index * 4096 + 4096,
                index == last + 1 ==> pos == end,
                out@ == file.subrange(start as int, pos as int),
                handle.file_id == old(handle).file_id,
                handle.cur_offset == start,
                places == old(self).cached(),
                cap == old(self).capacity(),
                self.capacity() == cap,
                self.cached() == touched_range(
                    places,
                    handle.file_id,
                    first as int,
                    index as int,
                    cap,
                ),
            decreases last + 1 - index,
        {
            let mut piece = self.read_chunk(
                disk,
                handle.file_id,
                pos,
                index as usize,
                (end - pos) as usize,
            );
            let n = piece.len();
            out.append(&mut piece);
            assert(out@ =~= file.subrange(start as int, pos + n));
            pos = pos + n as u64;
            index = index + 1;
        }
        handle.cur_offset = pos;
        assert(out@ =~= read_at(file, start as int, len as int));
        out
    }

    fn write(&mut self, disk: &mut Disk, handle: &mut LruHandle, buf: &[u8]) -> (out: Result<usize, CyKvError>)
        ensures
            final(self).capacity() == old(self).capacity(),
            final(self).cached() == if out is Ok {
                touched_range(
                    old(self).cached(),
                    old(handle).file_id(),
                    old(handle).position() as int / (CHUNK_SIZE as int),
                    chunks_end(old(handle).position() as int, buf@.len() as int),
                    old(self).capacity(),
                )
            } else {
                old(self).cached()
            },
    {
        let start = handle.cur_offset;
        if start > usize::MAX as u64 || buf.len() > usize::MAX - start as usize {
            return Err(CyKvError::Io);
        }
        let ghost first = start as int / (CHUNK_SIZE as int);
        let ghost mut next = first;
        let ghost places = self.cached();
        let ghost cap = self.capacity();
        let ghost files = disk@;
        let ghost file = disk@[handle.file_id];
        let mut written: usize = 0;
        assert(files.insert(handle.file_id, file) =~= files);
        while written < buf.len()
            invariant
                disk.wf(),
                disk.base() == old(disk).base(),
                self.inv(disk@),
                files == old(disk)@,
                files.contains_key(handle.file_id),
                file == files[handle.file_id],
                written <= buf@.len(),
                start + buf@.len() <= usize::MAX,
                disk@ == files.insert(
                    handle.file_id,
                    write_at(file, start as int, buf@.subrange(0, written as int)),
                ),
                handle.file_id == old(handle).file_id,
                handle.cur_offset == start,
                places == old(self).cached(),
                cap == old(self).capacity(),
                self.capacity() == cap,
                first == start as int / (CHUNK_SIZE as int),
                next == chunks_end(start as int, written as int),
                written < buf@.len() ==> (start + written) / (CHUNK_SIZE as int) == next,
                self.cached() == touched_range(places, handle.file_id, first, next, cap),
            decreases buf.len() - written,
        {
            let pos = start + written as u64;
            let chunk_index = LruHandle::offset_to_index(pos);
            assert(chunk_index <= pos <= usize::MAX);
            let index = chunk_index as usize;
            assert(chunk_index == pos / 4096);
            assert(index * 4096 <= pos < index * 4096 + 4096);
            let rest = vstd::slice::slice_subrange(buf, written, buf.len());
            let ghost done = buf@.subrange(0, written as int);
            let n = self.write_chunk(disk, handle.file_id, pos, index, rest);
            proof {
                let piece = rest@.subrange(0, n as int);
                assert(done + piece =~= buf@.subrange(0, written + n));
                if written > 0 {
                    lemma_write_at_twice(file, start as int, done, piece);
                } else {
                    assert(done + piece =~= piece);
                }
                assert(disk@ =~= files.insert(
                    handle.file_id,
                    write_at(file, start as int, buf@.subrange(0, written + n)),
                ));
                next = next + 1;
            }
            written = written + n;
        }
        assert(buf@.subrange(0, buf@.len() as int) =~= buf@);
        handle.cur_offset = start + written as u64;
        Ok(written)
    }

    fn flush(&mut self, disk: &mut Disk, handle: &mut LruHandle) -> (out: Result<(), CyKvError>)
        ensures
            final(self).cached() == old(self).cached(),
            final(self).capacity() == old(self).capacity(),
    {
        Ok(())
    }

    fn remove(&mut self, disk: &mut Disk, file_id: u32)
        ensures
            final(self).capacity() == old(self).capacity(),
            final(self).cached() == forgotten(
                old(self).cached(),
                file_id,
                old(disk)@[file_id].len() as int / (CHUNK_SIZE as int) + 1,
            ),
            forall|i: int|
                0 <= i < final(self).cached().len() ==> (#[trigger] final(self).cached()[i]).0
                    != file_id,
    {
        let size = disk.file_len(file_id);
        let last = size / CHUNK_SIZE;
        let mut index: usize = 0;
        while index <= last
            invariant
                self.capacity() == old(self).capacity(),
                self.cached() == forgotten(old(self).cached(), file_id, index as int),
                disk.wf(),
                disk@ == old(disk)@,
                disk.base() == old(disk).base(),
                self.inv(disk@),
                disk@.contains_key(file_id),
                size == disk@[file_id].len(),
                last == size / CHUNK_SIZE,
                index <= last + 1,
                forall|i: int|
                    0 <= i < lru_entries(self.chunk_cache).len() && (#[trigger] lru_entries(
                        self.chunk_cache,
                    )[i]).0.0 == file_id ==> lru_entries(self.chunk_cache)[i].0.1 >= index,
            decreases last + 1 - index,
        {
            let ghost entries = lru_entries(self.chunk_cache);
            let key = (file_id, index);
            let popped = lru_pop(&mut self.chunk_cache, &key);
            proof {
                let after = lru_entries(self.chunk_cache);
                if after != entries {
                    let chunk = popped->0;
                    let i = choose|i: int|
                        0 <= i < entries.len() && #[trigger] entries[i] == (key, chunk) && after
                            == entries.remove(i);
                    lemma_without(entries, i);
                    assert forall|a: int, b: int| 0 <= a < b < after.len() implies (#[trigger] after[a]).0
                        != (#[trigger] after[b]).0 by {
                        let ka = if a < i { a } else { a + 1 };
                        let kb = if b < i { b } else { b + 1 };
                        assert(after[a] == entries[ka]);
                        assert(after[b] == entries[kb]);
                        assert(entries[ka].0 != entries[kb].0);
                    }
                    assert forall|j: int| 0 <= j < after.len() implies coherent(
                        (#[trigger] after[j]).0,
                        after[j].1,
                        disk@,
                    ) by {
                        let k = if j < i { j } else { j + 1 };
                        assert(after[j] == entries[k]);
                        assert(coherent(entries[k].0, entries[k].1, disk@));
                    }
                    assert forall|j: int|
                        0 <= j < after.len() && (#[trigger] after[j]).0.0 == file_id implies after[j].0.1
                        >= index + 1 by {
                        let k = if j < i { j } else { j + 1 };
                        assert(after[j] == entries[k]);
                        assert(entries[k].0.0 == file_id ==> entries[k].0.1 >= index);
                        if k < i {
                            assert(entries[k].0 != entries[i].0);
                        } else {
                            assert(entries[i].0 != entries[k].0);
                        }
                    }
                } else {
                    if popped is Some {
                        let chunk = popped->0;
                        let i = choose|i: int|
                            0 <= i < entries.len() && #[trigger] entries[i] == (key, chunk) && after
                                == entries.remove(i);
                        assert(entries.remove(i).len() != entries.len());
                    }
                    lemma_without_absent(entries, key);
                    assert forall|j: int|
                        0 <= j < after.len() && (#[trigger] after[j]).0.0 == file_id implies after[j].0.1
                        >= index + 1 by {
                        assert(entries[j].0 != key);
                        assert(entries[j].0.0 == file_id ==> entries[j].0.1 >= index);
                    }
                }
            }
            index += 1;
        }
        proof {
            let entries = lru_entries(self.chunk_cache);
            let after = disk@.remove(file_id);
            assert forall|i: int| 0 <= i < self.cached().len() implies (#[trigger] self.cached()[i]).0
                != file_id by {
                let chunk = entries[i].1;
                assert(coherent(entries[i].0, chunk, disk@));
                if entries[i].0.0 == file_id {
                    assert(chunk.index >= last + 1);
                    assert(chunk.data().len() == chunk.len);
                    assert((last + 1) * CHUNK_SIZE > size) by (nonlinear_arith)
                        requires
                            last == size / CHUNK_SIZE,
                    ;
                    assert(chunk.index * CHUNK_SIZE >= (last + 1) * CHUNK_SIZE) by (nonlinear_arith)
                        requires
                            chunk.index >= last + 1,
                    ;
                }
            }
            assert forall|i: int| 0 <= i < entries.len() implies coherent(
                (#[trigger] entries[i]).0,
                entries[i].1,
                after,
            ) by {
                let chunk = entries[i].1;
                assert(coherent(entries[i].0, chunk, disk@));
                if entries[i].0.0 == file_id {
                    assert(chunk.index >= last + 1);
                    assert(chunk.data().len() == chunk.len);
                    assert((last + 1) * CHUNK_SIZE > size) by (nonlinear_arith)
                        requires
                            last == size / CHUNK_SIZE,
                    ;
                    assert(chunk.index * CHUNK_SIZE >= (last + 1) * CHUNK_SIZE) by (nonlinear_arith)
                        requires
                            chunk.index >= last + 1,
                    ;
                }
            }
        }
        disk.remove(file_id);
    }
}

} // verus!

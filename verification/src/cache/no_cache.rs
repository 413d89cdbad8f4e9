use crate::cache::{read_at, Cache, CacheManager, SeekFrom};
use crate::disk::Disk;
use crate::error::CyKvError;
use vstd::prelude::*;

verus! {

/// The manager that keeps nothing: every read and write goes to the log.
pub struct NoCacheManager;

/// A handle of the manager that keeps nothing.
pub struct NoCache {
    file_id: u32,
    offset: u64,
}

impl NoCache {
    pub fn new(file_id: u32) -> (handle: Self)
        ensures
            handle.file_id() == file_id,
            handle.position() == 0,
    {
        Self { file_id, offset: 0 }
    }
}

impl Cache for NoCache {
    closed spec fn file_id(&self) -> u32 {
        self.file_id
    }

    closed spec fn position(&self) -> u64 {
        self.offset
    }

    fn offset(&self) -> (offset: u64) {
        self.offset
    }
}

/// The offset that a seek leads to, where an offset can say it.
pub fn seek_to(pos: SeekFrom, len: usize, position: u64) -> (target: Option<u64>)
    ensures
        match target {
            Some(offset) => offset == crate::cache::seek_target(pos, len as int, position as int),
            None => !(0 <= crate::cache::seek_target(pos, len as int, position as int)
                <= u64::MAX),
        },
{
    let (base, offset): (u64, i64) = match pos {
        SeekFrom::Start(offset) => {
            return Some(offset);
        },
        SeekFrom::End(offset) => (len as u64, offset),
        SeekFrom::Current(offset) => (position, offset),
    };
    if offset >= 0 {
        base.checked_add(offset as u64)
    } else {
        let back: u64 = if offset == i64::MIN {
            0x8000_0000_0000_0000u64
        } else {
            (-offset) as u64
        };
        base.checked_sub(back)
    }
}

/// The bytes of `file` from `pos` on, `len` of them or as many as there are.
pub fn copy_range(file: &Vec<u8>, pos: u64, len: usize) -> (out: Vec<u8>)
    ensures
        out@ == read_at(file@, pos as int, len as int),
{
    let mut out: Vec<u8> = Vec::new();
    if pos >= file.len() as u64 || len == 0 {
        return out;
    }
    let start = pos as usize;
    let end = if len <= file.len() - start {
        start + len
    } else {
        file.len()
    };
    let mut i: usize = start;
    while i < end
        invariant
            start <= i <= end <= file.len(),
            out@ == file@.subrange(start as int, i as int),
        decreases end - i,
    {
        out.push(file[i]);
        i += 1;
    }
    out
}

impl CacheManager for NoCacheManager {
    type Handle = NoCache;

    open spec fn inv(&self, files: Map<u32, Seq<u8>>) -> bool {
        true
    }

    proof fn lemma_inv_grows(&self, before: Map<u32, Seq<u8>>, after: Map<u32, Seq<u8>>) {
    }

    fn open(&mut self, disk: &mut Disk, file_id: u32) -> (handle: NoCache) {
        if !disk.contains(file_id) {
            disk.create(file_id);
        }
        NoCache::new(file_id)
    }

    fn seek(&self, disk: &Disk, handle: &mut NoCache, pos: SeekFrom) -> (out: Result<u64, CyKvError>) {
        match seek_to(pos, disk.file_len(handle.file_id), handle.offset) {
            Some(offset) => {
                handle.offset = offset;
                Ok(offset)
            },
            None => Err(CyKvError::Io),
        }
    }

    fn read(&mut self, disk: &mut Disk, handle: &mut NoCache, len: usize) -> (out: Vec<u8>) {
        let file = disk.file(handle.file_id);
        let out = copy_range(file, handle.offset, len);
        let read = out.len();
        assert(read == 0 || handle.offset + read <= file.len());
        handle.offset = handle.offset + read as u64;
        out
    }

    fn write(&mut self, disk: &mut Disk, handle: &mut NoCache, buf: &[u8]) -> (out: Result<usize, CyKvError>) {
        if handle.offset > usize::MAX as u64 || buf.len() > usize::MAX - handle.offset as usize {
            return Err(CyKvError::Io);
        }
        disk.write(handle.file_id, handle.offset as usize, buf);
        handle.offset = handle.offset + buf.len() as u64;
        Ok(buf.len())
    }

    fn flush(&mut self, disk: &mut Disk, handle: &mut NoCache) -> (out: Result<(), CyKvError>) {
        Ok(())
    }

    fn remove(&mut self, disk: &mut Disk, file_id: u32) {
        disk.remove(file_id);
    }
}

} // verus!

//! The layer between the store and its logs: a handle is a position in one
//! log, and a manager reads and writes the logs for the handles, straight
//! through or by way of a cache of chunks.
pub mod chunk;
pub mod lru_cache;
pub mod no_cache;

use crate::disk::{write_at, Disk};
use crate::error::CyKvError;
use vstd::prelude::*;

verus! {

/// The size of the cache of chunks where none is given: 100 MiB.
pub const DEFAULT_CACHE_SIZE: usize = 104_857_600;

/// The number of bits of an offset that say where in its chunk a byte is.
pub const CHUNK_SIZE_SHIFT: u64 = 12;

/// The size of a chunk: 4 KiB.
pub const CHUNK_SIZE: usize = 4096;

/// The managers that a store can be opened with: the one that keeps
/// nothing, and the one that keeps chunks, with the size of its cache in
/// bytes.
#[derive(Debug, Clone, Copy, PartialEq, Eq)]
pub enum CacheManagerEnum {
    NoCache,
    Lru { cache_bytes: u64 },
}

/// Where a handle is to go: to an offset from the start of the log, from
/// its end, or from where the handle stands.
#[derive(Debug, Clone, Copy, PartialEq, Eq)]
pub enum SeekFrom {
    Start(u64),
    End(i64),
    Current(i64),
}

/// The offset that a seek leads to, in a log of `len` bytes and for a
/// handle that stands at `position`.
pub open spec fn seek_target(pos: SeekFrom, len: int, position: int) -> int {
    match pos {
        SeekFrom::Start(offset) => offset as int,
        SeekFrom::End(offset) => len + offset,
        SeekFrom::Current(offset) => position + offset,
    }
}

/// What a read of up to `len` bytes at `pos` gives: the bytes of the file
/// from `pos` on, as far as the file has them.
pub open spec fn read_at(file: Seq<u8>, pos: int, len: int) -> Seq<u8> {
    if 0 <= pos < file.len() && 0 < len {
        if pos + len <= file.len() {
            file.subrange(pos, pos + len)
        } else {
            file.subrange(pos, file.len() as int)
        }
    } else {
        Seq::empty()
    }
}

/// A handle: a position in one log.
pub trait Cache {
    /// The log of the handle.
    spec fn file_id(&self) -> u32;

    /// Where the handle stands.
    spec fn position(&self) -> u64;

    fn offset(&self) -> (offset: u64)
        ensures
            offset == self.position(),
    ;
}

/// Reads and writes the logs of a directory for its handles. Whatever a
/// manager keeps of the logs, a handle sees the bytes that the log holds.
pub trait CacheManager: Sized {
    type Handle: Cache;

    /// What the manager keeps agrees with the logs `files`.
    spec fn inv(&self, files: Map<u32, Seq<u8>>) -> bool;

    /// What the manager keeps agrees with a directory in which the logs
    /// are as they were and new ones have come.
    proof fn lemma_inv_grows(&self, before: Map<u32, Seq<u8>>, after: Map<u32, Seq<u8>>)
        requires
            self.inv(before),
            forall|id: u32| #[trigger]
                before.contains_key(id) ==> after.contains_key(id) && after[id] == before[id],
        ensures
            self.inv(after),
    ;

    /// A handle at the start of the log `file_id`, which is created where
    /// the directory does not hold it.
    fn open(&mut self, disk: &mut Disk, file_id: u32) -> (handle: Self::Handle)
        requires
            old(disk).wf(),
            old(self).inv(old(disk)@),
        ensures
            final(disk).wf(),
            final(disk).base() == old(disk).base(),
            final(self).inv(final(disk)@),
            final(disk)@ == if old(disk)@.contains_key(file_id) {
                old(disk)@
            } else {
                old(disk)@.insert(file_id, Seq::empty())
            },
            handle.file_id() == file_id,
            handle.position() == 0,
    ;

    /// Moves the handle. A target before the start of the log, or beyond
    /// what an offset can say, is refused with `Io`, and the handle stays.
    fn seek(&self, disk: &Disk, handle: &mut Self::Handle, pos: SeekFrom) -> (out: Result<u64, CyKvError>)
        requires
            disk.wf(),
            disk@.contains_key(old(handle).file_id()),
        ensures
            final(handle).file_id() == old(handle).file_id(),
            ({
                let target = seek_target(
                    pos,
                    disk@[old(handle).file_id()].len() as int,
                    old(handle).position() as int,
                );
                match out {
                    Ok(offset) => offset == target && final(handle).position() == target,
                    Err(e) => {
                        &&& e == CyKvError::Io
                        &&& !(0 <= target <= u64::MAX)
                        &&& final(handle).position() == old(handle).position()
                    },
                }
            }),
    ;

    /// Reads up to `len` bytes from where the handle stands, and moves the
    /// handle behind them.
    fn read(&mut self, disk: &mut Disk, handle: &mut Self::Handle, len: usize) -> (out: Vec<u8>)
        requires
            old(disk).wf(),
            old(self).inv(old(disk)@),
            old(disk)@.contains_key(old(handle).file_id()),
        ensures
            final(disk).wf(),
            final(disk).base() == old(disk).base(),
            final(self).inv(final(disk)@),
            final(disk)@ == old(disk)@,
            out@ == read_at(
                old(disk)@[old(handle).file_id()],
                old(handle).position() as int,
                len as int,
            ),
            final(handle).file_id() == old(handle).file_id(),
            final(handle).position() == old(handle).position() + out@.len(),
    ;

    /// Writes `buf` where the handle stands, and moves the handle behind
    /// it. A write that would make the log longer than a log can be is
    /// refused with `Io`, and nothing changes.
    fn write(&mut self, disk: &mut Disk, handle: &mut Self::Handle, buf: &[u8]) -> (out: Result<usize, CyKvError>)
        requires
            old(disk).wf(),
            old(self).inv(old(disk)@),
            old(disk)@.contains_key(old(handle).file_id()),
        ensures
            final(disk).wf(),
            final(disk).base() == old(disk).base(),
            final(self).inv(final(disk)@),
            final(handle).file_id() == old(handle).file_id(),
            match out {
                Ok(n) => {
                    &&& n == buf@.len()
                    &&& old(handle).position() + buf@.len() <= usize::MAX
                    &&& final(disk)@ == old(disk)@.insert(
                        old(handle).file_id(),
                        write_at(
                            old(disk)@[old(handle).file_id()],
                            old(handle).position() as int,
                            buf@,
                        ),
                    )
                    &&& final(handle).position() == old(handle).position() + buf@.len()
                },
                Err(e) => {
                    &&& e == CyKvError::Io
                    &&& old(handle).position() + buf@.len() > usize::MAX
                    &&& final(disk)@ == old(disk)@
                    &&& final(handle).position() == old(handle).position()
                },
            },
    ;

    /// Makes sure that what was written stands in the log. Every write
    /// goes to the log at once, so there is nothing left to do.
    fn flush(&mut self, disk: &mut Disk, handle: &mut Self::Handle) -> (out: Result<(), CyKvError>)
        requires
            old(disk).wf(),
            old(self).inv(old(disk)@),
            old(disk)@.contains_key(old(handle).file_id()),
        ensures
            out is Ok,
            final(disk).wf(),
            final(disk).base() == old(disk).base(),
            final(self).inv(final(disk)@),
            final(disk)@ == old(disk)@,
            final(handle).file_id() == old(handle).file_id(),
            final(handle).position() == old(handle).position(),
    ;

    /// Deletes the log `file_id`, and forgets what the manager keeps of it.
    fn remove(&mut self, disk: &mut Disk, file_id: u32)
        requires
            old(disk).wf(),
            old(self).inv(old(disk)@),
            old(disk)@.contains_key(file_id),
        ensures
            final(disk).wf(),
            final(disk).base() == old(disk).base(),
            final(self).inv(final(disk)@),
            final(disk)@ == old(disk)@.remove(file_id),
    ;
}

} // verus!

use crate::cache::no_cache::{copy_range, seek_to};
use crate::cache::{read_at, seek_target, SeekFrom};
use crate::error::CyKvError;
use vstd::prelude::*;

verus! {

/// A reader of bytes in memory that knows where it stands.
pub struct Reader {
    pub inner: Vec<u8>,
    pub pos: u64,
}

impl Reader {
    /// A reader at the start of `inner`.
    pub fn new(inner: Vec<u8>) -> (reader: Self)
        ensures
            reader.inner@ == inner@,
            reader.pos == 0,
    {
        Self { inner, pos: 0 }
    }

    /// Reads up to `len` bytes from where the reader stands, and moves the
    /// reader behind them.
    pub fn read(&mut self, len: usize) -> (out: Vec<u8>)
        ensures
            out@ == read_at(old(self).inner@, old(self).pos as int, len as int),
            final(self).inner == old(self).inner,
            final(self).pos == old(self).pos + out@.len(),
    {
        let out = copy_range(&self.inner, self.pos, len);
        let read = out.len();
        assert(read == 0 || self.pos + read <= self.inner.len());
        self.pos = self.pos + read as u64;
        out
    }

    /// Moves the reader. A target before the start, or beyond what an
    /// offset can say, is refused with `Io`, and the reader stays.
    pub fn seek(&mut self, pos: SeekFrom) -> (out: Result<u64, CyKvError>)
        ensures
            final(self).inner == old(self).inner,
            ({
                let target = seek_target(pos, old(self).inner@.len() as int, old(self).pos as int);
                match out {
                    Ok(offset) => offset == target && final(self).pos == target,
                    Err(e) => {
                        &&& e == CyKvError::Io
                        &&& !(0 <= target <= u64::MAX)
                        &&& final(self).pos == old(self).pos
                    },
                }
            }),
    {
        match seek_to(pos, self.inner.len(), self.pos) {
            Some(offset) => {
                self.pos = offset;
                Ok(offset)
            },
            None => Err(CyKvError::Io),
        }
    }
}

} // verus!

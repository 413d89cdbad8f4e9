use crate::error::CyKvError;
use vstd::prelude::*;

verus! {

/// A writer into memory that knows how many bytes stand before it.
pub struct BufWriter {
    pub inner: Vec<u8>,
    pub pos: u64,
}

impl BufWriter {
    /// The bytes written so far.
    pub open spec fn view(&self) -> Seq<u8> {
        self.inner@
    }

    /// The position is the number of the bytes.
    pub open spec fn wf(&self) -> bool {
        self.pos == self.inner@.len()
    }

    /// A writer that goes on behind `inner`.
    pub fn new(inner: Vec<u8>) -> (writer: Self)
        ensures
            writer.wf(),
            writer@ == inner@,
            writer.pos == inner@.len(),
    {
        let pos = inner.len() as u64;
        Self { inner, pos }
    }

    /// Appends `buf`. Bytes that would make the whole longer than memory
    /// can hold are refused with `Io`, and nothing is written.
    pub fn write(&mut self, buf: &[u8]) -> (out: Result<usize, CyKvError>)
        requires
            old(self).wf(),
        ensures
            final(self).wf(),
            match out {
                Ok(n) => {
                    &&& n == buf@.len()
                    &&& old(self)@.len() + buf@.len() <= usize::MAX
                    &&& final(self)@ == old(self)@ + buf@
                    &&& final(self).pos == old(self).pos + buf@.len()
                },
                Err(e) => {
                    &&& e == CyKvError::Io
                    &&& old(self)@.len() + buf@.len() > usize::MAX
                    &&& final(self)@ == old(self)@
                    &&& final(self).pos == old(self).pos
                },
            },
    {
        if buf.len() > usize::MAX - self.inner.len() {
            return Err(CyKvError::Io);
        }
        let mut i: usize = 0;
        while i < buf.len()
            invariant
                i <= buf@.len(),
                old(self)@.len() + buf@.len() <= usize::MAX,
                self.pos == old(self).pos,
                self.inner@ == old(self).inner@ + buf@.subrange(0, i as int),
            decreases buf.len() - i,
        {
            self.inner.push(buf[i]);
            i += 1;
            assert(self.inner@ =~= old(self).inner@ + buf@.subrange(0, i as int));
        }
        assert(buf@.subrange(0, buf@.len() as int) =~= buf@);
        self.pos = self.pos + buf.len() as u64;
        Ok(buf.len())
    }

    /// Nothing is held back, so there is nothing to do.
    pub fn flush(&mut self) -> (out: Result<(), CyKvError>)
        ensures
            out is Ok,
            *final(self) == *old(self),
    {
        Ok(())
    }

    /// The bytes written.
    pub fn into_inner(self) -> (bytes: Vec<u8>)
        ensures
            bytes@ == self@,
    {
        self.inner
    }
}

} // verus!

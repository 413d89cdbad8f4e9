use crate::cache::{read_at, CHUNK_SIZE};
use crate::disk::{write_at, Disk};
use crate::error::CyKvError;
use vstd::prelude::*;

verus! {

/// One flag of a chunk, or none.
pub enum State {
    NoFlag,
    Empty,
    Dirty,
}

impl State {
    /// The bit that stands for the flag.
    pub open spec fn mask(self) -> u8 {
        match self {
            State::NoFlag => 0u8,
            State::Empty => 1u8,
            State::Dirty => 2u8,
        }
    }

    pub fn bits(&self) -> (b: u8)
        ensures
            b == self.mask(),
    {
        match self {
            State::NoFlag => 0u8,
            State::Empty => 1u8,
            State::Dirty => 2u8,
        }
    }
}

/// The flags of a chunk: whether it holds no data yet, and whether it holds
/// data that its file does not.
pub struct ChunkState {
    state: u8,
}

impl ChunkState {
    /// The empty flag.
    pub closed spec fn empty(&self) -> bool {
        self.state & 1u8 == 1u8
    }

    /// The dirty flag.
    pub closed spec fn dirty(&self) -> bool {
        self.state & 2u8 == 2u8
    }

    pub fn with_state(state: State) -> (r: Self)
        ensures
            r.empty() == (state is Empty),
            r.dirty() == (state is Dirty),
    {
        let b: u8 = state.bits();
        assert(b == 0u8 || b == 1u8 || b == 2u8);
        assert((b & 1u8 == 1u8) == (b == 1u8) && (b & 2u8 == 2u8) == (b == 2u8)) by (bit_vector)
            requires
                b == 0u8 || b == 1u8 || b == 2u8,
        ;
        Self { state: b }
    }

    pub fn set(&mut self, state: State)
        ensures
            final(self).empty() == (old(self).empty() || state is Empty),
            final(self).dirty() == (old(self).dirty() || state is Dirty),
    {
        let b: u8 = state.bits();
        let s: u8 = self.state;
        assert(b == 0u8 || b == 1u8 || b == 2u8);
        assert(((s | b) & 1u8 == 1u8) == (s & 1u8 == 1u8 || b == 1u8) && ((s | b) & 2u8 == 2u8) == (
        s & 2u8 == 2u8 || b == 2u8)) by (bit_vector)
            requires
                b == 0u8 || b == 1u8 || b == 2u8,
        ;
        self.state = s | b;
    }

    pub fn assign(&mut self, state: State)
        ensures
            final(self).empty() == (state is Empty),
            final(self).dirty() == (state is Dirty),
    {
        let b: u8 = state.bits();
        assert(b == 0u8 || b == 1u8 || b == 2u8);
        assert((b & 1u8 == 1u8) == (b == 1u8) && (b & 2u8 == 2u8) == (b == 2u8)) by (bit_vector)
            requires
                b == 0u8 || b == 1u8 || b == 2u8,
        ;
        self.state = b;
    }

    pub fn clear(&mut self, state: State)
        ensures
            final(self).empty() == (old(self).empty() && !(state is Empty)),
            final(self).dirty() == (old(self).dirty() && !(state is Dirty)),
    {
        let b: u8 = state.bits();
        let s: u8 = self.state;
        assert(b == 0u8 || b == 1u8 || b == 2u8);
        assert(((s & (0xffu8 ^ b)) & 1u8 == 1u8) == (s & 1u8 == 1u8 && b != 1u8) && ((s & (0xffu8
            ^ b)) & 2u8 == 2u8) == (s & 2u8 == 2u8 && b != 2u8)) by (bit_vector)
            requires
                b == 0u8 || b == 1u8 || b == 2u8,
        ;
        self.state = s & (0xffu8 ^ b);
    }

    pub fn clear_all(&mut self)
        ensures
            !final(self).empty(),
            !final(self).dirty(),
    {
        assert(0u8 & 1u8 != 1u8 && 0u8 & 2u8 != 2u8) by (bit_vector);
        self.state = 0u8;
    }

    pub fn is_empty(&self) -> (r: bool)
        ensures
            r == self.empty(),
    {
        self.state & 1u8 == 1u8
    }

    pub fn is_dirty(&self) -> (r: bool)
        ensures
            r == self.dirty(),
    {
        self.state & 2u8 == 2u8
    }
}

/// A piece of a log in memory: up to `CHUNK_SIZE` bytes that stand in the
/// log `file_id` from the offset `index * CHUNK_SIZE` on.
pub struct Chunk {
    pub buf: Vec<u8>,
    pub len: usize,
    /// Whether the chunk belongs to a log.
    pub attached: bool,
    pub file_id: u32,
    pub index: usize,
    /// Whether the chunk has yet to be loaded, and whether it holds bytes
    /// that the log does not.
    pub state: ChunkState,
}

impl Chunk {
    /// The buffer has the size of a chunk, and the chunk starts at an
    /// offset that a log can have.
    pub open spec fn wf(&self) -> bool {
        &&& self.buf@.len() == CHUNK_SIZE
        &&& self.len <= CHUNK_SIZE
        &&& self.index * CHUNK_SIZE <= usize::MAX
    }

    /// The bytes that the chunk holds.
    pub open spec fn data(&self) -> Seq<u8> {
        self.buf@.subrange(0, self.len as int)
    }

    /// The offset in the log at which the chunk starts.
    pub open spec fn start(&self) -> int {
        self.index * CHUNK_SIZE
    }

    /// The chunk is as `before`, but for its bytes and its flags.
    pub open spec fn same_place(&self, before: &Chunk) -> bool {
        &&& self.attached == before.attached
        &&& self.file_id == before.file_id
        &&& self.index == before.index
    }

    /// A chunk that belongs to no log and holds nothing. Its buffer is
    /// filled with zeros.
    pub fn new() -> (chunk: Self)
        ensures
            chunk.wf(),
            !chunk.attached,
            chunk.data() == Seq::<u8>::empty(),
            chunk.len == 0,
            forall|i: int| 0 <= i < CHUNK_SIZE ==> chunk.buf@[i] == 0,
            chunk.state.empty(),
            !chunk.state.dirty(),
            chunk.file_id == 0,
            chunk.index == 0,
    {
        let mut buf: Vec<u8> = Vec::new();
        while buf.len() < CHUNK_SIZE
            invariant
                buf.len() <= CHUNK_SIZE,
                forall|i: int| 0 <= i < buf.len() ==> buf@[i] == 0,
            decreases CHUNK_SIZE - buf.len(),
        {
            buf.push(0u8);
        }
        let chunk = Self {
            buf,
            len: 0,
            attached: false,
            file_id: 0,
            index: 0,
            state: ChunkState::with_state(State::Empty),
        };
        assert(chunk.data() =~= Seq::<u8>::empty());
        chunk
    }

    /// Gives the chunk to the part `index` of the log `file_id`, which is
    /// created where the directory does not hold it. What the chunk held
    /// for another place is written there first; then the chunk is empty.
    pub fn attach(&mut self, disk: &mut Disk, file_id: u32, index: usize) -> (out: Result<(), CyKvError>)
        requires
            old(self).wf(),
            old(disk).wf(),
            index * CHUNK_SIZE <= usize::MAX,
            old(self).state.dirty() && old(self).attached ==> old(disk)@.contains_key(
                old(self).file_id,
            ) && old(self).start() + old(self).len <= usize::MAX,
        ensures
            out is Ok,
            final(self).wf(),
            final(disk).wf(),
            final(disk).base() == old(disk).base(),
            final(self).attached,
            final(self).file_id == file_id,
            final(self).index == index,
            final(self).state.empty(),
            !final(self).state.dirty(),
            final(self).data() == Seq::<u8>::empty(),
            ({
                let stored = if old(self).state.dirty() && old(self).attached {
                    old(disk)@.insert(
                        old(self).file_id,
                        write_at(old(disk)@[old(self).file_id], old(self).start(), old(self).data()),
                    )
                } else {
                    old(disk)@
                };
                final(disk)@ == if stored.contains_key(file_id) {
                    stored
                } else {
                    stored.insert(file_id, Seq::empty())
                }
            }),
    {
        let _ = self.store(disk);
        if !disk.contains(file_id) {
            disk.create(file_id);
        }
        self.file_id = file_id;
        self.attach_file(index);
        self.len = 0;
        self.state.assign(State::Empty);
        assert(self.data() =~= Seq::<u8>::empty());
        Ok(())
    }

    pub fn has_file(&self) -> (r: bool)
        ensures
            r == self.attached,
    {
        self.attached
    }

    /// Writes what the chunk holds to its log, and takes the chunk from
    /// the log.
    pub fn clear(&mut self, disk: &mut Disk) -> (out: Result<(), CyKvError>)
        requires
            old(self).wf(),
            old(disk).wf(),
            old(self).state.dirty() && old(self).attached ==> old(disk)@.contains_key(
                old(self).file_id,
            ) && old(self).start() + old(self).len <= usize::MAX,
        ensures
            out is Ok,
            final(self).wf(),
            final(disk).wf(),
            final(disk).base() == old(disk).base(),
            !final(self).attached,
            final(self).data() == old(self).data(),
            final(disk)@ == if old(self).state.dirty() && old(self).attached {
                old(disk)@.insert(
                    old(self).file_id,
                    write_at(old(disk)@[old(self).file_id], old(self).start(), old(self).data()),
                )
            } else {
                old(disk)@
            },
    {
        let _ = self.store(disk);
        self.attached = false;
        Ok(())
    }

    fn attach_file(&mut self, index: usize)
        ensures
            final(self).attached,
            final(self).index == index,
            final(self).buf == old(self).buf,
            final(self).len == old(self).len,
            final(self).file_id == old(self).file_id,
            final(self).state == old(self).state,
    {
        self.attached = true;
        self.index = index;
    }

    /// Fills the chunk with the bytes that its part of the log holds.
    pub fn load(&mut self, disk: &Disk) -> (out: Result<usize, CyKvError>)
        requires
            old(self).wf(),
            disk.wf(),
            old(self).attached ==> disk@.contains_key(old(self).file_id),
        ensures
            final(self).wf(),
            final(self).same_place(old(self)),
            !final(self).state.empty(),
            final(self).state.dirty() == old(self).state.dirty(),
            final(self).data() == if old(self).attached {
                read_at(disk@[old(self).file_id], old(self).start(), CHUNK_SIZE as int)
            } else {
                Seq::<u8>::empty()
            },
            out == Ok::<usize, CyKvError>(final(self).len),
    {
        self.state.clear(State::Empty);
        if !self.attached {
            self.len = 0;
            assert(self.data() =~= Seq::<u8>::empty());
            return Ok(0);
        }
        let file = disk.file(self.file_id);
        let start = self.index * CHUNK_SIZE;
        let mut n: usize = 0;
        let size = file.len();
        let there: usize = if start < size {
            size - start
        } else {
            0
        };
        while n < CHUNK_SIZE && n < there
            invariant
                size == file@.len(),
                there == if start < size {
                    size - start
                } else {
                    0
                },
                n <= there,
                self.buf@.len() == CHUNK_SIZE,
                start == self.index * CHUNK_SIZE,
                n <= CHUNK_SIZE,
                start < file@.len() ==> start + n <= file@.len(),
                start >= file@.len() ==> n == 0,
                forall|k: int| 0 <= k < n ==> self.buf@[k] == file@[start + k],
                old(self).len <= CHUNK_SIZE,
                self.same_place(old(self)),
                self.attached,
                !self.state.empty(),
                self.state.dirty() == old(self).state.dirty(),
            decreases CHUNK_SIZE - n,
        {
            self.buf[n] = file[start + n];
            n += 1;
        }
        self.len = n;
        assert(self.data() =~= read_at(file@, start as int, CHUNK_SIZE as int));
        Ok(n)
    }

    /// Writes the bytes of a dirty chunk to its part of the log.
    pub fn store(&mut self, disk: &mut Disk) -> (out: Result<usize, CyKvError>)
        requires
            old(self).wf(),
            old(disk).wf(),
            old(self).state.dirty() && old(self).attached ==> old(disk)@.contains_key(
                old(self).file_id,
            ) && old(self).start() + old(self).len <= usize::MAX,
        ensures
            final(self).wf(),
            final(disk).wf(),
            final(disk).base() == old(disk).base(),
            final(self).same_place(old(self)),
            final(self).buf == old(self).buf,
            final(self).len == old(self).len,
            final(self).state.empty() == old(self).state.empty(),
            if old(self).state.dirty() && old(self).attached {
                &&& !final(self).state.dirty()
                &&& out == Ok::<usize, CyKvError>(old(self).len)
                &&& final(disk)@ == old(disk)@.insert(
                    old(self).file_id,
                    write_at(old(disk)@[old(self).file_id], old(self).start(), old(self).data()),
                )
            } else {
                &&& final(self).state.dirty() == old(self).state.dirty()
                &&& out == Ok::<usize, CyKvError>(0)
                &&& final(disk)@ == old(disk)@
            },
    {
        if !self.state.is_dirty() {
            return Ok(0);
        }
        if !self.attached {
            return Ok(0);
        }
        let bytes = vstd::slice::slice_subrange(self.buf.as_slice(), 0, self.len);
        disk.write(self.file_id, self.index * CHUNK_SIZE, bytes);
        self.state.clear(State::Dirty);
        Ok(self.len)
    }

    /// Up to `len` of the bytes that the chunk holds from `offset` on. An
    /// empty chunk is loaded first.
    pub fn read(&mut self, disk: &Disk, len: usize, offset: u64) -> (out: Result<Vec<u8>, CyKvError>)
        requires
            old(self).wf(),
            disk.wf(),
            old(self).attached ==> disk@.contains_key(old(self).file_id),
        ensures
            final(self).wf(),
            final(self).same_place(old(self)),
            !final(self).state.empty(),
            final(self).state.dirty() == old(self).state.dirty(),
            final(self).data() == if !old(self).state.empty() {
                old(self).data()
            } else if old(self).attached {
                read_at(disk@[old(self).file_id], old(self).start(), CHUNK_SIZE as int)
            } else {
                Seq::<u8>::empty()
            },
            out matches Ok(bytes) && bytes@ == read_at(final(self).data(), offset as int, len as int),
    {
        if self.state.is_empty() {
            let _ = self.load(disk);
        }
        let mut bytes: Vec<u8> = Vec::new();
        if offset >= self.len as u64 || len == 0 {
            return Ok(bytes);
        }
        let from = offset as usize;
        let to = if len <= self.len - from {
            from + len
        } else {
            self.len
        };
        let mut i: usize = from;
        while i < to
            invariant
                from <= i <= to <= self.len <= self.buf@.len(),
                bytes@ == self.buf@.subrange(from as int, i as int),
            decreases to - i,
        {
            bytes.push(self.buf[i]);
            i += 1;
        }
        assert(bytes@ =~= read_at(self.data(), offset as int, len as int));
        Ok(bytes)
    }

    /// Takes as many bytes of `buf` as the chunk has room for from
    /// `offset` on, and is dirty then. A gap between what the chunk held
    /// and `offset` is filled with zeros. Behind the end of the chunk
    /// there is no room.
    pub fn write(&mut self, buf: &[u8], offset: u64) -> (out: Result<usize, CyKvError>)
        requires
            old(self).wf(),
        ensures
            final(self).wf(),
            final(self).same_place(old(self)),
            final(self).state.empty() == old(self).state.empty(),
            ({
                let room = if offset <= CHUNK_SIZE {
                    CHUNK_SIZE - offset
                } else {
                    0
                };
                let taken = if buf@.len() <= room {
                    buf@.len() as int
                } else {
                    room
                };
                &&& out == Ok::<usize, CyKvError>(taken as usize)
                &&& final(self).data() == write_at(
                    old(self).data(),
                    offset as int,
                    buf@.subrange(0, taken),
                )
                &&& final(self).state.dirty() == (old(self).state.dirty() || taken > 0)
            }),
    {
        if offset > CHUNK_SIZE as u64 {
            assert(write_at(self.data(), offset as int, buf@.subrange(0, 0)) == self.data());
            return Ok(0);
        }
        let offset = offset as usize;
        let room = CHUNK_SIZE - offset;
        let taken = if buf.len() <= room {
            buf.len()
        } else {
            room
        };
        if taken == 0 {
            assert(write_at(self.data(), offset as int, buf@.subrange(0, 0)) == self.data());
            return Ok(0);
        }
        let ghost held = self.data();
        let mut gap: usize = self.len;
        while gap < offset
            invariant
                self.buf@.len() == CHUNK_SIZE,
                self.len == old(self).len,
                self.len <= gap || gap == self.len,
                gap <= offset || gap == self.len,
                offset <= CHUNK_SIZE,
                held.len() == self.len,
                forall|k: int| 0 <= k < self.len ==> self.buf@[k] == held[k],
                forall|k: int| self.len <= k < gap ==> self.buf@[k] == 0,
                self.same_place(old(self)),
                self.state == old(self).state,
                self.index == old(self).index,
            decreases offset - gap,
        {
            self.buf[gap] = 0u8;
            gap += 1;
        }
        let ghost padded = self.buf@;
        let mut cnt: usize = 0;
        while cnt < taken
            invariant
                self.buf@.len() == CHUNK_SIZE,
                padded.len() == CHUNK_SIZE,
                self.len == old(self).len,
                cnt <= taken,
                offset + taken <= CHUNK_SIZE,
                taken <= buf@.len(),
                forall|k: int| 0 <= k < offset ==> self.buf@[k] == padded[k],
                forall|k: int| 0 <= k < cnt ==> self.buf@[offset + k] == buf@[k],
                forall|k: int| offset + cnt <= k < CHUNK_SIZE ==> self.buf@[k] == padded[k],
                self.same_place(old(self)),
                self.state == old(self).state,
                self.index == old(self).index,
            decreases taken - cnt,
        {
            self.buf[offset + cnt] = buf[cnt];
            cnt += 1;
        }
        if offset + cnt > self.len {
            self.len = offset + cnt;
        }
        self.state.set(State::Dirty);
        proof {
            let piece = buf@.subrange(0, taken as int);
            let wanted = write_at(held, offset as int, piece);
            crate::disk::lemma_write_at(held, offset as int, piece);
            assert(self.data().len() == wanted.len());
            assert forall|k: int| 0 <= k < wanted.len() implies self.data()[k] == wanted[k] by {
                if k < offset {
                    assert(self.buf@[k] == padded[k]);
                } else if k < offset + taken {
                    assert(self.buf@[offset + (k - offset)] == buf@[k - offset]);
                    assert(wanted[offset + (k - offset)] == piece[k - offset]);
                } else {
                    assert(self.buf@[k] == padded[k]);
                }
            }
            assert(self.data() =~= wanted);
        }
        Ok(cnt)
    }

    /// Writes the bytes of a dirty chunk to its part of the log.
    pub fn sync(&mut self, disk: &mut Disk) -> (out: Result<(), CyKvError>)
        requires
            old(self).wf(),
            old(disk).wf(),
            old(self).state.dirty() && old(self).attached ==> old(disk)@.contains_key(
                old(self).file_id,
            ) && old(self).start() + old(self).len <= usize::MAX,
        ensures
            out is Ok,
            final(self).wf(),
            final(disk).wf(),
            final(disk).base() == old(disk).base(),
            final(self).same_place(old(self)),
            final(self).buf == old(self).buf,
            final(self).len == old(self).len,
            final(self).state.empty() == old(self).state.empty(),
            !(old(self).state.dirty() && old(self).attached) ==> final(self).state.dirty()
                == old(self).state.dirty(),
            old(self).state.dirty() && old(self).attached ==> !final(self).state.dirty(),
            final(disk)@ == if old(self).state.dirty() && old(self).attached {
                old(disk)@.insert(
                    old(self).file_id,
                    write_at(old(disk)@[old(self).file_id], old(self).start(), old(self).data()),
                )
            } else {
                old(disk)@
            },
    {
        let _ = self.store(disk);
        Ok(())
    }
}

} // verus!

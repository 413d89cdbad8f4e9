use vstd::prelude::*;

verus! {

/// One log of the directory: the number in its name and its bytes.
pub struct LogFile {
    pub id: u32,
    pub data: Vec<u8>,
}

/// One change to the directory, as a file system would carry it out.
#[derive(Debug, PartialEq, Eq)]
pub enum DiskOp {
    /// Create the log `id`, empty.
    Create { id: u32 },
    /// Write `data` into the log `id`, starting at `offset`.
    Write { id: u32, offset: usize, data: Vec<u8> },
    /// Delete the log `id`.
    Remove { id: u32 },
}

/// The logs of one directory, each under its id, and the changes made to
/// them since the journal was last taken.
pub struct Disk {
    files: Vec<LogFile>,
    journal: Vec<DiskOp>,
    base: Ghost<Map<u32, Seq<u8>>>,
}

/// `file` after `buf` has been written at `offset`: bytes inside the file
/// are replaced, the file grows as far as the write reaches, and a gap
/// between the old end and `offset` is filled with zeros. A write of no
/// bytes changes nothing.
pub open spec fn write_at(file: Seq<u8>, offset: int, buf: Seq<u8>) -> Seq<u8> {
    if buf.len() == 0 {
        file
    } else if offset <= file.len() {
        if offset + buf.len() <= file.len() {
            file.subrange(0, offset) + buf + file.subrange(offset + buf.len(), file.len() as int)
        } else {
            file.subrange(0, offset) + buf
        }
    } else {
        file + Seq::new((offset - file.len()) as nat, |i: int| 0u8) + buf
    }
}

/// A write changes no byte before its offset or behind its end, and makes
/// the file no shorter.
pub proof fn lemma_write_at(file: Seq<u8>, offset: int, buf: Seq<u8>)
    requires
        0 <= offset,
    ensures
        write_at(file, offset, buf).len() == if buf.len() > 0 && offset + buf.len() > file.len() {
            offset + buf.len()
        } else {
            file.len() as int
        },
        forall|p: int|
            0 <= p < file.len() && (p < offset || p >= offset + buf.len()) ==> #[trigger] write_at(
                file,
                offset,
                buf,
            )[p] == file[p],
        forall|p: int| 0 <= p < buf.len() ==> #[trigger] write_at(file, offset, buf)[offset + p] == buf[p],
        forall|p: int|
            file.len() <= p < offset && buf.len() > 0 ==> #[trigger] write_at(file, offset, buf)[p]
                == 0,
{
}

/// Two writes, one behind the other, are one write of both.
pub proof fn lemma_write_at_twice(file: Seq<u8>, offset: int, first: Seq<u8>, second: Seq<u8>)
    requires
        0 <= offset,
        first.len() > 0,
    ensures
        write_at(write_at(file, offset, first), offset + first.len(), second) == write_at(
            file,
            offset,
            first + second,
        ),
{
    lemma_write_at(file, offset, first);
    lemma_write_at(write_at(file, offset, first), offset + first.len(), second);
    lemma_write_at(file, offset, first + second);
    let a = write_at(write_at(file, offset, first), offset + first.len(), second);
    let b = write_at(file, offset, first + second);
    assert(a.len() == b.len());
    assert forall|p: int| 0 <= p < a.len() implies a[p] == b[p] by {
        let mid = write_at(file, offset, first);
        if p < offset {
            if p < file.len() {
                assert(mid[p] == file[p]);
            } else {
                assert(mid[p] == 0);
            }
        } else if p < offset + first.len() {
            assert(mid[offset + (p - offset)] == first[p - offset]);
            assert(b[offset + (p - offset)] == (first + second)[p - offset]);
        } else if p < offset + first.len() + second.len() {
            assert(a[offset + first.len() + (p - offset - first.len())] == second[p - offset
                - first.len()]);
            assert(b[offset + (p - offset)] == (first + second)[p - offset]);
        } else {
            assert(mid[p] == file[p]);
        }
    }
    assert(a =~= b);
}

/// A change to the directory, with the bytes of a write as a sequence.
pub enum DiskChange {
    Create { id: u32 },
    Write { id: u32, offset: usize, data: Seq<u8> },
    Remove { id: u32 },
}

impl View for DiskOp {
    type V = DiskChange;

    open spec fn view(&self) -> DiskChange {
        match self {
            DiskOp::Create { id } => DiskChange::Create { id: *id },
            DiskOp::Write { id, offset, data } => DiskChange::Write {
                id: *id,
                offset: *offset,
                data: data@,
            },
            DiskOp::Remove { id } => DiskChange::Remove { id: *id },
        }
    }
}

/// The directory after one change.
pub open spec fn apply_op(files: Map<u32, Seq<u8>>, op: DiskChange) -> Map<u32, Seq<u8>> {
    match op {
        DiskChange::Create { id } => files.insert(id, Seq::empty()),
        DiskChange::Write { id, offset, data } => files.insert(
            id,
            write_at(files[id], offset as int, data),
        ),
        DiskChange::Remove { id } => files.remove(id),
    }
}

/// The directory after a list of changes, applied in order.
pub open spec fn apply_ops(files: Map<u32, Seq<u8>>, ops: Seq<DiskChange>) -> Map<u32, Seq<u8>>
    decreases ops.len(),
{
    if ops.len() == 0 {
        files
    } else {
        apply_op(apply_ops(files, ops.drop_last()), ops.last())
    }
}

/// No log is longer than an offset in memory can say.
pub open spec fn sized(files: Map<u32, Seq<u8>>) -> bool {
    forall|id: u32| #[trigger] files.contains_key(id) ==> files[id].len() <= usize::MAX
}

/// The sum of the lengths of the logs with an id below `bound`.
pub open spec fn size_below(files: Map<u32, Seq<u8>>, bound: nat) -> nat
    decreases bound,
{
    if bound == 0 {
        0
    } else {
        let id = (bound - 1) as u32;
        size_below(files, (bound - 1) as nat) + if files.contains_key(id) {
            files[id].len()
        } else {
            0
        }
    }
}

/// The sum of the lengths of all logs.
pub open spec fn total_size(files: Map<u32, Seq<u8>>) -> nat {
    size_below(files, 0x1_0000_0000)
}

impl Disk {
    /// The ids are in strictly increasing order, and the journal leads from
    /// the directory as it was when the journal was last taken to the
    /// directory as it is.
    pub closed spec fn wf(&self) -> bool {
        &&& self.sorted()
        &&& apply_ops(self.base@, self.journal()) == self@
    }

    spec fn sorted(&self) -> bool {
        forall|i: int, j: int| 0 <= i < j < self.files.len() ==> self.files[i].id < self.files[j].id
    }

    /// The directory as it was when the journal was last taken.
    pub closed spec fn base(&self) -> Map<u32, Seq<u8>> {
        self.base@
    }

    /// Law of the journal: its changes, applied in order to the directory
    /// as it was when the journal was last taken, give the directory as it
    /// is.
    pub proof fn lemma_journal(&self)
        requires
            self.wf(),
        ensures
            apply_ops(self.base(), self.journal()) == self@,
    {
    }

    proof fn lemma_step(&self, before: Disk, op: DiskChange)
        requires
            before.wf(),
            self.base@ == before.base@,
            self.journal() == before.journal().push(op),
            self@ == apply_op(before@, op),
        ensures
            apply_ops(self.base@, self.journal()) == self@,
    {
        assert(self.journal().drop_last() =~= before.journal());
    }

    spec fn has(&self, id: u32) -> bool {
        exists|i: int| 0 <= i < self.files.len() && #[trigger] self.files[i].id == id
    }

    spec fn index_of(&self, id: u32) -> int {
        choose|i: int| 0 <= i < self.files.len() && #[trigger] self.files[i].id == id
    }

    /// The logs, each under its id.
    pub closed spec fn view(&self) -> Map<u32, Seq<u8>> {
        Map::new(|id: u32| self.has(id), |id: u32| self.files[self.index_of(id)].data@)
    }

    /// The changes made since the journal was last taken.
    pub closed spec fn journal(&self) -> Seq<DiskChange> {
        self.journal@.map_values(|op: DiskOp| op@)
    }

    proof fn lemma_at(&self, i: int)
        requires
            self.sorted(),
            0 <= i < self.files.len(),
        ensures
            self@.contains_key(self.files[i].id),
            self.index_of(self.files[i].id) == i,
            self@[self.files[i].id] == self.files[i].data@,
    {
        let id = self.files[i].id;
        assert(self.has(id));
        let j = self.index_of(id);
        assert(0 <= j < self.files.len() && self.files[j].id == id);
        if j < i {
            assert(self.files[j].id < self.files[i].id);
        } else if i < j {
            assert(self.files[i].id < self.files[j].id);
        }
    }

    /// The ids of the view are those of the entries.
    proof fn lemma_dom(&self)
        requires
            self.sorted(),
        ensures
            forall|id: u32| self@.contains_key(id) <==> self.has(id),
    {
    }

    /// No log of a directory is longer than an offset can say.
    pub proof fn lemma_sized(&self)
        requires
            self.wf(),
        ensures
            sized(self@),
    {
        self.lemma_dom();
        assert forall|id: u32| #[trigger] self@.contains_key(id) implies self@[id].len()
            <= usize::MAX by {
            let i = self.index_of(id);
            assert(self.has(id));
            self.lemma_at(i);
            assert(self.files[i].data.len() <= usize::MAX);
        }
    }

    /// Takes notice of a log that the directory holds. This is no change
    /// to the directory, and the journal does not record it.
    pub fn load(&mut self, id: u32, data: Vec<u8>)
        requires
            old(self).wf(),
            !old(self)@.contains_key(id),
            old(self).journal().len() == 0,
        ensures
            final(self).wf(),
            final(self)@ == old(self)@.insert(id, data@),
            final(self).journal() == old(self).journal(),
            final(self).base() == final(self)@,
    {
        let pos = self.position(id);
        let ghost before = *self;
        self.files.insert(pos, LogFile { id, data });
        proof {
            assert(self.sorted()) by {
                assert forall|i: int, j: int| 0 <= i < j < self.files.len() implies self.files[i].id
                    < self.files[j].id by {
                    let bi = if i < pos { i } else { i - 1 };
                    let bj = if j < pos { j } else { j - 1 };
                    if i != pos && j != pos {
                        assert(before.files[bi].id < before.files[bj].id);
                    }
                }
            }
            before.lemma_dom();
            self.lemma_dom();
            assert forall|x: u32| self@.contains_key(x) <==> (x == id || before@.contains_key(
                x,
            )) by {
                if self@.contains_key(x) {
                    let j = self.index_of(x);
                    assert(self.has(x));
                    if j != pos {
                        let bj = if j < pos { j } else { j - 1 };
                        assert(before.files[bj].id == x);
                    }
                }
                if x == id {
                    assert(self.files[pos as int].id == id);
                }
                if before@.contains_key(x) {
                    let j = before.index_of(x);
                    assert(before.has(x));
                    let nj = if j < pos { j } else { j + 1 };
                    assert(self.files[nj].id == x);
                }
            }
            assert forall|x: u32| self@.contains_key(x) implies self@[x] == before@.insert(
                id,
                data@,
            )[x] by {
                let j = self.index_of(x);
                assert(self.has(x));
                self.lemma_at(j);
                if j != pos {
                    let bj = if j < pos { j } else { j - 1 };
                    before.lemma_at(bj);
                }
            }
            assert(self@ =~= before@.insert(id, data@));
        }
        let ghost loaded = self@;
        self.base = Ghost(loaded);
        proof {
            assert(self.journal() =~= Seq::<DiskChange>::empty());
            assert(self@ =~= loaded);
        }
    }

    /// A directory without logs.
    pub fn new() -> (disk: Disk)
        ensures
            disk.wf(),
            disk@ == Map::<u32, Seq<u8>>::empty(),
            disk.journal() == Seq::<DiskChange>::empty(),
            disk.base() == disk@,
    {
        let disk = Disk { files: Vec::new(), journal: Vec::new(), base: Ghost(Map::empty()) };
        assert(disk@ =~= Map::<u32, Seq<u8>>::empty());
        assert(disk.journal() =~= Seq::<DiskChange>::empty());
        disk
    }

    /// The place of the first entry whose id is not below `id`.
    fn position(&self, id: u32) -> (pos: usize)
        requires
            self.wf(),
        ensures
            pos <= self.files.len(),
            forall|i: int| 0 <= i < pos ==> self.files[i].id < id,
            forall|i: int| pos <= i < self.files.len() ==> self.files[i].id >= id,
            self@.contains_key(id) <==> (pos < self.files.len() && self.files[pos as int].id == id),
    {
        let mut pos: usize = 0;
        while pos < self.files.len() && self.files[pos].id < id
            invariant
                self.wf(),
                pos <= self.files.len(),
                forall|i: int| 0 <= i < pos ==> self.files[i].id < id,
            decreases self.files.len() - pos,
        {
            pos += 1;
        }
        proof {
            assert forall|i: int| pos <= i < self.files.len() implies self.files[i].id >= id by {
                if pos < i {
                    assert(self.files[pos as int].id < self.files[i].id);
                }
            }
            if pos < self.files.len() && self.files[pos as int].id == id {
                self.lemma_at(pos as int);
            }
            if self@.contains_key(id) {
                let j = self.index_of(id);
                assert(self.has(id));
                assert(0 <= j < self.files.len() && self.files[j].id == id);
            }
        }
        pos
    }

    /// Whether the directory holds the log `id`.
    pub fn contains(&self, id: u32) -> (r: bool)
        requires
            self.wf(),
        ensures
            r == self@.contains_key(id),
    {
        let pos = self.position(id);
        pos < self.files.len() && self.files[pos].id == id
    }

    /// The bytes of the log `id`.
    pub fn file(&self, id: u32) -> (data: &Vec<u8>)
        requires
            self.wf(),
            self@.contains_key(id),
        ensures
            data@ == self@[id],
    {
        let pos = self.position(id);
        proof {
            self.lemma_at(pos as int);
        }
        &self.files[pos].data
    }

    /// The length of the log `id`.
    pub fn file_len(&self, id: u32) -> (len: usize)
        requires
            self.wf(),
            self@.contains_key(id),
        ensures
            len == self@[id].len(),
    {
        self.file(id).len()
    }

    /// The ids of the logs, in increasing order.
    pub fn ids(&self) -> (ids: Vec<u32>)
        requires
            self.wf(),
        ensures
            forall|i: int, j: int| 0 <= i < j < ids.len() ==> ids[i] < ids[j],
            forall|id: u32| self@.contains_key(id) <==> ids@.contains(id),
    {
        let mut ids: Vec<u32> = Vec::new();
        let mut i: usize = 0;
        while i < self.files.len()
            invariant
                self.wf(),
                i <= self.files.len(),
                ids.len() == i,
                forall|k: int| 0 <= k < i ==> ids[k] == self.files[k].id,
            decreases self.files.len() - i,
        {
            ids.push(self.files[i].id);
            i += 1;
        }
        proof {
            self.lemma_dom();
            assert forall|id: u32| self@.contains_key(id) <==> ids@.contains(id) by {
                if self@.contains_key(id) {
                    let j = self.index_of(id);
                    assert(self.has(id));
                    assert(ids[j] == id);
                }
                if ids@.contains(id) {
                    let j = choose|j: int| 0 <= j < ids.len() && ids[j] == id;
                    assert(self.files[j].id == id);
                }
            }
        }
        ids
    }

    /// The greatest id in the directory, if it holds a log.
    pub fn max_id(&self) -> (max: Option<u32>)
        requires
            self.wf(),
        ensures
            max is None <==> self@ == Map::<u32, Seq<u8>>::empty(),
            max matches Some(m) ==> self@.contains_key(m) && forall|id: u32|
                self@.contains_key(id) ==> id <= m,
    {
        proof {
            self.lemma_dom();
        }
        if self.files.len() == 0 {
            assert(self@ =~= Map::<u32, Seq<u8>>::empty());
            None
        } else {
            let last = self.files.len() - 1;
            proof {
                self.lemma_at(last as int);
                assert forall|id: u32| self@.contains_key(id) implies id <= self.files[last as int].id by {
                    let j = self.index_of(id);
                    assert(self.has(id));
                    if j < last {
                        assert(self.files[j].id < self.files[last as int].id);
                    }
                }
            }
            Some(self.files[last].id)
        }
    }

    /// Adds the log `id`, empty.
    pub fn create(&mut self, id: u32)
        requires
            old(self).wf(),
            !old(self)@.contains_key(id),
        ensures
            final(self).wf(),
            final(self)@ == old(self)@.insert(id, Seq::empty()),
            final(self).journal() == old(self).journal().push(DiskChange::Create { id }),
            final(self).base() == old(self).base(),
    {
        let pos = self.position(id);
        let ghost before = *self;
        self.files.insert(pos, LogFile { id, data: Vec::new() });
        self.journal.push(DiskOp::Create { id });
        proof {
            assert(self.journal() =~= before.journal().push(DiskChange::Create { id }));
            assert(self.sorted()) by {
                assert forall|i: int, j: int| 0 <= i < j < self.files.len() implies self.files[i].id
                    < self.files[j].id by {
                    let bi = if i < pos { i } else { i - 1 };
                    let bj = if j < pos { j } else { j - 1 };
                    if i != pos && j != pos {
                        assert(before.files[bi].id < before.files[bj].id);
                    }
                }
            }
            before.lemma_dom();
            self.lemma_dom();
            assert forall|x: u32| self@.contains_key(x) <==> (x == id || before@.contains_key(
                x,
            )) by {
                if self@.contains_key(x) {
                    let j = self.index_of(x);
                    assert(self.has(x));
                    if j != pos {
                        let bj = if j < pos { j } else { j - 1 };
                        assert(before.files[bj].id == x);
                    }
                }
                if x == id {
                    assert(self.files[pos as int].id == id);
                }
                if before@.contains_key(x) {
                    let j = before.index_of(x);
                    assert(before.has(x));
                    let nj = if j < pos { j } else { j + 1 };
                    assert(self.files[nj].id == x);
                }
            }
            assert forall|x: u32| self@.contains_key(x) implies self@[x] == before@.insert(
                id,
                Seq::empty(),
            )[x] by {
                let j = self.index_of(x);
                assert(self.has(x));
                self.lemma_at(j);
                if j != pos {
                    let bj = if j < pos { j } else { j - 1 };
                    before.lemma_at(bj);
                }
            }
            assert(self@ =~= before@.insert(id, Seq::empty()));
            self.lemma_step(before, DiskChange::Create { id });
        }
    }

    /// Removes the log `id`.
    pub fn remove(&mut self, id: u32)
        requires
            old(self).wf(),
            old(self)@.contains_key(id),
        ensures
            final(self).wf(),
            final(self)@ == old(self)@.remove(id),
            final(self).journal() == old(self).journal().push(DiskChange::Remove { id }),
            final(self).base() == old(self).base(),
    {
        let pos = self.position(id);
        let ghost before = *self;
        self.files.remove(pos);
        self.journal.push(DiskOp::Remove { id });
        proof {
            assert(self.journal() =~= before.journal().push(DiskChange::Remove { id }));
            assert(self.sorted()) by {
                assert forall|i: int, j: int| 0 <= i < j < self.files.len() implies self.files[i].id
                    < self.files[j].id by {
                    let bi = if i < pos { i } else { i + 1 };
                    let bj = if j < pos { j } else { j + 1 };
                    assert(before.files[bi].id < before.files[bj].id);
                }
            }
            before.lemma_dom();
            self.lemma_dom();
            assert forall|x: u32| self@.contains_key(x) <==> (x != id && before@.contains_key(
                x,
            )) by {
                if self@.contains_key(x) {
                    let j = self.index_of(x);
                    assert(self.has(x));
                    let bj = if j < pos { j } else { j + 1 };
                    assert(before.files[bj].id == x);
                    if bj < pos {
                        assert(before.files[bj].id < before.files[pos as int].id);
                    } else {
                        assert(before.files[pos as int].id < before.files[bj].id);
                    }
                }
                if x != id && before@.contains_key(x) {
                    let j = before.index_of(x);
                    assert(before.has(x));
                    let nj = if j < pos { j } else { j - 1 };
                    assert(self.files[nj].id == x);
                }
            }
            assert forall|x: u32| self@.contains_key(x) implies self@[x] == before@[x] by {
                let j = self.index_of(x);
                assert(self.has(x));
                self.lemma_at(j);
                let bj = if j < pos { j } else { j + 1 };
                before.lemma_at(bj);
            }
            assert(self@ =~= before@.remove(id));
            self.lemma_step(before, DiskChange::Remove { id });
        }
    }

    /// Writes `buf` into the log `id`, starting at `offset`.
    pub fn write(&mut self, id: u32, offset: usize, buf: &[u8])
        requires
            old(self).wf(),
            old(self)@.contains_key(id),
            offset + buf@.len() <= usize::MAX,
        ensures
            final(self).wf(),
            final(self)@ == old(self)@.insert(id, write_at(old(self)@[id], offset as int, buf@)),
            final(self).journal() == old(self).journal().push(
                DiskChange::Write { id, offset, data: buf@ },
            ),
            final(self).base() == old(self).base(),
    {
        let pos = self.position(id);
        let ghost before = *self;
        proof {
            before.lemma_at(pos as int);
        }
        let mut file = LogFile { id, data: Vec::new() };
        std::mem::swap(&mut file, &mut self.files[pos]);
        let mut data = file.data;
        let ghost old_data = data@;
        if buf.len() > 0 {
            while data.len() < offset
                invariant
                    old_data.len() <= data.len() || data.len() == old_data.len(),
                    data.len() <= offset || data.len() == old_data.len(),
                    data@ == if old_data.len() < offset {
                        old_data + Seq::new((data.len() - old_data.len()) as nat, |i: int| 0u8)
                    } else {
                        old_data
                    },
                decreases offset - data.len(),
            {
                data.push(0u8);
            }
            let ghost padded = data@;
            let mut i: usize = 0;
            while i < buf.len()
                invariant
                    i <= buf@.len(),
                    offset + buf@.len() <= usize::MAX,
                    offset <= padded.len(),
                    data.len() == if offset + i <= padded.len() {
                        padded.len()
                    } else {
                        (offset + i) as nat
                    },
                    forall|k: int| 0 <= k < offset ==> data[k] == padded[k],
                    forall|k: int| 0 <= k < i ==> data[offset + k] == buf@[k],
                    forall|k: int| offset + i <= k < padded.len() ==> data[k] == padded[k],
                decreases buf.len() - i,
            {
                if offset + i < data.len() {
                    data.set(offset + i, buf[i]);
                } else {
                    data.push(buf[i]);
                }
                i += 1;
            }
        }
        assert(data@ =~= write_at(old_data, offset as int, buf@));
        self.files[pos] = LogFile { id, data };
        let copy = vstd::slice::slice_to_vec(buf);
        self.journal.push(DiskOp::Write { id, offset, data: copy });
        proof {
            assert(self.journal() =~= before.journal().push(
                DiskChange::Write { id, offset, data: buf@ },
            ));
            assert(self.sorted()) by {
                assert forall|i: int, j: int| 0 <= i < j < self.files.len() implies self.files[i].id
                    < self.files[j].id by {
                    assert(before.files[i].id < before.files[j].id);
                }
            }
            before.lemma_dom();
            self.lemma_dom();
            assert forall|x: u32| self@.contains_key(x) <==> before@.contains_key(x) by {
                if self@.contains_key(x) {
                    let j = self.index_of(x);
                    assert(self.has(x));
                    assert(before.files[j].id == x);
                }
                if before@.contains_key(x) {
                    let j = before.index_of(x);
                    assert(before.has(x));
                    assert(self.files[j].id == x);
                }
            }
            assert forall|x: u32| self@.contains_key(x) implies self@[x] == before@.insert(
                id,
                write_at(before@[id], offset as int, buf@),
            )[x] by {
                let j = self.index_of(x);
                assert(self.has(x));
                self.lemma_at(j);
                before.lemma_at(j);
            }
            assert(self@ =~= before@.insert(id, write_at(before@[id], offset as int, buf@)));
            self.lemma_step(before, DiskChange::Write { id, offset, data: buf@ });
        }
    }

    /// Hands out the changes made since the journal was last taken, oldest
    /// first, and starts a new journal.
    pub fn take_journal(&mut self) -> (ops: Vec<DiskOp>)
        requires
            old(self).wf(),
        ensures
            ops@.map_values(|op: DiskOp| op@) == old(self).journal(),
            final(self).journal() == Seq::<DiskChange>::empty(),
            final(self)@ == old(self)@,
            final(self).base() == old(self)@,
            final(self).wf(),
    {
        let mut ops: Vec<DiskOp> = Vec::new();
        std::mem::swap(&mut ops, &mut self.journal);
        let ghost files = self@;
        self.base = Ghost(files);
        assert(self.journal() =~= Seq::<DiskChange>::empty());
        assert(self@ =~= files);
        assert(files =~= old(self)@);
        ops
    }

    /// The sum of the lengths of the logs.
    pub fn size(&self) -> (size: u128)
        requires
            self.wf(),
        ensures
            size == total_size(self@),
    {
        let mut size: u128 = 0;
        let mut i: usize = 0;
        proof {
            lemma_size_below_gap(self@, 0, self.low(0));
            self.lemma_dom();
        }
        while i < self.files.len()
            invariant
                self.wf(),
                i <= self.files.len(),
                size == size_below(self@, self.low(i as int)),
                size <= i * 0x1_0000_0000_0000_0000,
            decreases self.files.len() - i,
        {
            let len = self.files[i].data.len();
            proof {
                self.lemma_at(i as int);
                self.lemma_dom();
                let id = self.files[i as int].id;
                assert(size_below(self@, (id + 1) as nat) == size_below(self@, id as nat) + len);
                if i + 1 < self.files.len() {
                    assert(self.files[i as int].id < self.files[i + 1].id);
                }
                assert forall|x: u32| id + 1 <= x < self.low(i + 1) implies !self@.contains_key(
                    x,
                ) by {
                    if self@.contains_key(x) {
                        let j = self.index_of(x);
                        assert(self.has(x));
                        if j <= i {
                            if j < i {
                                assert(self.files[j].id < self.files[i as int].id);
                            }
                        } else if j > i + 1 {
                            assert(self.files[i + 1].id < self.files[j].id);
                        }
                    }
                }
                lemma_size_below_gap(self@, (id + 1) as nat, self.low(i + 1));
                assert(self.files.len() <= 0x1_0000_0000) by {
                    self.lemma_len_bound();
                }
                assert(i * 0x1_0000_0000_0000_0000 <= 0xffff_ffff * 0x1_0000_0000_0000_0000)
                    by (nonlinear_arith)
                    requires
                        i <= 0xffff_ffff,
                ;
            }
            size = size + len as u128;
            i += 1;
        }
        size
    }

    /// The id of the entry `i`, or the bound of all ids behind the last entry.
    spec fn low(&self, i: int) -> nat {
        if 0 <= i < self.files.len() {
            self.files[i].id as nat
        } else {
            0x1_0000_0000
        }
    }

    proof fn lemma_len_bound(&self)
        requires
            self.wf(),
        ensures
            self.files.len() <= 0x1_0000_0000,
    {
        self.lemma_prefix_bound(self.files.len() as int);
    }

    proof fn lemma_prefix_bound(&self, n: int)
        requires
            self.wf(),
            0 <= n <= self.files.len(),
        ensures
            n > 0 ==> self.files[n - 1].id >= n - 1,
        decreases n,
    {
        if n > 1 {
            self.lemma_prefix_bound(n - 1);
            assert(self.files[n - 2].id < self.files[n - 1].id);
        }
    }
}

/// A log that is put in place of another, or beside the others, changes
/// the size below `bound` by the difference of the two, where its id is
/// below `bound`, and else not.
pub proof fn lemma_size_below_insert(files: Map<u32, Seq<u8>>, id: u32, data: Seq<u8>, bound: nat)
    requires
        bound <= 0x1_0000_0000,
    ensures
        size_below(files.insert(id, data), bound) + (if id < bound && files.contains_key(id) {
            files[id].len()
        } else {
            0
        }) == size_below(files, bound) + (if id < bound {
            data.len()
        } else {
            0
        }),
    decreases bound,
{
    if bound > 0 {
        lemma_size_below_insert(files, id, data, (bound - 1) as nat);
    }
}

/// A log that is put in place of another, or beside the others, changes
/// the size of the directory by the difference of the two.
pub proof fn lemma_size_insert(files: Map<u32, Seq<u8>>, id: u32, data: Seq<u8>)
    ensures
        total_size(files.insert(id, data)) + (if files.contains_key(id) {
            files[id].len()
        } else {
            0
        }) == total_size(files) + data.len(),
{
    lemma_size_below_insert(files, id, data, 0x1_0000_0000);
}

/// Ids without a log add nothing to the size.
pub proof fn lemma_size_below_gap(files: Map<u32, Seq<u8>>, from: nat, to: nat)
    requires
        from <= to <= 0x1_0000_0000,
        forall|x: u32| from <= x < to ==> !files.contains_key(x),
    ensures
        size_below(files, to) == size_below(files, from),
    decreases to - from,
{
    if from < to {
        lemma_size_below_gap(files, from, (to - 1) as nat);
    }
}

} // verus!

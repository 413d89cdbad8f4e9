//! The index of the store: for each live key the place of its record, with
//! the keys in the order of their bytes.
use vstd::prelude::*;
use vstd::utf8::encode_utf8;

verus! {

/// The place of a record: the log that holds it, the offset of its first
/// byte in that log, and its length.
#[derive(Debug, Clone, Copy, PartialEq, Eq, Structural)]
pub struct LogIndex {
    pub id: u32,
    pub command_pos: u64,
    pub len: u64,
}

impl LogIndex {
    pub fn new(id: u32, pos: u64, len: u64) -> (index: Self)
        ensures
            index == (LogIndex { id, command_pos: pos, len }),
    {
        Self { id, command_pos: pos, len }
    }
}

/// Whether `a` comes before `b` in the order of the dictionary, both read
/// from the place `from` on, up to which they agree.
pub open spec fn bytes_lt(a: Seq<u8>, b: Seq<u8>, from: int) -> bool
    decreases b.len() - from,
{
    if from < 0 || from >= b.len() {
        false
    } else if from >= a.len() {
        true
    } else if a[from] != b[from] {
        a[from] < b[from]
    } else {
        bytes_lt(a, b, from + 1)
    }
}

/// The order of the keys: that of their UTF-8 bytes.
pub open spec fn key_lt(a: Seq<char>, b: Seq<char>) -> bool {
    bytes_lt(encode_utf8(a), encode_utf8(b), 0)
}

/// `a` is `b` or comes before it.
pub open spec fn key_le(a: Seq<char>, b: Seq<char>) -> bool {
    a == b || key_lt(a, b)
}

/// `a` and `b` agree from `from` up to `k`, where `a` ends or has the
/// smaller byte.
pub open spec fn parts_at(a: Seq<u8>, b: Seq<u8>, from: int, k: int) -> bool {
    &&& from <= k < b.len()
    &&& k <= a.len()
    &&& forall|i: int| from <= i < k ==> a[i] == b[i]
    &&& (k == a.len() || a[k] < b[k])
}

/// What `bytes_lt` says, without the recursion.
pub proof fn lemma_bytes_lt(a: Seq<u8>, b: Seq<u8>, from: int)
    requires
        0 <= from <= a.len(),
    ensures
        bytes_lt(a, b, from) <==> exists|k: int| parts_at(a, b, from, k),
    decreases b.len() - from,
{
    if from >= b.len() {
    } else if from >= a.len() {
        assert(parts_at(a, b, from, from));
    } else if a[from] != b[from] {
        if a[from] < b[from] {
            assert(parts_at(a, b, from, from));
        } else {
            assert forall|k: int| !parts_at(a, b, from, k) by {
                if parts_at(a, b, from, k) && k > from {
                    assert(a[from] == b[from]);
                }
            }
        }
    } else {
        let next = from + 1;
        lemma_bytes_lt(a, b, next);
        if bytes_lt(a, b, next) {
            let k = choose|k: int| parts_at(a, b, next, k);
            assert(parts_at(a, b, from, k));
        }
        if exists|k: int| parts_at(a, b, from, k) {
            let k = choose|k: int| parts_at(a, b, from, k);
            assert(k != from);
            assert(parts_at(a, b, next, k));
        }
    }
}

/// The order is transitive.
pub proof fn lemma_bytes_lt_trans(a: Seq<u8>, b: Seq<u8>, c: Seq<u8>)
    requires
        bytes_lt(a, b, 0),
        bytes_lt(b, c, 0),
    ensures
        bytes_lt(a, c, 0),
{
    lemma_bytes_lt(a, b, 0);
    lemma_bytes_lt(b, c, 0);
    lemma_bytes_lt(a, c, 0);
    let k1 = choose|k: int| parts_at(a, b, 0, k);
    let k2 = choose|k: int| parts_at(b, c, 0, k);
    let k = if k1 <= k2 { k1 } else { k2 };
    assert(parts_at(a, c, 0, k));
}

/// Of two sequences one comes before the other, or they are the same.
pub proof fn lemma_bytes_lt_total(a: Seq<u8>, b: Seq<u8>, from: int)
    requires
        0 <= from <= a.len(),
        from <= b.len(),
        forall|i: int| 0 <= i < from ==> a[i] == b[i],
    ensures
        bytes_lt(a, b, from) || bytes_lt(b, a, from) || a == b,
        !(bytes_lt(a, b, from) && bytes_lt(b, a, from)),
        a == b ==> !bytes_lt(a, b, from),
    decreases a.len() - from,
{
    if from >= b.len() || from >= a.len() {
        if from >= b.len() && from >= a.len() {
            assert(a =~= b);
        }
    } else if a[from] != b[from] {
    } else {
        lemma_bytes_lt_total(a, b, from + 1);
    }
}

/// The order of the keys is transitive.
pub proof fn lemma_key_lt_trans(a: Seq<char>, b: Seq<char>, c: Seq<char>)
    requires
        key_lt(a, b),
        key_lt(b, c),
    ensures
        key_lt(a, c),
{
    lemma_bytes_lt_trans(encode_utf8(a), encode_utf8(b), encode_utf8(c));
}

/// Of two keys one comes before the other, or they are the same key.
pub proof fn lemma_key_lt_total(a: Seq<char>, b: Seq<char>)
    ensures
        key_lt(a, b) || key_lt(b, a) || a == b,
        !(key_lt(a, b) && key_lt(b, a)),
        a == b ==> !key_lt(a, b),
{
    lemma_bytes_lt_total(encode_utf8(a), encode_utf8(b), 0);
    if encode_utf8(a) == encode_utf8(b) {
        vstd::utf8::encode_utf8_decode_utf8(a);
        vstd::utf8::encode_utf8_decode_utf8(b);
    }
}

/// Whether `a` comes before `b` in the order of the dictionary.
pub fn bytes_before(a: &[u8], b: &[u8]) -> (r: bool)
    ensures
        r == bytes_lt(a@, b@, 0),
{
    let mut i: usize = 0;
    while i < a.len() && i < b.len()
        invariant
            i <= a@.len(),
            i <= b@.len(),
            bytes_lt(a@, b@, 0) == bytes_lt(a@, b@, i as int),
        decreases a@.len() - i,
    {
        if a[i] != b[i] {
            return a[i] < b[i];
        }
        i += 1;
    }
    i < b.len()
}

/// Whether the key `a` comes before the key `b`.
pub fn key_before(a: &String, b: &String) -> (r: bool)
    ensures
        r == key_lt(a@, b@),
{
    bytes_before(a.as_str().as_bytes(), b.as_str().as_bytes())
}

/// One entry of the index.
pub struct Entry {
    pub key: String,
    pub index: LogIndex,
}

/// The index: the entries, in the strict order of their keys.
pub struct Keydir {
    entries: Vec<Entry>,
}

impl Keydir {
    /// The keys, in their order.
    pub closed spec fn keys(&self) -> Seq<Seq<char>> {
        Seq::new(self.entries@.len(), |i: int| self.entries@[i].key@)
    }

    /// The place that the entry `i` gives.
    pub closed spec fn index_at(&self, i: int) -> LogIndex {
        self.entries@[i].index
    }

    /// The keys stand in their strict order.
    pub closed spec fn wf(&self) -> bool {
        forall|i: int, j: int|
            0 <= i < j < self.entries@.len() ==> key_lt(
                #[trigger] self.entries@[i].key@,
                #[trigger] self.entries@[j].key@,
            )
    }

    spec fn place(&self, key: Seq<char>) -> int {
        choose|i: int| 0 <= i < self.entries@.len() && self.entries@[i].key@ == key
    }

    /// The place of each key.
    pub closed spec fn view(&self) -> Map<Seq<char>, LogIndex> {
        Map::new(
            |key: Seq<char>| self.keys().contains(key),
            |key: Seq<char>| self.entries@[self.place(key)].index,
        )
    }

    /// How `keys`, `index_at` and the view belong together.
    pub proof fn lemma_view(&self)
        requires
            self.wf(),
        ensures
            forall|i: int, j: int|
                0 <= i < j < self.keys().len() ==> key_lt(
                    #[trigger] self.keys()[i],
                    #[trigger] self.keys()[j],
                ),
            forall|i: int|
                0 <= i < self.keys().len() ==> self@.contains_key(#[trigger] self.keys()[i])
                    && self@[self.keys()[i]] == self.index_at(i),
            forall|key: Seq<char>| #[trigger] self@.contains_key(key) <==> self.keys().contains(key),
            self@.dom().finite(),
    {
        assert forall|i: int| 0 <= i < self.keys().len() implies self@.contains_key(
            #[trigger] self.keys()[i],
        ) && self@[self.keys()[i]] == self.index_at(i) by {
            self.lemma_place(i);
        }
        assert(self@.dom() =~= self.keys().to_set());
        vstd::seq_lib::seq_to_set_is_finite(self.keys());
    }

    proof fn lemma_place(&self, i: int)
        requires
            self.wf(),
            0 <= i < self.entries@.len(),
        ensures
            self.keys().contains(self.entries@[i].key@),
            self.place(self.entries@[i].key@) == i,
    {
        let key = self.entries@[i].key@;
        assert(self.keys()[i] == key);
        let p = self.place(key);
        assert(0 <= p < self.entries@.len() && self.entries@[p].key@ == key);
        lemma_key_lt_total(key, key);
        if p < i {
            assert(key_lt(self.entries@[p].key@, self.entries@[i].key@));
        } else if i < p {
            assert(key_lt(self.entries@[i].key@, self.entries@[p].key@));
        }
    }

    /// An index without keys.
    pub fn new() -> (keydir: Keydir)
        ensures
            keydir.wf(),
            keydir@ == Map::<Seq<char>, LogIndex>::empty(),
            keydir.keys() == Seq::<Seq<char>>::empty(),
    {
        let keydir = Keydir { entries: Vec::new() };
        assert(keydir.keys() =~= Seq::<Seq<char>>::empty());
        assert(keydir@ =~= Map::<Seq<char>, LogIndex>::empty());
        keydir
    }

    /// The number of keys.
    pub fn len(&self) -> (n: usize)
        ensures
            n == self.keys().len(),
    {
        self.entries.len()
    }

    /// The key of the entry `i`.
    pub fn key(&self, i: usize) -> (key: &String)
        requires
            i < self.keys().len(),
        ensures
            key@ == self.keys()[i as int],
    {
        &self.entries[i].key
    }

    /// The place that the entry `i` gives.
    pub fn index(&self, i: usize) -> (index: LogIndex)
        requires
            i < self.keys().len(),
        ensures
            index == self.index_at(i as int),
    {
        self.entries[i].index
    }

    /// Gives the entry `i` another place.
    pub fn set_index(&mut self, i: usize, index: LogIndex)
        requires
            old(self).wf(),
            i < old(self).keys().len(),
        ensures
            final(self).wf(),
            final(self).keys() == old(self).keys(),
            final(self)@ == old(self)@.insert(old(self).keys()[i as int], index),
            final(self).index_at(i as int) == index,
            forall|j: int|
                0 <= j < old(self).keys().len() && j != i ==> final(self).index_at(j) == old(self).index_at(j),
    {
        let ghost before = *self;
        self.entries[i].index = index;
        proof {
            assert(self.keys() =~= before.keys());
            assert(self.wf());
            before.lemma_view();
            self.lemma_view();
            assert forall|key: Seq<char>| self@.contains_key(key) implies self@[key]
                == before@.insert(before.keys()[i as int], index)[key] by {
                let p = self.place(key);
                assert(self.keys().contains(key));
                assert(0 <= p < self.entries@.len() && self.entries@[p].key@ == key);
                self.lemma_place(p);
                before.lemma_place(p);
                before.lemma_place(i as int);
            }
            assert(self@ =~= before@.insert(before.keys()[i as int], index));
        }
    }

    /// The number of keys that come before `key`: the place of `key` where
    /// the index has it, and else the place where it would stand.
    pub fn lower_bound(&self, key: &String) -> (pos: usize)
        requires
            self.wf(),
        ensures
            pos <= self.keys().len(),
            forall|i: int| 0 <= i < pos ==> key_lt(#[trigger] self.keys()[i], key@),
            forall|i: int| pos <= i < self.keys().len() ==> key_le(key@, #[trigger] self.keys()[i]),
            self@.contains_key(key@) <==> (pos < self.keys().len() && self.keys()[pos as int]
                == key@),
    {
        let mut lo: usize = 0;
        let mut hi: usize = self.entries.len();
        while lo < hi
            invariant
                self.wf(),
                lo <= hi <= self.entries@.len(),
                forall|i: int| 0 <= i < lo ==> key_lt(#[trigger] self.entries@[i].key@, key@),
                forall|i: int|
                    hi <= i < self.entries@.len() ==> !key_lt(
                        #[trigger] self.entries@[i].key@,
                        key@,
                    ),
            decreases hi - lo,
        {
            let mid = lo + (hi - lo) / 2;
            if key_before(&self.entries[mid].key, key) {
                proof {
                    assert forall|i: int| 0 <= i < mid + 1 implies key_lt(
                        #[trigger] self.entries@[i].key@,
                        key@,
                    ) by {
                        if i < mid {
                            assert(key_lt(self.entries@[i].key@, self.entries@[mid as int].key@));
                            lemma_key_lt_trans(
                                self.entries@[i].key@,
                                self.entries@[mid as int].key@,
                                key@,
                            );
                        }
                    }
                }
                lo = mid + 1;
            } else {
                proof {
                    assert forall|i: int| mid <= i < self.entries@.len() implies !key_lt(
                        #[trigger] self.entries@[i].key@,
                        key@,
                    ) by {
                        if mid < i && key_lt(self.entries@[i].key@, key@) {
                            assert(key_lt(self.entries@[mid as int].key@, self.entries@[i].key@));
                            lemma_key_lt_trans(
                                self.entries@[mid as int].key@,
                                self.entries@[i].key@,
                                key@,
                            );
                        }
                    }
                }
                hi = mid;
            }
        }
        proof {
            self.lemma_view();
            assert forall|i: int| lo <= i < self.keys().len() implies key_le(
                key@,
                #[trigger] self.keys()[i],
            ) by {
                assert(!key_lt(self.entries@[i].key@, key@));
                lemma_key_lt_total(self.entries@[i].key@, key@);
            }
            assert forall|i: int| 0 <= i < lo implies key_lt(#[trigger] self.keys()[i], key@) by {
                assert(key_lt(self.entries@[i].key@, key@));
            }
            if self@.contains_key(key@) {
                let p = self.place(key@);
                assert(self.keys().contains(key@));
                assert(0 <= p < self.entries@.len() && self.entries@[p].key@ == key@);
                lemma_key_lt_total(key@, key@);
                if p < lo {
                    assert(key_lt(self.entries@[p].key@, key@));
                }
                if p > lo {
                    assert(key_lt(self.entries@[lo as int].key@, self.entries@[p].key@));
                    assert(!key_lt(self.entries@[lo as int].key@, key@));
                }
            }
            if lo < self.keys().len() && self.keys()[lo as int] == key@ {
                self.lemma_place(lo as int);
            }
        }
        lo
    }

    /// The place of the record of `key`, where the index has the key.
    pub fn get(&self, key: &String) -> (index: Option<LogIndex>)
        requires
            self.wf(),
        ensures
            index == if self@.contains_key(key@) {
                Some(self@[key@])
            } else {
                None
            },
    {
        let pos = self.lower_bound(key);
        proof {
            self.lemma_view();
        }
        if pos < self.entries.len() && self.entries[pos].key == *key {
            Some(self.entries[pos].index)
        } else {
            None
        }
    }

    /// Binds `key` to `index` and hands out the place that the key had.
    pub fn insert(&mut self, key: String, index: LogIndex) -> (previous: Option<LogIndex>)
        requires
            old(self).wf(),
        ensures
            final(self).wf(),
            final(self)@ == old(self)@.insert(key@, index),
            previous == if old(self)@.contains_key(key@) {
                Some(old(self)@[key@])
            } else {
                None
            },
    {
        let pos = self.lower_bound(&key);
        let ghost before = *self;
        proof {
            before.lemma_view();
        }
        if pos < self.entries.len() && self.entries[pos].key == key {
            let previous = self.entries[pos].index;
            self.set_index(pos, index);
            Some(previous)
        } else {
            let ghost k = key@;
            self.entries.insert(pos, Entry { key, index });
            proof {
                assert(self.wf()) by {
                    assert forall|i: int, j: int| 0 <= i < j < self.entries@.len() implies key_lt(
                        #[trigger] self.entries@[i].key@,
                        #[trigger] self.entries@[j].key@,
                    ) by {
                        let bi = if i < pos { i } else { i - 1 };
                        let bj = if j < pos { j } else { j - 1 };
                        if i == pos {
                            assert(key_le(k, before.keys()[bj]));
                            if bj > pos {
                                assert(key_lt(before.entries@[pos as int].key@, before.entries@[bj].key@));
                            }
                        } else if j == pos {
                            assert(key_lt(before.keys()[bi], k));
                        } else {
                            assert(key_lt(before.entries@[bi].key@, before.entries@[bj].key@));
                        }
                    }
                }
                self.lemma_view();
                assert forall|x: Seq<char>| self@.contains_key(x) <==> (x == k
                    || before@.contains_key(x)) by {
                    if self@.contains_key(x) {
                        let j = self.place(x);
                        assert(self.keys().contains(x));
                        assert(0 <= j < self.entries@.len() && self.entries@[j].key@ == x);
                        if j != pos {
                            let bj = if j < pos { j } else { j - 1 };
                            assert(before.keys()[bj] == x);
                        }
                    }
                    if x == k {
                        assert(self.keys()[pos as int] == k);
                    }
                    if before@.contains_key(x) {
                        let j = before.place(x);
                        assert(before.keys().contains(x));
                        assert(0 <= j < before.entries@.len() && before.entries@[j].key@ == x);
                        let nj = if j < pos { j } else { j + 1 };
                        assert(self.keys()[nj] == x);
                    }
                }
                assert forall|x: Seq<char>| self@.contains_key(x) implies self@[x]
                    == before@.insert(k, index)[x] by {
                    let j = self.place(x);
                    assert(self.keys().contains(x));
                    assert(0 <= j < self.entries@.len() && self.entries@[j].key@ == x);
                    self.lemma_place(j);
                    if j != pos {
                        let bj = if j < pos { j } else { j - 1 };
                        before.lemma_place(bj);
                    }
                }
                assert(self@ =~= before@.insert(k, index));
            }
            None
        }
    }

    /// Takes `key` out of the index and hands out the place that it had.
    pub fn remove(&mut self, key: &String) -> (previous: Option<LogIndex>)
        requires
            old(self).wf(),
        ensures
            final(self).wf(),
            final(self)@ == old(self)@.remove(key@),
            previous == if old(self)@.contains_key(key@) {
                Some(old(self)@[key@])
            } else {
                None
            },
    {
        let pos = self.lower_bound(key);
        let ghost before = *self;
        proof {
            before.lemma_view();
        }
        if pos < self.entries.len() && self.entries[pos].key == *key {
            let entry = self.entries.remove(pos);
            proof {
                assert(self.wf()) by {
                    assert forall|i: int, j: int| 0 <= i < j < self.entries@.len() implies key_lt(
                        #[trigger] self.entries@[i].key@,
                        #[trigger] self.entries@[j].key@,
                    ) by {
                        let bi = if i < pos { i } else { i + 1 };
                        let bj = if j < pos { j } else { j + 1 };
                        assert(key_lt(before.entries@[bi].key@, before.entries@[bj].key@));
                    }
                }
                self.lemma_view();
                lemma_key_lt_total(key@, key@);
                assert forall|x: Seq<char>| self@.contains_key(x) <==> (x != key@
                    && before@.contains_key(x)) by {
                    if self@.contains_key(x) {
                        let j = self.place(x);
                        assert(self.keys().contains(x));
                        assert(0 <= j < self.entries@.len() && self.entries@[j].key@ == x);
                        let bj = if j < pos { j } else { j + 1 };
                        assert(before.keys()[bj] == x);
                        if bj < pos {
                            assert(key_lt(before.entries@[bj].key@, before.entries@[pos as int].key@));
                        } else {
                            assert(key_lt(before.entries@[pos as int].key@, before.entries@[bj].key@));
                        }
                    }
                    if x != key@ && before@.contains_key(x) {
                        let j = before.place(x);
                        assert(before.keys().contains(x));
                        assert(0 <= j < before.entries@.len() && before.entries@[j].key@ == x);
                        let nj = if j < pos { j } else { j - 1 };
                        assert(self.keys()[nj] == x);
                    }
                }
                assert forall|x: Seq<char>| self@.contains_key(x) implies self@[x] == before@[x] by {
                    let j = self.place(x);
                    assert(self.keys().contains(x));
                    assert(0 <= j < self.entries@.len() && self.entries@[j].key@ == x);
                    self.lemma_place(j);
                    let bj = if j < pos { j } else { j + 1 };
                    before.lemma_place(bj);
                }
                assert(self@ =~= before@.remove(key@));
            }
            Some(entry.index)
        } else {
            assert(self@ =~= before@.remove(key@));
            None
        }
    }
}

} // verus!

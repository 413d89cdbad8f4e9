//! What the logs of a directory say: the index that comes of applying
//! their records, log by log in the order of the ids, and record by record
//! within a log.
use crate::codec::{frame_at, le32_at, record_at, CommandView};
use crate::disk::sized;
use crate::engine::keydir::LogIndex;
use vstd::prelude::*;

verus! {

/// What replaying records gives: the place of the live record of each
/// key, and the bytes of the records that later ones have displaced.
pub struct Replayed {
    pub index: Map<Seq<char>, LogIndex>,
    pub garbage: u64,
}

/// The sum of two counts of bytes, or the greatest count where the sum is
/// greater than that.
pub open spec fn add_bytes(a: u64, b: u64) -> u64 {
    if a + b <= u64::MAX {
        (a + b) as u64
    } else {
        u64::MAX
    }
}

/// The place of the record of `len` bytes at `pos` in the log `id`.
pub open spec fn place(id: u32, pos: int, len: int) -> LogIndex {
    LogIndex { id, command_pos: pos as u64, len: len as u64 }
}

/// The length of the record that `key` has in the index, where it has one.
pub open spec fn displaced(index: Map<Seq<char>, LogIndex>, key: Seq<char>) -> u64 {
    if index.contains_key(key) {
        index[key].len
    } else {
        0
    }
}

/// The state after the command `cmd`, whose record stands at `at`: a `Put`
/// binds its key to `at`, a `Remove` erases its key, and the record that
/// the key had before is garbage.
pub open spec fn apply(state: Replayed, cmd: CommandView, at: LogIndex) -> Replayed {
    match cmd {
        CommandView::Put { key, value } => Replayed {
            index: state.index.insert(key, at),
            garbage: add_bytes(state.garbage, displaced(state.index, key)),
        },
        CommandView::Remove { key } => Replayed {
            index: state.index.remove(key),
            garbage: add_bytes(state.garbage, displaced(state.index, key)),
        },
    }
}

/// The state after the records of the log `id` from `pos` on. Where the
/// bytes at the place of a record are no record, there is none.
pub open spec fn replay_log(state: Replayed, id: u32, file: Seq<u8>, pos: int) -> Option<Replayed>
    decreases file.len() - pos,
{
    if pos >= file.len() {
        Some(state)
    } else {
        match record_at(file, pos) {
            Some((cmd, len)) => replay_log(apply(state, cmd, place(id, pos, len)), id, file, pos + len),
            None => None,
        }
    }
}

/// The state after the logs with an id below `bound`.
pub open spec fn replay_below(files: Map<u32, Seq<u8>>, bound: nat) -> Option<Replayed>
    decreases bound,
{
    if bound == 0 {
        Some(Replayed { index: Map::empty(), garbage: 0 })
    } else {
        let id = (bound - 1) as u32;
        match replay_below(files, (bound - 1) as nat) {
            Some(state) => if files.contains_key(id) {
                replay_log(state, id, files[id], 0)
            } else {
                Some(state)
            },
            None => None,
        }
    }
}

/// The state after all logs of the directory.
pub open spec fn replay(files: Map<u32, Seq<u8>>) -> Option<Replayed> {
    replay_below(files, 0x1_0000_0000)
}

/// The record at `at` is a `Put` of `key`, and `at` gives its length.
pub open spec fn points_to(files: Map<u32, Seq<u8>>, key: Seq<char>, at: LogIndex) -> bool {
    &&& files.contains_key(at.id)
    &&& record_at(files[at.id], at.command_pos as int) matches Some((cmd, len))
    &&& cmd matches CommandView::Put { key: k, value }
    &&& k == key
    &&& len == at.len
}

/// Every key of the index points to a `Put` of that key.
pub open spec fn all_point(files: Map<u32, Seq<u8>>, index: Map<Seq<char>, LogIndex>) -> bool {
    forall|key: Seq<char>| #[trigger] index.contains_key(key) ==> points_to(files, key, index[key])
}

/// The value that the record at `at` binds.
pub open spec fn value_at(files: Map<u32, Seq<u8>>, at: LogIndex) -> Seq<char> {
    match record_at(files[at.id], at.command_pos as int) {
        Some((CommandView::Put { key, value }, len)) => value,
        _ => Seq::empty(),
    }
}

/// The store that an index over a directory stands for: each key with the
/// value of its record.
pub open spec fn contents(
    files: Map<u32, Seq<u8>>,
    index: Map<Seq<char>, LogIndex>,
) -> Map<Seq<char>, Seq<char>> {
    Map::new(|key: Seq<char>| index.contains_key(key), |key: Seq<char>| value_at(files, index[key]))
}

/// A record stays where it is when the log goes on behind it.
pub proof fn lemma_record_prefix(file: Seq<u8>, longer: Seq<u8>, pos: int)
    requires
        record_at(file, pos) is Some,
        file.len() <= longer.len(),
        longer.subrange(0, file.len() as int) == file,
    ensures
        record_at(longer, pos) == record_at(file, pos),
{
    let len = frame_at(file, pos)->0;
    assert forall|i: int| 0 <= i < file.len() implies longer[i] == file[i] by {
        assert(longer.subrange(0, file.len() as int)[i] == longer[i]);
    }
    assert(le32_at(longer, pos) == le32_at(file, pos));
    assert(longer.subrange(pos, pos + len) =~= file.subrange(pos, pos + len));
}

/// A record that was appended to a log stands where the log ended.
pub proof fn lemma_record_appended(file: Seq<u8>, record: Seq<u8>, cmd: CommandView)
    requires
        record_at(record, 0) == Some((cmd, record.len() as int)),
    ensures
        record_at(file + record, file.len() as int) == Some((cmd, record.len() as int)),
{
    let longer = file + record;
    let pos = file.len() as int;
    assert(record.subrange(0, record.len() as int) =~= record);
    assert(le32_at(longer, pos) == le32_at(record, 0));
    assert(longer.subrange(pos, pos + record.len()) =~= record);
}

/// Replaying a log that a record was appended to gives what the log gave
/// before, and then that record.
pub proof fn lemma_replay_append(
    state: Replayed,
    id: u32,
    file: Seq<u8>,
    record: Seq<u8>,
    cmd: CommandView,
    pos: int,
)
    requires
        0 <= pos <= file.len(),
        replay_log(state, id, file, pos) is Some,
        record_at(record, 0) == Some((cmd, record.len() as int)),
    ensures
        replay_log(state, id, file + record, pos) == Some(
            apply(
                replay_log(state, id, file, pos)->0,
                cmd,
                place(id, file.len() as int, record.len() as int),
            ),
        ),
    decreases file.len() - pos,
{
    let longer = file + record;
    if pos == file.len() {
        lemma_record_appended(file, record, cmd);
        let next = apply(state, cmd, place(id, pos, record.len() as int));
        assert(replay_log(next, id, longer, pos + record.len()) == Some(next));
    } else {
        let (c, len) = record_at(file, pos)->0;
        assert(longer.subrange(0, file.len() as int) =~= file);
        lemma_record_prefix(file, longer, pos);
        lemma_replay_append(apply(state, c, place(id, pos, len)), id, file, record, cmd, pos + len);
    }
}

/// Two directories hold the same logs below `bound`.
pub open spec fn same_below(a: Map<u32, Seq<u8>>, b: Map<u32, Seq<u8>>, bound: nat) -> bool {
    forall|id: u32|
        id < bound ==> (#[trigger] a.contains_key(id) <==> b.contains_key(id)) && (a.contains_key(
            id,
        ) ==> a[id] == b[id])
}

/// Logs with an id at or above the bound do not count below it.
pub proof fn lemma_replay_agree(a: Map<u32, Seq<u8>>, b: Map<u32, Seq<u8>>, bound: nat)
    requires
        same_below(a, b, bound),
    ensures
        replay_below(a, bound) == replay_below(b, bound),
    decreases bound,
{
    if bound > 0 {
        lemma_replay_agree(a, b, (bound - 1) as nat);
    }
}

/// Ids without a log add nothing.
pub proof fn lemma_replay_gap(files: Map<u32, Seq<u8>>, from: nat, to: nat)
    requires
        from <= to <= 0x1_0000_0000,
        forall|id: u32| from <= id < to ==> !#[trigger] files.contains_key(id),
    ensures
        replay_below(files, to) == replay_below(files, from),
    decreases to - from,
{
    if from < to {
        lemma_replay_gap(files, from, (to - 1) as nat);
    }
}

/// Replaying a directory whose last log a record was appended to gives
/// what the directory gave before, and then that record.
pub proof fn lemma_replay_last(files: Map<u32, Seq<u8>>, last: u32, record: Seq<u8>, cmd: CommandView)
    requires
        files.contains_key(last),
        forall|id: u32| files.contains_key(id) ==> id <= last,
        replay(files) is Some,
        record_at(record, 0) == Some((cmd, record.len() as int)),
    ensures
        replay(files.insert(last, files[last] + record)) == Some(
            apply(
                replay(files)->0,
                cmd,
                place(last, files[last].len() as int, record.len() as int),
            ),
        ),
{
    let after = files.insert(last, files[last] + record);
    lemma_replay_gap(files, (last + 1) as nat, 0x1_0000_0000);
    lemma_replay_gap(after, (last + 1) as nat, 0x1_0000_0000);
    lemma_replay_agree(files, after, last as nat);
    let state = replay_below(files, last as nat)->0;
    assert(replay_below(files, (last + 1) as nat) == replay_log(state, last, files[last], 0));
    assert(replay_below(after, (last + 1) as nat) == replay_log(state, last, after[last], 0));
    lemma_replay_append(state, last, files[last], record, cmd, 0);
}

/// A new, empty log behind all others changes nothing.
pub proof fn lemma_replay_new_log(files: Map<u32, Seq<u8>>, id: u32)
    requires
        forall|other: u32| files.contains_key(other) ==> other < id,
    ensures
        replay(files.insert(id, Seq::empty())) == replay(files),
{
    let after = files.insert(id, Seq::empty());
    lemma_replay_gap(files, id as nat, 0x1_0000_0000);
    lemma_replay_gap(after, (id + 1) as nat, 0x1_0000_0000);
    lemma_replay_agree(files, after, id as nat);
    assert(replay_below(after, (id + 1) as nat) == match replay_below(after, id as nat) {
        Some(state) => replay_log(state, id, after[id], 0),
        None => None,
    });
}

/// After a `Put` was appended to the last log, the store has what it had,
/// and the key of the `Put` with its value.
pub proof fn lemma_contents_put(
    files: Map<u32, Seq<u8>>,
    index: Map<Seq<char>, LogIndex>,
    last: u32,
    record: Seq<u8>,
    key: Seq<char>,
    value: Seq<char>,
)
    requires
        all_point(files, index),
        files.contains_key(last),
        files[last].len() + record.len() <= usize::MAX,
        record_at(record, 0) == Some((CommandView::Put { key, value }, record.len() as int)),
    ensures
        contents(
            files.insert(last, files[last] + record),
            index.insert(key, place(last, files[last].len() as int, record.len() as int)),
        ) == contents(files, index).insert(key, value),
{
    let log = files[last];
    let after = files.insert(last, log + record);
    let at = place(last, log.len() as int, record.len() as int);
    lemma_record_appended(log, record, CommandView::Put { key, value });
    assert forall|k: Seq<char>| index.contains_key(k) && k != key implies value_at(
        after,
        index[k],
    ) == value_at(files, index[k]) by {
        lemma_points_kept(files, index, last, record, k);
    }
    assert(contents(after, index.insert(key, at)) =~= contents(files, index).insert(key, value));
}

/// After a record was appended to the last log, every key but that of the
/// record has the value that it had.
pub proof fn lemma_points_kept(
    files: Map<u32, Seq<u8>>,
    index: Map<Seq<char>, LogIndex>,
    last: u32,
    record: Seq<u8>,
    key: Seq<char>,
)
    requires
        all_point(files, index),
        files.contains_key(last),
        index.contains_key(key),
    ensures
        value_at(files.insert(last, files[last] + record), index[key]) == value_at(
            files,
            index[key],
        ),
        points_to(files.insert(last, files[last] + record), key, index[key]),
{
    let log = files[last];
    let at = index[key];
    assert(points_to(files, key, at));
    if at.id == last {
        assert((log + record).subrange(0, log.len() as int) =~= log);
        lemma_record_prefix(log, log + record, at.command_pos as int);
    }
}

/// After a `Remove` was appended to the last log, the store has what it
/// had without the key of the `Remove`.
pub proof fn lemma_contents_remove(
    files: Map<u32, Seq<u8>>,
    index: Map<Seq<char>, LogIndex>,
    last: u32,
    record: Seq<u8>,
    key: Seq<char>,
)
    requires
        all_point(files, index),
        files.contains_key(last),
    ensures
        contents(files.insert(last, files[last] + record), index.remove(key)) == contents(
            files,
            index,
        ).remove(key),
{
    let after = files.insert(last, files[last] + record);
    assert forall|k: Seq<char>| index.contains_key(k) && k != key implies value_at(
        after,
        index[k],
    ) == value_at(files, index[k]) by {
        lemma_points_kept(files, index, last, record, k);
    }
    assert(contents(after, index.remove(key)) =~= contents(files, index).remove(key));
}

/// One record keeps the keys pointing to their records.
proof fn lemma_apply_points(
    files: Map<u32, Seq<u8>>,
    state: Replayed,
    id: u32,
    pos: int,
)
    requires
        sized(files),
        files.contains_key(id),
        all_point(files, state.index),
        0 <= pos,
        record_at(files[id], pos) is Some,
    ensures
        ({
            let (cmd, len) = record_at(files[id], pos)->0;
            all_point(files, apply(state, cmd, place(id, pos, len)).index)
        }),
{
    let (cmd, len) = record_at(files[id], pos)->0;
    let at = place(id, pos, len);
    let next = apply(state, cmd, at);
    assert(at.command_pos == pos && at.len == len);
    assert forall|key: Seq<char>| #[trigger] next.index.contains_key(key) implies points_to(
        files,
        key,
        next.index[key],
    ) by {
        if state.index.contains_key(key) {
        }
    }
}

/// Replaying a log keeps the keys pointing to their records.
proof fn lemma_log_points(files: Map<u32, Seq<u8>>, state: Replayed, id: u32, pos: int)
    requires
        sized(files),
        files.contains_key(id),
        all_point(files, state.index),
        0 <= pos,
        replay_log(state, id, files[id], pos) is Some,
    ensures
        all_point(files, replay_log(state, id, files[id], pos)->0.index),
    decreases files[id].len() - pos,
{
    if pos < files[id].len() {
        let (cmd, len) = record_at(files[id], pos)->0;
        lemma_apply_points(files, state, id, pos);
        lemma_log_points(files, apply(state, cmd, place(id, pos, len)), id, pos + len);
    }
}

/// Replaying logs leaves every key pointing to a record of its own.
pub proof fn lemma_below_points(files: Map<u32, Seq<u8>>, bound: nat)
    requires
        sized(files),
        replay_below(files, bound) is Some,
    ensures
        all_point(files, replay_below(files, bound)->0.index),
    decreases bound,
{
    if bound > 0 {
        lemma_below_points(files, (bound - 1) as nat);
        let id = (bound - 1) as u32;
        if files.contains_key(id) {
            lemma_log_points(files, replay_below(files, (bound - 1) as nat)->0, id, 0);
        }
    }
}

/// Law of the index: in what the logs of a directory give, every key
/// points to a `Put` record of that key.
pub proof fn lemma_replay_points(files: Map<u32, Seq<u8>>)
    requires
        sized(files),
        replay(files) is Some,
    ensures
        all_point(files, replay(files)->0.index),
{
    lemma_below_points(files, 0x1_0000_0000);
}

} // verus!

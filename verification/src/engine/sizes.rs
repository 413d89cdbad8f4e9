//! How much of a directory is live: the records that the index points to
//! lie apart from each other in the logs, and apart from the records that
//! were displaced, so together with the displaced bytes they are no more
//! than the logs. A compacted log, which holds each live record once more
//! and nothing else, is shorter than the logs by the displaced bytes.
use crate::codec::{record_at, CommandView};
use crate::disk::{lemma_size_below_gap, size_below, total_size};
use crate::engine::compaction::{compacted, distinct, live};
use crate::engine::keydir::LogIndex;
use crate::engine::replay::{
    all_point, apply, contents, place, points_to, replay, replay_below, replay_log, Replayed,
};
use vstd::prelude::*;

verus! {

/// The sum of the lengths of the records of `keys`.
pub open spec fn live_size(index: Map<Seq<char>, LogIndex>, keys: Seq<Seq<char>>) -> nat
    decreases keys.len(),
{
    if keys.len() == 0 {
        0
    } else {
        live_size(index, keys.drop_last()) + index[keys.last()].len as nat
    }
}

/// `keys` are the keys of the index, each once.
pub open spec fn covers(keys: Seq<Seq<char>>, index: Map<Seq<char>, LogIndex>) -> bool {
    &&& distinct(keys)
    &&& forall|key: Seq<char>| keys.contains(key) <==> #[trigger] index.contains_key(key)
}

/// The records of the index and the displaced bytes are together no more
/// than `limit`.
pub open spec fn bounded(state: Replayed, limit: nat) -> bool {
    exists|keys: Seq<Seq<char>>|
        covers(keys, state.index) && #[trigger] live_size(state.index, keys) + state.garbage
            <= limit
}

/// The sum without one key is the sum less the record of that key.
pub proof fn lemma_size_remove(index: Map<Seq<char>, LogIndex>, keys: Seq<Seq<char>>, j: int)
    requires
        0 <= j < keys.len(),
    ensures
        live_size(index, keys.remove(j)) + index[keys[j]].len == live_size(index, keys),
    decreases keys.len(),
{
    if j == keys.len() - 1 {
        assert(keys.remove(j) =~= keys.drop_last());
    } else {
        assert(keys.remove(j).drop_last() =~= keys.drop_last().remove(j));
        assert(keys.remove(j).last() == keys.last());
        lemma_size_remove(index, keys.drop_last(), j);
    }
}

/// Two indexes that agree on the keys give the same sum.
pub proof fn lemma_size_agree(
    a: Map<Seq<char>, LogIndex>,
    b: Map<Seq<char>, LogIndex>,
    keys: Seq<Seq<char>>,
)
    requires
        forall|i: int| 0 <= i < keys.len() ==> a[#[trigger] keys[i]] == b[keys[i]],
    ensures
        live_size(a, keys) == live_size(b, keys),
    decreases keys.len(),
{
    if keys.len() > 0 {
        assert forall|i: int| 0 <= i < keys.drop_last().len() implies a[#[trigger] keys.drop_last()[i]]
            == b[keys.drop_last()[i]] by {
            assert(keys.drop_last()[i] == keys[i]);
        }
        lemma_size_agree(a, b, keys.drop_last());
        assert(a[keys[keys.len() - 1]] == b[keys[keys.len() - 1]]);
    }
}

/// The sum does not depend on the order of the keys.
pub proof fn lemma_size_same(index: Map<Seq<char>, LogIndex>, a: Seq<Seq<char>>, b: Seq<Seq<char>>)
    requires
        distinct(a),
        distinct(b),
        forall|key: Seq<char>| a.contains(key) <==> b.contains(key),
    ensures
        live_size(index, a) == live_size(index, b),
    decreases a.len(),
{
    if a.len() == 0 {
        if b.len() > 0 {
            assert(b.contains(b[0]));
            assert(a.contains(b[0]));
        }
    } else {
        let x = a.last();
        assert(a.contains(x)) by {
            assert(a[a.len() - 1] == x);
        }
        let j = choose|j: int| 0 <= j < b.len() && b[j] == x;
        let rest_a = a.drop_last();
        let rest_b = b.remove(j);
        assert(distinct(rest_a)) by {
            assert forall|p: int, q: int| 0 <= p < q < rest_a.len() implies rest_a[p]
                != rest_a[q] by {
                assert(a[p] != a[q]);
            }
        }
        assert(distinct(rest_b)) by {
            assert forall|p: int, q: int| 0 <= p < q < rest_b.len() implies rest_b[p]
                != rest_b[q] by {
                let bp = if p < j { p } else { p + 1 };
                let bq = if q < j { q } else { q + 1 };
                assert(b[bp] != b[bq]);
            }
        }
        assert forall|key: Seq<char>| rest_a.contains(key) <==> rest_b.contains(key) by {
            if rest_a.contains(key) {
                let p = choose|p: int| 0 <= p < rest_a.len() && rest_a[p] == key;
                assert(a[p] == key);
                assert(a[p] != a[a.len() - 1]);
                assert(a.contains(key));
                let q = choose|q: int| 0 <= q < b.len() && b[q] == key;
                let rq = if q < j { q } else { q - 1 };
                assert(rest_b[rq] == key);
            }
            if rest_b.contains(key) {
                let q = choose|q: int| 0 <= q < rest_b.len() && rest_b[q] == key;
                let bq = if q < j { q } else { q + 1 };
                assert(b[bq] == key);
                if bq < j {
                    assert(b[bq] != b[j]);
                } else {
                    assert(b[j] != b[bq]);
                }
                assert(b.contains(key));
                let p = choose|p: int| 0 <= p < a.len() && a[p] == key;
                assert(rest_a[p] == key);
            }
        }
        lemma_size_same(index, rest_a, rest_b);
        lemma_size_remove(index, b, j);
    }
}

/// After one more record, of `at.len` bytes, the records of the index and
/// the displaced bytes are together no more than they were allowed before
/// and those bytes. A record that erases a key is not counted.
pub proof fn lemma_apply_bounded(state: Replayed, cmd: CommandView, at: LogIndex, limit: nat)
    requires
        bounded(state, limit),
    ensures
        bounded(apply(state, cmd, at), limit + at.len as nat),
        cmd is Remove ==> bounded(apply(state, cmd, at), limit),
{
    let index = state.index;
    let keys = choose|keys: Seq<Seq<char>>|
        covers(keys, index) && #[trigger] live_size(index, keys) + state.garbage <= limit;
    let after = apply(state, cmd, at).index;
    let key = match cmd {
        CommandView::Put { key, value } => key,
        CommandView::Remove { key } => key,
    };
    if keys.contains(key) {
        let j = choose|j: int| 0 <= j < keys.len() && keys[j] == key;
        let rest = keys.remove(j);
        lemma_size_remove(index, keys, j);
        assert(distinct(rest)) by {
            assert forall|p: int, q: int| 0 <= p < q < rest.len() implies rest[p] != rest[q] by {
                let kp = if p < j { p } else { p + 1 };
                let kq = if q < j { q } else { q + 1 };
                assert(keys[kp] != keys[kq]);
            }
        }
        assert forall|i: int| 0 <= i < rest.len() implies after[#[trigger] rest[i]]
            == index[rest[i]] by {
            let ki = if i < j { i } else { i + 1 };
            assert(rest[i] == keys[ki]);
            if ki < j {
                assert(keys[ki] != keys[j]);
            } else {
                assert(keys[j] != keys[ki]);
            }
        }
        lemma_size_agree(after, index, rest);
        assert forall|k: Seq<char>| rest.contains(k) <==> (keys.contains(k) && k != key) by {
            if rest.contains(k) {
                let i = choose|i: int| 0 <= i < rest.len() && rest[i] == k;
                let ki = if i < j { i } else { i + 1 };
                assert(keys[ki] == k);
                if ki < j {
                    assert(keys[ki] != keys[j]);
                } else {
                    assert(keys[j] != keys[ki]);
                }
            }
            if keys.contains(k) && k != key {
                let i = choose|i: int| 0 <= i < keys.len() && keys[i] == k;
                let ri = if i < j { i } else { i - 1 };
                assert(rest[ri] == k);
            }
        }
        match cmd {
            CommandView::Put { key, value } => {
                let again = rest.push(key);
                assert(again.drop_last() =~= rest);
                assert(again.last() == key);
                assert(distinct(again)) by {
                    assert forall|p: int, q: int| 0 <= p < q < again.len() implies again[p]
                        != again[q] by {
                        if q < rest.len() {
                            assert(rest[p] != rest[q]);
                        } else {
                            assert(rest.contains(rest[p]));
                        }
                    }
                }
                assert forall|k: Seq<char>| again.contains(k) <==> #[trigger] after.contains_key(
                    k,
                ) by {
                    if again.contains(k) {
                        let i = choose|i: int| 0 <= i < again.len() && again[i] == k;
                        if i < rest.len() {
                            assert(rest.contains(rest[i]));
                        }
                    }
                    if after.contains_key(k) {
                        if k == key {
                            assert(again[again.len() - 1] == k);
                        } else {
                            assert(index.contains_key(k));
                            assert(rest.contains(k));
                            let i = choose|i: int| 0 <= i < rest.len() && rest[i] == k;
                            assert(again[i] == k);
                        }
                    }
                }
                assert(live_size(after, again) == live_size(after, rest) + at.len);
                assert(covers(again, after));
                assert(live_size(after, again) + apply(state, cmd, at).garbage <= limit + at.len);
            },
            CommandView::Remove { key } => {
                assert forall|k: Seq<char>| rest.contains(k) <==> #[trigger] after.contains_key(
                    k,
                ) by {
                    if after.contains_key(k) {
                        assert(index.contains_key(k));
                    }
                }
                assert(covers(rest, after));
                assert(live_size(after, rest) + apply(state, cmd, at).garbage <= limit);
            },
        }
    } else {
        assert forall|i: int| 0 <= i < keys.len() implies after[#[trigger] keys[i]]
            == index[keys[i]] by {
            assert(keys.contains(keys[i]));
        }
        lemma_size_agree(after, index, keys);
        match cmd {
            CommandView::Put { key, value } => {
                let again = keys.push(key);
                assert(again.drop_last() =~= keys);
                assert(again.last() == key);
                assert(distinct(again)) by {
                    assert forall|p: int, q: int| 0 <= p < q < again.len() implies again[p]
                        != again[q] by {
                        if q < keys.len() {
                            assert(keys[p] != keys[q]);
                        } else {
                            assert(keys.contains(keys[p]));
                        }
                    }
                }
                assert forall|k: Seq<char>| again.contains(k) <==> #[trigger] after.contains_key(
                    k,
                ) by {
                    if again.contains(k) {
                        let i = choose|i: int| 0 <= i < again.len() && again[i] == k;
                        if i < keys.len() {
                            assert(keys.contains(keys[i]));
                        }
                    }
                    if after.contains_key(k) {
                        if k == key {
                            assert(again[again.len() - 1] == k);
                        } else {
                            assert(index.contains_key(k));
                            let i = choose|i: int| 0 <= i < keys.len() && keys[i] == k;
                            assert(again[i] == k);
                        }
                    }
                }
                assert(live_size(after, again) == live_size(after, keys) + at.len);
                assert(covers(again, after));
                assert(live_size(after, again) + apply(state, cmd, at).garbage <= limit + at.len);
            },
            CommandView::Remove { key } => {
                assert(!index.contains_key(key));
                assert(after =~= index);
                assert(covers(keys, after));
                assert(live_size(after, keys) + apply(state, cmd, at).garbage <= limit);
            },
        }
    }
}

/// After the records of a log from `pos` on, the records of the index and
/// the displaced bytes are together no more than they were allowed before
/// and the rest of the log.
proof fn lemma_log_bounded(state: Replayed, id: u32, file: Seq<u8>, pos: int, limit: nat)
    requires
        0 <= pos <= file.len(),
        bounded(state, limit),
        replay_log(state, id, file, pos) is Some,
    ensures
        bounded(replay_log(state, id, file, pos)->0, (limit + file.len() - pos) as nat),
    decreases file.len() - pos,
{
    if pos < file.len() {
        let (cmd, len) = record_at(file, pos)->0;
        let at = place(id, pos, len);
        assert(at.len == len);
        lemma_apply_bounded(state, cmd, at, limit);
        lemma_log_bounded(apply(state, cmd, at), id, file, pos + len, limit + at.len as nat);
    }
}

/// After the logs below `bound`, the records of the index and the
/// displaced bytes are together no more than those logs.
proof fn lemma_below_bounded(files: Map<u32, Seq<u8>>, bound: nat)
    requires
        replay_below(files, bound) is Some,
    ensures
        bounded(replay_below(files, bound)->0, size_below(files, bound)),
    decreases bound,
{
    if bound == 0 {
        let none = Seq::<Seq<char>>::empty();
        let index = Map::<Seq<char>, LogIndex>::empty();
        let state = Replayed { index, garbage: 0 };
        assert(replay_below(files, bound) == Some(state));
        assert(covers(none, state.index));
        assert(live_size(state.index, none) + state.garbage <= 0);
        assert(bounded(state, 0));
    } else {
        lemma_below_bounded(files, (bound - 1) as nat);
        let id = (bound - 1) as u32;
        let before = replay_below(files, (bound - 1) as nat)->0;
        if files.contains_key(id) {
            lemma_log_bounded(before, id, files[id], 0, size_below(files, (bound - 1) as nat));
            assert(replay_below(files, bound) == replay_log(before, id, files[id], 0));
            assert(bounded(replay_below(files, bound)->0, size_below(files, bound)));
        } else {
            assert(replay_below(files, bound) == Some(before));
            assert(size_below(files, bound) == size_below(files, (bound - 1) as nat));
        }
    }
}

/// Whatever keys stand for the index, their records and the displaced
/// bytes are together no more than `limit`.
pub proof fn lemma_bounded(state: Replayed, limit: nat, keys: Seq<Seq<char>>)
    requires
        bounded(state, limit),
        covers(keys, state.index),
    ensures
        live_size(state.index, keys) + state.garbage <= limit,
{
    let index = state.index;
    let other = choose|other: Seq<Seq<char>>|
        covers(other, index) && #[trigger] live_size(index, other) + state.garbage <= limit;
    assert forall|key: Seq<char>| keys.contains(key) <==> other.contains(key) by {
        assert(keys.contains(key) <==> index.contains_key(key));
        assert(other.contains(key) <==> index.contains_key(key));
    }
    lemma_size_same(index, keys, other);
}

/// What is bounded stays so under a count of displaced bytes that has
/// grown by no more than the limit has.
pub proof fn lemma_bounded_other(state: Replayed, limit: nat, other: Replayed, more: nat)
    requires
        bounded(state, limit),
        other.index == state.index,
        other.garbage + limit <= state.garbage + more,
    ensures
        bounded(other, more),
{
    let keys = choose|keys: Seq<Seq<char>>|
        covers(keys, state.index) && #[trigger] live_size(state.index, keys) + state.garbage
            <= limit;
    assert(covers(keys, other.index));
    assert(live_size(other.index, keys) + other.garbage <= more);
}

/// Law of the sizes: the records that the index points to and the bytes
/// that a replay counts as displaced are together no more than the logs.
pub proof fn lemma_live_bounded(files: Map<u32, Seq<u8>>, keys: Seq<Seq<char>>)
    requires
        replay(files) is Some,
        covers(keys, replay(files)->0.index),
    ensures
        bounded(replay(files)->0, total_size(files)),
        live_size(replay(files)->0.index, keys) + replay(files)->0.garbage <= total_size(files),
{
    lemma_below_bounded(files, 0x1_0000_0000);
    lemma_bounded(replay(files)->0, total_size(files), keys);
}

/// Law of the sizes: a replay leaves no more live and displaced bytes
/// than the logs hold.
pub proof fn lemma_replay_bounded(files: Map<u32, Seq<u8>>)
    requires
        replay(files) is Some,
    ensures
        bounded(replay(files)->0, total_size(files)),
{
    lemma_below_bounded(files, 0x1_0000_0000);
}

/// A compacted log is no longer than the records that it holds once more.
pub proof fn lemma_compacted_size(
    files: Map<u32, Seq<u8>>,
    index: Map<Seq<char>, LogIndex>,
    keys: Seq<Seq<char>>,
)
    requires
        all_point(files, index),
        forall|i: int| 0 <= i < keys.len() ==> index.contains_key(#[trigger] keys[i]),
        compacted(keys, contents(files, index)) is Ok,
    ensures
        compacted(keys, contents(files, index))->Ok_0.len() <= live_size(index, keys),
    decreases keys.len(),
{
    if keys.len() > 0 {
        let most = keys.drop_last();
        assert forall|i: int| 0 <= i < most.len() implies index.contains_key(
            #[trigger] most[i],
        ) by {
            assert(most[i] == keys[i]);
        }
        lemma_compacted_size(files, index, most);
        let key = keys.last();
        assert(key == keys[keys.len() - 1]);
        assert(points_to(files, key, index[key]));
        crate::codec::lemma_encoded_len(live(contents(files, index), key));
    }
}

/// A directory of one log is as long as that log.
pub proof fn lemma_single_size(id: u32, bytes: Seq<u8>)
    ensures
        total_size(Map::<u32, Seq<u8>>::empty().insert(id, bytes)) == bytes.len(),
{
    let files = Map::<u32, Seq<u8>>::empty().insert(id, bytes);
    lemma_size_below_gap(files, 0, id as nat);
    lemma_size_below_gap(files, (id + 1) as nat, 0x1_0000_0000);
    assert(size_below(files, 0) == 0);
    assert(size_below(files, (id + 1) as nat) == size_below(files, id as nat) + bytes.len());
}

} // verus!

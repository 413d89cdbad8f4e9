//! What compaction writes: one log that holds, for each key in the order of
//! the keys, the record that binds the key to its value.
use crate::codec::{encoded, encoded_len, record_at, CommandView};
use crate::engine::keydir::LogIndex;
use crate::engine::replay::{
    apply, contents, lemma_record_prefix, lemma_replay_append, lemma_replay_gap, place, replay,
    replay_below, replay_log, value_at, Replayed,
};
use crate::error::CyKvError;
use vstd::prelude::*;

verus! {

/// The command that binds `key` to the value that the store has for it.
pub open spec fn live(store: Map<Seq<char>, Seq<char>>, key: Seq<char>) -> CommandView {
    CommandView::Put { key, value: store[key] }
}

/// The bytes of the log that compaction writes for the keys `keys`: the
/// record of each key, in the order of the keys. Where the log would be
/// longer than a log can be, there is the error `Io`.
pub open spec fn compacted(
    keys: Seq<Seq<char>>,
    store: Map<Seq<char>, Seq<char>>,
) -> Result<Seq<u8>, CyKvError>
    decreases keys.len(),
{
    if keys.len() == 0 {
        Ok(Seq::empty())
    } else {
        match compacted(keys.drop_last(), store) {
            Err(e) => Err(e),
            Ok(bytes) => {
                let cmd = live(store, keys.last());
                if bytes.len() + encoded_len(cmd) > usize::MAX {
                    Err(CyKvError::Io)
                } else {
                    Ok(bytes + encoded(cmd))
                }
            },
        }
    }
}

/// What a compaction of a store whose last log is `log_id` comes to: the
/// bytes of the new log, or the error that stops it. There is no log
/// behind the one with the greatest id that there is: `Internal`.
pub open spec fn compaction(
    log_id: u32,
    keys: Seq<Seq<char>>,
    store: Map<Seq<char>, Seq<char>>,
) -> Result<Seq<u8>, CyKvError> {
    if log_id == u32::MAX {
        Err(CyKvError::Internal)
    } else {
        compacted(keys, store)
    }
}

/// The length of the compacted log up to the key `i`: the offset of the
/// record of that key.
pub open spec fn offset_of(keys: Seq<Seq<char>>, store: Map<Seq<char>, Seq<char>>, i: int) -> int {
    match compacted(keys.take(i), store) {
        Ok(bytes) => bytes.len() as int,
        Err(_) => 0,
    }
}

/// The place of the record of the key `i` in the compacted log `id`.
pub open spec fn place_of(
    id: u32,
    keys: Seq<Seq<char>>,
    store: Map<Seq<char>, Seq<char>>,
    i: int,
) -> LogIndex {
    place(id, offset_of(keys, store, i), encoded_len(live(store, keys[i])) as int)
}

/// The index over the compacted log `id`.
pub open spec fn compact_index(
    id: u32,
    keys: Seq<Seq<char>>,
    store: Map<Seq<char>, Seq<char>>,
) -> Map<Seq<char>, LogIndex>
    decreases keys.len(),
{
    if keys.len() == 0 {
        Map::empty()
    } else {
        compact_index(id, keys.drop_last(), store).insert(
            keys.last(),
            place_of(id, keys, store, keys.len() - 1),
        )
    }
}

/// The record of each key decodes to the command of that key.
pub open spec fn decodes(keys: Seq<Seq<char>>, store: Map<Seq<char>, Seq<char>>) -> bool {
    forall|i: int|
        0 <= i < keys.len() ==> record_at(encoded(#[trigger] live(store, keys[i])), 0) == Some(
            (live(store, keys[i]), encoded(live(store, keys[i])).len() as int),
        )
}

/// No key comes twice.
pub open spec fn distinct(keys: Seq<Seq<char>>) -> bool {
    forall|i: int, j: int| 0 <= i < j < keys.len() ==> keys[i] != keys[j]
}

/// An error among the first keys is the error of the whole.
pub proof fn lemma_compacted_err(keys: Seq<Seq<char>>, store: Map<Seq<char>, Seq<char>>, n: int)
    requires
        0 <= n <= keys.len(),
        compacted(keys.take(n), store) is Err,
    ensures
        compacted(keys, store) == compacted(keys.take(n), store),
    decreases keys.len() - n,
{
    if n == keys.len() {
        assert(keys.take(n) =~= keys);
    } else {
        assert(keys.drop_last().take(n) =~= keys.take(n));
        lemma_compacted_err(keys.drop_last(), store, n);
    }
}

/// Where the whole can be written, so can the first keys, and the record
/// of each key stands at its offset.
pub proof fn lemma_compacted_take(keys: Seq<Seq<char>>, store: Map<Seq<char>, Seq<char>>, n: int)
    requires
        0 <= n <= keys.len(),
        compacted(keys, store) is Ok,
    ensures
        compacted(keys.take(n), store) is Ok,
        compacted(keys.take(n), store)->Ok_0.len() <= compacted(keys, store)->Ok_0.len(),
        compacted(keys, store)->Ok_0.subrange(0, compacted(keys.take(n), store)->Ok_0.len() as int)
            == compacted(keys.take(n), store)->Ok_0,
    decreases keys.len() - n,
{
    if n == keys.len() {
        assert(keys.take(n) =~= keys);
        let bytes = compacted(keys, store)->Ok_0;
        assert(bytes.subrange(0, bytes.len() as int) =~= bytes);
    } else {
        assert(keys.drop_last().take(n) =~= keys.take(n));
        lemma_compacted_take(keys.drop_last(), store, n);
        let whole = compacted(keys, store)->Ok_0;
        let most = compacted(keys.drop_last(), store)->Ok_0;
        let part = compacted(keys.take(n), store)->Ok_0;
        assert(whole.subrange(0, part.len() as int) =~= most.subrange(0, part.len() as int));
    }
}

/// The place of each key in the index over the compacted log.
pub proof fn lemma_compact_index(
    id: u32,
    keys: Seq<Seq<char>>,
    store: Map<Seq<char>, Seq<char>>,
)
    requires
        distinct(keys),
    ensures
        forall|key: Seq<char>| #[trigger]
            compact_index(id, keys, store).contains_key(key) <==> keys.contains(key),
        forall|i: int|
            0 <= i < keys.len() ==> compact_index(id, keys, store)[#[trigger] keys[i]] == place_of(
                id,
                keys,
                store,
                i,
            ),
    decreases keys.len(),
{
    if keys.len() > 0 {
        let most = keys.drop_last();
        lemma_compact_index(id, most, store);
        assert forall|key: Seq<char>| compact_index(id, keys, store).contains_key(key)
            <==> keys.contains(key) by {
            if keys.contains(key) {
                let i = choose|i: int| 0 <= i < keys.len() && keys[i] == key;
                if i < keys.len() - 1 {
                    assert(most[i] == key);
                }
            }
            if most.contains(key) {
                let i = choose|i: int| 0 <= i < most.len() && most[i] == key;
                assert(keys[i] == key);
            }
        }
        assert forall|i: int| 0 <= i < keys.len() implies compact_index(
            id,
            keys,
            store,
        )[#[trigger] keys[i]] == place_of(id, keys, store, i) by {
            if i < keys.len() - 1 {
                assert(most[i] == keys[i]);
                assert(keys[i] != keys[keys.len() - 1]);
                assert(most.take(i) =~= keys.take(i));
            }
        }
    }
}

/// What holds of all keys holds of all but the last.
proof fn lemma_decodes_most(keys: Seq<Seq<char>>, store: Map<Seq<char>, Seq<char>>)
    requires
        keys.len() > 0,
        decodes(keys, store),
        distinct(keys),
    ensures
        decodes(keys.drop_last(), store),
        distinct(keys.drop_last()),
        !keys.drop_last().contains(keys.last()),
        record_at(encoded(live(store, keys.last())), 0) == Some(
            (live(store, keys.last()), encoded(live(store, keys.last())).len() as int),
        ),
{
    let most = keys.drop_last();
    assert forall|i: int| 0 <= i < most.len() implies record_at(
        encoded(#[trigger] live(store, most[i])),
        0,
    ) == Some((live(store, most[i]), encoded(live(store, most[i])).len() as int)) by {
        assert(most[i] == keys[i]);
        assert(live(store, keys[i]) == live(store, most[i]));
    }
    assert forall|i: int, j: int| 0 <= i < j < most.len() implies most[i] != most[j] by {
        assert(keys[i] != keys[j]);
    }
    if most.contains(keys.last()) {
        let i = choose|i: int| 0 <= i < most.len() && most[i] == keys.last();
        assert(keys[i] == keys[keys.len() - 1]);
    }
    assert(live(store, keys[keys.len() - 1]) == live(store, keys.last()));
}

/// Replaying the compacted log gives the index over it, with no garbage.
pub proof fn lemma_compacted_replay(
    id: u32,
    keys: Seq<Seq<char>>,
    store: Map<Seq<char>, Seq<char>>,
)
    requires
        compacted(keys, store) is Ok,
        decodes(keys, store),
        distinct(keys),
    ensures
        replay_log(
            Replayed { index: Map::empty(), garbage: 0 },
            id,
            compacted(keys, store)->Ok_0,
            0,
        ) == Some(Replayed { index: compact_index(id, keys, store), garbage: 0 }),
    decreases keys.len(),
{
    let start = Replayed { index: Map::empty(), garbage: 0 };
    if keys.len() > 0 {
        let most = keys.drop_last();
        let bytes = compacted(most, store)->Ok_0;
        let cmd = live(store, keys.last());
        let record = encoded(cmd);
        lemma_decodes_most(keys, store);
        lemma_compacted_replay(id, most, store);
        lemma_compact_index(id, most, store);
        crate::codec::lemma_encoded_len(cmd);
        let before = Replayed { index: compact_index(id, most, store), garbage: 0 };
        let at = place(id, bytes.len() as int, record.len() as int);
        lemma_replay_append(start, id, bytes, record, cmd, 0);
        assert(compacted(keys, store)->Ok_0 == bytes + record);
        assert(keys.take(keys.len() - 1) =~= most);
        assert(place_of(id, keys, store, keys.len() - 1) == at);
        assert(!before.index.contains_key(keys.last()));
        assert(apply(before, cmd, at) == Replayed {
            index: compact_index(id, keys, store),
            garbage: 0,
        });
    }
}

/// The record of each key stands at its place in the compacted log.
pub proof fn lemma_compacted_record(keys: Seq<Seq<char>>, store: Map<Seq<char>, Seq<char>>, i: int)
    requires
        compacted(keys, store) is Ok,
        decodes(keys, store),
        0 <= i < keys.len(),
    ensures
        record_at(compacted(keys, store)->Ok_0, offset_of(keys, store, i)) == Some(
            (live(store, keys[i]), encoded_len(live(store, keys[i])) as int),
        ),
{
    let whole = compacted(keys, store)->Ok_0;
    let upto = keys.take(i + 1);
    lemma_compacted_take(keys, store, i + 1);
    let part = compacted(upto, store)->Ok_0;
    assert(upto.drop_last() =~= keys.take(i));
    assert(upto.last() == keys[i]);
    let bytes = compacted(keys.take(i), store)->Ok_0;
    let cmd = live(store, keys[i]);
    let record = encoded(cmd);
    assert(part == bytes + record);
    crate::codec::lemma_encoded_len(cmd);
    crate::engine::replay::lemma_record_appended(bytes, record, cmd);
    lemma_record_prefix(part, whole, bytes.len() as int);
}

/// Replaying a directory of one log is replaying that log.
pub proof fn lemma_replay_single(id: u32, bytes: Seq<u8>)
    ensures
        replay(Map::<u32, Seq<u8>>::empty().insert(id, bytes)) == replay_log(
            Replayed { index: Map::empty(), garbage: 0 },
            id,
            bytes,
            0,
        ),
{
    let files = Map::<u32, Seq<u8>>::empty().insert(id, bytes);
    lemma_replay_gap(files, 0, id as nat);
    lemma_replay_gap(files, (id + 1) as nat, 0x1_0000_0000);
    assert(replay_below(files, 0) == Some(Replayed { index: Map::empty(), garbage: 0 }));
    assert(replay_below(files, (id + 1) as nat) == match replay_below(files, id as nat) {
        Some(state) => replay_log(state, id, files[id], 0),
        None => None,
    });
}

/// Law of compaction: the index over the compacted log stands for the
/// store that was compacted.
pub proof fn lemma_compacted_contents(
    id: u32,
    keys: Seq<Seq<char>>,
    store: Map<Seq<char>, Seq<char>>,
)
    requires
        compacted(keys, store) is Ok,
        compacted(keys, store)->Ok_0.len() <= usize::MAX,
        decodes(keys, store),
        distinct(keys),
        forall|key: Seq<char>| #[trigger] store.contains_key(key) <==> keys.contains(key),
    ensures
        contents(
            Map::<u32, Seq<u8>>::empty().insert(id, compacted(keys, store)->Ok_0),
            compact_index(id, keys, store),
        ) == store,
{
    let bytes = compacted(keys, store)->Ok_0;
    let files = Map::<u32, Seq<u8>>::empty().insert(id, bytes);
    let index = compact_index(id, keys, store);
    lemma_compact_index(id, keys, store);
    assert forall|key: Seq<char>| store.contains_key(key) implies value_at(files, index[key])
        == store[key] by {
        assert(keys.contains(key));
        let i = choose|i: int| 0 <= i < keys.len() && keys[i] == key;
        lemma_value_at(id, keys, store, i);
    }
    assert(contents(files, index) =~= store);
}

/// The record at the place of the key `i` binds the value of that key.
proof fn lemma_value_at(id: u32, keys: Seq<Seq<char>>, store: Map<Seq<char>, Seq<char>>, i: int)
    requires
        compacted(keys, store) is Ok,
        compacted(keys, store)->Ok_0.len() <= usize::MAX,
        decodes(keys, store),
        0 <= i < keys.len(),
    ensures
        value_at(
            Map::<u32, Seq<u8>>::empty().insert(id, compacted(keys, store)->Ok_0),
            place_of(id, keys, store, i),
        ) == store[keys[i]],
{
    lemma_compacted_take(keys, store, i);
    lemma_compacted_record(keys, store, i);
}

} // verus!

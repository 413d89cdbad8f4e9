//! The store: a directory of logs, the index over them, and the handle of
//! the one log that is written to.
//!
//! Commands are appended to the log with the greatest id. When the bytes of
//! displaced records reach `COMPACT_THRESHOLD`, the live records are written
//! to a new log, whose id is one greater, and all other logs are deleted.
use crate::cache::{Cache, CacheManager, SeekFrom};
use crate::codec::{decode_from, encode, encoded, encoded_len, record_at, Command, CommandView};
use crate::disk::{lemma_size_insert, sized, total_size, Disk};
use crate::engine::sizes::{
    bounded, lemma_apply_bounded, lemma_bounded, lemma_bounded_other, lemma_replay_bounded,
};
use crate::engine::buffer::BufWriter;
use crate::engine::compaction::{
    compact_index, compacted, compaction, decodes, distinct, lemma_compact_index,
    lemma_compacted_contents, lemma_compacted_err, lemma_compacted_replay, lemma_replay_single,
    live, place_of,
};
use crate::engine::keydir::{
    key_before, key_le, key_lt, lemma_key_lt_total, lemma_key_lt_trans, Keydir, LogIndex,
};
use crate::engine::reads::{
    command_at, lemma_looked_up, lemma_scan_fails, lemma_scan_none, lemma_scan_read,
    lemma_scan_rest, looked_up, read_value, scan_read,
};
use crate::engine::replay::{
    add_bytes, all_point, apply, contents, displaced, lemma_contents_put, lemma_contents_remove,
    lemma_replay_gap, lemma_replay_last, lemma_replay_new_log, lemma_replay_points, place,
    points_to, replay, replay_below, replay_log, value_at, Replayed,
};
use crate::disk::DiskOp;
use crate::engine::KvEngine;
use crate::error::CyKvError;
use crate::utils::{is_log, lemma_log_name, log_id, log_name, log_path, parse_log_name};
use vstd::prelude::*;

verus! {

/// The bytes of displaced records at which the store compacts: 32 MiB.
pub const COMPACT_THRESHOLD: u64 = 33_554_432;

/// One file of a directory: its name and its bytes.
pub struct DirEntry {
    pub name: String,
    pub data: Vec<u8>,
}

impl DeepView for DirEntry {
    type V = (Seq<char>, Seq<u8>);

    open spec fn deep_view(&self) -> (Seq<char>, Seq<u8>) {
        (self.name@, self.data@)
    }
}

/// The logs among the files of a directory, each under the id that its
/// name gives. There is none where the name of a log gives no id, or
/// where two logs have the same id.
pub open spec fn logs_of(entries: Seq<(Seq<char>, Seq<u8>)>) -> Option<Map<u32, Seq<u8>>>
    decreases entries.len(),
{
    if entries.len() == 0 {
        Some(Map::empty())
    } else {
        let (name, data) = entries.last();
        match logs_of(entries.drop_last()) {
            None => None,
            Some(files) => if !is_log(name) {
                Some(files)
            } else {
                match log_id(name) {
                    None => None,
                    Some(id) => if files.contains_key(id) {
                        None
                    } else {
                        Some(files.insert(id, data))
                    },
                }
            },
        }
    }
}

/// `entries` are the logs `files`, each under its name, in the order of
/// the ids.
pub open spec fn listed(entries: Seq<(Seq<char>, Seq<u8>)>, files: Map<u32, Seq<u8>>) -> bool {
    &&& logs_of(entries) == Some(files)
    &&& forall|i: int|
        0 <= i < entries.len() ==> {
            &&& log_id(#[trigger] entries[i].0) matches Some(id)
            &&& entries[i].0 == log_name(id)
            &&& files.contains_key(id)
            &&& entries[i].1 == files[id]
        }
    &&& forall|i: int, j: int|
        0 <= i < j < entries.len() ==> log_id(#[trigger] entries[i].0)->0 < log_id(
            #[trigger] entries[j].0,
        )->0
}

/// One more than the greatest id below `bound` that has a log, or zero.
pub open spec fn top(files: Map<u32, Seq<u8>>, bound: nat) -> nat
    decreases bound,
{
    if bound == 0 {
        0
    } else if files.contains_key((bound - 1) as u32) {
        bound
    } else {
        top(files, (bound - 1) as nat)
    }
}

/// The id of the log that a store opens for writing: one more than the
/// greatest id of the directory, and 1 where the directory has no log.
pub open spec fn next_id(files: Map<u32, Seq<u8>>) -> nat {
    if top(files, 0x1_0000_0000) == 0 {
        1
    } else {
        top(files, 0x1_0000_0000)
    }
}

/// `key` lies between `begin` and `end`, both included.
pub open spec fn in_range(key: Seq<char>, begin: Seq<char>, end: Seq<char>) -> bool {
    key_le(begin, key) && key_le(key, end)
}

/// What a scan gives: the values of the keys between `begin` and `end`, in
/// the order of the keys.
pub open spec fn scanned(
    keys: Seq<Seq<char>>,
    store: Map<Seq<char>, Seq<char>>,
    begin: Seq<char>,
    end: Seq<char>,
) -> Seq<Seq<char>>
    decreases keys.len(),
{
    if keys.len() == 0 {
        Seq::empty()
    } else {
        let values = scanned(keys.drop_last(), store, begin, end);
        if in_range(keys.last(), begin, end) {
            values.push(store[keys.last()])
        } else {
            values
        }
    }
}

/// Law of the scan: what a scan gives are the keys between `begin` and
/// `end`, in the order in which the index has them, each with its value.
pub proof fn lemma_scanned(
    keys: Seq<Seq<char>>,
    store: Map<Seq<char>, Seq<char>>,
    begin: Seq<char>,
    end: Seq<char>,
)
    ensures
        scanned(keys, store, begin, end) == keys.filter(
            |key: Seq<char>| in_range(key, begin, end),
        ).map_values(|key: Seq<char>| store[key]),
    decreases keys.len(),
{
    reveal(Seq::filter);
    let wanted = |key: Seq<char>| in_range(key, begin, end);
    let value = |key: Seq<char>| store[key];
    if keys.len() > 0 {
        lemma_scanned(keys.drop_last(), store, begin, end);
        let most = keys.drop_last().filter(wanted);
        if in_range(keys.last(), begin, end) {
            assert(most.push(keys.last()).map_values(value) =~= most.map_values(value).push(
                store[keys.last()],
            ));
        }
    } else {
        assert(keys.filter(wanted).map_values(value) =~= Seq::<Seq<char>>::empty());
    }
}

/// The state of the store. It owns the directory, the index, and the handle
/// of the log that is written to.
pub struct CyStoreWriter<M: CacheManager> {
    disk: Disk,
    cache_manager: M,
    keydir: Keydir,
    log_id: u32,
    uncompacted: u64,
    writer: M::Handle,
}

/// The store.
pub struct CyStore<M: CacheManager> {
    writer: CyStoreWriter<M>,
}

/// Replays the records of one log into the index.
pub fn read_log(id: u32, file: &Vec<u8>, keydir: &mut Keydir, uncompacted: &mut u64) -> (out: Result<(), CyKvError>)
    requires
        old(keydir).wf(),
    ensures
        final(keydir).wf(),
        match replay_log(
            Replayed { index: old(keydir)@, garbage: *old(uncompacted) },
            id,
            file@,
            0,
        ) {
            Some(state) => out is Ok && final(keydir)@ == state.index && *final(uncompacted)
                == state.garbage,
            None => out == Err::<(), CyKvError>(CyKvError::Deserialize),
        },
{
    let mut pos: usize = 0;
    let len = file.len();
    let ghost start = Replayed { index: keydir@, garbage: *uncompacted };
    while pos < len
        invariant
            keydir.wf(),
            len == file@.len(),
            pos <= len,
            start == (Replayed { index: old(keydir)@, garbage: *old(uncompacted) }),
            replay_log(start, id, file@, 0) == replay_log(
                Replayed { index: keydir@, garbage: *uncompacted },
                id,
                file@,
                pos as int,
            ),
        decreases len - pos,
    {
        let ghost state = Replayed { index: keydir@, garbage: *uncompacted };
        match decode_from(file.as_slice(), pos) {
            Err(_) => {
                assert(replay_log(state, id, file@, pos as int) is None);
                return Err(CyKvError::Deserialize);
            },
            Ok((command, record_len)) => {
                let index = LogIndex::new(id, pos as u64, record_len as u64);
                assert(index == place(id, pos as int, record_len as int));
                let previous = match command {
                    Command::Put { key, value } => keydir.insert(key, index),
                    Command::Remove { key } => keydir.remove(&key),
                };
                if let Some(old_index) = previous {
                    *uncompacted = uncompacted.saturating_add(old_index.len);
                }
                assert(Replayed { index: keydir@, garbage: *uncompacted } == apply(
                    state,
                    command@,
                    index,
                ));
                pos = pos + record_len;
            },
        }
    }
    Ok(())
}

impl<M: CacheManager> CyStoreWriter<M> {
    /// The logs of the directory.
    pub closed spec fn files(&self) -> Map<u32, Seq<u8>> {
        self.disk@
    }

    /// The place of the live record of each key.
    pub closed spec fn index(&self) -> Map<Seq<char>, LogIndex> {
        self.keydir@
    }

    /// The keys, in their order.
    pub closed spec fn keys(&self) -> Seq<Seq<char>> {
        self.keydir.keys()
    }

    /// The id of the log that is written to.
    pub closed spec fn log_id(&self) -> u32 {
        self.log_id
    }

    /// The bytes of displaced records since the store last compacted.
    pub closed spec fn uncompacted(&self) -> u64 {
        self.uncompacted
    }

    /// The logs of the directory as they were when the journal was last
    /// taken.
    pub closed spec fn base(&self) -> Map<u32, Seq<u8>> {
        self.disk.base()
    }

    /// The changes that the directory has seen since the journal was last
    /// taken.
    pub closed spec fn journal(&self) -> Seq<crate::disk::DiskChange> {
        self.disk.journal()
    }

    /// Law of the journal: its changes, applied in order to the logs as
    /// they were when the journal was last taken, give the logs as they
    /// are.
    pub proof fn lemma_journal(&self)
        requires
            self.wf(),
        ensures
            crate::disk::apply_ops(self.base(), self.journal()) == self.files(),
    {
        self.disk.lemma_journal();
    }

    /// What the store holds: each key with its value.
    pub open spec fn view(&self) -> Map<Seq<char>, Seq<char>> {
        contents(self.files(), self.index())
    }

    /// The store can be read and written to: the directory and the index
    /// are sound each for itself, the log that is written to is the last
    /// one, and its handle stands at its end. Whether the index is what
    /// the logs say is left open.
    pub closed spec fn ready(&self) -> bool {
        &&& self.disk.wf()
        &&& self.cache_manager.inv(self.disk@)
        &&& self.keydir.wf()
        &&& self.disk@.contains_key(self.log_id)
        &&& forall|id: u32| self.disk@.contains_key(id) ==> id <= self.log_id
        &&& self.writer.file_id() == self.log_id
        &&& self.writer.position() == self.disk@[self.log_id].len()
    }

    /// The index is what the logs say, the log that is written to is the
    /// last one, and its handle stands at its end. The bytes that are
    /// counted as displaced are in the logs, beside the records of the
    /// index.
    pub closed spec fn wf(&self) -> bool {
        &&& self.ready()
        &&& replay(self.disk@) matches Some(state) && state.index == self.keydir@
        &&& bounded(
            Replayed { index: self.keydir@, garbage: self.uncompacted },
            total_size(self.disk@),
        )
    }

    /// What the store is after a command whose record made the logs
    /// `appended`, with `garbage` bytes of displaced records: below the
    /// threshold it is just that, and else it is compacted into the log
    /// behind `log_id`, which is shorter than the logs were by the
    /// displaced bytes or more, or left with the error that stops the
    /// compaction.
    pub open spec fn settled(
        &self,
        appended: Map<u32, Seq<u8>>,
        log_id: u32,
        garbage: u64,
        out: Result<(), CyKvError>,
    ) -> bool {
        if garbage < COMPACT_THRESHOLD {
            &&& out is Ok
            &&& self.files() == appended
            &&& self.log_id() == log_id
            &&& self.uncompacted() == garbage
        } else {
            match compaction(log_id, self.keys(), self@) {
                Ok(bytes) => {
                    &&& out is Ok
                    &&& self.files() == Map::<u32, Seq<u8>>::empty().insert(
                        (log_id + 1) as u32,
                        bytes,
                    )
                    &&& self.log_id() == log_id + 1
                    &&& self.uncompacted() == 0
                    &&& self.index() == compact_index((log_id + 1) as u32, self.keys(), self@)
                    &&& total_size(self.files()) + garbage <= total_size(appended)
                },
                Err(e) => {
                    &&& out == Err::<(), CyKvError>(e)
                    &&& self.files() == appended
                    &&& self.log_id() == log_id
                    &&& self.uncompacted() == garbage
                },
            }
        }
    }

    /// Appends the record of `cmd` to the log that is written to.
    fn append_command(&mut self, cmd: &Command) -> (out: Result<LogIndex, CyKvError>)
        requires
            old(self).ready(),
        ensures
            final(self).ready(),
            final(self).keydir == old(self).keydir,
            final(self).log_id == old(self).log_id,
            final(self).uncompacted == old(self).uncompacted,
            final(self).disk.base() == old(self).disk.base(),
            ({
                let log = old(self).disk@[old(self).log_id];
                if encoded_len(cmd@) > i32::MAX {
                    &&& out matches Err(e) && e == CyKvError::Serialize
                    &&& final(self).disk@ == old(self).disk@
                } else if log.len() + encoded_len(cmd@) > usize::MAX {
                    &&& out matches Err(e) && e == CyKvError::Io
                    &&& final(self).disk@ == old(self).disk@
                } else {
                    &&& out matches Ok(index)
                    &&& index == place(
                        old(self).log_id,
                        log.len() as int,
                        encoded_len(cmd@) as int,
                    )
                    &&& index.command_pos == log.len()
                    &&& index.len == encoded_len(cmd@)
                    &&& final(self).disk@ == old(self).disk@.insert(
                        old(self).log_id,
                        log + encoded(cmd@),
                    )
                    &&& record_at(encoded(cmd@), 0) == Some((cmd@, encoded(cmd@).len() as int))
                    &&& encoded(cmd@).len() == encoded_len(cmd@)
                }
            }),
    {
        let bytes = encode(cmd)?;
        let pos = self.writer.offset();
        proof {
            crate::codec::lemma_encoded_len(cmd@);
            self.disk.lemma_sized();
        }
        let ghost log = self.disk@[self.log_id];
        match self.cache_manager.write(&mut self.disk, &mut self.writer, bytes.as_slice()) {
            Err(_) => Err(CyKvError::Io),
            Ok(_) => {
                proof {
                    assert(crate::disk::write_at(log, pos as int, bytes@) =~= log + bytes@);
                    assert forall|id: u32| self.disk@.contains_key(id) implies id
                        <= self.log_id by {
                        assert(old(self).disk@.contains_key(id));
                    }
                }
                Ok(LogIndex::new(self.log_id, pos, bytes.len() as u64))
            },
        }
    }

    /// Binds `key` to `value`: appends the record of that, and compacts
    /// where the displaced records have reached the threshold.
    ///
    /// A record that would be too long is refused with `Serialize`, one
    /// that the log has no room for with `Io`; the store is then as it
    /// was. An error of the compaction comes after the key is bound.
    pub fn set(&mut self, key: String, value: String) -> (out: Result<(), CyKvError>)
        requires
            old(self).wf(),
        ensures
            final(self).wf(),
            final(self).base() == old(self).base(),
            ({
                let cmd = CommandView::Put { key: key@, value: value@ };
                let log = old(self).files()[old(self).log_id()];
                if encoded_len(cmd) > i32::MAX {
                    out == Err::<(), CyKvError>(CyKvError::Serialize) && final(self).unchanged(
                        old(self),
                    )
                } else if log.len() + encoded_len(cmd) > usize::MAX {
                    out == Err::<(), CyKvError>(CyKvError::Io) && final(self).unchanged(old(self))
                } else {
                    &&& final(self)@ == old(self)@.insert(key@, value@)
                    &&& final(self).settled(
                        old(self).files().insert(old(self).log_id(), log + encoded(cmd)),
                        old(self).log_id(),
                        add_bytes(old(self).uncompacted(), displaced(old(self).index(), key@)),
                        out,
                    )
                }
            }),
    {
        let cmd = Command::Put { key: key.clone(), value };
        proof {
            self.lemma_wf();
        }
        let ghost files = self.disk@;
        let ghost index = self.keydir@;
        let log_index = match self.append_command(&cmd) {
            Ok(log_index) => log_index,
            Err(e) => {
                return Err(e);
            },
        };
        if let Some(previous) = self.keydir.insert(key, log_index) {
            self.uncompacted = self.uncompacted.saturating_add(previous.len);
        }
        proof {
            lemma_replay_last(files, self.log_id, encoded(cmd@), cmd@);
            lemma_contents_put(files, index, self.log_id, encoded(cmd@), key@, cmd@->Put_value);
            let counted = Replayed { index, garbage: old(self).uncompacted };
            lemma_apply_bounded(counted, cmd@, log_index, total_size(files));
            lemma_size_insert(files, self.log_id, files[self.log_id] + encoded(cmd@));
            assert(apply(counted, cmd@, log_index) == Replayed {
                index: self.keydir@,
                garbage: self.uncompacted,
            });
        }
        if self.uncompacted >= COMPACT_THRESHOLD {
            self.compact()
        } else {
            Ok(())
        }
    }

    /// Erases `key`: appends the record of that, and compacts where the
    /// displaced records have reached the threshold.
    ///
    /// A key that the store does not have is refused with `KeyNotFound`,
    /// a record that the log has no room for with `Io`. In each case the
    /// store is as it was. An error of the compaction comes after the key
    /// is erased.
    pub fn remove(&mut self, key: String) -> (out: Result<(), CyKvError>)
        requires
            old(self).wf(),
        ensures
            final(self).wf(),
            final(self).base() == old(self).base(),
            ({
                let cmd = CommandView::Remove { key: key@ };
                let log = old(self).files()[old(self).log_id()];
                if !old(self)@.contains_key(key@) {
                    &&& out matches Err(CyKvError::KeyNotFound(k)) && k@ == key@
                    &&& final(self).unchanged(old(self))
                } else if log.len() + encoded_len(cmd) > usize::MAX {
                    out == Err::<(), CyKvError>(CyKvError::Io) && final(self).unchanged(old(self))
                } else {
                    &&& final(self)@ == old(self)@.remove(key@)
                    &&& final(self).settled(
                        old(self).files().insert(old(self).log_id(), log + encoded(cmd)),
                        old(self).log_id(),
                        add_bytes(
                            add_bytes(
                                old(self).uncompacted(),
                                displaced(old(self).index(), key@),
                            ),
                            encoded_len(cmd) as u64,
                        ),
                        out,
                    )
                }
            }),
    {
        proof {
            self.lemma_wf();
        }
        if self.keydir.get(&key).is_none() {
            return Err(CyKvError::KeyNotFound(key));
        }
        let ghost files = self.disk@;
        let ghost index = self.keydir@;
        let ghost k = key@;
        let cmd = Command::Remove { key: key.clone() };
        proof {
            // The record of the key is no shorter than the record that
            // erases it.
            assert(points_to(files, k, index[k]));
        }
        let log_index = match self.append_command(&cmd) {
            Ok(log_index) => log_index,
            Err(e) => {
                return Err(e);
            },
        };
        if let Some(previous) = self.keydir.remove(&key) {
            self.uncompacted = self.uncompacted.saturating_add(previous.len);
        }
        self.uncompacted = self.uncompacted.saturating_add(log_index.len);
        proof {
            lemma_replay_last(files, self.log_id, encoded(cmd@), cmd@);
            lemma_contents_remove(files, index, self.log_id, encoded(cmd@), k);
            let counted = Replayed { index, garbage: old(self).uncompacted };
            lemma_apply_bounded(counted, cmd@, log_index, total_size(files));
            lemma_size_insert(files, self.log_id, files[self.log_id] + encoded(cmd@));
            lemma_bounded_other(
                apply(counted, cmd@, log_index),
                total_size(files),
                Replayed { index: self.keydir@, garbage: self.uncompacted },
                total_size(self.disk@),
            );
        }
        if self.uncompacted >= COMPACT_THRESHOLD {
            self.compact()
        } else {
            Ok(())
        }
    }

    /// Writes the live records to a new log, whose id is one greater than
    /// that of the log that is written to, deletes all other logs, and
    /// goes on writing to the new one. The store holds what it held.
    ///
    /// Where there is no greater id, the compaction is refused with
    /// `Internal`; where the new log would be longer than a log can be,
    /// with `Io`. The store is then as it was. The bytes that were
    /// counted as displaced leave the directory: the new log and they
    /// are together no more than the logs were.
    pub fn compact(&mut self) -> (out: Result<(), CyKvError>)
        requires
            old(self).wf(),
        ensures
            final(self).wf(),
            final(self).base() == old(self).base(),
            final(self)@ == old(self)@,
            final(self).keys() == old(self).keys(),
            match compaction(old(self).log_id(), old(self).keys(), old(self)@) {
                Ok(bytes) => {
                    &&& out is Ok
                    &&& final(self).files() == Map::<u32, Seq<u8>>::empty().insert(
                        (old(self).log_id() + 1) as u32,
                        bytes,
                    )
                    &&& final(self).log_id() == old(self).log_id() + 1
                    &&& final(self).uncompacted() == 0
                    &&& final(self).index() == compact_index(
                        (old(self).log_id() + 1) as u32,
                        old(self).keys(),
                        old(self)@,
                    )
                    &&& total_size(final(self).files()) + old(self).uncompacted() <= total_size(
                        old(self).files(),
                    )
                },
                Err(e) => out == Err::<(), CyKvError>(e) && final(self).unchanged(old(self)),
            },
    {
        if self.log_id == u32::MAX {
            return Err(CyKvError::Internal);
        }
        let compact_log_id = self.log_id + 1;
        let (bytes, places) = match self.rewrite(compact_log_id) {
            Ok(rewritten) => rewritten,
            Err(e) => {
                return Err(e);
            },
        };
        let ghost keys = self.keydir.keys();
        let ghost store = self@;
        let ghost files = self.disk@;
        proof {
            self.lemma_wf();
            self.keydir.lemma_view();
            lemma_distinct(keys);
            assert(crate::engine::sizes::covers(keys, self.keydir@));
            lemma_bounded(
                Replayed { index: self.keydir@, garbage: self.uncompacted },
                total_size(files),
                keys,
            );
            assert forall|i: int| 0 <= i < keys.len() implies self.keydir@.contains_key(
                #[trigger] keys[i],
            ) by {
                assert(keys.contains(keys[i]));
            }
            crate::engine::sizes::lemma_compacted_size(files, self.keydir@, keys);
            crate::engine::sizes::lemma_single_size(compact_log_id, bytes@);
        }
        let old_ids = self.disk.ids();
        assert(bytes@.len() == bytes.len());
        self.disk.create(compact_log_id);
        self.disk.write(compact_log_id, 0, bytes.as_slice());
        let ghost full = self.disk@;
        proof {
            assert(crate::disk::write_at(Seq::<u8>::empty(), 0, bytes@) =~= bytes@);
            self.cache_manager.lemma_inv_grows(files, full);
            self.keydir.lemma_view();
            lemma_distinct(keys);
            assert(!old_ids@.contains(compact_log_id));
        }
        self.move_index(&places, compact_log_id, Ghost(store));
        self.sweep(&old_ids, compact_log_id, Ghost(bytes@));
        self.log_id = compact_log_id;
        self.uncompacted = 0;
        self.writer = self.cache_manager.open(&mut self.disk, compact_log_id);
        let sought = self.cache_manager.seek(&self.disk, &mut self.writer, SeekFrom::End(0));
        proof {
            self.disk.lemma_sized();
            assert(sought is Ok);
            lemma_replay_single(compact_log_id, bytes@);
            self.keydir.lemma_view();
            lemma_compacted_replay(compact_log_id, keys, store);
            lemma_compacted_contents(compact_log_id, keys, store);
            lemma_replay_bounded(self.disk@);
            lemma_bounded_other(
                replay(self.disk@)->0,
                total_size(self.disk@),
                Replayed { index: self.keydir@, garbage: 0 },
                total_size(self.disk@),
            );
        }
        Ok(())
    }

    /// The bytes of the compacted log, and the place in it of the record
    /// of each key.
    fn rewrite(&mut self, compact_log_id: u32) -> (out: Result<(Vec<u8>, Vec<LogIndex>), CyKvError>)
        requires
            old(self).wf(),
        ensures
            final(self).wf(),
            final(self).unchanged(old(self)),
            final(self).keydir == old(self).keydir,
            match compacted(old(self).keys(), old(self)@) {
                Ok(bytes) => {
                    &&& out matches Ok((written, places))
                    &&& written@ == bytes
                    &&& places@.len() == old(self).keys().len()
                    &&& forall|i: int|
                        0 <= i < places@.len() ==> #[trigger] places@[i] == place_of(
                            compact_log_id,
                            old(self).keys(),
                            old(self)@,
                            i,
                        )
                    &&& decodes(old(self).keys(), old(self)@)
                },
                Err(e) => out matches Err(err) && err == e,
            },
    {
        let mut writer = BufWriter::new(Vec::new());
        let mut places: Vec<LogIndex> = Vec::new();
        let ghost keys = self.keydir.keys();
        let ghost store = self@;
        let count = self.keydir.len();
        let mut i: usize = 0;
        assert(keys.take(0) =~= Seq::<Seq<char>>::empty());
        while i < count
            invariant
                self.wf(),
                self.unchanged(old(self)),
                self.keydir == old(self).keydir,
                keys == old(self).keys(),
                store == old(self)@,
                keys == self.keydir.keys(),
                store == self@,
                count == keys.len(),
                i <= count,
                writer.wf(),
                compacted(keys.take(i as int), store) == Ok::<Seq<u8>, CyKvError>(writer@),
                places@.len() == i,
                forall|j: int|
                    0 <= j < i ==> #[trigger] places@[j] == place_of(compact_log_id, keys, store, j),
                decodes(keys.take(i as int), store),
            decreases count - i,
        {
            let log_index = self.keydir.index(i);
            proof {
                self.lemma_wf();
                self.keydir.lemma_view();
                assert(self.index().contains_key(keys[i as int]));
                assert(points_to(self.files(), keys[i as int], self.index()[keys[i as int]]));
                assert(keys.take(i + 1).drop_last() =~= keys.take(i as int));
                assert(keys.take(i + 1).last() == keys[i as int]);
            }
            let cmd = match self.read_command(&log_index) {
                Ok(cmd) => cmd,
                Err(e) => {
                    return Err(e);
                },
            };
            assert(cmd@ == live(store, keys[i as int]));
            let bytes = match encode(&cmd) {
                Ok(bytes) => bytes,
                Err(e) => {
                    return Err(e);
                },
            };
            proof {
                crate::codec::lemma_encoded_len(cmd@);
            }
            let pos = writer.pos;
            match writer.write(bytes.as_slice()) {
                Ok(_) => {},
                Err(e) => {
                    proof {
                        lemma_compacted_err(keys, store, i + 1);
                    }
                    return Err(e);
                },
            }
            places.push(LogIndex::new(compact_log_id, pos, bytes.len() as u64));
            proof {
                assert(compacted(keys.take(i + 1), store) == Ok::<Seq<u8>, CyKvError>(writer@));
                assert forall|j: int| 0 <= j < i + 1 implies record_at(
                    encoded(#[trigger] live(store, keys.take(i + 1)[j])),
                    0,
                ) == Some(
                    (
                        live(store, keys.take(i + 1)[j]),
                        encoded(live(store, keys.take(i + 1)[j])).len() as int,
                    ),
                ) by {
                    if j < i {
                        assert(keys.take(i as int)[j] == keys.take(i + 1)[j]);
                        assert(live(store, keys.take(i as int)[j]) == live(
                            store,
                            keys.take(i + 1)[j],
                        ));
                    }
                }
            }
            i += 1;
        }
        assert(keys.take(count as int) =~= keys);
        Ok((writer.into_inner(), places))
    }

    /// Gives every key its place in the compacted log.
    fn move_index(
        &mut self,
        places: &Vec<LogIndex>,
        compact_log_id: u32,
        Ghost(store): Ghost<Map<Seq<char>, Seq<char>>>,
    )
        requires
            old(self).keydir.wf(),
            places@.len() == old(self).keydir.keys().len(),
            forall|i: int|
                0 <= i < places@.len() ==> #[trigger] places@[i] == place_of(
                    compact_log_id,
                    old(self).keydir.keys(),
                    store,
                    i,
                ),
        ensures
            final(self).keydir.wf(),
            final(self).keydir.keys() == old(self).keydir.keys(),
            final(self).keydir@ == compact_index(compact_log_id, old(self).keydir.keys(), store),
            final(self).disk == old(self).disk,
            final(self).cache_manager == old(self).cache_manager,
            final(self).log_id == old(self).log_id,
            final(self).uncompacted == old(self).uncompacted,
            final(self).writer == old(self).writer,
    {
        let ghost keys = self.keydir.keys();
        let count = self.keydir.len();
        let mut i: usize = 0;
        while i < count
            invariant
                self.keydir.wf(),
                self.keydir.keys() == keys,
                keys == old(self).keydir.keys(),
                count == keys.len(),
                places@.len() == count,
                i <= count,
                forall|j: int|
                    0 <= j < places@.len() ==> #[trigger] places@[j] == place_of(
                        compact_log_id,
                        keys,
                        store,
                        j,
                    ),
                forall|j: int| 0 <= j < i ==> self.keydir.index_at(j) == places@[j],
                self.disk == old(self).disk,
                self.cache_manager == old(self).cache_manager,
                self.log_id == old(self).log_id,
                self.uncompacted == old(self).uncompacted,
                self.writer == old(self).writer,
            decreases count - i,
        {
            self.keydir.set_index(i, places[i]);
            i += 1;
        }
        proof {
            self.keydir.lemma_view();
            lemma_distinct(keys);
            lemma_compact_index(compact_log_id, keys, store);
            let wanted = compact_index(compact_log_id, keys, store);
            assert forall|key: Seq<char>| self.keydir@.contains_key(key) implies self.keydir@[key]
                == wanted[key] by {
                assert(keys.contains(key));
                let j = choose|j: int| 0 <= j < keys.len() && keys[j] == key;
                assert(self.keydir@[keys[j]] == self.keydir.index_at(j));
                assert(wanted[keys[j]] == place_of(compact_log_id, keys, store, j));
                assert(places@[j] == place_of(compact_log_id, keys, store, j));
            }
            assert(self.keydir@ =~= wanted);
        }
    }

    /// Deletes the logs `ids`, which are all but the compacted one.
    fn sweep(&mut self, ids: &Vec<u32>, compact_log_id: u32, Ghost(bytes): Ghost<Seq<u8>>)
        requires
            old(self).disk.wf(),
            old(self).cache_manager.inv(old(self).disk@),
            old(self).disk@.contains_key(compact_log_id),
            old(self).disk@[compact_log_id] == bytes,
            forall|i: int, j: int| 0 <= i < j < ids@.len() ==> ids@[i] != ids@[j],
            forall|id: u32|
                old(self).disk@.contains_key(id) <==> (id == compact_log_id || ids@.contains(id)),
            !ids@.contains(compact_log_id),
        ensures
            final(self).disk.wf(),
            final(self).cache_manager.inv(final(self).disk@),
            final(self).disk@ == Map::<u32, Seq<u8>>::empty().insert(compact_log_id, bytes),
            final(self).disk.base() == old(self).disk.base(),
            final(self).keydir == old(self).keydir,
            final(self).log_id == old(self).log_id,
            final(self).uncompacted == old(self).uncompacted,
            final(self).writer == old(self).writer,
    {
        let mut i: usize = 0;
        proof {
            assert forall|id: u32|
                self.disk@.contains_key(id) <==> (id == compact_log_id || exists|j: int|
                    0 <= j < ids@.len() && ids@[j] == id) by {
                if ids@.contains(id) {
                    let j = choose|j: int| 0 <= j < ids@.len() && ids@[j] == id;
                }
                if exists|j: int| 0 <= j < ids@.len() && ids@[j] == id {
                    assert(ids@.contains(id));
                }
            }
        }
        while i < ids.len()
            invariant
                i <= ids@.len(),
                self.disk.wf(),
                self.cache_manager.inv(self.disk@),
                self.disk@.contains_key(compact_log_id),
                self.disk@[compact_log_id] == bytes,
                self.disk.base() == old(self).disk.base(),
                forall|a: int, b: int| 0 <= a < b < ids@.len() ==> ids@[a] != ids@[b],
                !ids@.contains(compact_log_id),
                forall|id: u32|
                    self.disk@.contains_key(id) <==> (id == compact_log_id || exists|j: int|
                        i <= j < ids@.len() && ids@[j] == id),
                self.keydir == old(self).keydir,
                self.log_id == old(self).log_id,
                self.uncompacted == old(self).uncompacted,
                self.writer == old(self).writer,
            decreases ids.len() - i,
        {
            let id = ids[i];
            let ghost before = self.disk@;
            assert(before.contains_key(id));
            self.cache_manager.remove(&mut self.disk, id);
            proof {
                assert(ids@.contains(id));
                assert forall|x: u32|
                    self.disk@.contains_key(x) <==> (x == compact_log_id || exists|j: int|
                        i + 1 <= j < ids@.len() && ids@[j] == x) by {
                    if before.contains_key(x) && x != id && x != compact_log_id {
                        let j = choose|j: int| i <= j < ids@.len() && ids@[j] == x;
                        assert(i + 1 <= j < ids@.len() && ids@[j] == x);
                    }
                }
            }
            i += 1;
        }
        assert(self.disk@ =~= Map::<u32, Seq<u8>>::empty().insert(compact_log_id, bytes));
    }

    /// The store is as it was: the same logs, the same index, the same
    /// counts.
    pub open spec fn unchanged(&self, before: &Self) -> bool {
        &&& self.files() == before.files()
        &&& self.index() == before.index()
        &&& self.keys() == before.keys()
        &&& self.log_id() == before.log_id()
        &&& self.uncompacted() == before.uncompacted()
        &&& self.base() == before.base()
    }

    /// Reads the command of the record at `log_index`.
    fn read_command(&mut self, log_index: &LogIndex) -> (out: Result<Command, CyKvError>)
        requires
            old(self).ready(),
        ensures
            final(self).ready(),
            old(self).wf() ==> final(self).wf(),
            final(self).unchanged(old(self)),
            final(self).keydir == old(self).keydir,
            match command_at(old(self).files(), *log_index) {
                Ok(cmd) => out matches Ok(c) && c@ == cmd,
                Err(e) => out matches Err(err) && err == e,
            },
    {
        if !self.disk.contains(log_index.id) {
            return Err(CyKvError::Io);
        }
        read_record(&mut self.cache_manager, &mut self.disk, log_index)
    }

    /// The value of `key`, where the store has the key.
    ///
    /// Where the index has the key, its record is read: a record that
    /// erases a key is refused with `Internal`, a place where no record
    /// stands with `Deserialize`, and a log that the directory does not
    /// have with `Io`. None of these happens where the index is what the
    /// logs say.
    pub fn get(&mut self, key: String) -> (out: Result<Option<String>, CyKvError>)
        requires
            old(self).ready(),
        ensures
            final(self).ready(),
            old(self).wf() ==> final(self).wf(),
            final(self).unchanged(old(self)),
            match looked_up(old(self).files(), old(self).index(), key@) {
                Ok(found) => out matches Ok(value) && value.deep_view() == found,
                Err(e) => out matches Err(err) && err == e,
            },
            old(self).wf() ==> looked_up(old(self).files(), old(self).index(), key@) == Ok::<
                Option<Seq<char>>,
                CyKvError,
            >(if old(self)@.contains_key(key@) {
                Some(old(self)@[key@])
            } else {
                None
            }),
    {
        proof {
            if self.wf() {
                self.lemma_wf();
                lemma_looked_up(self.files(), self.index(), key@);
            }
        }
        match self.keydir.get(&key) {
            Some(log_index) => {
                match self.read_command(&log_index) {
                    Ok(Command::Put { key: _, value }) => Ok(Some(value)),
                    Ok(Command::Remove { key: _ }) => Err(CyKvError::Internal),
                    Err(e) => Err(e),
                }
            },
            None => Ok(None),
        }
    }

    /// The values of the keys between `begin` and `end`, both included, in
    /// the order of the keys. A range whose end comes before its begin is
    /// refused with `KeyNotFound`.
    ///
    /// The records of the keys in the range are read in the order of the
    /// keys, and the first that gives no value ends the scan with its
    /// error, as in `get`. None does where the index is what the logs
    /// say.
    pub fn scan(&mut self, begin: String, end: String) -> (out: Result<Vec<String>, CyKvError>)
        requires
            old(self).ready(),
        ensures
            final(self).ready(),
            old(self).wf() ==> final(self).wf(),
            final(self).unchanged(old(self)),
            if key_lt(end@, begin@) {
                out matches Err(CyKvError::KeyNotFound(message)) && message@ == "begin > end"@
            } else {
                match scan_read(
                    old(self).keys(),
                    old(self).files(),
                    old(self).index(),
                    begin@,
                    end@,
                ) {
                    Ok(found) => out matches Ok(values) && values.deep_view() == found,
                    Err(e) => out matches Err(err) && err == e,
                }
            },
            old(self).wf() ==> scan_read(
                old(self).keys(),
                old(self).files(),
                old(self).index(),
                begin@,
                end@,
            ) == Ok::<Seq<Seq<char>>, CyKvError>(
                scanned(old(self).keys(), old(self)@, begin@, end@),
            ),
    {
        let ghost keys = self.keydir.keys();
        let ghost files = self.files();
        let ghost index = self.index();
        let ghost store = self@;
        proof {
            self.keydir.lemma_view();
            if self.wf() {
                self.lemma_wf();
                assert forall|j: int| 0 <= j < keys.len() implies index.contains_key(
                    #[trigger] keys[j],
                ) by {
                    assert(keys.contains(keys[j]));
                }
                lemma_scan_read(keys, files, index, begin@, end@);
            }
        }
        if key_before(&end, &begin) {
            return Err(CyKvError::KeyNotFound("begin > end".to_owned()));
        }
        let mut values: Vec<String> = Vec::new();
        let count = self.keydir.len();
        let start = self.keydir.lower_bound(&begin);
        let mut i: usize = start;
        proof {
            assert forall|j: int| 0 <= j < keys.take(start as int).len() implies !in_range(
                #[trigger] keys.take(start as int)[j],
                begin@,
                end@,
            ) by {
                assert(key_lt(keys[j], begin@));
                lemma_key_lt_total(keys[j], begin@);
            }
            lemma_scan_none(keys.take(start as int), files, index, begin@, end@);
            assert(values.deep_view() =~= Seq::<Seq<char>>::empty());
        }
        while i < count && !key_before(&end, self.keydir.key(i))
            invariant
                self.ready(),
                old(self).wf() ==> self.wf(),
                self.unchanged(old(self)),
                self.keydir == old(self).keydir,
                keys == self.keydir.keys(),
                keys == old(self).keys(),
                files == old(self).files(),
                index == old(self).index(),
                store == old(self)@,
                !key_lt(end@, begin@),
                old(self).wf() ==> scan_read(keys, files, index, begin@, end@) == Ok::<
                    Seq<Seq<char>>,
                    CyKvError,
                >(scanned(keys, store, begin@, end@)),
                count == keys.len(),
                start <= i <= count,
                forall|j: int| start <= j < count ==> key_le(begin@, #[trigger] keys[j]),
                forall|a: int, b: int|
                    0 <= a < b < keys.len() ==> key_lt(#[trigger] keys[a], #[trigger] keys[b]),
                scan_read(keys.take(i as int), files, index, begin@, end@) == Ok::<
                    Seq<Seq<char>>,
                    CyKvError,
                >(values.deep_view()),
            decreases count - i,
        {
            let log_index = self.keydir.index(i);
            proof {
                self.keydir.lemma_view();
                assert(keys.take(i + 1).drop_last() =~= keys.take(i as int));
                assert(keys.take(i + 1).last() == keys[i as int]);
                lemma_key_lt_total(end@, keys[i as int]);
                assert(in_range(keys[i as int], begin@, end@));
                assert(log_index == index[keys[i as int]]);
            }
            let ghost before = values.deep_view();
            match self.read_command(&log_index) {
                Ok(Command::Put { key: _, value }) => {
                    values.push(value);
                    assert(values.deep_view() =~= before.push(
                        read_value(files, log_index)->Ok_0,
                    ));
                },
                Ok(Command::Remove { key: _ }) => {
                    proof {
                        assert(read_value(files, log_index) == Err::<Seq<char>, CyKvError>(
                            CyKvError::Internal,
                        ));
                        assert(scan_read(keys.take(i + 1), files, index, begin@, end@) == Err::<
                            Seq<Seq<char>>,
                            CyKvError,
                        >(CyKvError::Internal));
                        lemma_scan_fails(keys, files, index, begin@, end@, i + 1);
                    }
                    return Err(CyKvError::Internal);
                },
                Err(e) => {
                    proof {
                        assert(read_value(files, log_index) == Err::<Seq<char>, CyKvError>(e));
                        assert(scan_read(keys.take(i + 1), files, index, begin@, end@) == Err::<
                            Seq<Seq<char>>,
                            CyKvError,
                        >(e));
                        lemma_scan_fails(keys, files, index, begin@, end@, i + 1);
                    }
                    return Err(e);
                },
            }
            i += 1;
        }
        proof {
            assert forall|j: int| i <= j < keys.len() implies !in_range(
                #[trigger] keys[j],
                begin@,
                end@,
            ) by {
                assert(key_lt(end@, keys[i as int]));
                if i < j {
                    assert(key_lt(keys[i as int], keys[j]));
                    lemma_key_lt_trans(end@, keys[i as int], keys[j]);
                }
                lemma_key_lt_total(end@, keys[j]);
            }
            lemma_scan_rest(keys, files, index, begin@, end@, i as int);
        }
        Ok(values)
    }

    /// The files of the directory: each log under its name, in the order
    /// of the ids.
    pub fn directory(&self) -> (entries: Vec<DirEntry>)
        requires
            self.wf(),
        ensures
            listed(entries.deep_view(), self.files()),
    {
        let ids = self.disk.ids();
        let mut entries: Vec<DirEntry> = Vec::new();
        let mut i: usize = 0;
        let ghost mut logs: Map<u32, Seq<u8>> = Map::empty();
        while i < ids.len()
            invariant
                self.disk.wf(),
                i <= ids.len(),
                forall|a: int, b: int| 0 <= a < b < ids.len() ==> ids[a] < ids[b],
                forall|id: u32| self.disk@.contains_key(id) <==> ids@.contains(id),
                logs_of(entries.deep_view()) == Some(logs),
                forall|id: u32| #[trigger]
                    logs.contains_key(id) <==> exists|j: int| 0 <= j < i && ids@[j] == id,
                forall|id: u32| #[trigger] logs.contains_key(id) ==> logs[id] == self.disk@[id],
                entries.deep_view().len() == i,
                forall|j: int|
                    0 <= j < i ==> (#[trigger] entries.deep_view()[j]) == (
                        log_name(ids@[j]),
                        self.disk@[ids@[j]],
                    ),
            decreases ids.len() - i,
        {
            let id = ids[i];
            assert(ids@.contains(id));
            let ghost before = entries.deep_view();
            let data = self.disk.file(id).clone();
            entries.push(DirEntry { name: log_path(id), data });
            proof {
                lemma_log_name(id);
                assert(entries.deep_view().drop_last() =~= before);
                assert(entries.deep_view().last() == (log_name(id), self.disk@[id]));
                assert forall|j: int| 0 <= j < i + 1 implies (#[trigger] entries.deep_view()[j]) == (
                    log_name(ids@[j]),
                    self.disk@[ids@[j]],
                ) by {
                    if j < i {
                        assert(entries.deep_view()[j] == before[j]);
                    }
                }
                assert(!logs.contains_key(id)) by {
                    if logs.contains_key(id) {
                        let j = choose|j: int| 0 <= j < i && ids@[j] == id;
                        assert(ids@[j] < ids@[i as int]);
                    }
                }
                let ghost grown = logs.insert(id, self.disk@[id]);
                assert forall|x: u32| #[trigger]
                    grown.contains_key(x) <==> exists|j: int| 0 <= j < i + 1 && ids@[j] == x by {
                    if logs.contains_key(x) {
                        let j = choose|j: int| 0 <= j < i && ids@[j] == x;
                        assert(0 <= j < i + 1 && ids@[j] == x);
                    }
                    if exists|j: int| 0 <= j < i + 1 && ids@[j] == x {
                        let j = choose|j: int| 0 <= j < i + 1 && ids@[j] == x;
                        if j < i {
                            assert(logs.contains_key(x));
                        }
                    }
                }
                logs = grown;
            }
            i += 1;
        }
        proof {
            assert forall|id: u32| logs.contains_key(id) <==> self.disk@.contains_key(id) by {
                if logs.contains_key(id) {
                    let j = choose|j: int| 0 <= j < i && ids@[j] == id;
                    assert(ids@.contains(id));
                }
                if self.disk@.contains_key(id) {
                    assert(ids@.contains(id));
                    let j = choose|j: int| 0 <= j < ids@.len() && ids@[j] == id;
                    assert(0 <= j < i && ids@[j] == id);
                }
            }
            assert(logs =~= self.disk@);
            let listing = entries.deep_view();
            assert forall|j: int| 0 <= j < listing.len() implies {
                &&& log_id(#[trigger] listing[j].0) matches Some(id)
                &&& listing[j].0 == log_name(id)
                &&& self.disk@.contains_key(id)
                &&& listing[j].1 == self.disk@[id]
            } by {
                lemma_log_name(ids@[j]);
                assert(ids@.contains(ids@[j]));
            }
            assert forall|a: int, b: int| 0 <= a < b < listing.len() implies log_id(
                #[trigger] listing[a].0,
            )->0 < log_id(#[trigger] listing[b].0)->0 by {
                lemma_log_name(ids@[a]);
                lemma_log_name(ids@[b]);
                assert(ids@[a] < ids@[b]);
            }
        }
        entries
    }

    /// Hands out the changes that the directory has seen since they were
    /// last taken, oldest first.
    pub fn take_journal(&mut self) -> (ops: Vec<DiskOp>)
        requires
            old(self).wf(),
        ensures
            final(self).wf(),
            ops@.map_values(|op: DiskOp| op@) == old(self).journal(),
            final(self).journal() == Seq::<crate::disk::DiskChange>::empty(),
            final(self).base() == final(self).files(),
            final(self).files() == old(self).files(),
            final(self).index() == old(self).index(),
            final(self).keys() == old(self).keys(),
            final(self).log_id() == old(self).log_id(),
            final(self).uncompacted() == old(self).uncompacted(),
    {
        self.disk.take_journal()
    }

    /// What `wf` says of the parts that a caller can name.
    pub proof fn lemma_wf(&self)
        requires
            self.wf(),
        ensures
            self.ready(),
            bounded(
                Replayed { index: self.index(), garbage: self.uncompacted() },
                total_size(self.files()),
            ),
            sized(self.files()),
            self.files().contains_key(self.log_id()),
            forall|id: u32| self.files().contains_key(id) ==> id <= self.log_id(),
            replay(self.files()) matches Some(state) && state.index == self.index(),
            all_point(self.files(), self.index()),
            forall|key: Seq<char>| self@.contains_key(key) <==> self.index().contains_key(key),
            forall|key: Seq<char>| self@.contains_key(key) <==> self.keys().contains(key),
            forall|i: int, j: int|
                0 <= i < j < self.keys().len() ==> crate::engine::keydir::key_lt(
                    #[trigger] self.keys()[i],
                    #[trigger] self.keys()[j],
                ),
    {
        self.disk.lemma_sized();
        lemma_replay_points(self.disk@);
        self.keydir.lemma_view();
    }
}

/// Reads the record at `index` by way of the cache manager.
fn read_record<M: CacheManager>(manager: &mut M, disk: &mut Disk, index: &LogIndex) -> (out: Result<Command, CyKvError>)
    requires
        old(disk).wf(),
        old(manager).inv(old(disk)@),
        old(disk)@.contains_key(index.id),
    ensures
        final(disk).wf(),
        final(disk).base() == old(disk).base(),
        final(manager).inv(final(disk)@),
        final(disk)@ == old(disk)@,
        match record_at(old(disk)@[index.id], index.command_pos as int) {
            Some((cmd, len)) => out matches Ok(c) && c@ == cmd,
            None => out matches Err(e) && e == CyKvError::Deserialize,
        },
{
    let ghost file = disk@[index.id];
    let ghost pos = index.command_pos as int;
    let mut cache = manager.open(disk, index.id);
    assert(disk@ =~= old(disk)@);
    if manager.seek(disk, &mut cache, SeekFrom::Start(index.command_pos)).is_err() {
        return Err(CyKvError::Deserialize);
    }
    let mut bytes = manager.read(disk, &mut cache, 4);
    if bytes.len() < 4 {
        return Err(CyKvError::Deserialize);
    }
    assert(bytes@ == file.subrange(pos, pos + 4));
    let len = crate::codec::read_le32(bytes.as_slice(), 0);
    assert(len == crate::codec::le32_at(file, pos));
    if len < 5 || len > 0x7fff_ffff {
        return Err(CyKvError::Deserialize);
    }
    let mut rest = manager.read(disk, &mut cache, (len - 4) as usize);
    if rest.len() < (len - 4) as usize {
        return Err(CyKvError::Deserialize);
    }
    assert(rest@ == file.subrange(pos + 4, pos + len));
    bytes.append(&mut rest);
    proof {
        assert(bytes@ =~= file.subrange(pos, pos + len));
        assert(bytes@.subrange(0, len as int) =~= bytes@);
        assert(crate::codec::le32_at(bytes@, 0) == crate::codec::le32_at(file, pos));
    }
    match decode_from(bytes.as_slice(), 0) {
        Ok((cmd, _)) => Ok(cmd),
        Err(_) => Err(CyKvError::Deserialize),
    }
}

/// The directory that `entries` describe.
fn load_logs(entries: Vec<DirEntry>) -> (out: Option<Disk>)
    ensures
        match logs_of(entries.deep_view()) {
            Some(files) => out matches Some(disk) && disk.wf() && disk@ == files
                && disk.journal().len() == 0 && disk.base() == files,
            None => out is None,
        },
{
    let mut disk = Disk::new();
    let mut rest = entries;
    let ghost all = rest.deep_view();
    let ghost mut done: int = 0;
    // The entries are turned round first, so that each can be taken from
    // the front with its bytes, without a copy.
    let mut stack: Vec<DirEntry> = Vec::new();
    while rest.len() > 0
        invariant
            stack.deep_view().len() + rest.deep_view().len() == all.len(),
            forall|i: int| 0 <= i < rest.deep_view().len() ==> rest.deep_view()[i] == all[i],
            forall|i: int|
                0 <= i < stack.deep_view().len() ==> stack.deep_view()[i] == all[all.len() - 1
                    - i],
        decreases rest.len(),
    {
        let ghost before = rest.deep_view();
        let ghost stacked = stack.deep_view();
        let entry = rest.pop().unwrap();
        stack.push(entry);
        proof {
            assert forall|i: int| 0 <= i < rest.deep_view().len() implies rest.deep_view()[i]
                == all[i] by {
                assert(rest.deep_view()[i] == before[i]);
            }
            assert forall|i: int| 0 <= i < stack.deep_view().len() implies stack.deep_view()[i]
                == all[all.len() - 1 - i] by {
                if i < stacked.len() {
                    assert(stack.deep_view()[i] == stacked[i]);
                } else {
                    assert(stack.deep_view()[i] == before[before.len() - 1]);
                }
            }
        }
    }
    assert(logs_of(all.subrange(0, 0)) == Some(Map::<u32, Seq<u8>>::empty()));
    while stack.len() > 0
        invariant
            all == entries.deep_view(),
            disk.wf(),
            disk.journal().len() == 0,
            disk.base() == disk@,
            0 <= done <= all.len(),
            stack.deep_view().len() == all.len() - done,
            forall|i: int|
                0 <= i < stack.deep_view().len() ==> stack.deep_view()[i] == all[all.len() - 1
                    - i],
            logs_of(all.subrange(0, done)) == Some(disk@),
        decreases stack.len(),
    {
        let ghost stacked = stack.deep_view();
        let entry = stack.pop().unwrap();
        let ghost part = all.subrange(0, done + 1);
        proof {
            assert(entry.deep_view() == stacked[stacked.len() - 1]);
            assert(entry.deep_view() == all[done]);
            assert(part.drop_last() =~= all.subrange(0, done));
            assert(part.last() == (entry.name@, entry.data@));
            assert(logs_of(part) == if !is_log(entry.name@) {
                Some(disk@)
            } else {
                match log_id(entry.name@) {
                    None => None,
                    Some(id) => if disk@.contains_key(id) {
                        None
                    } else {
                        Some(disk@.insert(id, entry.data@))
                    },
                }
            });
            assert forall|i: int| 0 <= i < stack.deep_view().len() implies stack.deep_view()[i]
                == all[all.len() - 1 - i] by {
                assert(stack.deep_view()[i] == stacked[i]);
            }
        }
        match parse_log_name(entry.name.as_str()) {
            None => {},
            Some(None) => {
                proof {
                    lemma_logs_none(all, done + 1);
                    assert(all.subrange(0, all.len() as int) =~= all);
                }
                return None;
            },
            Some(Some(id)) => {
                if disk.contains(id) {
                    proof {
                        lemma_logs_none(all, done + 1);
                        assert(all.subrange(0, all.len() as int) =~= all);
                    }
                    return None;
                }
                disk.load(id, entry.data);
            },
        }
        proof {
            done = done + 1;
        }
    }
    assert(all.subrange(0, all.len() as int) =~= all);
    Some(disk)
}

/// Where a part of the entries describes no directory, the whole does not.
proof fn lemma_logs_none(entries: Seq<(Seq<char>, Seq<u8>)>, n: int)
    requires
        0 <= n <= entries.len(),
        logs_of(entries.subrange(0, n)) is None,
    ensures
        logs_of(entries) is None,
    decreases entries.len() - n,
{
    if n == entries.len() {
        assert(entries.subrange(0, n) =~= entries);
    } else {
        assert(entries.drop_last().subrange(0, n) =~= entries.subrange(0, n));
        lemma_logs_none(entries.drop_last(), n);
    }
}

/// Keys in their strict order are distinct.
proof fn lemma_distinct(keys: Seq<Seq<char>>)
    requires
        forall|i: int, j: int|
            0 <= i < j < keys.len() ==> key_lt(#[trigger] keys[i], #[trigger] keys[j]),
    ensures
        distinct(keys),
{
    assert forall|a: int, b: int| 0 <= a < b < keys.len() implies keys[a] != keys[b] by {
        assert(key_lt(keys[a], keys[b]));
        lemma_key_lt_total(keys[a], keys[b]);
    }
}

/// The id `ids[i]`, or the bound of all ids behind the last.
pub open spec fn id_bound(ids: Seq<u32>, i: int) -> nat {
    if 0 <= i < ids.len() {
        ids[i] as nat
    } else {
        0x1_0000_0000
    }
}

/// A log that cannot be replayed spoils every replay that includes it.
proof fn lemma_replay_none(files: Map<u32, Seq<u8>>, from: nat, to: nat)
    requires
        from <= to,
        replay_below(files, from) is None,
    ensures
        replay_below(files, to) is None,
    decreases to - from,
{
    if from < to {
        lemma_replay_none(files, from, (to - 1) as nat);
    }
}

/// Ids without a log do not raise the top.
proof fn lemma_top_gap(files: Map<u32, Seq<u8>>, from: nat, to: nat)
    requires
        from <= to <= 0x1_0000_0000,
        forall|id: u32| from <= id < to ==> !#[trigger] files.contains_key(id),
    ensures
        top(files, to) == top(files, from),
    decreases to - from,
{
    if from < to {
        lemma_top_gap(files, from, (to - 1) as nat);
    }
}

/// Replays the logs of a directory, in the order of their ids.
fn replay_logs(disk: &Disk, keydir: &mut Keydir, uncompacted: &mut u64) -> (out: Result<(), CyKvError>)
    requires
        disk.wf(),
        old(keydir).wf(),
        old(keydir)@ == Map::<Seq<char>, LogIndex>::empty(),
        *old(uncompacted) == 0,
    ensures
        final(keydir).wf(),
        match replay(disk@) {
            Some(state) => out is Ok && final(keydir)@ == state.index && *final(uncompacted)
                == state.garbage,
            None => out == Err::<(), CyKvError>(CyKvError::Deserialize),
        },
{
    let ids = disk.ids();
    let mut i: usize = 0;
    proof {
        assert forall|id: u32| 0 <= id < id_bound(ids@, 0) implies !#[trigger] disk@.contains_key(
            id,
        ) by {
            if disk@.contains_key(id) {
                let j = choose|j: int| 0 <= j < ids@.len() && ids@[j] == id;
                assert(ids@.contains(id));
                if j > 0 {
                    assert(ids@[0] < ids@[j]);
                }
            }
        }
        lemma_replay_gap(disk@, 0, id_bound(ids@, 0));
    }
    while i < ids.len()
        invariant
            disk.wf(),
            keydir.wf(),
            i <= ids.len(),
            forall|a: int, b: int| 0 <= a < b < ids.len() ==> ids[a] < ids[b],
            forall|id: u32| disk@.contains_key(id) <==> ids@.contains(id),
            replay_below(disk@, id_bound(ids@, i as int)) == Some(
                Replayed { index: keydir@, garbage: *uncompacted },
            ),
        decreases ids.len() - i,
    {
        let id = ids[i];
        assert(ids@.contains(id));
        let ghost state = Replayed { index: keydir@, garbage: *uncompacted };
        let read = read_log(id, disk.file(id), keydir, uncompacted);
        proof {
            assert(replay_below(disk@, (id + 1) as nat) == replay_log(state, id, disk@[id], 0));
            if i + 1 < ids.len() {
                assert(ids[i as int] < ids[i + 1]);
            }
            assert forall|x: u32| id + 1 <= x < id_bound(ids@, i + 1) implies !#[trigger] disk@.contains_key(
                x,
            ) by {
                if disk@.contains_key(x) {
                    let j = choose|j: int| 0 <= j < ids@.len() && ids@[j] == x;
                    assert(ids@.contains(x));
                    if j < i {
                        assert(ids@[j] < ids@[i as int]);
                    } else if j > i + 1 {
                        assert(ids@[i + 1] < ids@[j]);
                    }
                }
            }
            lemma_replay_gap(disk@, (id + 1) as nat, id_bound(ids@, i + 1));
        }
        if read.is_err() {
            proof {
                lemma_replay_none(disk@, (id + 1) as nat, 0x1_0000_0000);
            }
            return Err(CyKvError::Deserialize);
        }
        i += 1;
    }
    Ok(())
}

impl<M: CacheManager> CyStore<M> {
    /// The state of the store.
    pub closed spec fn state(&self) -> CyStoreWriter<M> {
        self.writer
    }

    /// The name of the file that holds the log `id`.
    pub fn log_path(&self, id: u32) -> (name: String)
        ensures
            name@ == log_name(id),
    {
        log_path(id)
    }

    /// Reads the command of the record at `log_index`.
    ///
    /// A log that the directory does not have is refused with `Io`, and
    /// a place where no record stands with `Deserialize`.
    pub fn read_command(&mut self, log_index: &LogIndex) -> (out: Result<Command, CyKvError>)
        requires
            old(self).state().ready(),
        ensures
            final(self).state().ready(),
            old(self).state().wf() ==> final(self).state().wf(),
            final(self).state().unchanged(&old(self).state()),
            match command_at(old(self).state().files(), *log_index) {
                Ok(cmd) => out matches Ok(c) && c@ == cmd,
                Err(e) => out matches Err(err) && err == e,
            },
    {
        self.writer.read_command(log_index)
    }

    /// The files of the directory: each log under its name, in the order
    /// of the ids.
    pub fn directory(&self) -> (entries: Vec<DirEntry>)
        requires
            self.state().wf(),
        ensures
            listed(entries.deep_view(), self.state().files()),
    {
        self.writer.directory()
    }

    /// Hands out the changes that the directory has seen since they were
    /// last taken, oldest first.
    pub fn take_journal(&mut self) -> (ops: Vec<DiskOp>)
        requires
            old(self).state().wf(),
        ensures
            final(self).state().wf(),
            ops@.map_values(|op: DiskOp| op@) == old(self).state().journal(),
            final(self).state().journal() == Seq::<crate::disk::DiskChange>::empty(),
            final(self).state().base() == final(self).state().files(),
            final(self).state().files() == old(self).state().files(),
            final(self).state().index() == old(self).state().index(),
            final(self).state().keys() == old(self).state().keys(),
            final(self).state().log_id() == old(self).state().log_id(),
            final(self).state().uncompacted() == old(self).state().uncompacted(),
    {
        self.writer.take_journal()
    }

    /// The sum of the lengths of the logs.
    pub fn size(&self) -> (size: u128)
        requires
            self.state().wf(),
        ensures
            size == crate::disk::total_size(self.state().files()),
    {
        self.writer.disk.size()
    }

    /// Gives the store up and opens a store on its directory. The new
    /// store holds what this one held. Where there is no id for the log
    /// that the new store would write to, this is refused with `Internal`.
    pub fn reopen<N: CacheManager>(self, cache_manager: N) -> (out: Result<CyStore<N>, CyKvError>)
        requires
            self.state().wf(),
            cache_manager.inv(Map::empty()),
        ensures
            match out {
                Ok(store) => {
                    &&& store.state().wf()
                    &&& store@ == self@
                    &&& store.state().index() == self.state().index()
                    &&& store.state().log_id() == self.state().log_id() + 1
                    &&& store.state().files() == self.state().files().insert(
                        store.state().log_id(),
                        Seq::empty(),
                    )
                },
                Err(e) => e == CyKvError::Internal && self.state().log_id() == u32::MAX,
            },
    {
        let entries = self.directory();
        proof {
            self.writer.lemma_wf();
            let files = self.writer.files();
            let last = self.writer.log_id();
            lemma_top_gap(files, (last + 1) as nat, 0x1_0000_0000);
            assert(top(files, (last + 1) as nat) == last + 1);
        }
        let out = CyStore::open(entries, cache_manager);
        proof {
            if out is Ok {
                lemma_durability(self.writer, out->Ok_0.writer);
            }
        }
        out
    }

    /// The id of the log that is written to.
    pub fn log_id(&self) -> (id: u32)
        ensures
            id == self.state().log_id(),
    {
        self.writer.log_id
    }

    /// The index: the place of the live record of each key.
    pub fn keydir(&self) -> (keydir: &Keydir)
        ensures
            keydir@ == self.state().index(),
            keydir.keys() == self.state().keys(),
            self.state().wf() ==> keydir.wf(),
    {
        &self.writer.keydir
    }

    /// The bytes of displaced records since the store last compacted.
    pub fn uncompacted(&self) -> (bytes: u64)
        ensures
            bytes == self.state().uncompacted(),
    {
        self.writer.uncompacted
    }

    /// Compacts the store now, whatever the bytes of displaced records.
    pub fn compact(&mut self) -> (out: Result<(), CyKvError>)
        requires
            old(self).state().wf(),
        ensures
            final(self).state().wf(),
            final(self).state().base() == old(self).state().base(),
            final(self)@ == old(self)@,
            final(self).state().keys() == old(self).state().keys(),
            match compaction(old(self).state().log_id(), old(self).state().keys(), old(self)@) {
                Ok(bytes) => {
                    &&& out is Ok
                    &&& final(self).state().files() == Map::<u32, Seq<u8>>::empty().insert(
                        (old(self).state().log_id() + 1) as u32,
                        bytes,
                    )
                    &&& final(self).state().log_id() == old(self).state().log_id() + 1
                    &&& final(self).state().uncompacted() == 0
                    &&& final(self).state().index() == compact_index(
                        (old(self).state().log_id() + 1) as u32,
                        old(self).state().keys(),
                        old(self)@,
                    )
                    &&& total_size(final(self).state().files()) + old(self).state().uncompacted()
                        <= total_size(old(self).state().files())
                },
                Err(e) => out == Err::<(), CyKvError>(e) && final(self).state().unchanged(
                    &old(self).state(),
                ),
            },
    {
        self.writer.compact()
    }

    /// Opens the store on a directory: replays its logs, in the order of
    /// their ids, and starts a new log behind them.
    ///
    /// A log whose name gives no id, or an id that another log has, is
    /// refused with `Internal`; so is a directory whose greatest id is the
    /// greatest that there is. A log that is no sequence of records is
    /// refused with `Deserialize`.
    pub fn open(entries: Vec<DirEntry>, cache_manager: M) -> (out: Result<Self, CyKvError>)
        requires
            cache_manager.inv(Map::empty()),
        ensures
            match logs_of(entries.deep_view()) {
                None => out matches Err(e) && e == CyKvError::Internal,
                Some(files) => match replay(files) {
                    None => out matches Err(e) && e == CyKvError::Deserialize,
                    Some(state) => if next_id(files) > u32::MAX {
                        out matches Err(e) && e == CyKvError::Internal
                    } else {
                        &&& out matches Ok(store)
                        &&& store.state().wf()
                        &&& store.state().files() == files.insert(
                            next_id(files) as u32,
                            Seq::empty(),
                        )
                        &&& store.state().log_id() == next_id(files)
                        &&& store.state().base() == files
                        &&& store.state().uncompacted() == state.garbage
                        &&& store.state().index() == state.index
                    },
                },
            },
    {
        let mut disk = match load_logs(entries) {
            Some(disk) => disk,
            None => {
                return Err(CyKvError::Internal);
            },
        };
        let mut keydir = Keydir::new();
        let mut uncompacted: u64 = 0;
        if replay_logs(&disk, &mut keydir, &mut uncompacted).is_err() {
            return Err(CyKvError::Deserialize);
        }
        let ghost files = disk@;
        let log_id: u32 = match disk.max_id() {
            None => {
                proof {
                    lemma_top_gap(files, 0, 0x1_0000_0000);
                }
                1
            },
            Some(max) => {
                proof {
                    lemma_top_gap(files, (max + 1) as nat, 0x1_0000_0000);
                }
                if max == u32::MAX {
                    return Err(CyKvError::Internal);
                }
                max + 1
            },
        };
        let mut cache_manager = cache_manager;
        proof {
            cache_manager.lemma_inv_grows(Map::empty(), files);
            lemma_replay_new_log(files, log_id);
        }
        let writer = cache_manager.open(&mut disk, log_id);
        proof {
            lemma_replay_bounded(files);
            lemma_size_insert(files, log_id, Seq::empty());
        }
        Ok(
            CyStore {
                writer: CyStoreWriter { disk, cache_manager, keydir, log_id, uncompacted, writer },
            },
        )
    }
}

impl<M: CacheManager> KvEngine for CyStore<M> {
    open spec fn wf(&self) -> bool {
        self.state().wf()
    }

    open spec fn view(&self) -> Map<Seq<char>, Seq<char>> {
        self.state()@
    }

    open spec fn keys(&self) -> Seq<Seq<char>> {
        self.state().keys()
    }

    /// The store holds its logs, and what it reads it has written.
    open spec fn reliable(&self) -> bool {
        true
    }

    /// A record that is not too long, for which the log has room, and
    /// that does not bring a compaction, is sure to be written.
    open spec fn admits_set(&self, key: Seq<char>, value: Seq<char>) -> bool {
        let cmd = CommandView::Put { key, value };
        let state = self.state();
        &&& encoded_len(cmd) <= i32::MAX
        &&& state.files()[state.log_id()].len() + encoded_len(cmd) <= usize::MAX
        &&& add_bytes(state.uncompacted(), displaced(state.index(), key)) < COMPACT_THRESHOLD
    }

    /// A key that the store has is sure to be erased where the log has
    /// room for the record of that, and the record does not bring a
    /// compaction.
    open spec fn admits_remove(&self, key: Seq<char>) -> bool {
        let cmd = CommandView::Remove { key };
        let state = self.state();
        &&& self@.contains_key(key)
        &&& state.files()[state.log_id()].len() + encoded_len(cmd) <= usize::MAX
        &&& add_bytes(
            add_bytes(state.uncompacted(), displaced(state.index(), key)),
            encoded_len(cmd) as u64,
        ) < COMPACT_THRESHOLD
    }

    fn get(&mut self, key: String) -> (out: Result<Option<String>, CyKvError>)
        ensures
            final(self).state().unchanged(&old(self).state()),
    {
        proof {
            self.writer.lemma_wf();
        }
        self.writer.get(key)
    }

    fn scan(&mut self, begin: String, end: String) -> (out: Result<Vec<String>, CyKvError>)
        ensures
            final(self).state().unchanged(&old(self).state()),
    {
        proof {
            self.writer.lemma_wf();
        }
        self.writer.scan(begin, end)
    }

    fn set(&mut self, key: String, value: String) -> (out: Result<(), CyKvError>)
        ensures
            final(self).state().base() == old(self).state().base(),
            ({
                let before = old(self).state();
                let cmd = CommandView::Put { key: key@, value: value@ };
                let log = before.files()[before.log_id()];
                if encoded_len(cmd) > i32::MAX {
                    &&& out == Err::<(), CyKvError>(CyKvError::Serialize)
                    &&& final(self).state().unchanged(&before)
                } else if log.len() + encoded_len(cmd) > usize::MAX {
                    out == Err::<(), CyKvError>(CyKvError::Io) && final(self).state().unchanged(
                        &before,
                    )
                } else {
                    &&& final(self)@ == old(self)@.insert(key@, value@)
                    &&& final(self).state().settled(
                        before.files().insert(before.log_id(), log + encoded(cmd)),
                        before.log_id(),
                        add_bytes(before.uncompacted(), displaced(before.index(), key@)),
                        out,
                    )
                }
            }),
    {
        self.writer.set(key, value)
    }

    fn remove(&mut self, key: String) -> (out: Result<(), CyKvError>)
        ensures
            final(self).state().base() == old(self).state().base(),
            ({
                let before = old(self).state();
                let cmd = CommandView::Remove { key: key@ };
                let log = before.files()[before.log_id()];
                if !old(self)@.contains_key(key@) {
                    &&& out matches Err(CyKvError::KeyNotFound(k)) && k@ == key@
                    &&& final(self).state().unchanged(&before)
                } else if log.len() + encoded_len(cmd) > usize::MAX {
                    out == Err::<(), CyKvError>(CyKvError::Io) && final(self).state().unchanged(
                        &before,
                    )
                } else {
                    &&& final(self)@ == old(self)@.remove(key@)
                    &&& final(self).state().settled(
                        before.files().insert(before.log_id(), log + encoded(cmd)),
                        before.log_id(),
                        add_bytes(
                            add_bytes(before.uncompacted(), displaced(before.index(), key@)),
                            encoded_len(cmd) as u64,
                        ),
                        out,
                    )
                }
            }),
    {
        self.writer.remove(key)
    }
}

/// Law of durability: a store that is opened on the directory of another
/// holds what the other holds. Opening adds an empty log behind the logs
/// of the directory, and nothing else.
pub proof fn lemma_durability<M: CacheManager, N: CacheManager>(
    store: CyStoreWriter<M>,
    reopened: CyStoreWriter<N>,
)
    requires
        store.wf(),
        reopened.wf(),
        reopened.log_id() > store.log_id(),
        reopened.files() == store.files().insert(reopened.log_id(), Seq::empty()),
    ensures
        reopened@ == store@,
        reopened.index() == store.index(),
{
    store.lemma_wf();
    reopened.lemma_wf();
    lemma_replay_new_log(store.files(), reopened.log_id());
    assert forall|key: Seq<char>| store.index().contains_key(key) implies value_at(
        reopened.files(),
        store.index()[key],
    ) == value_at(store.files(), store.index()[key]) by {
        assert(points_to(store.files(), key, store.index()[key]));
    }
    assert(reopened@ =~= store@);
}

/// Law of the kept value: a key that was bound is found with its value by
/// a store that is opened on the directory afterwards, whether or not the
/// store compacted meanwhile. `before` is what the store held when the key
/// was bound, and `after` the store behind that, as `set` states it.
pub proof fn lemma_set_survives<M: CacheManager, N: CacheManager>(
    before: Map<Seq<char>, Seq<char>>,
    after: CyStoreWriter<M>,
    reopened: CyStoreWriter<N>,
    key: Seq<char>,
    value: Seq<char>,
)
    requires
        after.wf(),
        after@ == before.insert(key, value),
        reopened.wf(),
        reopened.log_id() > after.log_id(),
        reopened.files() == after.files().insert(reopened.log_id(), Seq::empty()),
    ensures
        reopened@ == before.insert(key, value),
        reopened@.contains_key(key) && reopened@[key] == value,
        forall|other: Seq<char>|
            other != key ==> (reopened@.contains_key(other) <==> before.contains_key(other)),
        forall|other: Seq<char>|
            other != key && before.contains_key(other) ==> reopened@[other] == before[other],
{
    lemma_durability(after, reopened);
}

/// Law of the compaction: a command that brings the displaced bytes to
/// the threshold, with a record no longer than they are, leaves the
/// directory no larger than it found it. `files` is the directory that
/// the command found, `record` what it appended to the log `id`, and
/// `after` the store behind it, as `set` and `remove` state it.
pub proof fn lemma_compaction_shrinks<M: CacheManager>(
    after: CyStoreWriter<M>,
    files: Map<u32, Seq<u8>>,
    id: u32,
    record: Seq<u8>,
    garbage: u64,
)
    requires
        files.contains_key(id),
        after.settled(files.insert(id, files[id] + record), id, garbage, Ok(())),
        garbage >= COMPACT_THRESHOLD,
        record.len() <= garbage,
    ensures
        total_size(after.files()) <= total_size(files),
        after.log_id() == id + 1,
        after.uncompacted() == 0,
{
    lemma_size_insert(files, id, files[id] + record);
}

/// Law of the store: what a store holds is decided by its logs alone.
pub proof fn lemma_logs_decide<M: CacheManager, N: CacheManager>(
    a: CyStoreWriter<M>,
    b: CyStoreWriter<N>,
)
    requires
        a.wf(),
        b.wf(),
        a.files() == b.files(),
    ensures
        a@ == b@,
{
    a.lemma_wf();
    b.lemma_wf();
}

/// Law of overwriting: after a key was bound to one value and then to
/// another, the store has the key with the second value. The premises are
/// what `set` states of the store behind it.
pub proof fn lemma_set_twice(
    start: Map<Seq<char>, Seq<char>>,
    first: Map<Seq<char>, Seq<char>>,
    second: Map<Seq<char>, Seq<char>>,
    key: Seq<char>,
    v1: Seq<char>,
    v2: Seq<char>,
)
    requires
        first == start.insert(key, v1),
        second == first.insert(key, v2),
    ensures
        second.contains_key(key) && second[key] == v2,
        second == start.insert(key, v2),
{
    assert(second =~= start.insert(key, v2));
}

/// Law of erasing: after a key was bound and then erased, the store does
/// not have the key. The premises are what `set` and `remove` state of the
/// store behind them.
pub proof fn lemma_set_remove(
    start: Map<Seq<char>, Seq<char>>,
    bound: Map<Seq<char>, Seq<char>>,
    erased: Map<Seq<char>, Seq<char>>,
    key: Seq<char>,
    value: Seq<char>,
)
    requires
        bound == start.insert(key, value),
        erased == bound.remove(key),
    ensures
        !erased.contains_key(key),
        erased == start.remove(key),
{
    assert(erased =~= start.remove(key));
}

} // verus!

//! The storage engine.
pub mod buffer;
pub mod compaction;
pub mod cykv;
pub mod keydir;
pub mod reads;
pub mod replay;
pub mod sizes;

use crate::engine::cykv::scanned;
use crate::engine::keydir::key_lt;
use crate::error::CyKvError;
use vstd::prelude::*;

verus! {

/// A store of keys and their values.
pub trait KvEngine: Sized {
    /// The store is in order.
    spec fn wf(&self) -> bool;

    /// What the store holds: each key with its value.
    spec fn view(&self) -> Map<Seq<char>, Seq<char>>;

    /// The keys, in their order.
    spec fn keys(&self) -> Seq<Seq<char>>;

    /// Reading from the engine cannot fail. An engine says so of itself:
    /// one that holds all it reads can, one that reads from a device
    /// that may fail cannot.
    spec fn reliable(&self) -> bool;

    /// The engine is sure to bind `key` to `value`, as it stands. An
    /// engine says of itself on which inputs it is; on the others `set`
    /// may fail.
    spec fn admits_set(&self, key: Seq<char>, value: Seq<char>) -> bool;

    /// The engine is sure to erase `key`, as it stands. An engine says of
    /// itself on which inputs it is; on the others `remove` may fail.
    spec fn admits_remove(&self, key: Seq<char>) -> bool;

    /// The value of `key`, where the store has the key. The store holds
    /// what it held, also where the engine cannot read.
    fn get(&mut self, key: String) -> (out: Result<Option<String>, CyKvError>)
        requires
            old(self).wf(),
        ensures
            final(self).wf(),
            final(self).view() == old(self).view(),
            final(self).keys() == old(self).keys(),
            final(self).reliable() == old(self).reliable(),
            old(self).reliable() ==> out is Ok,
            out matches Ok(value) ==> value.deep_view() == if old(self).view().contains_key(
                key@,
            ) {
                Some(old(self).view()[key@])
            } else {
                None
            },
    ;

    /// The values of the keys between `begin` and `end`, both included, in
    /// the order of the keys. A range whose end comes before its begin is
    /// refused with `KeyNotFound`. The store holds what it held, also where
    /// the engine cannot read.
    fn scan(&mut self, begin: String, end: String) -> (out: Result<Vec<String>, CyKvError>)
        requires
            old(self).wf(),
        ensures
            final(self).wf(),
            final(self).view() == old(self).view(),
            final(self).keys() == old(self).keys(),
            final(self).reliable() == old(self).reliable(),
            old(self).reliable() && !key_lt(end@, begin@) ==> out is Ok,
            if key_lt(end@, begin@) {
                out matches Err(CyKvError::KeyNotFound(message)) && message@ == "begin > end"@
            } else {
                out matches Ok(values) ==> values.deep_view() == scanned(
                    old(self).keys(),
                    old(self).view(),
                    begin@,
                    end@,
                )
            },
    ;

    /// Binds `key` to `value`. It succeeds where the engine admits the
    /// input. Where it fails, the store holds what it held, or that and
    /// the key with its value.
    fn set(&mut self, key: String, value: String) -> (out: Result<(), CyKvError>)
        requires
            old(self).wf(),
        ensures
            final(self).wf(),
            final(self).reliable() == old(self).reliable(),
            old(self).admits_set(key@, value@) ==> out is Ok,
            out is Ok ==> final(self).view() == old(self).view().insert(key@, value@),
            out is Err ==> {
                ||| final(self).view() == old(self).view()
                ||| final(self).view() == old(self).view().insert(key@, value@)
            },
    ;

    /// Erases `key`. A key that the store does not have is refused with
    /// `KeyNotFound`. It succeeds where the engine admits the input.
    /// Where it fails, the store holds what it held, or that without the
    /// key.
    fn remove(&mut self, key: String) -> (out: Result<(), CyKvError>)
        requires
            old(self).wf(),
        ensures
            final(self).wf(),
            final(self).reliable() == old(self).reliable(),
            old(self).admits_remove(key@) ==> out is Ok,
            !old(self).view().contains_key(key@) ==> (out matches Err(CyKvError::KeyNotFound(k))
                && k@ == key@) && final(self).view() == old(self).view(),
            out is Ok ==> final(self).view() == old(self).view().remove(key@),
            out is Err ==> {
                ||| final(self).view() == old(self).view()
                ||| final(self).view() == old(self).view().remove(key@)
            },
    ;
}

} // verus!

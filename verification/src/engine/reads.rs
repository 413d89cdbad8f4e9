//! What a read of the store gives, whether or not the index is what the
//! logs say: the outcome of reading one record, of a lookup and of a scan,
//! as functions of the directory and the index.
use crate::codec::{record_at, CommandView};
use crate::engine::cykv::{in_range, scanned};
use crate::engine::keydir::LogIndex;
use crate::engine::replay::{all_point, contents, points_to, value_at};
use crate::error::CyKvError;
use vstd::prelude::*;

verus! {

/// What reading the record at `at` gives: the command of the record; `Io`
/// where the directory has no such log; `Deserialize` where no record
/// stands there.
pub open spec fn command_at(files: Map<u32, Seq<u8>>, at: LogIndex) -> Result<
    CommandView,
    CyKvError,
> {
    if !files.contains_key(at.id) {
        Err(CyKvError::Io)
    } else {
        match record_at(files[at.id], at.command_pos as int) {
            Some((cmd, len)) => Ok(cmd),
            None => Err(CyKvError::Deserialize),
        }
    }
}

/// What reading the value at `at` gives: the value that the record binds;
/// `Internal` where the record erases a key; the error of the read where
/// the record cannot be read.
pub open spec fn read_value(files: Map<u32, Seq<u8>>, at: LogIndex) -> Result<
    Seq<char>,
    CyKvError,
> {
    match command_at(files, at) {
        Ok(CommandView::Put { key, value }) => Ok(value),
        Ok(CommandView::Remove { key }) => Err(CyKvError::Internal),
        Err(e) => Err(e),
    }
}

/// What a lookup of `key` gives: nothing where the index has no such key,
/// and else what reading the value at its place gives.
pub open spec fn looked_up(
    files: Map<u32, Seq<u8>>,
    index: Map<Seq<char>, LogIndex>,
    key: Seq<char>,
) -> Result<Option<Seq<char>>, CyKvError> {
    if index.contains_key(key) {
        match read_value(files, index[key]) {
            Ok(value) => Ok(Some(value)),
            Err(e) => Err(e),
        }
    } else {
        Ok(None)
    }
}

/// What a scan over `keys` gives: the values of the keys between `begin`
/// and `end`, in the order of the keys, or the error of the first of
/// them whose value cannot be read.
pub open spec fn scan_read(
    keys: Seq<Seq<char>>,
    files: Map<u32, Seq<u8>>,
    index: Map<Seq<char>, LogIndex>,
    begin: Seq<char>,
    end: Seq<char>,
) -> Result<Seq<Seq<char>>, CyKvError>
    decreases keys.len(),
{
    if keys.len() == 0 {
        Ok(Seq::empty())
    } else {
        match scan_read(keys.drop_last(), files, index, begin, end) {
            Err(e) => Err(e),
            Ok(values) => if in_range(keys.last(), begin, end) {
                match read_value(files, index[keys.last()]) {
                    Ok(value) => Ok(values.push(value)),
                    Err(e) => Err(e),
                }
            } else {
                Ok(values)
            },
        }
    }
}

/// Law of the lookup: where every key of the index points to a record
/// that binds it, a lookup gives what the store holds.
pub proof fn lemma_looked_up(
    files: Map<u32, Seq<u8>>,
    index: Map<Seq<char>, LogIndex>,
    key: Seq<char>,
)
    requires
        all_point(files, index),
    ensures
        looked_up(files, index, key) == Ok::<Option<Seq<char>>, CyKvError>(
            if contents(files, index).contains_key(key) {
                Some(contents(files, index)[key])
            } else {
                None
            },
        ),
{
    if index.contains_key(key) {
        assert(points_to(files, key, index[key]));
    }
}

/// Law of the scan: where every key of the index points to a record that
/// binds it, a scan over keys of the index gives their values in the
/// store.
pub proof fn lemma_scan_read(
    keys: Seq<Seq<char>>,
    files: Map<u32, Seq<u8>>,
    index: Map<Seq<char>, LogIndex>,
    begin: Seq<char>,
    end: Seq<char>,
)
    requires
        all_point(files, index),
        forall|i: int| 0 <= i < keys.len() ==> index.contains_key(#[trigger] keys[i]),
    ensures
        scan_read(keys, files, index, begin, end) == Ok::<Seq<Seq<char>>, CyKvError>(
            scanned(keys, contents(files, index), begin, end),
        ),
    decreases keys.len(),
{
    if keys.len() > 0 {
        assert forall|i: int| 0 <= i < keys.drop_last().len() implies index.contains_key(
            #[trigger] keys.drop_last()[i],
        ) by {
            assert(keys.drop_last()[i] == keys[i]);
        }
        lemma_scan_read(keys.drop_last(), files, index, begin, end);
        let last = keys[keys.len() - 1];
        assert(index.contains_key(last));
        assert(points_to(files, last, index[last]));
    }
}

/// Keys out of the range are not read.
pub(crate) proof fn lemma_scan_none(
    keys: Seq<Seq<char>>,
    files: Map<u32, Seq<u8>>,
    index: Map<Seq<char>, LogIndex>,
    begin: Seq<char>,
    end: Seq<char>,
)
    requires
        forall|i: int| 0 <= i < keys.len() ==> !in_range(#[trigger] keys[i], begin, end),
    ensures
        scan_read(keys, files, index, begin, end) == Ok::<Seq<Seq<char>>, CyKvError>(
            Seq::empty(),
        ),
    decreases keys.len(),
{
    if keys.len() > 0 {
        assert forall|i: int| 0 <= i < keys.drop_last().len() implies !in_range(
            #[trigger] keys.drop_last()[i],
            begin,
            end,
        ) by {
            assert(keys.drop_last()[i] == keys[i]);
        }
        lemma_scan_none(keys.drop_last(), files, index, begin, end);
        assert(!in_range(keys[keys.len() - 1], begin, end));
    }
}

/// Keys out of the range behind the first `n` keys are not read.
pub(crate) proof fn lemma_scan_rest(
    keys: Seq<Seq<char>>,
    files: Map<u32, Seq<u8>>,
    index: Map<Seq<char>, LogIndex>,
    begin: Seq<char>,
    end: Seq<char>,
    n: int,
)
    requires
        0 <= n <= keys.len(),
        forall|i: int| n <= i < keys.len() ==> !in_range(#[trigger] keys[i], begin, end),
    ensures
        scan_read(keys, files, index, begin, end) == scan_read(
            keys.take(n),
            files,
            index,
            begin,
            end,
        ),
    decreases keys.len() - n,
{
    if n == keys.len() {
        assert(keys.take(n) =~= keys);
    } else {
        assert(keys.drop_last().take(n) =~= keys.take(n));
        assert forall|i: int| n <= i < keys.drop_last().len() implies !in_range(
            #[trigger] keys.drop_last()[i],
            begin,
            end,
        ) by {
            assert(keys.drop_last()[i] == keys[i]);
        }
        lemma_scan_rest(keys.drop_last(), files, index, begin, end, n);
        assert(!in_range(keys[keys.len() - 1], begin, end));
    }
}

/// A scan that fails on the first `n` keys fails so on all of them.
pub(crate) proof fn lemma_scan_fails(
    keys: Seq<Seq<char>>,
    files: Map<u32, Seq<u8>>,
    index: Map<Seq<char>, LogIndex>,
    begin: Seq<char>,
    end: Seq<char>,
    n: int,
)
    requires
        0 <= n <= keys.len(),
        scan_read(keys.take(n), files, index, begin, end) is Err,
    ensures
        scan_read(keys, files, index, begin, end) == scan_read(
            keys.take(n),
            files,
            index,
            begin,
            end,
        ),
    decreases keys.len() - n,
{
    if n == keys.len() {
        assert(keys.take(n) =~= keys);
    } else {
        assert(keys.drop_last().take(n) =~= keys.take(n));
        lemma_scan_fails(keys.drop_last(), files, index, begin, end, n);
    }
}

} // verus!

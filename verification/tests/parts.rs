use cykv::engine::keydir::{bytes_before, key_before};
use cykv::utils::decimal_string;
use cykv::{log_path, parse_log_name, BufWriter, CyKvError, Keydir, LogIndex, Reader, SeekFrom};

#[test]
fn log_names_and_ids() {
    assert_eq!(log_path(0), "0.log");
    assert_eq!(log_path(7), "7.log");
    assert_eq!(log_path(1234567890), "1234567890.log");
    assert_eq!(log_path(u32::MAX), "4294967295.log");
    assert_eq!(decimal_string(10), "10");
    for id in [0, 1, 9, 10, 99, 100, 4096, u32::MAX - 1, u32::MAX] {
        assert_eq!(parse_log_name(&log_path(id)), Some(Some(id)));
    }
    assert_eq!(parse_log_name("12.log"), Some(Some(12)));
    assert_eq!(parse_log_name("0012.log"), Some(Some(12)));
    assert_eq!(parse_log_name("+12.log"), Some(Some(12)));
    assert_eq!(parse_log_name("4294967295.log"), Some(Some(u32::MAX)));
    assert_eq!(parse_log_name("4294967296.log"), Some(None));
    assert_eq!(parse_log_name("99999999999999999999.log"), Some(None));
    assert_eq!(parse_log_name("a.log"), Some(None));
    assert_eq!(parse_log_name("1a.log"), Some(None));
    assert_eq!(parse_log_name("-1.log"), Some(None));
    assert_eq!(parse_log_name("++1.log"), Some(None));
    assert_eq!(parse_log_name("+.log"), Some(None));
    assert_eq!(parse_log_name("1.log.log"), Some(None));
    assert_eq!(parse_log_name("٣.log"), Some(None));
    assert_eq!(parse_log_name(".log"), None);
    assert_eq!(parse_log_name("1.LOG"), None);
    assert_eq!(parse_log_name("1.logs"), None);
    assert_eq!(parse_log_name("1log"), None);
    assert_eq!(parse_log_name("keydir.json"), None);
    assert_eq!(parse_log_name(""), None);
}

#[test]
fn keys_are_ordered_by_their_bytes() {
    assert!(bytes_before(b"", b"a"));
    assert!(!bytes_before(b"", b""));
    assert!(bytes_before(b"a", b"ab"));
    assert!(!bytes_before(b"ab", b"a"));
    assert!(bytes_before(b"ab", b"b"));
    assert!(bytes_before(&[1, 2, 3], &[1, 2, 4]));
    assert!(!bytes_before(&[1, 2, 4], &[1, 2, 3]));
    assert!(!bytes_before(b"same", b"same"));
    let before = |a: &str, b: &str| key_before(&a.to_owned(), &b.to_owned());
    for (a, b) in [("key1", "key2"), ("key10", "key2"), ("Z", "a"), ("z", "é"), ("é", "€")] {
        assert!(before(a, b));
        assert!(!before(b, a));
        assert_eq!(before(a, b), a < b);
    }
}

#[test]
fn keydir_keeps_the_keys_in_order() {
    let mut keydir = Keydir::new();
    let index = |n: u64| LogIndex::new(1, n, n + 1);
    assert_eq!(LogIndex::new(3, 4, 5), LogIndex { id: 3, command_pos: 4, len: 5 });
    for (n, key) in ["m", "c", "x", "a", "q"].iter().enumerate() {
        assert_eq!(keydir.insert(key.to_string(), index(n as u64)), None);
    }
    assert_eq!(keydir.len(), 5);
    let keys: Vec<String> = (0..keydir.len()).map(|i| keydir.key(i).clone()).collect();
    assert_eq!(keys, vec!["a", "c", "m", "q", "x"]);
    assert_eq!(keydir.insert("c".to_owned(), index(9)), Some(index(1)));
    assert_eq!(keydir.get(&"c".to_owned()), Some(index(9)));
    assert_eq!(keydir.get(&"b".to_owned()), None);
    assert_eq!(keydir.lower_bound(&"b".to_owned()), 1);
    assert_eq!(keydir.lower_bound(&"c".to_owned()), 1);
    assert_eq!(keydir.lower_bound(&"zz".to_owned()), 5);
    assert_eq!(keydir.remove(&"m".to_owned()), Some(index(0)));
    assert_eq!(keydir.remove(&"m".to_owned()), None);
    keydir.set_index(0, index(7));
    assert_eq!(keydir.index(0), index(7));
    let keys: Vec<String> = (0..keydir.len()).map(|i| keydir.key(i).clone()).collect();
    assert_eq!(keys, vec!["a", "c", "q", "x"]);
}

#[test]
fn buf_writer_counts_what_it_wrote() {
    let mut writer = BufWriter::new(vec![1, 2]);
    assert_eq!(writer.pos, 2);
    assert_eq!(writer.write(&[3, 4, 5]), Ok(3));
    assert_eq!(writer.pos, 5);
    assert_eq!(writer.write(&[]), Ok(0));
    assert_eq!(writer.flush(), Ok(()));
    assert_eq!(writer.into_inner(), vec![1, 2, 3, 4, 5]);
}

#[test]
fn reader_reads_and_seeks() {
    let mut reader = Reader::new(vec![10, 11, 12, 13, 14]);
    assert_eq!(reader.read(2), vec![10, 11]);
    assert_eq!(reader.pos, 2);
    assert_eq!(reader.seek(SeekFrom::Current(2)), Ok(4));
    assert_eq!(reader.read(9), vec![14]);
    assert_eq!(reader.read(9), Vec::<u8>::new());
    assert_eq!(reader.seek(SeekFrom::End(-5)), Ok(0));
    assert_eq!(reader.seek(SeekFrom::End(-6)), Err(CyKvError::Io));
    assert_eq!(reader.seek(SeekFrom::Current(i64::MIN)), Err(CyKvError::Io));
    assert_eq!(reader.seek(SeekFrom::Start(u64::MAX)), Ok(u64::MAX));
    assert_eq!(reader.seek(SeekFrom::Current(1)), Err(CyKvError::Io));
    assert_eq!(reader.read(1), Vec::<u8>::new());
    assert_eq!(reader.seek(SeekFrom::Start(3)), Ok(3));
    assert_eq!(reader.read(0), Vec::<u8>::new());
    assert_eq!(reader.read(1), vec![13]);
}

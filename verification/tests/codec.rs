use cykv::codec::{decode_from, encode, Command};
use cykv::error::CyKvError;

fn put(key: &str, value: &str) -> Command {
    Command::Put { key: key.to_owned(), value: value.to_owned() }
}

fn remove(key: &str) -> Command {
    Command::Remove { key: key.to_owned() }
}

#[test]
fn encode_put_gives_the_bson_bytes() {
    let bytes = encode(&put("a", "b")).unwrap();
    let expected: Vec<u8> = vec![
        39, 0, 0, 0, 3, b'S', b'e', b't', 0, 29, 0, 0, 0, 2, b'k', b'e', b'y', 0, 2, 0, 0, 0, b'a',
        0, 2, b'v', b'a', b'l', b'u', b'e', 0, 2, 0, 0, 0, b'b', 0, 0, 0,
    ];
    assert_eq!(bytes, expected);
}

#[test]
fn encode_remove_gives_the_bson_bytes() {
    let bytes = encode(&remove("k1")).unwrap();
    let expected: Vec<u8> = vec![
        30, 0, 0, 0, 3, b'R', b'e', b'm', b'o', b'v', b'e', 0, 17, 0, 0, 0, 2, b'k', b'e', b'y', 0,
        3, 0, 0, 0, b'k', b'1', 0, 0, 0,
    ];
    assert_eq!(bytes, expected);
}

#[test]
fn encode_agrees_with_a_document_built_by_hand() {
    let mut inner = bson::Document::new();
    inner.insert("key", "schlüssel");
    inner.insert("value", "wert €");
    let mut outer = bson::Document::new();
    outer.insert("Set", inner);
    let mut expected = Vec::new();
    outer.to_writer(&mut expected).unwrap();
    assert_eq!(encode(&put("schlüssel", "wert €")).unwrap(), expected);
    assert_eq!(expected.len(), 37 + "schlüssel".len() + "wert €".len());
}

#[test]
fn decode_gives_the_command_back() {
    for cmd in [put("key1", "value1"), put("", ""), put("ключ", "значение"), remove("key1"), remove("")] {
        let bytes = encode(&cmd).unwrap();
        let (back, len) = decode_from(&bytes, 0).unwrap();
        assert_eq!(back, cmd);
        assert_eq!(len, bytes.len());
    }
}

#[test]
fn decode_takes_one_record_and_says_where_the_next_starts() {
    let first = encode(&put("a", "1")).unwrap();
    let second = encode(&remove("a")).unwrap();
    let mut log = first.clone();
    log.extend_from_slice(&second);
    let (cmd, len) = decode_from(&log, 0).unwrap();
    assert_eq!(cmd, put("a", "1"));
    assert_eq!(len, first.len());
    let (cmd, len) = decode_from(&log, len).unwrap();
    assert_eq!(cmd, remove("a"));
    assert_eq!(len, second.len());
}

#[test]
fn decode_refuses_a_record_that_ends_too_early() {
    let bytes = encode(&put("key1", "value1")).unwrap();
    assert_eq!(decode_from(&bytes[..bytes.len() - 1], 0), Err(CyKvError::Deserialize));
    assert_eq!(decode_from(&bytes[..3], 0), Err(CyKvError::Deserialize));
    assert_eq!(decode_from(&bytes, bytes.len()), Err(CyKvError::Deserialize));
    assert_eq!(decode_from(&bytes, bytes.len() + 7), Err(CyKvError::Deserialize));
}

#[test]
fn decode_refuses_malformed_records() {
    // A length below the least that a document can have.
    assert_eq!(decode_from(&[4, 0, 0, 0, 0], 0), Err(CyKvError::Deserialize));
    // A negative length.
    assert_eq!(decode_from(&[0xff, 0xff, 0xff, 0xff, 0], 0), Err(CyKvError::Deserialize));
    // The empty document: no command.
    assert_eq!(decode_from(&[5, 0, 0, 0, 0], 0), Err(CyKvError::Deserialize));
    // A document without its closing zero byte.
    assert_eq!(decode_from(&[5, 0, 0, 0, 1], 0), Err(CyKvError::Deserialize));
}

#[test]
fn decode_refuses_documents_that_are_no_command() {
    let encode_doc = |doc: &bson::Document| {
        let mut bytes = Vec::new();
        doc.to_writer(&mut bytes).unwrap();
        bytes
    };
    let mut inner = bson::Document::new();
    inner.insert("key", "a");
    let mut unknown = bson::Document::new();
    unknown.insert("Get", inner.clone());
    assert_eq!(decode_from(&encode_doc(&unknown), 0), Err(CyKvError::Deserialize));
    // `Set` without its value.
    let mut half = bson::Document::new();
    half.insert("Set", inner.clone());
    assert_eq!(decode_from(&encode_doc(&half), 0), Err(CyKvError::Deserialize));
    // A key that is no string.
    let mut number = bson::Document::new();
    number.insert("key", 7i32);
    let mut wrong = bson::Document::new();
    wrong.insert("Remove", number);
    assert_eq!(decode_from(&encode_doc(&wrong), 0), Err(CyKvError::Deserialize));
    // Two commands in one document.
    let mut two = bson::Document::new();
    two.insert("Remove", inner.clone());
    two.insert("Set", inner.clone());
    assert_eq!(decode_from(&encode_doc(&two), 0), Err(CyKvError::Deserialize));
    // A field more than the command has is passed over.
    let mut more = inner.clone();
    more.insert("note", "x");
    let mut wide = bson::Document::new();
    wide.insert("Remove", more);
    assert_eq!(decode_from(&encode_doc(&wide), 0), Ok((remove("a"), encode_doc(&wide).len())));
}

#[test]
fn decode_does_not_go_down_into_what_it_passes_over() {
    // A document nested a hundred thousand deep.
    let depth = 100_000usize;
    let mut deep = Vec::new();
    for level in (1..=depth).rev() {
        deep.extend_from_slice(&((5 + 8 * level) as u32).to_le_bytes());
        deep.extend_from_slice(&[3, b'a', 0]);
    }
    deep.extend_from_slice(&[5, 0, 0, 0, 0]);
    deep.extend(std::iter::repeat(0).take(depth));
    assert_eq!(deep.len(), 5 + 8 * depth);
    // It is the value of a field that `Remove` does not have.
    let mut inner = vec![2, b'k', b'e', b'y', 0, 2, 0, 0, 0, b'k', 0, 3, b'j', 0];
    inner.extend_from_slice(&deep);
    inner.push(0);
    let mut fields = ((inner.len() + 4) as u32).to_le_bytes().to_vec();
    fields.extend_from_slice(&inner);
    let mut body = vec![3, b'R', b'e', b'm', b'o', b'v', b'e', 0];
    body.extend_from_slice(&fields);
    body.push(0);
    let mut record = ((body.len() + 4) as u32).to_le_bytes().to_vec();
    record.extend_from_slice(&body);
    assert_eq!(decode_from(&record, 0), Ok((remove("k"), record.len())));
}

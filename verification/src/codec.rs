//! The encoding of one command as one record of a log.
//!
//! A record is a BSON document with one element, named after the command,
//! whose value is a document of the command's fields, each a string:
//! `{ "Set": { "key": .., "value": .. } }` or `{ "Remove": { "key": .. } }`.
//! Its first four bytes hold its own length, so a reader that stands at the
//! first byte of a record can take exactly that record.
use crate::error::CyKvError;
use vstd::prelude::*;
use vstd::string::StringExecFns;
use vstd::utf8::encode_utf8;

verus! {

/// A command of the log.
#[derive(Debug, PartialEq, Eq)]
pub enum Command {
    /// Binds `key` to `value`. In a record its name is `Set`.
    Put { key: String, value: String },
    /// Declares `key` absent.
    Remove { key: String },
}

/// A command, with its strings as sequences of characters.
pub enum CommandView {
    Put { key: Seq<char>, value: Seq<char> },
    Remove { key: Seq<char> },
}

impl View for Command {
    type V = CommandView;

    open spec fn view(&self) -> CommandView {
        match self {
            Command::Put { key, value } => CommandView::Put { key: key@, value: value@ },
            Command::Remove { key } => CommandView::Remove { key: key@ },
        }
    }
}

/// The fields of a nested document, in order. The value of a field that is
/// no string is `None`.
pub type Fields = Seq<(Seq<char>, Option<Seq<char>>)>;

/// The elements of a document, in order. The value of an element that is no
/// document is `None`.
pub type Elements = Seq<(Seq<char>, Option<Fields>)>;

/// The four bytes of `n`, lowest first.
pub open spec fn le32(n: nat) -> Seq<u8> {
    seq![
        (n % 256) as u8,
        ((n / 0x100) % 256) as u8,
        ((n / 0x1_0000) % 256) as u8,
        ((n / 0x100_0000) % 256) as u8,
    ]
}

/// The number whose four bytes, lowest first, stand at `pos`.
pub open spec fn le32_at(bytes: Seq<u8>, pos: int) -> int {
    bytes[pos] + bytes[pos + 1] * 0x100 + bytes[pos + 2] * 0x1_0000 + bytes[pos + 3] * 0x100_0000
}

/// A name as BSON writes it: its UTF-8 bytes and a zero byte.
pub open spec fn cstring(name: Seq<char>) -> Seq<u8> {
    encode_utf8(name).push(0u8)
}

/// An element whose value is the string `text`.
pub open spec fn string_element(name: Seq<char>, text: Seq<char>) -> Seq<u8> {
    seq![2u8] + cstring(name) + le32(encode_utf8(text).len() + 1) + encode_utf8(text).push(0u8)
}

/// The string elements of `fields`, one after the other.
pub open spec fn string_elements(fields: Seq<(Seq<char>, Seq<char>)>) -> Seq<u8>
    decreases fields.len(),
{
    if fields.len() == 0 {
        Seq::empty()
    } else {
        string_elements(fields.drop_last()) + string_element(fields.last().0, fields.last().1)
    }
}

/// A document with the elements `body`: its length, the elements, a zero byte.
pub open spec fn document(body: Seq<u8>) -> Seq<u8> {
    le32(body.len() + 5) + body.push(0u8)
}

/// The document `{ tag: { fields.. } }`.
pub open spec fn record_layout(tag: Seq<char>, fields: Seq<(Seq<char>, Seq<char>)>) -> Seq<u8> {
    document(seq![3u8] + cstring(tag) + document(string_elements(fields)))
}

/// No character of `name` is the zero character.
pub open spec fn no_nul(name: Seq<char>) -> bool {
    forall|i: int| 0 <= i < name.len() ==> name[i] != '\0'
}

/// No two fields have the same name.
pub open spec fn distinct_names(fields: Seq<(Seq<char>, Seq<char>)>) -> bool {
    forall|i: int, j: int| 0 <= i < j < fields.len() ==> fields[i].0 != fields[j].0
}

/// The fields as a parser hands them out.
pub open spec fn as_parsed(fields: Seq<(Seq<char>, Seq<char>)>) -> Fields {
    Seq::new(fields.len(), |i: int| (fields[i].0, Some(fields[i].1)))
}

/// The elements of the document `{ tag: { fields.. } }` as a parser hands
/// them out.
pub open spec fn nested(tag: Seq<char>, fields: Seq<(Seq<char>, Seq<char>)>) -> Elements {
    seq![(tag, Some(as_parsed(fields)))]
}

/// The elements of the document that `bytes` encode, where they encode one.
pub uninterp spec fn bson_document(bytes: Seq<u8>) -> Option<Elements>;

#[verifier::external_type_specification]
#[verifier::external_body]
pub struct ExSerError(bson::ser::Error);

#[verifier::external_type_specification]
#[verifier::external_body]
pub struct ExRawError(bson::raw::Error);

/// `bson::Document::to_writer`, on the document `{ tag: { fields.. } }` and
/// into a vector. For names without a zero character, and where the whole
/// fits the signed 32-bit length that BSON writes, the bytes are those of
/// the BSON format, and `bson::RawDocument` reads the same document back
/// from them.
#[verifier::external_body]
fn write_document(tag: &str, fields: &Vec<(String, String)>) -> (out: Result<Vec<u8>, bson::ser::Error>)
    requires
        no_nul(tag@),
        forall|i: int| 0 <= i < fields.len() ==> no_nul(#[trigger] fields.deep_view()[i].0),
        distinct_names(fields.deep_view()),
        record_layout(tag@, fields.deep_view()).len() <= i32::MAX,
    ensures
        out is Ok,
        out matches Ok(bytes) ==> bytes@ == record_layout(tag@, fields.deep_view()),
        out matches Ok(bytes) ==> bson_document(bytes@) == Some(nested(tag@, fields.deep_view())),
{
    let inner: bson::Document =
        fields.iter().map(|f| (f.0.clone(), bson::Bson::String(f.1.clone()))).collect();
    let mut outer = bson::Document::new();
    outer.insert(tag, inner);
    let mut bytes = Vec::new();
    outer.to_writer(&mut bytes).map(|_| bytes)
}

/// `bson::RawDocument::from_bytes` and `bson::RawDocument::iter`, on the
/// bytes of one document and on each document that is the value of one of
/// its elements. The elements come out in the document's order, each with
/// the fields of its nested document, each of those with its string. What
/// lies deeper is not looked at.
#[verifier::external_body]
fn read_document(bytes: &[u8]) -> (out: Result<Vec<(String, Option<Vec<(String, Option<String>)>>)>, bson::raw::Error>)
    ensures
        out is Ok <==> bson_document(bytes@) is Some,
        out matches Ok(elements) ==> bson_document(bytes@) == Some(elements.deep_view()),
{
    bson::RawDocument::from_bytes(bytes)?.iter().map(|element| {
        let (name, value) = element?;
        Ok((name.to_owned(), match value {
            bson::RawBsonRef::Document(inner) => Some(inner.iter().map(|field| {
                let (n, v) = field?;
                Ok((n.to_owned(), match v {
                    bson::RawBsonRef::String(s) => Some(s.to_owned()),
                    _ => None,
                }))
            }).collect::<Result<_, bson::raw::Error>>()?),
            _ => None,
        }))
    }).collect()
}

/// The value of the first of `fields` from `from` on that is called `name`.
pub open spec fn field_text(fields: Fields, name: Seq<char>, from: int) -> Option<Seq<char>>
    decreases fields.len() - from,
{
    if from < 0 || from >= fields.len() {
        None
    } else if fields[from].0 == name {
        fields[from].1
    } else {
        field_text(fields, name, from + 1)
    }
}

/// The command that a document stands for: it has one element, called `Set`
/// or `Remove`, whose value is a document with a string for each field of
/// that command. Other fields of that document are passed over.
pub open spec fn command_of(doc: Elements) -> Option<CommandView> {
    if doc.len() != 1 {
        None
    } else {
        match doc[0].1 {
            None => None,
            Some(fields) => {
                if doc[0].0 == "Set"@ {
                    match (field_text(fields, "key"@, 0), field_text(fields, "value"@, 0)) {
                        (Some(key), Some(value)) => Some(CommandView::Put { key, value }),
                        _ => None,
                    }
                } else if doc[0].0 == "Remove"@ {
                    match field_text(fields, "key"@, 0) {
                        Some(key) => Some(CommandView::Remove { key }),
                        None => None,
                    }
                } else {
                    None
                }
            },
        }
    }
}

/// The command that the record `bytes` holds.
#[verifier::opaque]
pub open spec fn decoded(bytes: Seq<u8>) -> Option<CommandView> {
    match bson_document(bytes) {
        Some(doc) => command_of(doc),
        None => None,
    }
}

/// The record of a command.
#[verifier::opaque]
pub open spec fn encoded(cmd: CommandView) -> Seq<u8> {
    match cmd {
        CommandView::Put { key, value } => record_layout(
            "Set"@,
            seq![("key"@, key), ("value"@, value)],
        ),
        CommandView::Remove { key } => record_layout("Remove"@, seq![("key"@, key)]),
    }
}

/// The length of the record of a command.
pub open spec fn encoded_len(cmd: CommandView) -> nat {
    match cmd {
        CommandView::Put { key, value } => 37 + encode_utf8(key).len() + encode_utf8(value).len(),
        CommandView::Remove { key } => 28 + encode_utf8(key).len(),
    }
}

/// The length of the record that starts at `pos`, where the four bytes
/// there give a length that BSON accepts and that the bytes behind `pos`
/// can fill.
pub open spec fn frame_at(file: Seq<u8>, pos: int) -> Option<int> {
    if 0 <= pos && pos + 4 <= file.len() && 5 <= le32_at(file, pos) <= i32::MAX && pos + le32_at(
        file,
        pos,
    ) <= file.len() {
        Some(le32_at(file, pos))
    } else {
        None
    }
}

/// The command of the record that starts at `pos`, and the record's length.
///
/// A document is no shorter than the record that `encode` writes of the
/// command that it holds, which holds nothing but the command. That is
/// part of what a record is here, and `decode_from` looks at it, so that
/// what is proved of the sizes of logs does not rest on the decoder.
pub open spec fn record_at(file: Seq<u8>, pos: int) -> Option<(CommandView, int)> {
    match frame_at(file, pos) {
        Some(len) => match decoded(file.subrange(pos, pos + len)) {
            Some(cmd) => if encoded_len(cmd) <= len {
                Some((cmd, len))
            } else {
                None
            },
            None => None,
        },
        None => None,
    }
}

proof fn lemma_names()
    ensures
        "Set"@ == seq!['S', 'e', 't'],
        "Remove"@ == seq!['R', 'e', 'm', 'o', 'v', 'e'],
        "key"@ == seq!['k', 'e', 'y'],
        "value"@ == seq!['v', 'a', 'l', 'u', 'e'],
        no_nul("Set"@),
        no_nul("Remove"@),
        no_nul("key"@),
        no_nul("value"@),
        encode_utf8("Set"@).len() == 3,
        encode_utf8("Remove"@).len() == 6,
        encode_utf8("key"@).len() == 3,
        encode_utf8("value"@).len() == 5,
{
    reveal_strlit("Set");
    reveal_strlit("Remove");
    reveal_strlit("key");
    reveal_strlit("value");
    assert("Set"@ =~= seq!['S', 'e', 't']);
    assert("Remove"@ =~= seq!['R', 'e', 'm', 'o', 'v', 'e']);
    assert("key"@ =~= seq!['k', 'e', 'y']);
    assert("value"@ =~= seq!['v', 'a', 'l', 'u', 'e']);
    vstd::utf8::is_ascii_chars_encode_utf8("Set"@);
    vstd::utf8::is_ascii_chars_encode_utf8("Remove"@);
    vstd::utf8::is_ascii_chars_encode_utf8("key"@);
    vstd::utf8::is_ascii_chars_encode_utf8("value"@);
}

/// A record is as long as `encoded_len` says.
pub proof fn lemma_encoded_len(cmd: CommandView)
    ensures
        encoded(cmd).len() == encoded_len(cmd),
{
    reveal(encoded);
    lemma_names();
    match cmd {
        CommandView::Put { key, value } => {
            let fields = seq![("key"@, key), ("value"@, value)];
            assert(fields.drop_last() =~= seq![("key"@, key)]);
            assert(fields.drop_last().drop_last() =~= Seq::<(Seq<char>, Seq<char>)>::empty());
            reveal_with_fuel(string_elements, 3);
        },
        CommandView::Remove { key } => {
            let fields = seq![("key"@, key)];
            assert(fields.drop_last() =~= Seq::<(Seq<char>, Seq<char>)>::empty());
            reveal_with_fuel(string_elements, 2);
        },
    }
}

/// The four bytes that `le32` writes give the number back.
pub proof fn lemma_le32(n: nat)
    requires
        0 <= n < 0x1_0000_0000,
    ensures
        le32(n).len() == 4,
        le32_at(le32(n), 0) == n,
{
}

/// A record holds its own length in its first four bytes.
pub proof fn lemma_encoded_frame(cmd: CommandView)
    requires
        encoded_len(cmd) <= i32::MAX,
    ensures
        encoded(cmd).len() >= 5,
        le32_at(encoded(cmd), 0) == encoded(cmd).len(),
{
    reveal(encoded);
    lemma_encoded_len(cmd);
    let tag = match cmd {
        CommandView::Put { .. } => "Set"@,
        CommandView::Remove { .. } => "Remove"@,
    };
    let fields = match cmd {
        CommandView::Put { key, value } => seq![("key"@, key), ("value"@, value)],
        CommandView::Remove { key } => seq![("key"@, key)],
    };
    let body = seq![3u8] + cstring(tag) + document(string_elements(fields));
    assert(encoded(cmd) == document(body));
    lemma_le32(body.len() + 5);
    let e = encoded(cmd);
    assert(e[0] == le32(body.len() + 5)[0]);
    assert(e[1] == le32(body.len() + 5)[1]);
    assert(e[2] == le32(body.len() + 5)[2]);
    assert(e[3] == le32(body.len() + 5)[3]);
}

/// What `write_document` states of the bytes it returns, for a command.
pub open spec fn parses_back(cmd: CommandView) -> bool {
    bson_document(encoded(cmd)) == Some(
        match cmd {
            CommandView::Put { key, value } => nested(
                "Set"@,
                seq![("key"@, key), ("value"@, value)],
            ),
            CommandView::Remove { key } => nested("Remove"@, seq![("key"@, key)]),
        },
    )
}

proof fn lemma_command_of(cmd: CommandView)
    requires
        parses_back(cmd),
    ensures
        decoded(encoded(cmd)) == Some(cmd),
{
    reveal(encoded);
    reveal(decoded);
    lemma_names();
    match cmd {
        CommandView::Put { key, value } => {
            let fields = as_parsed(seq![("key"@, key), ("value"@, value)]);
            assert(fields[0] == ("key"@, Some(key)));
            assert(fields[1] == ("value"@, Some(value)));
            assert("key"@ != "value"@) by {
                assert("key"@.len() != "value"@.len());
            }
            assert("Set"@ != "Remove"@) by {
                assert("Set"@.len() != "Remove"@.len());
            }
            reveal_with_fuel(field_text, 3);
            assert(field_text(fields, "key"@, 0) == Some(key));
            assert(field_text(fields, "value"@, 0) == Some(value));
        },
        CommandView::Remove { key } => {
            let fields = as_parsed(seq![("key"@, key)]);
            assert(fields[0] == ("key"@, Some(key)));
            assert("Set"@ != "Remove"@) by {
                assert("Set"@.len() != "Remove"@.len());
            }
            reveal_with_fuel(field_text, 2);
            assert(field_text(fields, "key"@, 0) == Some(key));
        },
    }
}

/// The number whose four bytes, lowest first, stand at `pos`.
pub fn read_le32(bytes: &[u8], pos: usize) -> (n: u32)
    requires
        pos + 4 <= bytes@.len(),
    ensures
        n == le32_at(bytes@, pos as int),
{
    let b0: u32 = bytes[pos] as u32;
    let b1: u32 = bytes[pos + 1] as u32;
    let b2: u32 = bytes[pos + 2] as u32;
    let b3: u32 = bytes[pos + 3] as u32;
    b0 + b1 * 0x100 + b2 * 0x1_0000 + b3 * 0x100_0000
}

/// The string of the first of `fields` that is called `name`.
fn lookup(fields: &Vec<(String, Option<String>)>, name: &str) -> (text: Option<String>)
    ensures
        text.deep_view() == field_text(fields.deep_view(), name@, 0),
{
    let wanted = String::from_str(name);
    let mut i: usize = 0;
    while i < fields.len()
        invariant
            i <= fields.len(),
            wanted@ == name@,
            field_text(fields.deep_view(), name@, 0) == field_text(
                fields.deep_view(),
                name@,
                i as int,
            ),
        decreases fields.len() - i,
    {
        assert(fields.deep_view()[i as int] == fields[i as int].deep_view());
        if fields[i].0 == wanted {
            return match &fields[i].1 {
                Some(text) => Some(text.clone()),
                None => None,
            };
        }
        i += 1;
    }
    None
}

/// The command that a document stands for.
fn command_from(doc: &Vec<(String, Option<Vec<(String, Option<String>)>>)>) -> (cmd: Option<Command>)
    ensures
        cmd matches Some(c) ==> command_of(doc.deep_view()) == Some(c@),
        cmd is None ==> command_of(doc.deep_view()) is None,
{
    if doc.len() != 1 {
        return None;
    }
    assert(doc.deep_view()[0] == doc[0].deep_view());
    match &doc[0].1 {
        None => None,
        Some(fields) => {
            if doc[0].0 == String::from_str("Set") {
                match (lookup(fields, "key"), lookup(fields, "value")) {
                    (Some(key), Some(value)) => Some(Command::Put { key, value }),
                    _ => None,
                }
            } else if doc[0].0 == String::from_str("Remove") {
                match lookup(fields, "key") {
                    Some(key) => Some(Command::Remove { key }),
                    None => None,
                }
            } else {
                None
            }
        },
    }
}

/// The fields of a command meet what `write_document` asks, and what it
/// states of them gives the command back.
proof fn lemma_fields(cmd: CommandView, tag: Seq<char>, fields: Seq<(Seq<char>, Seq<char>)>)
    requires
        encoded_len(cmd) <= i32::MAX,
        match cmd {
            CommandView::Put { key, value } => tag == "Set"@ && fields == seq![
                ("key"@, key),
                ("value"@, value),
            ],
            CommandView::Remove { key } => tag == "Remove"@ && fields == seq![("key"@, key)],
        },
    ensures
        no_nul(tag),
        forall|i: int| 0 <= i < fields.len() ==> no_nul(#[trigger] fields[i].0),
        distinct_names(fields),
        record_layout(tag, fields) == encoded(cmd),
        record_layout(tag, fields).len() <= i32::MAX,
        encoded(cmd).len() >= 5,
        le32_at(encoded(cmd), 0) == encoded(cmd).len(),
        bson_document(encoded(cmd)) == Some(nested(tag, fields)) ==> decoded(encoded(cmd)) == Some(
            cmd,
        ),
{
    reveal(encoded);
    lemma_names();
    lemma_encoded_len(cmd);
    lemma_encoded_frame(cmd);
    assert("key"@ != "value"@) by {
        assert("key"@.len() != "value"@.len());
    }
    if bson_document(encoded(cmd)) == Some(nested(tag, fields)) {
        lemma_command_of(cmd);
    }
}

/// The deep view of a list of two fields.
proof fn lemma_two(fields: Vec<(String, String)>)
    requires
        fields@.len() == 2,
    ensures
        fields.deep_view() == seq![
            (fields@[0].0@, fields@[0].1@),
            (fields@[1].0@, fields@[1].1@),
        ],
{
    assert(fields.deep_view() =~= seq![
        (fields@[0].0@, fields@[0].1@),
        (fields@[1].0@, fields@[1].1@),
    ]);
}

/// The deep view of a list of one field.
proof fn lemma_one(fields: Vec<(String, String)>)
    requires
        fields@.len() == 1,
    ensures
        fields.deep_view() == seq![(fields@[0].0@, fields@[0].1@)],
{
    assert(fields.deep_view() =~= seq![(fields@[0].0@, fields@[0].1@)]);
}

/// The record of `Put { key, value }`.
fn encode_put(key: &String, value: &String) -> (out: Result<Vec<u8>, CyKvError>)
    ensures
        match out {
            Ok(bytes) => {
                &&& encoded_len(CommandView::Put { key: key@, value: value@ }) <= i32::MAX
                &&& bytes@ == encoded(CommandView::Put { key: key@, value: value@ })
                &&& decoded(bytes@) == Some(CommandView::Put { key: key@, value: value@ })
            },
            Err(e) => e == CyKvError::Serialize && encoded_len(
                CommandView::Put { key: key@, value: value@ },
            ) > i32::MAX,
        },
{
    let key_len = key.as_str().as_bytes().len();
    let value_len = value.as_str().as_bytes().len();
    if key_len > 0x7fff_ffff - 37 || value_len > 0x7fff_ffff - 37 - key_len {
        return Err(CyKvError::Serialize);
    }
    let mut fields: Vec<(String, String)> = Vec::new();
    fields.push((String::from_str("key"), key.clone()));
    fields.push((String::from_str("value"), value.clone()));
    proof {
        lemma_two(fields);
        lemma_fields(CommandView::Put { key: key@, value: value@ }, "Set"@, fields.deep_view());
    }
    match write_document("Set", &fields) {
        Ok(bytes) => Ok(bytes),
        Err(_) => Err(CyKvError::Serialize),
    }
}

/// The record of `Remove { key }`.
fn encode_remove(key: &String) -> (out: Result<Vec<u8>, CyKvError>)
    ensures
        match out {
            Ok(bytes) => {
                &&& encoded_len(CommandView::Remove { key: key@ }) <= i32::MAX
                &&& bytes@ == encoded(CommandView::Remove { key: key@ })
                &&& decoded(bytes@) == Some(CommandView::Remove { key: key@ })
            },
            Err(e) => e == CyKvError::Serialize && encoded_len(CommandView::Remove { key: key@ })
                > i32::MAX,
        },
{
    let key_len = key.as_str().as_bytes().len();
    if key_len > 0x7fff_ffff - 28 {
        return Err(CyKvError::Serialize);
    }
    let mut fields: Vec<(String, String)> = Vec::new();
    fields.push((String::from_str("key"), key.clone()));
    proof {
        lemma_one(fields);
        lemma_fields(CommandView::Remove { key: key@ }, "Remove"@, fields.deep_view());
    }
    match write_document("Remove", &fields) {
        Ok(bytes) => Ok(bytes),
        Err(_) => Err(CyKvError::Serialize),
    }
}

/// Encodes a command as one record. The record decodes to the command
/// again. A command whose record would be longer than BSON can say is
/// refused with `Serialize`.
pub fn encode(cmd: &Command) -> (out: Result<Vec<u8>, CyKvError>)
    ensures
        match out {
            Ok(bytes) => {
                &&& encoded_len(cmd@) <= i32::MAX
                &&& bytes@ == encoded(cmd@)
                &&& record_at(bytes@, 0) == Some((cmd@, bytes@.len() as int))
            },
            Err(e) => e == CyKvError::Serialize && encoded_len(cmd@) > i32::MAX,
        },
{
    let out = match cmd {
        Command::Put { key, value } => encode_put(key, value),
        Command::Remove { key } => encode_remove(key),
    };
    proof {
        if out is Ok {
            let bytes = out->Ok_0@;
            lemma_encoded_frame(cmd@);
            lemma_encoded_len(cmd@);
            assert(bytes.subrange(0, bytes.len() as int) =~= bytes);
        }
    }
    out
}

/// Whether the record of `cmd` is no longer than `len`.
fn fits(cmd: &Command, len: u32) -> (r: bool)
    ensures
        r == (encoded_len(cmd@) <= len),
{
    match cmd {
        Command::Put { key, value } => {
            let key_len = key.as_str().as_bytes().len();
            let value_len = value.as_str().as_bytes().len();
            len >= 37 && key_len <= (len - 37) as usize && value_len <= (len - 37) as usize
                - key_len
        },
        Command::Remove { key } => {
            let key_len = key.as_str().as_bytes().len();
            len >= 28 && key_len <= (len - 28) as usize
        },
    }
}

/// Decodes the record that starts at `pos`: the command, and the length of
/// the record. Fails with `Deserialize` where no well-formed record stands
/// there, or where the bytes end before the record does.
pub fn decode_from(bytes: &[u8], pos: usize) -> (out: Result<(Command, usize), CyKvError>)
    ensures
        match out {
            Ok((cmd, len)) => record_at(bytes@, pos as int) == Some((cmd@, len as int)),
            Err(e) => e == CyKvError::Deserialize && record_at(bytes@, pos as int) is None,
        },
{
    if pos > bytes.len() || bytes.len() - pos < 4 {
        return Err(CyKvError::Deserialize);
    }
    let len = read_le32(bytes, pos);
    if len < 5 || len > 0x7fff_ffff || len as usize > bytes.len() - pos {
        return Err(CyKvError::Deserialize);
    }
    let record = vstd::slice::slice_subrange(bytes, pos, pos + len as usize);
    proof {
        reveal(decoded);
    }
    match read_document(record) {
        Ok(doc) => match command_from(&doc) {
            Some(cmd) => if fits(&cmd, len) {
                Ok((cmd, len as usize))
            } else {
                Err(CyKvError::Deserialize)
            },
            None => Err(CyKvError::Deserialize),
        },
        Err(_) => Err(CyKvError::Deserialize),
    }
}

} // verus!

//! The header codec on whole note files.

use zk::codec::{parse, serialize, ParseError};
use zk::metadata::{Link, NoteMetadata};
use zk::timestamp::{format_timestamp, from_epoch, parse_timestamp, to_epoch, Timestamp};

fn ts(year: u32, month: u32, day: u32, hour: u32, minute: u32, second: u32) -> Timestamp {
    Timestamp { year, month, day, hour, minute, second }
}

fn sample_meta() -> NoteMetadata {
    NoteMetadata {
        id: String::from("note-one"),
        title: String::from("Alpha: a title, with punctuation"),
        created: ts(2024, 1, 2, 3, 4, 5),
        tags: vec![String::from("b"), String::from("a")],
        links: vec![
            Link {
                from: String::from("note-one"),
                to: String::from("note-two"),
                description: Some(String::from("a reference")),
            },
            Link {
                from: String::from("note-one"),
                to: String::from("note-three"),
                description: None,
            },
        ],
        description: Some(String::from("a short summary")),
    }
}

#[test]
fn round_trip_full_note() {
    let m = sample_meta();
    let body = "# Alpha\n\nSome text.\n---\nnot a header\n";
    let text = serialize(&m, body);
    let (m2, b2) = parse(&text).expect("serialized note must parse");
    assert_eq!(m2.id, m.id);
    assert_eq!(m2.title, m.title);
    assert_eq!(m2.created, m.created);
    assert_eq!(m2.tags, m.tags);
    assert_eq!(m2.links.len(), 2);
    assert_eq!(m2.links[0].from, "note-one");
    assert_eq!(m2.links[0].to, "note-two");
    assert_eq!(m2.links[0].description.as_deref(), Some("a reference"));
    assert_eq!(m2.links[1].to, "note-three");
    assert_eq!(m2.links[1].description, None);
    assert_eq!(m2.description.as_deref(), Some("a short summary"));
    assert_eq!(b2, body);
}

#[test]
fn round_trip_minimal_note() {
    let m = NoteMetadata {
        id: String::from("x"),
        title: String::from(""),
        created: ts(1970, 1, 1, 0, 0, 0),
        tags: vec![],
        links: vec![],
        description: None,
    };
    let text = serialize(&m, "");
    let (m2, b2) = parse(&text).expect("minimal note must parse");
    assert_eq!(m2.id, "x");
    assert_eq!(m2.title, "");
    assert_eq!(m2.tags.len(), 0);
    assert_eq!(m2.links.len(), 0);
    assert_eq!(m2.description, None);
    assert_eq!(b2, "");
}

#[test]
fn serialized_form_is_exact() {
    let m = NoteMetadata {
        id: String::from("id1"),
        title: String::from("T"),
        created: ts(2024, 1, 2, 3, 4, 5),
        tags: vec![String::from("a")],
        links: vec![],
        description: None,
    };
    let text = serialize(&m, "body\n");
    assert_eq!(
        text,
        "---\nid: id1\ntitle: T\ncreated: 2024-01-02 03:04:05 +0000\ntags:\n- a\nlinks: []\n---\nbody\n"
    );
}

#[test]
fn missing_delimiter_is_malformed() {
    assert!(matches!(parse("no header here"), Err(ParseError::MalformedHeader)));
    assert!(matches!(parse("---\nid: x\ntitle: t\n"), Err(ParseError::MalformedHeader)));
}

#[test]
fn bad_header_is_schema_error() {
    let text = "---\nnot a field\n---\nbody";
    assert!(matches!(parse(text), Err(ParseError::SchemaError)));
    let text2 = "---\nid: x\ntitle: t\ncreated: not a date\n---\nbody";
    assert!(matches!(parse(text2), Err(ParseError::SchemaError)));
}

#[test]
fn tolerant_reader_accepts_empty_lists() {
    let text = "---\nid: x\ntitle: t\ncreated: 2024-01-02 03:04:05 +0000\ntags: []\nlinks: []\n---\nb";
    let (m, b) = parse(text).expect("empty list forms must parse");
    assert_eq!(m.tags.len(), 0);
    assert_eq!(m.links.len(), 0);
    assert_eq!(b, "b");
}

#[test]
fn tolerant_reader_accepts_missing_lists() {
    let text = "---\nid: x\ntitle: t\ncreated: 2024-01-02 03:04:05 +0000\n---\nb";
    let (m, _) = parse(text).expect("missing optional sections default");
    assert_eq!(m.tags.len(), 0);
    assert_eq!(m.links.len(), 0);
    assert_eq!(m.description, None);
}

#[test]
fn created_epoch_seconds_variant() {
    let text = "---\nid: x\ntitle: t\ncreated: 1700000000\n---\n";
    let (m, _) = parse(text).expect("epoch seconds variant must parse");
    assert_eq!(m.created, ts(2023, 11, 14, 22, 13, 20));
}

#[test]
fn created_zulu_variant() {
    let text = "---\nid: x\ntitle: t\ncreated: 2024-01-02T03:04:05Z\n---\n";
    let (m, _) = parse(text).expect("Z-suffixed variant must parse");
    assert_eq!(m.created, ts(2024, 1, 2, 3, 4, 5));
}

#[test]
fn created_offset_normalized_to_utc() {
    let text = "---\nid: x\ntitle: t\ncreated: 2024-01-02 03:04:05 +0100\n---\n";
    let (m, _) = parse(text).expect("offset variant must parse");
    assert_eq!(m.created, ts(2024, 1, 2, 2, 4, 5));
}

#[test]
fn timestamp_formatting_is_padded() {
    let v = format_timestamp(&ts(980, 3, 4, 5, 6, 7));
    let s: String = v.into_iter().collect();
    assert_eq!(s, "0980-03-04 05:06:07 +0000");
}

#[test]
fn timestamp_epoch_round_trip() {
    let t = ts(2024, 2, 29, 23, 59, 59);
    let e = to_epoch(&t);
    assert_eq!(from_epoch(e), Some(t));
    assert_eq!(from_epoch(0), Some(ts(1970, 1, 1, 0, 0, 0)));
    // past the supported years
    assert_eq!(from_epoch(u64::MAX), None);
}

#[test]
fn timestamp_parse_rejects_junk() {
    let junk: Vec<char> = "yesterday".chars().collect();
    assert_eq!(parse_timestamp(&junk), None);
    let too_long: Vec<char> = "9999999999999".chars().collect();
    assert_eq!(parse_timestamp(&too_long), None);
    let bad_month: Vec<char> = "2024-13-01 00:00:00".chars().collect();
    assert_eq!(parse_timestamp(&bad_month), None);
}

//! Tag mutations on note file text.

use zk::codec::{parse, serialize, ParseError};
use zk::metadata::NoteMetadata;
use zk::tags::{add_tags, list_all_tags, remove_tags};
use zk::timestamp::Timestamp;

fn ts0() -> Timestamp {
    Timestamp { year: 2024, month: 1, day: 1, hour: 0, minute: 0, second: 0 }
}

fn note_text(tags: &[&str], body: &str) -> String {
    let m = NoteMetadata {
        id: String::from("n1"),
        title: String::from("t"),
        created: ts0(),
        tags: tags.iter().map(|t| String::from(*t)).collect(),
        links: vec![],
        description: None,
    };
    serialize(&m, body)
}

fn tags_of(text: &str) -> Vec<String> {
    parse(text).expect("text must parse").0.tags
}

#[test]
fn add_tags_sorts_and_deduplicates() {
    let text = note_text(&["m"], "body");
    let add = vec![String::from("x"), String::from("a"), String::from("x")];
    let out = add_tags(&text, &add).unwrap();
    assert_eq!(tags_of(&out), vec!["a", "m", "x"]);
}

#[test]
fn add_tags_twice_is_once() {
    let text = note_text(&["b", "a"], "body text");
    let add = vec![String::from("c"), String::from("a")];
    let once = add_tags(&text, &add).unwrap();
    let twice = add_tags(&once, &add).unwrap();
    assert_eq!(once, twice);
    assert_eq!(tags_of(&once), vec!["a", "b", "c"]);
}

#[test]
fn add_tags_keeps_body_and_fields() {
    let text = note_text(&[], "the body stays\n---\nexactly\n");
    let out = add_tags(&text, &vec![String::from("t1")]).unwrap();
    let (m, b) = parse(&out).unwrap();
    assert_eq!(m.id, "n1");
    assert_eq!(b, "the body stays\n---\nexactly\n");
}

#[test]
fn remove_absent_tags_keeps_tag_set() {
    let text = note_text(&["a", "b"], "body");
    let out = remove_tags(&text, &vec![String::from("zzz")]).unwrap();
    assert_eq!(tags_of(&out), vec!["a", "b"]);
}

#[test]
fn remove_tags_removes_listed_ones() {
    let text = note_text(&["c", "a", "b"], "body");
    let out = remove_tags(&text, &vec![String::from("b"), String::from("zz")]).unwrap();
    assert_eq!(tags_of(&out), vec!["a", "c"]);
}

#[test]
fn tag_mutation_surfaces_parse_errors() {
    assert!(matches!(add_tags("garbage", &vec![]), Err(ParseError::MalformedHeader)));
    assert!(matches!(
        remove_tags("---\nnope\n---\n", &vec![]),
        Err(ParseError::SchemaError)
    ));
}

#[test]
fn list_all_tags_unions_readable_notes() {
    let contents = vec![
        note_text(&["b", "a"], ""),
        note_text(&["c", "a"], ""),
        String::from("not a note"),
    ];
    let all = list_all_tags(&contents);
    assert_eq!(all, vec!["a", "b", "c"]);
}

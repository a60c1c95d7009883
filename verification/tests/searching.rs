//! Search patterns and store queries.

use zk::metadata::NoteMetadata;
use zk::pattern::{PatternError, SearchPattern};
use zk::store::{NoteFile, NoteStore, SearchQuery};
use zk::timestamp::Timestamp;

fn ts(year: u32, month: u32, day: u32, hour: u32, minute: u32, second: u32) -> Timestamp {
    Timestamp { year, month, day, hour, minute, second }
}

fn note_file(id: &str, title: &str, created: Timestamp, tags: &[&str], body: &str) -> NoteFile {
    let m = NoteMetadata {
        id: String::from(id),
        title: String::from(title),
        created,
        tags: tags.iter().map(|t| String::from(*t)).collect(),
        links: vec![],
        description: None,
    };
    NoteFile { path: format!("{}.md", id), content: zk::codec::serialize(&m, body) }
}

#[test]
fn literal_search_is_case_insensitive() {
    let p = SearchPattern::new(String::from("Foo"), false).unwrap();
    let spans = p.find_matches("some foo here");
    assert_eq!(spans, vec![(5, 8)]);
}

#[test]
fn literal_occurrences_do_not_overlap() {
    let p = SearchPattern::new(String::from("aa"), false).unwrap();
    assert_eq!(p.find_matches("aaaa"), vec![(0, 2), (2, 4)]);
    assert_eq!(p.find_matches("xaaax"), vec![(1, 3)]);
    assert_eq!(p.find_matches("bbbb"), vec![]);
}

#[test]
fn glob_queries_become_regex() {
    let p = SearchPattern::new(String::from("a*b?"), true).unwrap();
    assert_eq!(p.find_matches("axxbyc"), vec![(0, 5)]);
    // a metacharacter is matched literally in glob mode
    let q = SearchPattern::new(String::from("1+1"), true).unwrap();
    assert_eq!(q.find_matches("1+1=2"), vec![(0, 3)]);
}

#[test]
fn backslash_queries_are_raw_regex() {
    let p = SearchPattern::new(String::from("\\d+"), true).unwrap();
    assert_eq!(p.find_matches("abc123"), vec![(3, 6)]);
}

#[test]
fn invalid_regex_is_reported() {
    let r = SearchPattern::new(String::from("(\\"), true);
    assert!(matches!(r, Err(PatternError::InvalidPattern(_))));
}

#[test]
fn tag_search_is_superset_test() {
    let files = vec![note_file("n1", "note", ts(2024, 1, 1, 0, 0, 0), &["a", "b", "c"], "")];
    let store = NoteStore::new(String::from("notes"), &files);
    let hit = SearchQuery {
        tags: Some(vec![String::from("a"), String::from("b")]),
        title: None,
        content: None,
    };
    assert_eq!(store.search(&hit).len(), 1);
    let miss = SearchQuery {
        tags: Some(vec![String::from("a"), String::from("d")]),
        title: None,
        content: None,
    };
    assert_eq!(store.search(&miss).len(), 0);
    let empty = SearchQuery { tags: Some(vec![]), title: None, content: None };
    assert_eq!(store.search(&empty).len(), 1);
}

#[test]
fn search_title_or_content() {
    let files = vec![
        note_file("n1", "foobar", ts(2024, 1, 1, 0, 0, 0), &[], "nothing"),
        note_file("n2", "x", ts(2024, 1, 2, 0, 0, 0), &[], "bar"),
        note_file("n3", "x", ts(2024, 1, 3, 0, 0, 0), &[], "y"),
    ];
    let store = NoteStore::new(String::from("notes"), &files);
    let q = SearchQuery {
        tags: None,
        title: Some(SearchPattern::new(String::from("foo"), false).unwrap()),
        content: Some(SearchPattern::new(String::from("bar"), false).unwrap()),
    };
    let out = store.search(&q);
    let mut ids: Vec<String> = out.iter().map(|m| m.metadata.id.clone()).collect();
    ids.sort();
    assert_eq!(ids, vec![String::from("n1"), String::from("n2")]);
}

#[test]
fn search_orders_newest_first() {
    let files = vec![
        note_file("n1", "first", ts(2023, 5, 1, 0, 0, 0), &[], ""),
        note_file("n3", "third", ts(2024, 2, 1, 12, 0, 0), &[], ""),
        note_file("n2", "second", ts(2023, 9, 30, 23, 59, 59), &[], ""),
    ];
    let store = NoteStore::new(String::from("notes"), &files);
    let q = SearchQuery { tags: None, title: None, content: None };
    let out = store.search(&q);
    let ids: Vec<&str> = out.iter().map(|m| m.metadata.id.as_str()).collect();
    assert_eq!(ids, vec!["n3", "n2", "n1"]);
}

#[test]
fn search_reports_match_spans() {
    let files = vec![note_file("n1", "a foo title", ts(2024, 1, 1, 0, 0, 0), &[], "say Foo twice foo")];
    let store = NoteStore::new(String::from("notes"), &files);
    let q = SearchQuery {
        tags: None,
        title: Some(SearchPattern::new(String::from("foo"), false).unwrap()),
        content: Some(SearchPattern::new(String::from("foo"), false).unwrap()),
    };
    let out = store.search(&q);
    assert_eq!(out.len(), 1);
    assert_eq!(out[0].title_matches, vec![(2, 5)]);
    // only the first hit per searched field is reported
    assert_eq!(out[0].content_matches, vec![(4, 7)]);
}

#[test]
fn search_content_checks_description() {
    let m = NoteMetadata {
        id: String::from("n1"),
        title: String::from("t"),
        created: ts(2024, 1, 1, 0, 0, 0),
        tags: vec![],
        links: vec![],
        description: Some(String::from("the needle is here")),
    };
    let files = vec![NoteFile { path: String::from("n1.md"), content: zk::codec::serialize(&m, "plain body") }];
    let store = NoteStore::new(String::from("notes"), &files);
    let q = SearchQuery {
        tags: None,
        title: None,
        content: Some(SearchPattern::new(String::from("needle"), false).unwrap()),
    };
    let out = store.search(&q);
    assert_eq!(out.len(), 1);
    assert_eq!(out[0].content_matches, vec![(4, 10)]);
}

#[test]
fn empty_literal_matches_every_position() {
    let p = SearchPattern::new(String::new(), false).unwrap();
    assert_eq!(p.find_matches("ab"), vec![(0, 0), (1, 1), (2, 2)]);
}

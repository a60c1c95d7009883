//! Store construction, lookups, and the link graph.

use zk::codec::serialize;
use zk::metadata::NoteMetadata;
use zk::store::{NoteFile, NoteStore, SearchQuery, StoreError};
use zk::timestamp::Timestamp;

fn ts(year: u32, month: u32, day: u32) -> Timestamp {
    Timestamp { year, month, day, hour: 0, minute: 0, second: 0 }
}

fn note_file(id: &str, title: &str, created: Timestamp, tags: &[&str], body: &str) -> NoteFile {
    let m = NoteMetadata {
        id: String::from(id),
        title: String::from(title),
        created,
        tags: tags.iter().map(|t| String::from(*t)).collect(),
        links: vec![],
        description: None,
    };
    NoteFile { path: format!("{}.md", id), content: serialize(&m, body) }
}

#[test]
fn scan_indexes_parseable_files() {
    let files = vec![
        note_file("n1", "one", ts(2024, 1, 1), &[], ""),
        NoteFile { path: String::from("junk.md"), content: String::from("not a note") },
        note_file("n2", "two", ts(2024, 1, 2), &[], ""),
    ];
    let store = NoteStore::new(String::from("notes"), &files);
    assert_eq!(store.get_path("n1").map(|p| p.as_str()), Some("n1.md"));
    assert_eq!(store.get_path("n2").map(|p| p.as_str()), Some("n2.md"));
    assert!(store.get_path("junk").is_none());
    let m = store.get_metadata("n2").expect("n2 is indexed");
    assert_eq!(m.title, "two");
    assert!(store.get_metadata("nope").is_none());
}

#[test]
fn duplicate_ids_last_scanned_wins() {
    let mut f1 = note_file("dup", "first", ts(2024, 1, 1), &[], "");
    f1.path = String::from("first.md");
    let mut f2 = note_file("dup", "second", ts(2024, 1, 2), &[], "");
    f2.path = String::from("second.md");
    let store = NoteStore::new(String::from("notes"), &vec![f1, f2]);
    assert_eq!(store.get_path("dup").map(|p| p.as_str()), Some("second.md"));
    assert_eq!(store.list().len(), 1);
}

#[test]
fn refresh_replaces_the_index() {
    let mut store = NoteStore::new(
        String::from("notes"),
        &vec![note_file("n1", "one", ts(2024, 1, 1), &[], "")],
    );
    store.refresh(&vec![note_file("n2", "two", ts(2024, 1, 2), &[], "")]);
    assert!(store.get_path("n1").is_none());
    assert!(store.get_path("n2").is_some());
}

#[test]
fn add_link_requires_both_ends() {
    let files = vec![note_file("a", "A", ts(2024, 1, 1), &[], "")];
    let mut store = NoteStore::new(String::from("notes"), &files);
    match store.add_link("a", "missing", None) {
        Err(StoreError::NotFound(id)) => assert_eq!(id, "missing"),
        other => panic!("expected NotFound, got {:?}", other.is_ok()),
    }
    match store.add_link("ghost", "a", None) {
        Err(StoreError::NotFound(id)) => assert_eq!(id, "ghost"),
        other => panic!("expected NotFound, got {:?}", other.is_ok()),
    }
}

#[test]
fn add_link_twice_keeps_one_edge() {
    let files = vec![
        note_file("a", "A", ts(2024, 1, 1), &[], ""),
        note_file("b", "B", ts(2024, 1, 2), &[], ""),
    ];
    let mut store = NoteStore::new(String::from("notes"), &files);
    let w = store.add_link("a", "b", Some(String::from("ref"))).unwrap();
    assert!(w.is_some());
    let again = store.add_link("a", "b", Some(String::from("ref"))).unwrap();
    assert!(again.is_none());
    let links = store.get_links("a", false);
    assert_eq!(links.len(), 1);
    assert_eq!(links[0].from, "a");
    assert_eq!(links[0].to, "b");
    assert_eq!(links[0].description.as_deref(), Some("ref"));
}

#[test]
fn backlinks_are_computed() {
    let files = vec![
        note_file("a", "A", ts(2024, 1, 1), &[], ""),
        note_file("b", "B", ts(2024, 1, 2), &[], ""),
    ];
    let mut store = NoteStore::new(String::from("notes"), &files);
    store.add_link("a", "b", Some(String::from("ref"))).unwrap();
    assert_eq!(store.get_links("b", false).len(), 0);
    let back = store.get_links("b", true);
    assert_eq!(back.len(), 1);
    assert_eq!(back[0].from, "a");
    assert_eq!(back[0].to, "b");
}

#[test]
fn link_survives_rewrite_and_rescan() {
    let files = vec![
        note_file("a", "A", ts(2024, 1, 1), &[], "body of a"),
        note_file("b", "B", ts(2024, 1, 2), &[], ""),
    ];
    let mut store = NoteStore::new(String::from("notes"), &files);
    let w = store.add_link("a", "b", None).unwrap().expect("a write comes back");
    assert_eq!(w.path, "a.md");
    // pretend the application wrote the file and the directory is rescanned
    let rescanned = vec![
        NoteFile { path: w.path.clone(), content: w.content.clone() },
        note_file("b", "B", ts(2024, 1, 2), &[], ""),
    ];
    let store2 = NoteStore::new(String::from("notes"), &rescanned);
    let links = store2.get_links("a", false);
    assert_eq!(links.len(), 1);
    assert_eq!(links[0].to, "b");
    let m = store2.get_metadata("a").unwrap();
    assert_eq!(m.title, "A");
}

#[test]
fn remove_link_drops_first_matching_edge() {
    let files = vec![
        note_file("a", "A", ts(2024, 1, 1), &[], ""),
        note_file("b", "B", ts(2024, 1, 2), &[], ""),
    ];
    let mut store = NoteStore::new(String::from("notes"), &files);
    store.add_link("a", "b", None).unwrap();
    let w = store.remove_link("a", "b").unwrap();
    assert!(w.is_some());
    assert_eq!(store.get_links("a", false).len(), 0);
    // removing an absent edge is a quiet no-op
    assert!(store.remove_link("a", "b").unwrap().is_none());
    // an unknown source is an error
    assert!(matches!(store.remove_link("ghost", "b"), Err(StoreError::NotFound(_))));
}

#[test]
fn end_to_end_example() {
    let files = vec![
        note_file("N1", "Alpha", ts(2024, 1, 1), &["x"], ""),
        note_file("N2", "Beta", ts(2024, 1, 2), &["y"], ""),
    ];
    let mut store = NoteStore::new(String::from("notes"), &files);
    let q = SearchQuery { tags: Some(vec![String::from("x")]), title: None, content: None };
    let out = store.search(&q);
    assert_eq!(out.len(), 1);
    assert_eq!(out[0].metadata.id, "N1");
    store.add_link("N1", "N2", Some(String::from("ref"))).unwrap();
    let fwd = store.get_links("N1", false);
    assert_eq!(fwd.len(), 1);
    assert_eq!(fwd[0].from, "N1");
    assert_eq!(fwd[0].to, "N2");
    assert_eq!(fwd[0].description.as_deref(), Some("ref"));
    let back = store.get_links("N2", true);
    assert_eq!(back.len(), 1);
    assert_eq!(back[0].from, "N1");
    assert_eq!(back[0].to, "N2");
    assert_eq!(back[0].description.as_deref(), Some("ref"));
}

#[test]
fn fresh_metadata_has_identity_and_no_relations() {
    let m = NoteMetadata::new(String::from("hello"));
    assert_eq!(m.title, "hello");
    assert_eq!(m.id.len(), 36);
    assert!(m.tags.is_empty());
    assert!(m.links.is_empty());
    assert!(m.description.is_none());
    let m2 = NoteMetadata::new(String::from("hello"));
    assert_ne!(m.id, m2.id);
}

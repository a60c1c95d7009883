//! The note store: an in-memory snapshot of the notes directory.
//!
//! The surrounding application walks the directory and reads each
//! markdown file; the store parses them, indexes them by note identity,
//! and answers get, search, and link queries.  Mutations update the
//! snapshot and hand back the rewritten file for the application to
//! write; files that do not parse are skipped at scan time.

use vstd::prelude::*;
use crate::codec::{parse, parse_spec, serialize, serialize_spec};
use crate::metadata::{clone_string, Link, LinkView, MetaView, NoteMetadata};
use crate::pattern::SearchPattern;

verus! {

/// A file handed in from the notes directory: its path and its text.
pub struct NoteFile {
    pub path: String,
    pub content: String,
}

/// The mathematical shape of a `NoteFile`.
pub struct FileView {
    pub path: Seq<char>,
    pub content: Seq<char>,
}

impl View for NoteFile {
    type V = FileView;

    open spec fn view(&self) -> FileView {
        FileView { path: self.path@, content: self.content@ }
    }
}

/// One indexed note: where it lives and what it held at scan time.
struct NoteEntry {
    path: String,
    meta: NoteMetadata,
    body: String,
}

/// The mathematical shape of an indexed note.
pub struct EntryView {
    pub path: Seq<char>,
    pub meta: MetaView,
    pub body: Seq<char>,
}

impl View for NoteEntry {
    type V = EntryView;

    closed spec fn view(&self) -> EntryView {
        EntryView { path: self.path@, meta: self.meta@, body: self.body@ }
    }
}

/// The index position of the note with the given identity, or -1.
pub open spec fn idx_of_id(es: Seq<EntryView>, id: Seq<char>) -> int
    decreases es.len(),
{
    if es.len() == 0 {
        -1
    } else if es[0].meta.id == id {
        0
    } else {
        let r = idx_of_id(es.drop_first(), id);
        if r < 0 {
            -1
        } else {
            r + 1
        }
    }
}

/// Whether some note carries the given identity.
pub open spec fn has_id(es: Seq<EntryView>, id: Seq<char>) -> bool {
    idx_of_id(es, id) >= 0
}

/// What `idx_of_id` says of its result: the first position carrying the
/// identity, or that none does.
pub proof fn lemma_idx_of_id(es: Seq<EntryView>, id: Seq<char>)
    ensures
        idx_of_id(es, id) == -1 ==> forall|k: int|
            0 <= k < es.len() ==> (#[trigger] es[k]).meta.id != id,
        idx_of_id(es, id) >= 0 ==> 0 <= idx_of_id(es, id) < es.len() && es[idx_of_id(
            es,
            id,
        )].meta.id == id && (forall|k: int|
            0 <= k < idx_of_id(es, id) ==> (#[trigger] es[k]).meta.id != id),
    decreases es.len(),
{
    if es.len() > 0 && es[0].meta.id != id {
        lemma_idx_of_id(es.drop_first(), id);
        let r = idx_of_id(es.drop_first(), id);
        if r == -1 {
            assert forall|k: int| 0 <= k < es.len() implies (#[trigger] es[k]).meta.id != id by {
                if k > 0 {
                    assert(es.drop_first()[k - 1] == es[k]);
                    assert(es.drop_first()[k - 1].meta.id != id);
                }
            }
        } else {
            assert(es.drop_first()[r] == es[r + 1]);
            assert forall|k: int| 0 <= k < r + 1 implies (#[trigger] es[k]).meta.id != id by {
                if k > 0 {
                    assert(es.drop_first()[k - 1] == es[k]);
                    assert(es.drop_first()[k - 1].meta.id != id);
                }
            }
        }
    }
}

/// One scan step: a file that parses is indexed under its id, replacing
/// any note already indexed under that id (last wins); a file that does
/// not parse is skipped.
pub open spec fn scan_step(acc: Seq<EntryView>, f: FileView) -> Seq<EntryView> {
    match parse_spec(f.content) {
        Result::Ok(p) => {
            let e = EntryView { path: f.path, meta: p.0, body: p.1 };
            let i = idx_of_id(acc, p.0.id);
            if i < 0 {
                acc.push(e)
            } else {
                acc.remove(i).push(e)
            }
        },
        Result::Err(_) => acc,
    }
}

/// The index built by scanning the files in order.
pub open spec fn scan(files: Seq<FileView>, acc: Seq<EntryView>) -> Seq<EntryView>
    decreases files.len(),
{
    if files.len() == 0 {
        acc
    } else {
        scan(files.drop_first(), scan_step(acc, files[0]))
    }
}

/// Every indexed note is well formed, and no two share an identity.
pub open spec fn entries_wf(es: Seq<EntryView>) -> bool {
    &&& forall|i: int| 0 <= i < es.len() ==> (#[trigger] es[i]).meta.wf()
    &&& forall|i: int, j: int|
        0 <= i < j < es.len() ==> (#[trigger] es[i]).meta.id != (#[trigger] es[j]).meta.id
}

/// The in-memory index over the notes directory.
pub struct NoteStore {
    notes_dir: String,
    notes: Vec<NoteEntry>,
}

/// The mathematical shape of the store.
pub struct StoreView {
    pub dir: Seq<char>,
    pub entries: Seq<EntryView>,
}

impl View for NoteStore {
    type V = StoreView;

    closed spec fn view(&self) -> StoreView {
        StoreView {
            dir: self.notes_dir@,
            entries: self.notes@.map_values(|e: NoteEntry| e@),
        }
    }
}

impl NoteStore {
    pub open spec fn wf(self) -> bool {
        entries_wf(self@.entries)
    }

    /// Builds a store over the given directory from the files found in
    /// it.
    pub fn new(notes_dir: String, files: &Vec<NoteFile>) -> (s: NoteStore)
        ensures
            s@.dir == notes_dir@,
            s@.entries == scan(files@.map_values(|f: NoteFile| f@), Seq::empty()),
            s.wf(),
    {
        let mut s = NoteStore { notes_dir, notes: Vec::new() };
        s.refresh(files);
        s
    }

    /// Drops the index and rebuilds it from the given files.
    pub fn refresh(&mut self, files: &Vec<NoteFile>)
        ensures
            final(self)@.dir == old(self)@.dir,
            final(self)@.entries == scan(files@.map_values(|f: NoteFile| f@), Seq::empty()),
            final(self).wf(),
    {
        let ghost fv = files@.map_values(|f: NoteFile| f@);
        self.notes = Vec::new();
        proof {
            assert(self@.entries =~= Seq::<EntryView>::empty());
            assert(fv.skip(0) =~= fv);
        }
        let n = files.len();
        let mut i: usize = 0;
        while i < n
            invariant
                0 <= i <= n,
                n == files@.len(),
                fv == files@.map_values(|f: NoteFile| f@),
                self@.dir == old(self)@.dir,
                scan(fv, Seq::empty()) == scan(fv.skip(i as int), self@.entries),
                entries_wf(self@.entries),
            decreases n - i,
        {
            proof {
                assert(fv.skip(i as int)[0] == fv[i as int]);
                assert(fv[i as int] == files@[i as int]@);
                assert(fv.skip(i as int).drop_first() =~= fv.skip(i as int + 1));
            }
            let ghost pre = self@.entries;
            match parse(files[i].content.as_str()) {
                Ok((meta, body)) => {
                    let entry = NoteEntry {
                        path: clone_string(&files[i].path),
                        meta,
                        body,
                    };
                    match self.find_by_id_str(&entry.meta.id) {
                        Some(j) => {
                            proof {
                                lemma_idx_of_id(pre, entry.meta.id@);
                            }
                            self.notes.remove(j);
                            self.notes.push(entry);
                            proof {
                                assert(self@.entries =~= pre.remove(j as int).push(
                                    EntryView {
                                        path: fv[i as int].path,
                                        meta: parse_spec(fv[i as int].content)->Ok_0.0,
                                        body: parse_spec(fv[i as int].content)->Ok_0.1,
                                    },
                                ));
                                lemma_entries_wf_remove_push(pre, j as int, self@.entries.last());
                            }
                        },
                        None => {
                            proof {
                                lemma_idx_of_id(pre, entry.meta.id@);
                            }
                            self.notes.push(entry);
                            proof {
                                assert(self@.entries =~= pre.push(
                                    EntryView {
                                        path: fv[i as int].path,
                                        meta: parse_spec(fv[i as int].content)->Ok_0.0,
                                        body: parse_spec(fv[i as int].content)->Ok_0.1,
                                    },
                                ));
                            }
                        },
                    }
                },
                Err(_) => {},
            }
            proof {
                assert(scan_step(pre, fv[i as int]) == self@.entries);
            }
            i = i + 1;
        }
        proof {
            assert(fv.skip(n as int) =~= Seq::<FileView>::empty());
        }
    }

    /// The position of the note with this identity, if any is indexed.
    fn find_by_id_str(&self, id: &String) -> (r: Option<usize>)
        ensures
            match r {
                Some(j) => 0 <= j < self@.entries.len() && idx_of_id(self@.entries, id@)
                    == j as int,
                None => idx_of_id(self@.entries, id@) == -1,
            },
    {
        let ghost es = self@.entries;
        let n = self.notes.len();
        let mut j: usize = 0;
        while j < n
            invariant
                0 <= j <= n,
                n == self.notes@.len(),
                es == self@.entries,
                forall|k: int| 0 <= k < j ==> (#[trigger] es[k]).meta.id != id@,
            decreases n - j,
        {
            if self.notes[j].meta.id.eq(id) {
                proof {
                    assert(es[j as int].meta.id == id@);
                    lemma_idx_of_id(es, id@);
                    if idx_of_id(es, id@) == -1 {
                        assert(false);
                    }
                    if idx_of_id(es, id@) < j as int {
                        assert(false);
                    }
                    if idx_of_id(es, id@) > j as int {
                        assert(es[j as int].meta.id != id@);
                        assert(false);
                    }
                }
                return Some(j);
            }
            j = j + 1;
        }
        proof {
            lemma_idx_of_id(es, id@);
            if idx_of_id(es, id@) >= 0 {
                assert(es[idx_of_id(es, id@)].meta.id == id@);
                assert(false);
            }
        }
        None
    }

    /// The indexed path of the note with this identity.
    pub fn get_path(&self, id: &str) -> (r: Option<&String>)
        ensures
            match r {
                Some(p) => has_id(self@.entries, id@) && p@ == self@.entries[idx_of_id(
                    self@.entries,
                    id@,
                )].path,
                None => !has_id(self@.entries, id@),
            },
    {
        let owned = crate::text::chars_of_str(id);
        let key = crate::text::string_of_chars(&owned);
        match self.find_by_id_str(&key) {
            Some(j) => Some(&self.notes[j].path),
            None => None,
        }
    }

    /// The metadata of the note with this identity, as scanned.
    pub fn get_metadata(&self, id: &str) -> (r: Option<NoteMetadata>)
        ensures
            match r {
                Some(m) => has_id(self@.entries, id@) && m@ == self@.entries[idx_of_id(
                    self@.entries,
                    id@,
                )].meta,
                None => !has_id(self@.entries, id@),
            },
    {
        let owned = crate::text::chars_of_str(id);
        let key = crate::text::string_of_chars(&owned);
        match self.find_by_id_str(&key) {
            Some(j) => Some(self.notes[j].meta.duplicate()),
            None => None,
        }
    }

    /// Every indexed note, as (identity, metadata) pairs in scan order.
    pub fn list(&self) -> (r: Vec<(String, NoteMetadata)>)
        ensures
            r@.len() == self@.entries.len(),
            forall|i: int|
                0 <= i < r@.len() ==> (#[trigger] r@[i]).0@ == self@.entries[i].meta.id && r@[
                i].1@ == self@.entries[i].meta,
    {
        let mut r: Vec<(String, NoteMetadata)> = Vec::new();
        let n = self.notes.len();
        let mut i: usize = 0;
        while i < n
            invariant
                0 <= i <= n,
                n == self.notes@.len(),
                r@.len() == i,
                forall|k: int|
                    0 <= k < i ==> (#[trigger] r@[k]).0@ == self@.entries[k].meta.id && r@[
                    k].1@ == self@.entries[k].meta,
            decreases n - i,
        {
            let e = &self.notes[i];
            r.push((clone_string(&e.meta.id), e.meta.duplicate()));
            i = i + 1;
        }
        r
    }
}

/// What to look for: a tag set, a title pattern, a content pattern, in
/// any combination.
pub struct SearchQuery {
    pub tags: Option<Vec<String>>,
    pub title: Option<SearchPattern>,
    pub content: Option<SearchPattern>,
}

impl SearchQuery {
    /// Any regex patterns in the query were accepted by the engine.
    pub open spec fn wf(self) -> bool {
        &&& (self.title matches Some(p) ==> p.wf())
        &&& (self.content matches Some(p) ==> p.wf())
    }
}

/// One search result: the note's metadata and body, with the match
/// spans found in the title and in the content or description.
pub struct SearchMatch {
    pub metadata: NoteMetadata,
    pub content: String,
    pub title_matches: Vec<(usize, usize)>,
    pub content_matches: Vec<(usize, usize)>,
}

/// The mathematical shape of a search result.
pub struct MatchView {
    pub metadata: MetaView,
    pub content: Seq<char>,
    pub title_matches: Seq<(usize, usize)>,
    pub content_matches: Seq<(usize, usize)>,
}

impl View for SearchMatch {
    type V = MatchView;

    open spec fn view(&self) -> MatchView {
        MatchView {
            metadata: self.metadata@,
            content: self.content@,
            title_matches: self.title_matches@,
            content_matches: self.content_matches@,
        }
    }
}

/// The note's tag set includes every queried tag; an absent or empty
/// tag query always passes.
pub open spec fn tags_match(q: SearchQuery, m: MetaView) -> bool {
    match q.tags {
        Option::Some(ts) => forall|i: int|
            0 <= i < ts@.len() ==> m.tags.contains((#[trigger] ts@[i])@),
        Option::None => true,
    }
}

/// All title match spans for this query on this note.
pub open spec fn title_spans(q: SearchQuery, e: EntryView) -> Seq<(usize, usize)> {
    match q.title {
        Option::Some(p) => p.spans_of(e.meta.title),
        Option::None => Seq::empty(),
    }
}

/// The reported content spans: the first hit in the body, then the
/// first hit in the description, where each exists.
pub open spec fn content_spans(q: SearchQuery, e: EntryView) -> Seq<(usize, usize)> {
    match q.content {
        Option::Some(p) => {
            let bs = p.spans_of(e.body);
            let first_body: Seq<(usize, usize)> = if bs.len() > 0 {
                seq![bs[0]]
            } else {
                Seq::empty()
            };
            let first_desc: Seq<(usize, usize)> = match e.meta.description {
                Option::Some(d) => {
                    let ds = p.spans_of(d);
                    if ds.len() > 0 {
                        seq![ds[0]]
                    } else {
                        Seq::empty()
                    }
                },
                Option::None => Seq::empty(),
            };
            first_body + first_desc
        },
        Option::None => Seq::empty(),
    }
}

pub open spec fn title_hit(q: SearchQuery, e: EntryView) -> bool {
    q.title is Some && title_spans(q, e).len() > 0
}

pub open spec fn content_hit(q: SearchQuery, e: EntryView) -> bool {
    q.content is Some && content_spans(q, e).len() > 0
}

/// When a note answers a query: its tags cover the queried tags, and,
/// if any text pattern was given, at least one given pattern hits its
/// title, body or description.
pub open spec fn note_matches(q: SearchQuery, e: EntryView) -> bool {
    tags_match(q, e.meta) && ((q.title is None && q.content is None) || title_hit(q, e)
        || content_hit(q, e))
}

/// The result built for a matching note.
pub open spec fn match_of(q: SearchQuery, e: EntryView) -> MatchView {
    MatchView {
        metadata: e.meta,
        content: e.body,
        title_matches: title_spans(q, e),
        content_matches: content_spans(q, e),
    }
}

/// The results a query earns from an index, in scan order.
pub open spec fn results_of(q: SearchQuery, es: Seq<EntryView>) -> Seq<MatchView> {
    es.filter(|e: EntryView| note_matches(q, e)).map_values(|e: EntryView| match_of(q, e))
}

/// Newest first: every later result was created no later than every
/// earlier one.
pub open spec fn matches_sorted_desc(ms: Seq<MatchView>) -> bool {
    forall|i: int, j: int|
        0 <= i < j < ms.len() ==> (#[trigger] ms[j]).metadata.created.spec_le(
            (#[trigger] ms[i]).metadata.created,
        )
}

/// Results sorted newest-first carry non-increasing epoch times: the
/// field order that sorts them agrees with seconds since the epoch.
pub proof fn lemma_sorted_desc_epochs(ms: Seq<MatchView>)
    requires
        matches_sorted_desc(ms),
        forall|i: int| 0 <= i < ms.len() ==> (#[trigger] ms[i]).metadata.created.is_valid(),
    ensures
        forall|i: int, j: int|
            0 <= i < j < ms.len() ==> (#[trigger] ms[j]).metadata.created.epoch() <= (
            #[trigger] ms[i]).metadata.created.epoch(),
{
    assert forall|i: int, j: int|
        0 <= i < j < ms.len() implies (#[trigger] ms[j]).metadata.created.epoch() <= (
    #[trigger] ms[i]).metadata.created.epoch() by {
        crate::timestamp::lemma_order_matches_epoch(
            ms[j].metadata.created,
            ms[i].metadata.created,
        );
    }
}

/// Whether the note's tags include every queried tag.
fn tags_subset(queried: &Vec<String>, note_tags: &Vec<String>) -> (r: bool)
    ensures
        r == forall|i: int|
            0 <= i < queried@.len() ==> crate::tags::tag_views(note_tags@).contains(
                (#[trigger] queried@[i])@,
            ),
{
    let n = queried.len();
    let mut i: usize = 0;
    while i < n
        invariant
            0 <= i <= n,
            n == queried@.len(),
            forall|k: int|
                0 <= k < i ==> crate::tags::tag_views(note_tags@).contains(
                    (#[trigger] queried@[k])@,
                ),
        decreases n - i,
    {
        if !crate::tags::contains_tag(note_tags, &queried[i]) {
            return false;
        }
        i = i + 1;
    }
    true
}

/// A tag list holds a tag's characters exactly when its view does.
proof fn lemma_tag_views_contains(ts: Seq<String>, y: Seq<char>)
    ensures
        crate::tags::tag_views(ts).contains(y) <==> ts.map_values(|s: String| s@).contains(y),
{
}

proof fn lemma_insert_multiset<A>(s: Seq<A>, p: int, x: A)
    requires
        0 <= p <= s.len(),
    ensures
        s.insert(p, x).to_multiset() == s.to_multiset().insert(x),
{
    broadcast use vstd::seq_lib::group_to_multiset_ensures;

    assert(s.insert(p, x) =~= (s.take(p).push(x)) + s.skip(p));
    vstd::seq_lib::lemma_multiset_commutative(s.take(p).push(x), s.skip(p));
    assert(s.take(p).push(x).to_multiset() =~= s.take(p).to_multiset().insert(x));
    assert(s =~= s.take(p) + s.skip(p));
    vstd::seq_lib::lemma_multiset_commutative(s.take(p), s.skip(p));
    assert(s.take(p).to_multiset().insert(x).add(s.skip(p).to_multiset())
        =~= s.take(p).to_multiset().add(s.skip(p).to_multiset()).insert(x));
}

/// Sorts results newest first, keeping exactly the same results.
fn sort_matches(v: &mut Vec<SearchMatch>)
    ensures
        final(v)@.map_values(|m: SearchMatch| m@).to_multiset() == old(v)@.map_values(
            |m: SearchMatch| m@,
        ).to_multiset(),
        matches_sorted_desc(final(v)@.map_values(|m: SearchMatch| m@)),
{
    let ghost mv = |m: SearchMatch| m@;
    let n = v.len();
    if n <= 1 {
        return ;
    }
    let mut i: usize = 1;
    while i < n
        invariant
            1 <= i <= n,
            n == v@.len(),
            v@.map_values(mv).to_multiset() == old(v)@.map_values(mv).to_multiset(),
            mv == (|m: SearchMatch| m@),
            matches_sorted_desc(v@.map_values(mv).take(i as int)),
        decreases n - i,
    {
        let xc = v[i].metadata.created;
        let mut p: usize = 0;
        while p < i && xc.le(&v[p].metadata.created)
            invariant
                0 <= p <= i < v@.len(),
                forall|k: int| 0 <= k < p ==> xc.spec_le((#[trigger] v@[k])@.metadata.created),
            decreases i - p,
        {
            p = p + 1;
        }
        if p < i {
            let ghost before = v@;
            let x = v.remove(i);
            v.insert(p, x);
            proof {
                let sm = before.map_values(mv);
                assert(v@ =~= before.remove(i as int).insert(p as int, before[i as int]));
                assert(v@.map_values(mv) =~= sm.remove(i as int).insert(p as int, sm[i as int]));
                broadcast use vstd::seq_lib::group_to_multiset_ensures;

                lemma_insert_multiset(sm.remove(i as int), p as int, sm[i as int]);
                assert(sm.remove(i as int).to_multiset() =~= sm.to_multiset().remove(
                    sm[i as int],
                ));
                assert(sm.to_multiset().contains(sm[i as int])) by {
                    assert(sm.contains(sm[i as int]));
                }
                assert(sm.to_multiset().remove(sm[i as int]).insert(sm[i as int])
                    =~= sm.to_multiset());
                let nw = v@.map_values(mv);
                assert forall|a: int, b: int|
                    0 <= a < b < i + 1 implies (#[trigger] nw[b]).metadata.created.spec_le(
                    (#[trigger] nw[a]).metadata.created) by {
                    assert(forall|t: int| 0 <= t < p ==> nw[t] == sm[t]);
                    assert(nw[p as int] == sm[i as int]);
                    assert(forall|t: int| p < t <= i ==> nw[t] == sm[t - 1]);
                    assert(forall|t1: int, t2: int|
                        0 <= t1 < t2 < i ==> (#[trigger] sm.take(i as int)[t2]).metadata.created.spec_le(
                            (#[trigger] sm.take(i as int)[t1]).metadata.created,
                        ));
                    assert(forall|t: int| 0 <= t < i ==> sm.take(i as int)[t] == sm[t]);
                    assert(!xc.spec_le(sm[p as int].metadata.created));
                    assert(xc == sm[i as int].metadata.created);
                }
            }
        } else {
            proof {
                let nw = v@.map_values(mv);
                assert forall|a: int, b: int|
                    0 <= a < b < i + 1 implies (#[trigger] nw.take(i as int + 1)[b]).metadata.created.spec_le(
                    (#[trigger] nw.take(i as int + 1)[a]).metadata.created) by {
                    assert(forall|t: int| 0 <= t <= i ==> nw.take(i as int + 1)[t] == nw[t]);
                    assert(forall|t1: int, t2: int|
                        0 <= t1 < t2 < i ==> (#[trigger] nw.take(i as int)[t2]).metadata.created.spec_le(
                            (#[trigger] nw.take(i as int)[t1]).metadata.created,
                        ));
                    assert(forall|t: int| 0 <= t < i ==> nw.take(i as int)[t] == nw[t]);
                    if b == i {
                        assert(xc.spec_le(nw[a].metadata.created));
                        assert(nw[b as int].metadata.created == xc);
                    }
                }
            }
        }
        i = i + 1;
    }
    proof {
        assert(v@.map_values(mv).take(v@.len() as int) =~= v@.map_values(mv));
    }
}

impl NoteStore {
    /// Finds every note answering the query, newest first.  Result
    /// order among notes created at the same time is unspecified.
    pub fn search(&self, query: &SearchQuery) -> (r: Vec<SearchMatch>)
        requires
            query.wf(),
        ensures
            r@.map_values(|m: SearchMatch| m@).to_multiset() == results_of(
                *query,
                self@.entries,
            ).to_multiset(),
            matches_sorted_desc(r@.map_values(|m: SearchMatch| m@)),
    {
        let ghost q = *query;
        let ghost es = self@.entries;
        let ghost pred = |e: EntryView| note_matches(q, e);
        let mut found: Vec<SearchMatch> = Vec::new();
        let n = self.notes.len();
        let mut i: usize = 0;
        proof {
            reveal_with_fuel(Seq::<EntryView>::filter, 2);
            assert(es.take(0) =~= Seq::<EntryView>::empty());
            assert(found@.map_values(|m: SearchMatch| m@) =~= results_of(q, es.take(0)));
        }
        while i < n
            invariant
                0 <= i <= n,
                n == self.notes@.len(),
                es == self@.entries,
                q == *query,
                query.wf(),
                pred == (|e: EntryView| note_matches(q, e)),
                found@.map_values(|m: SearchMatch| m@) == results_of(q, es.take(i as int)),
            decreases n - i,
        {
            let e = &self.notes[i];
            let ghost ev = es[i as int];
            let tags_ok = match &query.tags {
                Some(ts) => tags_subset(ts, &e.meta.tags),
                None => true,
            };
            proof {
                assert(tags_ok == tags_match(q, ev.meta)) by {
                    match q.tags {
                        Option::Some(ts) => {
                            assert(ev.meta.tags == e.meta.tags@.map_values(|s: String| s@));
                            assert forall|k: int|
                                0 <= k < ts@.len() implies (crate::tags::tag_views(
                                e.meta.tags@).contains((#[trigger] ts@[k])@) == ev.meta.tags.contains(
                                ts@[k]@)) by {
                                lemma_tag_views_contains(e.meta.tags@, ts@[k]@);
                            }
                        },
                        Option::None => {},
                    }
                }
            }
            let tspans: Vec<(usize, usize)> = match &query.title {
                Some(p) => p.find_matches(e.meta.title.as_str()),
                None => Vec::new(),
            };
            proof {
                assert(tspans@ == title_spans(q, ev));
            }
            let cspans: Vec<(usize, usize)> = match &query.content {
                Some(p) => {
                    let bs = p.find_matches(e.body.as_str());
                    let mut cv: Vec<(usize, usize)> = Vec::new();
                    if bs.len() > 0 {
                        cv.push(bs[0]);
                    }
                    match &e.meta.description {
                        Some(d) => {
                            let ds = p.find_matches(d.as_str());
                            if ds.len() > 0 {
                                cv.push(ds[0]);
                            }
                        },
                        None => {},
                    }
                    proof {
                        assert(cv@ =~= content_spans(q, ev));
                    }
                    cv
                },
                None => Vec::new(),
            };
            proof {
                assert(cspans@ == content_spans(q, ev));
            }
            let pattern_absent = match &query.title {
                Some(_) => false,
                None => match &query.content {
                    Some(_) => false,
                    None => true,
                },
            };
            let thit = match &query.title {
                Some(_) => tspans.len() > 0,
                None => false,
            };
            let chit = match &query.content {
                Some(_) => cspans.len() > 0,
                None => false,
            };
            let matched = tags_ok && (pattern_absent || thit || chit);
            proof {
                assert(matched == note_matches(q, ev));
            }
            let ghost pre_found = found@;
            if matched {
                found.push(
                    SearchMatch {
                        metadata: e.meta.duplicate(),
                        content: clone_string(&e.body),
                        title_matches: tspans,
                        content_matches: cspans,
                    },
                );
            }
            proof {
                reveal_with_fuel(Seq::<EntryView>::filter, 2);
                assert(es.take(i as int + 1).drop_last() =~= es.take(i as int));
                assert(es.take(i as int + 1).last() == ev);
                assert(pred(ev) == note_matches(q, ev));
                let goal = results_of(q, es.take(i as int + 1));
                let prev = results_of(q, es.take(i as int));
                if matched {
                    assert(es.take(i as int + 1).filter(pred) == es.take(i as int).filter(
                        pred,
                    ).push(ev));
                    assert(goal =~= prev.push(match_of(q, ev)));
                    assert(found@ == pre_found.push(found@.last()));
                    assert(found@.last()@ == match_of(q, ev));
                    assert forall|j: int|
                        0 <= j < found@.len() implies found@.map_values(|m: SearchMatch| m@)[j]
                        == goal[j] by {
                        if j < pre_found.len() {
                            assert(found@[j] == pre_found[j]);
                            assert(pre_found.map_values(|m: SearchMatch| m@)[j] == prev[j]);
                        }
                    }
                    assert(found@.map_values(|m: SearchMatch| m@) =~= goal);
                } else {
                    assert(es.take(i as int + 1).filter(pred) == es.take(i as int).filter(pred));
                    assert(found@.map_values(|m: SearchMatch| m@) =~= goal);
                }
            }
            i = i + 1;
        }
        proof {
            assert(es.take(n as int) =~= es);
        }
        let mut out = found;
        sort_matches(&mut out);
        out
    }
}

/// Viewing a link list commutes with appending to it.
proof fn lemma_link_map_push(s: Seq<Link>, x: Link)
    ensures
        s.push(x).map_values(|l: Link| l@) == s.map_values(|l: Link| l@).push(x@),
{
    assert(s.push(x).map_values(|l: Link| l@) =~= s.map_values(|l: Link| l@).push(x@));
}

/// Why a store operation failed: the named identity is not indexed.
#[derive(Debug)]
pub enum StoreError {
    NotFound(String),
}

impl StoreError {
    /// A short account of the failure, for display.
    pub fn describe(&self) -> (r: String)
        ensures
            self matches StoreError::NotFound(id) && r@ == "no note with id "@ + id@,
    {
        match self {
            StoreError::NotFound(id) => {
                let mut v = crate::text::chars_of_str("no note with id ");
                crate::text::push_string(&mut v, id);
                crate::text::string_of_chars(&v)
            },
        }
    }
}

/// A file rewrite for the application to perform: the note at `path`
/// should now hold `content`.
pub struct NoteWrite {
    pub path: String,
    pub content: String,
}

/// The view of an optional owned string.
pub open spec fn opt_view(d: Option<String>) -> Option<Seq<char>> {
    match d {
        Option::Some(s) => Option::Some(s@),
        Option::None => Option::None,
    }
}

/// The position of the first link aimed at `to`, or -1.
pub open spec fn idx_of_link_to(ls: Seq<LinkView>, to: Seq<char>) -> int
    decreases ls.len(),
{
    if ls.len() == 0 {
        -1
    } else if ls[0].to == to {
        0
    } else {
        let r = idx_of_link_to(ls.drop_first(), to);
        if r < 0 {
            -1
        } else {
            r + 1
        }
    }
}

/// Whether some link aims at `to`.
pub open spec fn has_link_to(ls: Seq<LinkView>, to: Seq<char>) -> bool {
    idx_of_link_to(ls, to) >= 0
}

/// What `idx_of_link_to` says of its result.
pub proof fn lemma_idx_of_link_to(ls: Seq<LinkView>, to: Seq<char>)
    ensures
        idx_of_link_to(ls, to) == -1 ==> forall|k: int|
            0 <= k < ls.len() ==> (#[trigger] ls[k]).to != to,
        idx_of_link_to(ls, to) >= 0 ==> 0 <= idx_of_link_to(ls, to) < ls.len() && ls[
            idx_of_link_to(ls, to)].to == to && (forall|k: int|
            0 <= k < idx_of_link_to(ls, to) ==> (#[trigger] ls[k]).to != to),
    decreases ls.len(),
{
    if ls.len() > 0 && ls[0].to != to {
        lemma_idx_of_link_to(ls.drop_first(), to);
        let r = idx_of_link_to(ls.drop_first(), to);
        if r == -1 {
            assert forall|k: int| 0 <= k < ls.len() implies (#[trigger] ls[k]).to != to by {
                if k > 0 {
                    assert(ls.drop_first()[k - 1] == ls[k]);
                }
            }
        } else {
            assert(ls.drop_first()[r] == ls[r + 1]);
            assert forall|k: int| 0 <= k < r + 1 implies (#[trigger] ls[k]).to != to by {
                if k > 0 {
                    assert(ls.drop_first()[k - 1] == ls[k]);
                }
            }
        }
    }
}

/// The links of `ls` aimed at `id`, in order.
pub open spec fn links_to(ls: Seq<LinkView>, id: Seq<char>) -> Seq<LinkView>
    decreases ls.len(),
{
    if ls.len() == 0 {
        Seq::empty()
    } else {
        links_to(ls.drop_last(), id) + (if ls.last().to == id {
            seq![ls.last()]
        } else {
            Seq::empty()
        })
    }
}

/// The backlinks aimed at `id`: every other note's links to it, in scan
/// order.
pub open spec fn backlinks_of(es: Seq<EntryView>, id: Seq<char>) -> Seq<LinkView>
    decreases es.len(),
{
    if es.len() == 0 {
        Seq::empty()
    } else {
        backlinks_of(es.drop_last(), id) + (if es.last().meta.id == id {
            Seq::empty()
        } else {
            links_to(es.last().meta.links, id)
        })
    }
}

/// The forward links stored on the note with identity `id`.
pub open spec fn forward_of(es: Seq<EntryView>, id: Seq<char>) -> Seq<LinkView> {
    if has_id(es, id) {
        es[idx_of_id(es, id)].meta.links
    } else {
        Seq::empty()
    }
}

impl NoteStore {
    /// The position of the first link aimed at `to` in this entry.
    fn find_link_to(ls: &Vec<Link>, to: &String) -> (r: Option<usize>)
        ensures
            match r {
                Some(j) => 0 <= j < ls@.len() && idx_of_link_to(
                    ls@.map_values(|l: Link| l@),
                    to@,
                ) == j as int,
                None => idx_of_link_to(ls@.map_values(|l: Link| l@), to@) == -1,
            },
    {
        let ghost lv = ls@.map_values(|l: Link| l@);
        let n = ls.len();
        let mut j: usize = 0;
        while j < n
            invariant
                0 <= j <= n,
                n == ls@.len(),
                lv == ls@.map_values(|l: Link| l@),
                forall|k: int| 0 <= k < j ==> (#[trigger] lv[k]).to != to@,
            decreases n - j,
        {
            if ls[j].to.eq(to) {
                proof {
                    assert(lv[j as int].to == to@);
                    lemma_idx_of_link_to(lv, to@);
                    if idx_of_link_to(lv, to@) == -1 {
                        assert(false);
                    }
                    if idx_of_link_to(lv, to@) < j as int {
                        assert(false);
                    }
                    if idx_of_link_to(lv, to@) > j as int {
                        assert(lv[j as int].to != to@);
                        assert(false);
                    }
                }
                return Some(j);
            }
            j = j + 1;
        }
        proof {
            lemma_idx_of_link_to(lv, to@);
            if idx_of_link_to(lv, to@) >= 0 {
                assert(false);
            }
        }
        None
    }

    /// Adds a directed edge between two indexed notes.  Both ends must
    /// be indexed; a second edge to the same target is not created.  On
    /// a change, the rewritten source note is returned for the
    /// application to write out.
    #[verifier::rlimit(60)]
    pub fn add_link(&mut self, from: &str, to: &str, description: Option<String>) -> (r: Result<
        Option<NoteWrite>,
        StoreError,
    >)
        requires
            old(self).wf(),
            description matches Some(d) ==> crate::line_safe(d@),
        ensures
            final(self).wf(),
            final(self)@.dir == old(self)@.dir,
            !has_id(old(self)@.entries, from@) ==> (r matches Err(e) && (e matches
                StoreError::NotFound(x) && x@ == from@) && final(self)@ == old(self)@),
            has_id(old(self)@.entries, from@) && !has_id(old(self)@.entries, to@) ==> (r matches
                Err(e) && (e matches StoreError::NotFound(x) && x@ == to@) && final(self)@ == old(
                self,
            )@),
            has_id(old(self)@.entries, from@) && has_id(old(self)@.entries, to@) && has_link_to(
                old(self)@.entries[idx_of_id(old(self)@.entries, from@)].meta.links,
                to@,
            ) ==> (r matches Ok(w) && w is None && final(self)@ == old(self)@),
            has_id(old(self)@.entries, from@) && has_id(old(self)@.entries, to@) && !has_link_to(
                old(self)@.entries[idx_of_id(old(self)@.entries, from@)].meta.links,
                to@,
            ) ==> {
                let i = idx_of_id(old(self)@.entries, from@);
                let ent = old(self)@.entries[i];
                let nm = MetaView {
                    links: ent.meta.links.push(
                        LinkView { from: from@, to: to@, description: opt_view(description) },
                    ),
                    ..ent.meta
                };
                &&& r matches Ok(w)
                &&& w matches Some(nw)
                &&& nw.path@ == ent.path
                &&& nw.content@ == serialize_spec(nm, ent.body)
                &&& final(self)@.entries == old(self)@.entries.update(
                    i,
                    EntryView { path: ent.path, meta: nm, body: ent.body },
                )
            },
    {
        let ghost es = self@.entries;
        let from_chars = crate::text::chars_of_str(from);
        let from_key = crate::text::string_of_chars(&from_chars);
        let to_chars = crate::text::chars_of_str(to);
        let to_key = crate::text::string_of_chars(&to_chars);
        let i = match self.find_by_id_str(&from_key) {
            Some(i) => i,
            None => {
                return Err(StoreError::NotFound(from_key));
            },
        };
        match self.find_by_id_str(&to_key) {
            Some(_) => {},
            None => {
                return Err(StoreError::NotFound(to_key));
            },
        }
        match Self::find_link_to(&self.notes[i].meta.links, &to_key) {
            Some(_) => Ok(None),
            None => {
                proof {
                    lemma_idx_of_id(es, from@);
                }
                let mut ent = self.notes.remove(i);
                let nl = Link { from: from_key, to: to_key, description };
                ent.meta.links.push(nl);
                proof {
                    assert(ent.meta@.links =~= es[i as int].meta.links.push(
                        LinkView { from: from@, to: to@, description: opt_view(description) },
                    ));
                    let j = idx_of_id(es, to@);
                    lemma_idx_of_id(es, to@);
                    assert(es[j].meta.wf());
                    assert(crate::line_safe(to@));
                    assert(es[i as int].meta.wf());
                    assert(crate::line_safe(from@));
                    assert(ent.meta@.wf());
                }
                let write = NoteWrite {
                    path: clone_string(&ent.path),
                    content: serialize(&ent.meta, ent.body.as_str()),
                };
                self.notes.insert(i, ent);
                proof {
                    let ent_new = EntryView {
                        path: es[i as int].path,
                        meta: MetaView {
                            links: es[i as int].meta.links.push(
                                LinkView {
                                    from: from@,
                                    to: to@,
                                    description: opt_view(description),
                                },
                            ),
                            ..es[i as int].meta
                        },
                        body: es[i as int].body,
                    };
                    assert(self@.entries =~= es.update(i as int, ent_new));
                    lemma_entries_wf_update(es, i as int, ent_new);
                }
                Ok(Some(write))
            },
        }
    }

    /// Removes the first edge from one note to another.  The source must
    /// be indexed; removing an edge that is not there changes nothing.
    /// On a change, the rewritten source note is returned.
    #[verifier::rlimit(60)]
    pub fn remove_link(&mut self, from: &str, to: &str) -> (r: Result<
        Option<NoteWrite>,
        StoreError,
    >)
        requires
            old(self).wf(),
        ensures
            final(self).wf(),
            final(self)@.dir == old(self)@.dir,
            !has_id(old(self)@.entries, from@) ==> (r matches Err(e) && (e matches
                StoreError::NotFound(x) && x@ == from@) && final(self)@ == old(self)@),
            has_id(old(self)@.entries, from@) && !has_link_to(
                old(self)@.entries[idx_of_id(old(self)@.entries, from@)].meta.links,
                to@,
            ) ==> (r matches Ok(w) && w is None && final(self)@ == old(self)@),
            has_id(old(self)@.entries, from@) && has_link_to(
                old(self)@.entries[idx_of_id(old(self)@.entries, from@)].meta.links,
                to@,
            ) ==> {
                let i = idx_of_id(old(self)@.entries, from@);
                let ent = old(self)@.entries[i];
                let nm = MetaView {
                    links: ent.meta.links.remove(idx_of_link_to(ent.meta.links, to@)),
                    ..ent.meta
                };
                &&& r matches Ok(w)
                &&& w matches Some(nw)
                &&& nw.path@ == ent.path
                &&& nw.content@ == serialize_spec(nm, ent.body)
                &&& final(self)@.entries == old(self)@.entries.update(
                    i,
                    EntryView { path: ent.path, meta: nm, body: ent.body },
                )
            },
    {
        let ghost es = self@.entries;
        let from_chars = crate::text::chars_of_str(from);
        let from_key = crate::text::string_of_chars(&from_chars);
        let to_chars = crate::text::chars_of_str(to);
        let to_key = crate::text::string_of_chars(&to_chars);
        let i = match self.find_by_id_str(&from_key) {
            Some(i) => i,
            None => {
                return Err(StoreError::NotFound(from_key));
            },
        };
        match Self::find_link_to(&self.notes[i].meta.links, &to_key) {
            None => Ok(None),
            Some(j) => {
                proof {
                    lemma_idx_of_id(es, from@);
                }
                let mut ent = self.notes.remove(i);
                ent.meta.links.remove(j);
                proof {
                    assert(ent.meta@.links =~= es[i as int].meta.links.remove(
                        idx_of_link_to(es[i as int].meta.links, to@),
                    ));
                    assert(es[i as int].meta.wf());
                    assert forall|k: int|
                        0 <= k < ent.meta@.links.len() implies (
                    #[trigger] ent.meta@.links[k]).wf() by {
                        let jj = idx_of_link_to(es[i as int].meta.links, to@);
                        let old_links = es[i as int].meta.links;
                        if k < jj {
                            assert(ent.meta@.links[k] == old_links[k]);
                        } else {
                            assert(ent.meta@.links[k] == old_links[k + 1]);
                        }
                    }
                    assert(ent.meta@.wf());
                }
                let write = NoteWrite {
                    path: clone_string(&ent.path),
                    content: serialize(&ent.meta, ent.body.as_str()),
                };
                self.notes.insert(i, ent);
                proof {
                    let ent_new = EntryView {
                        path: es[i as int].path,
                        meta: MetaView {
                            links: es[i as int].meta.links.remove(
                                idx_of_link_to(es[i as int].meta.links, to@),
                            ),
                            ..es[i as int].meta
                        },
                        body: es[i as int].body,
                    };
                    assert(self@.entries =~= es.update(i as int, ent_new));
                    lemma_entries_wf_update(es, i as int, ent_new);
                }
                Ok(Some(write))
            },
        }
    }

    /// The stored forward links of a note and, on request, the
    /// backlinks other notes aim at it.
    pub fn get_links(&self, id: &str, include_backlinks: bool) -> (r: Vec<Link>)
        ensures
            r@.map_values(|l: Link| l@) == forward_of(self@.entries, id@) + (
            if include_backlinks {
                backlinks_of(self@.entries, id@)
            } else {
                Seq::<LinkView>::empty()
            }),
    {
        let ghost es = self@.entries;
        let id_chars = crate::text::chars_of_str(id);
        let key = crate::text::string_of_chars(&id_chars);
        let mut r: Vec<Link> = match self.find_by_id_str(&key) {
            Some(i) => crate::metadata::clone_links(&self.notes[i].meta.links),
            None => Vec::new(),
        };
        proof {
            assert(r@.map_values(|l: Link| l@) =~= forward_of(es, id@));
        }
        if !include_backlinks {
            proof {
                assert(r@.map_values(|l: Link| l@) =~= forward_of(es, id@) + Seq::<
                    LinkView,
                >::empty());
            }
            return r;
        }
        let ghost fwd = forward_of(es, id@);
        let n = self.notes.len();
        let mut i: usize = 0;
        proof {
            assert(es.take(0) =~= Seq::<EntryView>::empty());
            assert(r@.map_values(|l: Link| l@) =~= fwd + backlinks_of(es.take(0), id@));
        }
        while i < n
            invariant
                0 <= i <= n,
                n == self.notes@.len(),
                es == self@.entries,
                fwd == forward_of(es, id@),
                key@ == id@,
                r@.map_values(|l: Link| l@) == fwd + backlinks_of(es.take(i as int), id@),
            decreases n - i,
        {
            proof {
                assert(es.take(i as int + 1).drop_last() =~= es.take(i as int));
                assert(es.take(i as int + 1).last() == es[i as int]);
                assert(es[i as int] == self.notes@[i as int]@);
            }
            let e = &self.notes[i];
            if !e.meta.id.eq(&key) {
                let ghost pre = r@.map_values(|l: Link| l@);
                let ghost ls = es[i as int].meta.links;
                let m = e.meta.links.len();
                let mut j: usize = 0;
                proof {
                    assert(ls.take(0) =~= Seq::<LinkView>::empty());
                    assert(pre + links_to(ls.take(0), id@) =~= pre);
                }
                while j < m
                    invariant
                        0 <= j <= m,
                        m == e.meta.links@.len(),
                        ls == e.meta.links@.map_values(|l: Link| l@),
                        key@ == id@,
                        r@.map_values(|l: Link| l@) == pre + links_to(ls.take(j as int), id@),
                    decreases m - j,
                {
                    proof {
                        assert(ls.take(j as int + 1).drop_last() =~= ls.take(j as int));
                        assert(ls.take(j as int + 1).last() == ls[j as int]);
                        assert(ls[j as int] == e.meta.links@[j as int]@);
                    }
                    if e.meta.links[j].to.eq(&key) {
                        let ghost r_pre = r@;
                        r.push(e.meta.links[j].duplicate());
                        proof {
                            assert(links_to(ls.take(j as int + 1), id@) == links_to(
                                ls.take(j as int),
                                id@,
                            ) + seq![ls[j as int]]);
                            assert(r@ == r_pre.push(r@.last()));
                            lemma_link_map_push(r_pre, r@.last());
                            assert(r@.last()@ == ls[j as int]);
                            assert(r@.map_values(|l: Link| l@) == r_pre.map_values(
                                |l: Link| l@,
                            ).push(ls[j as int]));
                            assert((pre + links_to(ls.take(j as int), id@)).push(ls[j as int])
                                =~= pre + links_to(ls.take(j as int + 1), id@));
                        }
                    } else {
                        proof {
                            assert(links_to(ls.take(j as int + 1), id@) == links_to(
                                ls.take(j as int),
                                id@,
                            ) + Seq::<LinkView>::empty());
                            assert(links_to(ls.take(j as int), id@) + Seq::<LinkView>::empty()
                                =~= links_to(ls.take(j as int), id@));
                        }
                    }
                    j = j + 1;
                }
                proof {
                    assert(ls.take(m as int) =~= ls);
                    assert(r@.map_values(|l: Link| l@) =~= fwd + backlinks_of(
                        es.take(i as int + 1),
                        id@,
                    ));
                }
            } else {
                proof {
                    assert(r@.map_values(|l: Link| l@) =~= fwd + backlinks_of(
                        es.take(i as int + 1),
                        id@,
                    ));
                }
            }
            i = i + 1;
        }
        proof {
            assert(es.take(n as int) =~= es);
        }
        r
    }
}

/// A list without any link to `to` yields no such links.
proof fn lemma_links_to_empty(ls: Seq<LinkView>, to: Seq<char>)
    requires
        forall|k: int| 0 <= k < ls.len() ==> (#[trigger] ls[k]).to != to,
    ensures
        links_to(ls, to) == Seq::<LinkView>::empty(),
    decreases ls.len(),
{
    if ls.len() > 0 {
        assert(ls.last().to != to);
        assert forall|k: int|
            0 <= k < ls.drop_last().len() implies (#[trigger] ls.drop_last()[k]).to != to by {
            assert(ls.drop_last()[k] == ls[k]);
        }
        lemma_links_to_empty(ls.drop_last(), to);
        assert(links_to(ls, to) =~= Seq::<LinkView>::empty());
    }
}

/// A link aimed at `id` is among the links yielded for `id`.
proof fn lemma_links_to_contains(ls: Seq<LinkView>, j: int, id: Seq<char>)
    requires
        0 <= j < ls.len(),
        ls[j].to == id,
    ensures
        links_to(ls, id).contains(ls[j]),
    decreases ls.len(),
{
    if j < ls.len() - 1 {
        assert(ls.drop_last()[j] == ls[j]);
        lemma_links_to_contains(ls.drop_last(), j, id);
        let sub = links_to(ls.drop_last(), id);
        let k = choose|k: int| 0 <= k < sub.len() && sub[k] == ls[j];
        assert(links_to(ls, id)[k] == ls[j]);
    } else {
        let sub = links_to(ls.drop_last(), id);
        assert(links_to(ls, id) == sub + seq![ls.last()]);
        assert(links_to(ls, id)[sub.len() as int] == ls[j]);
    }
}

/// After an edge is added where none aimed at `to` before, exactly one
/// edge of the note aims at `to`: the new one.
pub proof fn lemma_link_added_once(ls: Seq<LinkView>, l: LinkView)
    requires
        !has_link_to(ls, l.to),
    ensures
        links_to(ls.push(l), l.to) == seq![l],
{
    lemma_idx_of_link_to(ls, l.to);
    lemma_links_to_empty(ls, l.to);
    assert(ls.push(l).drop_last() =~= ls);
    assert(links_to(ls.push(l), l.to) =~= seq![l]);
}

/// An edge aimed at another note shows up among that note's backlinks.
pub proof fn lemma_backlink_reported(es: Seq<EntryView>, i: int, j: int, id: Seq<char>)
    requires
        0 <= i < es.len(),
        es[i].meta.id != id,
        0 <= j < es[i].meta.links.len(),
        es[i].meta.links[j].to == id,
    ensures
        backlinks_of(es, id).contains(es[i].meta.links[j]),
    decreases es.len(),
{
    let l = es[i].meta.links[j];
    if i < es.len() - 1 {
        assert(es.drop_last()[i] == es[i]);
        lemma_backlink_reported(es.drop_last(), i, j, id);
        let sub = backlinks_of(es.drop_last(), id);
        let k = choose|k: int| 0 <= k < sub.len() && sub[k] == l;
        assert(backlinks_of(es, id)[k] == l);
    } else {
        let sub = backlinks_of(es.drop_last(), id);
        lemma_links_to_contains(es[i].meta.links, j, id);
        let part = links_to(es[i].meta.links, id);
        let k = choose|k: int| 0 <= k < part.len() && part[k] == l;
        assert(backlinks_of(es, id) == sub + part);
        assert(backlinks_of(es, id)[sub.len() + k] == l);
    }
}

/// A freshly added edge is reported as a backlink of its target: after
/// `add_link` appends the edge to the source note, the target's
/// backlink scan over the updated index yields it.
pub proof fn lemma_new_link_is_backlink(
    es: Seq<EntryView>,
    from: Seq<char>,
    to: Seq<char>,
    d: Option<Seq<char>>,
)
    requires
        has_id(es, from),
        from != to,
    ensures
        ({
            let i = idx_of_id(es, from);
            let ent = es[i];
            let nl = LinkView { from: from, to: to, description: d };
            let es2 = es.update(
                i,
                EntryView {
                    path: ent.path,
                    meta: MetaView { links: ent.meta.links.push(nl), ..ent.meta },
                    body: ent.body,
                },
            );
            backlinks_of(es2, to).contains(nl)
        }),
{
    let i = idx_of_id(es, from);
    lemma_idx_of_id(es, from);
    let ent = es[i];
    let nl = LinkView { from: from, to: to, description: d };
    let es2 = es.update(
        i,
        EntryView {
            path: ent.path,
            meta: MetaView { links: ent.meta.links.push(nl), ..ent.meta },
            body: ent.body,
        },
    );
    assert(es2[i].meta.id == from);
    assert(es2[i].meta.links[es2[i].meta.links.len() - 1] == nl);
    lemma_backlink_reported(es2, i, es2[i].meta.links.len() - 1, to);
}

/// Updating an entry in place with one of the same identity keeps the
/// index well formed.
proof fn lemma_entries_wf_update(es: Seq<EntryView>, j: int, e: EntryView)
    requires
        entries_wf(es),
        0 <= j < es.len(),
        es[j].meta.id == e.meta.id,
        e.meta.wf(),
    ensures
        entries_wf(es.update(j, e)),
{
    let r = es.update(j, e);
    assert forall|a: int, b: int|
        0 <= a < b < r.len() implies (#[trigger] r[a]).meta.id != (#[trigger] r[b]).meta.id by {
        assert(es[a].meta.id != es[b].meta.id);
    }
    assert forall|i: int| 0 <= i < r.len() implies (#[trigger] r[i]).meta.wf() by {
        if i != j {
            assert(r[i] == es[i]);
        }
    }
}

/// Removing an entry and pushing one with the same identity keeps the
/// index well formed.
proof fn lemma_entries_wf_remove_push(es: Seq<EntryView>, j: int, e: EntryView)
    requires
        entries_wf(es),
        0 <= j < es.len(),
        es[j].meta.id == e.meta.id,
        e.meta.wf(),
    ensures
        entries_wf(es.remove(j).push(e)),
{
    let r = es.remove(j).push(e);
    assert forall|a: int, b: int|
        0 <= a < b < r.len() implies (#[trigger] r[a]).meta.id != (#[trigger] r[b]).meta.id by {
        if b < r.len() - 1 {
            // both among the surviving old entries
            let oa = if a < j {
                a
            } else {
                a + 1
            };
            let ob = if b < j {
                b
            } else {
                b + 1
            };
            assert(r[a] == es[oa] && r[b] == es[ob]);
        } else {
            // the new entry against a survivor
            let oa = if a < j {
                a
            } else {
                a + 1
            };
            assert(r[a] == es[oa]);
            assert(r[b] == e);
            if oa < j {
                assert(es[oa].meta.id != es[j].meta.id);
            } else {
                assert(es[j].meta.id != es[oa].meta.id);
            }
        }
    }
    assert forall|i: int| 0 <= i < r.len() implies (#[trigger] r[i]).meta.wf() by {
        if i < r.len() - 1 {
            let oi = if i < j {
                i
            } else {
                i + 1
            };
            assert(r[i] == es[oi]);
        } else {
            assert(r[i] == e);
        }
    }
}

} // verus!

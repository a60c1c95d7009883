//! Note metadata: the typed record kept in a note file's header.

use vstd::prelude::*;
use crate::line_safe;
use crate::timestamp::{from_epoch, Timestamp};

verus! {

/// A directed, described edge between two notes.
#[derive(Debug)]
pub struct Link {
    pub from: String,
    pub to: String,
    pub description: Option<String>,
}

/// The mathematical shape of a `Link`.
pub struct LinkView {
    pub from: Seq<char>,
    pub to: Seq<char>,
    pub description: Option<Seq<char>>,
}

impl View for Link {
    type V = LinkView;

    open spec fn view(&self) -> LinkView {
        LinkView {
            from: self.from@,
            to: self.to@,
            description: match self.description {
                Option::Some(d) => Option::Some(d@),
                Option::None => Option::None,
            },
        }
    }
}

pub open spec fn opt_line_safe(d: Option<Seq<char>>) -> bool {
    d matches Some(s) ==> line_safe(s)
}

impl LinkView {
    /// Every scalar of the link fits on one header line.
    pub open spec fn wf(self) -> bool {
        line_safe(self.from) && line_safe(self.to) && opt_line_safe(self.description)
    }
}

/// The header of a note: identity, title, creation time, tags, outgoing
/// links, and an optional description.
#[derive(Debug)]
pub struct NoteMetadata {
    pub id: String,
    pub title: String,
    pub created: Timestamp,
    pub tags: Vec<String>,
    pub links: Vec<Link>,
    pub description: Option<String>,
}

/// The mathematical shape of a `NoteMetadata`.
pub struct MetaView {
    pub id: Seq<char>,
    pub title: Seq<char>,
    pub created: Timestamp,
    pub tags: Seq<Seq<char>>,
    pub links: Seq<LinkView>,
    pub description: Option<Seq<char>>,
}

impl View for NoteMetadata {
    type V = MetaView;

    open spec fn view(&self) -> MetaView {
        MetaView {
            id: self.id@,
            title: self.title@,
            created: self.created,
            tags: self.tags@.map_values(|t: String| t@),
            links: self.links@.map_values(|l: Link| l@),
            description: match self.description {
                Option::Some(d) => Option::Some(d@),
                Option::None => Option::None,
            },
        }
    }
}

impl MetaView {
    /// Valid metadata: a timestamp in range, and every scalar free of
    /// line breaks, so that each fits on one header line.
    pub open spec fn wf(self) -> bool {
        &&& line_safe(self.id)
        &&& line_safe(self.title)
        &&& self.created.is_valid()
        &&& forall|i: int| 0 <= i < self.tags.len() ==> line_safe(#[trigger] self.tags[i])
        &&& forall|i: int| 0 <= i < self.links.len() ==> (#[trigger] self.links[i]).wf()
        &&& opt_line_safe(self.description)
    }
}

/// A copy of a string with the same characters.
pub fn clone_string(s: &String) -> (r: String)
    ensures
        r@ == s@,
{
    s.clone()
}

/// A copy of an optional string with the same characters.
pub fn clone_opt_string(s: &Option<String>) -> (r: Option<String>)
    ensures
        match s {
            Option::Some(x) => r matches Some(y) && y@ == x@,
            Option::None => r is None,
        },
{
    match s {
        Some(x) => Some(clone_string(x)),
        None => None,
    }
}

/// A copy of a tag list with the same characters.
pub fn clone_tags(ts: &Vec<String>) -> (r: Vec<String>)
    ensures
        r@.map_values(|s: String| s@) == ts@.map_values(|s: String| s@),
{
    let mut r: Vec<String> = Vec::new();
    let n = ts.len();
    let mut i: usize = 0;
    while i < n
        invariant
            0 <= i <= n,
            n == ts@.len(),
            r@.len() == i,
            forall|j: int| 0 <= j < i ==> (#[trigger] r@[j])@ == ts@[j]@,
        decreases n - i,
    {
        r.push(clone_string(&ts[i]));
        i = i + 1;
    }
    proof {
        assert(r@.map_values(|s: String| s@) =~= ts@.map_values(|s: String| s@));
    }
    r
}

impl Link {
    /// A copy of this link with the same view.
    pub fn duplicate(&self) -> (r: Link)
        ensures
            r@ == self@,
    {
        Link {
            from: clone_string(&self.from),
            to: clone_string(&self.to),
            description: clone_opt_string(&self.description),
        }
    }
}

/// A copy of a link list with the same views.
pub fn clone_links(ls: &Vec<Link>) -> (r: Vec<Link>)
    ensures
        r@.map_values(|l: Link| l@) == ls@.map_values(|l: Link| l@),
{
    let mut r: Vec<Link> = Vec::new();
    let n = ls.len();
    let mut i: usize = 0;
    while i < n
        invariant
            0 <= i <= n,
            n == ls@.len(),
            r@.len() == i,
            forall|j: int| 0 <= j < i ==> (#[trigger] r@[j])@ == ls@[j]@,
        decreases n - i,
    {
        r.push(ls[i].duplicate());
        i = i + 1;
    }
    proof {
        assert(r@.map_values(|l: Link| l@) =~= ls@.map_values(|l: Link| l@));
    }
    r
}

/// Relies on uuid::Uuid::new_v4 and its Display impl: a fresh random
/// identifier, rendered hyphenated as 36 lowercase hexadecimal and
/// hyphen characters.  Nothing is promised of which identifier comes out.
#[verifier::external_body]
fn fresh_id() -> (r: String)
    ensures
        r@.len() == 36,
        line_safe(r@),
{
    uuid::Uuid::new_v4().to_string()
}

/// Relies on chrono::Utc::now and DateTime::timestamp: the clock's
/// current UTC time in whole seconds since the epoch.  Nothing is
/// promised of the value.
#[verifier::external_body]
fn now_epoch() -> (r: i64) {
    chrono::Utc::now().timestamp()
}

impl NoteMetadata {
    /// A copy of this metadata with the same view.
    pub fn duplicate(&self) -> (r: NoteMetadata)
        ensures
            r@ == self@,
    {
        let r = NoteMetadata {
            id: clone_string(&self.id),
            title: clone_string(&self.title),
            created: self.created,
            tags: clone_tags(&self.tags),
            links: clone_links(&self.links),
            description: clone_opt_string(&self.description),
        };
        proof {
            assert(r@.tags =~= self@.tags);
            assert(r@.links =~= self@.links);
        }
        r
    }

    /// Fresh metadata for a new note: a random identity, the clock's
    /// current time (clamped into the supported years), the given title,
    /// and no tags, links or description.
    pub fn new(title: String) -> (r: NoteMetadata)
        ensures
            r@.title == title@,
            r@.tags.len() == 0,
            r@.links.len() == 0,
            r@.description is None,
            r@.id.len() == 36,
            line_safe(r@.id),
            r@.created.is_valid(),
            line_safe(title@) ==> r@.wf(),
    {
        let t = now_epoch();
        let created = if t >= 0 {
            match from_epoch(t as u64) {
                Some(ts) => ts,
                None => Timestamp { year: 1970, month: 1, day: 1, hour: 0, minute: 0, second: 0 },
            }
        } else {
            Timestamp { year: 1970, month: 1, day: 1, hour: 0, minute: 0, second: 0 }
        };
        let r = NoteMetadata {
            id: fresh_id(),
            title,
            created,
            tags: Vec::new(),
            links: Vec::new(),
            description: None,
        };
        proof {
            assert(r@.tags =~= Seq::<Seq<char>>::empty());
            assert(r@.links =~= Seq::<LinkView>::empty());
        }
        r
    }
}

} // verus!

//! The header codec: between a note file's text and its (metadata, body)
//! pair.
//!
//! A note file is the delimiter line `---`, the header, the delimiter
//! line again, and the body, byte for byte.  The header is one `key: value`
//! line per scalar field, a block of `- item` lines per list, with empty
//! lists written `key: []` and absent descriptions omitted.

use vstd::prelude::*;
use crate::line_safe;
use crate::metadata::{Link, LinkView, MetaView, NoteMetadata, opt_line_safe};
use crate::text::{
    chars_of_str, find_nl, lemma_find_nl_at, lemma_find_nl_props, match_lit, push_lit, push_string,
    scan_nl, starts_with, string_from_range, string_of_chars,
};
use crate::timestamp::{format_timestamp, parse_timestamp, ts_format, ts_parse_spec, Timestamp};

verus! {

/// Why a note file failed to read.
#[derive(Clone, Copy, PartialEq, Eq, Structural, Debug)]
pub enum ParseError {
    /// The text does not split into delimiter, header, delimiter, body.
    MalformedHeader,
    /// The header between the delimiters does not have the metadata shape.
    SchemaError,
}

impl ParseError {
    /// A short account of the failure, for display.
    pub fn describe(&self) -> (r: String)
        ensures
            *self is MalformedHeader ==> r@ == "the file does not split into header and body"@,
            *self is SchemaError ==> r@ == "the header does not have the metadata shape"@,
    {
        match self {
            ParseError::MalformedHeader => {
                let v = chars_of_str("the file does not split into header and body");
                string_of_chars(&v)
            },
            ParseError::SchemaError => {
                let v = chars_of_str("the header does not have the metadata shape");
                string_of_chars(&v)
            },
        }
    }
}

pub open spec fn nl() -> Seq<char> {
    "\n"@
}

/// The delimiter line that opens and closes the header.
pub open spec fn delim() -> Seq<char> {
    "---\n"@
}

pub open spec fn tag_items(tags: Seq<Seq<char>>) -> Seq<char>
    decreases tags.len(),
{
    if tags.len() == 0 {
        Seq::empty()
    } else {
        "- "@ + tags[0] + nl() + tag_items(tags.drop_first())
    }
}

pub open spec fn tags_block(tags: Seq<Seq<char>>) -> Seq<char> {
    if tags.len() == 0 {
        "tags: []\n"@
    } else {
        "tags:\n"@ + tag_items(tags)
    }
}

pub open spec fn link_item(l: LinkView) -> Seq<char> {
    "- from: "@ + l.from + nl() + "  to: "@ + l.to + nl() + (match l.description {
        Option::Some(d) => "  description: "@ + d + nl(),
        Option::None => Seq::empty(),
    })
}

pub open spec fn link_items(ls: Seq<LinkView>) -> Seq<char>
    decreases ls.len(),
{
    if ls.len() == 0 {
        Seq::empty()
    } else {
        link_item(ls[0]) + link_items(ls.drop_first())
    }
}

pub open spec fn links_block(ls: Seq<LinkView>) -> Seq<char> {
    if ls.len() == 0 {
        "links: []\n"@
    } else {
        "links:\n"@ + link_items(ls)
    }
}

pub open spec fn desc_block(d: Option<Seq<char>>) -> Seq<char> {
    match d {
        Option::Some(s) => "description: "@ + s + nl(),
        Option::None => Seq::empty(),
    }
}

/// The header's lines, in their fixed order.
pub open spec fn header_text(m: MetaView) -> Seq<char> {
    "id: "@ + m.id + nl() + "title: "@ + m.title + nl() + "created: "@ + ts_format(m.created)
        + nl() + tags_block(m.tags) + links_block(m.links) + desc_block(m.description)
}

/// The full text of a note file with metadata `m` and body `body`.
pub open spec fn serialize_spec(m: MetaView, body: Seq<char>) -> Seq<char> {
    delim() + header_text(m) + delim() + body
}

proof fn lemma_tag_items_push(s: Seq<Seq<char>>, x: Seq<char>)
    ensures
        tag_items(s.push(x)) == tag_items(s) + "- "@ + x + nl(),
    decreases s.len(),
{
    if s.len() == 0 {
        assert(s.push(x).drop_first() =~= Seq::<Seq<char>>::empty());
        assert(tag_items(Seq::<Seq<char>>::empty()) == Seq::<char>::empty());
        assert(s.push(x)[0] == x);
        assert(tag_items(s.push(x)) =~= tag_items(s) + "- "@ + x + nl());
    } else {
        assert(s.push(x).drop_first() =~= s.drop_first().push(x));
        lemma_tag_items_push(s.drop_first(), x);
        assert(s.push(x)[0] == s[0]);
        assert(tag_items(s.push(x)) =~= tag_items(s) + "- "@ + x + nl());
    }
}

proof fn lemma_link_items_push(s: Seq<LinkView>, x: LinkView)
    ensures
        link_items(s.push(x)) == link_items(s) + link_item(x),
    decreases s.len(),
{
    if s.len() == 0 {
        assert(s.push(x).drop_first() =~= Seq::<LinkView>::empty());
        assert(link_items(Seq::<LinkView>::empty()) == Seq::<char>::empty());
        assert(s.push(x)[0] == x);
        assert(link_items(s.push(x)) =~= link_items(s) + link_item(x));
    } else {
        assert(s.push(x).drop_first() =~= s.drop_first().push(x));
        lemma_link_items_push(s.drop_first(), x);
        assert(s.push(x)[0] == s[0]);
        assert(link_items(s.push(x)) =~= link_items(s) + link_item(x));
    }
}

/// Appends the characters of another buffer.
fn push_chars(v: &mut Vec<char>, w: &Vec<char>)
    ensures
        final(v)@ == old(v)@ + w@,
{
    let mut i: usize = 0;
    let n = w.len();
    while i < n
        invariant
            0 <= i <= n,
            n == w@.len(),
            v@ == old(v)@ + w@.subrange(0, i as int),
        decreases n - i,
    {
        v.push(w[i]);
        proof {
            assert(v@ =~= old(v)@ + w@.subrange(0, i as int + 1));
        }
        i = i + 1;
    }
    proof {
        assert(w@.subrange(0, n as int) =~= w@);
    }
}

/// Renders the tags block into `v`.
fn write_tags(v: &mut Vec<char>, tags: &Vec<String>)
    ensures
        final(v)@ == old(v)@ + tags_block(tags@.map_values(|s: String| s@)),
{
    let ghost tv = tags@.map_values(|s: String| s@);
    if tags.len() == 0 {
        push_lit(v, "tags: []\n");
        proof {
            assert(tv =~= Seq::<Seq<char>>::empty());
            assert(v@ =~= old(v)@ + tags_block(tv));
        }
    } else {
        push_lit(v, "tags:\n");
        let mut t: usize = 0;
        let tn = tags.len();
        while t < tn
            invariant
                0 <= t <= tn,
                tn == tags@.len(),
                tv == tags@.map_values(|s: String| s@),
                tv.len() == tn,
                v@ == old(v)@ + "tags:\n"@ + tag_items(tv.take(t as int)),
            decreases tn - t,
        {
            push_lit(v, "- ");
            push_string(v, &tags[t]);
            push_lit(v, "\n");
            proof {
                assert(tv.take(t as int + 1) =~= tv.take(t as int).push(tv[t as int]));
                lemma_tag_items_push(tv.take(t as int), tv[t as int]);
                assert(tv[t as int] == tags@[t as int]@);
                assert(v@ =~= old(v)@ + "tags:\n"@ + tag_items(tv.take(t as int + 1)));
            }
            t = t + 1;
        }
        proof {
            assert(tv.take(tn as int) =~= tv);
            assert(v@ =~= old(v)@ + tags_block(tv));
        }
    }
}

/// Renders the links block into `v`.
#[verifier::rlimit(60)]
fn write_links(v: &mut Vec<char>, links: &Vec<Link>)
    ensures
        final(v)@ == old(v)@ + links_block(links@.map_values(|l: Link| l@)),
{
    let ghost lv = links@.map_values(|l: Link| l@);
    if links.len() == 0 {
        push_lit(v, "links: []\n");
        proof {
            assert(lv =~= Seq::<LinkView>::empty());
            assert(v@ =~= old(v)@ + links_block(lv));
        }
    } else {
        push_lit(v, "links:\n");
        let mut t: usize = 0;
        let ln = links.len();
        while t < ln
            invariant
                0 <= t <= ln,
                ln == links@.len(),
                lv == links@.map_values(|l: Link| l@),
                lv.len() == ln,
                v@ == old(v)@ + "links:\n"@ + link_items(lv.take(t as int)),
            decreases ln - t,
        {
            let lk = &links[t];
            push_lit(v, "- from: ");
            push_string(v, &lk.from);
            push_lit(v, "\n");
            push_lit(v, "  to: ");
            push_string(v, &lk.to);
            push_lit(v, "\n");
            match &lk.description {
                Some(d) => {
                    push_lit(v, "  description: ");
                    push_string(v, d);
                    push_lit(v, "\n");
                },
                None => {},
            }
            proof {
                assert(lv.take(t as int + 1) =~= lv.take(t as int).push(lv[t as int]));
                lemma_link_items_push(lv.take(t as int), lv[t as int]);
                assert(lv[t as int] == links@[t as int]@);
                assert(v@ =~= old(v)@ + "links:\n"@ + link_items(lv.take(t as int + 1)));
            }
            t = t + 1;
        }
        proof {
            assert(lv.take(ln as int) =~= lv);
            assert(v@ =~= old(v)@ + links_block(lv));
        }
    }
}

/// Renders a note's header block into `v`.
#[verifier::rlimit(60)]
fn write_header(v: &mut Vec<char>, m: &NoteMetadata)
    requires
        m@.wf(),
    ensures
        final(v)@ == old(v)@ + header_text(m@),
{
    push_lit(v, "id: ");
    push_string(v, &m.id);
    push_lit(v, "\n");
    push_lit(v, "title: ");
    push_string(v, &m.title);
    push_lit(v, "\n");
    push_lit(v, "created: ");
    let ts = format_timestamp(&m.created);
    push_chars(v, &ts);
    push_lit(v, "\n");
    write_tags(v, &m.tags);
    write_links(v, &m.links);
    match &m.description {
        Some(d) => {
            push_lit(v, "description: ");
            push_string(v, d);
            push_lit(v, "\n");
        },
        None => {},
    }
    proof {
        assert(v@ =~= old(v)@ + header_text(m@));
    }
}

/// Writes a note file: delimiter, header, delimiter, then the body byte
/// for byte.
pub fn serialize(m: &NoteMetadata, body: &str) -> (r: String)
    requires
        m@.wf(),
    ensures
        r@ == serialize_spec(m@, body@),
{
    let mut v: Vec<char> = Vec::new();
    push_lit(&mut v, "---\n");
    write_header(&mut v, m);
    push_lit(&mut v, "---\n");
    push_lit(&mut v, body);
    proof {
        assert(v@ =~= serialize_spec(m@, body@));
    }
    string_of_chars(&v)
}

/// One `key: value` header line at position `i`: the value runs to the
/// line's end, and the position after the newline is returned with it.
pub open spec fn key_line(s: Seq<char>, i: int, key: Seq<char>) -> Option<(Seq<char>, int)> {
    if starts_with(s, i, key) {
        match find_nl(s, i + key.len()) {
            Option::Some(k) => Option::Some((s.subrange(i + key.len(), k), k + 1)),
            Option::None => Option::None,
        }
    } else {
        Option::None
    }
}

proof fn lemma_key_line_advances(s: Seq<char>, i: int, key: Seq<char>)
    requires
        0 <= i <= s.len(),
    ensures
        key_line(s, i, key) matches Some(p) ==> i + key.len() <= p.1 - 1 < s.len(),
{
    if starts_with(s, i, key) {
        lemma_find_nl_props(s, i + key.len());
    }
}

/// The tag list items after a `tags:` line.
pub open spec fn tag_items_parse(s: Seq<char>, i: int) -> (Seq<Seq<char>>, int)
    decreases s.len() - i,
    when 0 <= i <= s.len()
    via tag_items_parse_dec
{
    match key_line(s, i, "- "@) {
        Option::Some((v, j)) => {
            let (rest, e) = tag_items_parse(s, j);
            (seq![v] + rest, e)
        },
        Option::None => (Seq::empty(), i),
    }
}

#[via_fn]
proof fn tag_items_parse_dec(s: Seq<char>, i: int) {
    lemma_key_line_advances(s, i, "- "@);
}

/// The tags block at position `i`, or nothing when no tags section
/// stands there.
pub open spec fn tags_parse(s: Seq<char>, i: int) -> (Seq<Seq<char>>, int) {
    if starts_with(s, i, "tags: []\n"@) {
        (Seq::empty(), i + 9)
    } else if starts_with(s, i, "tags:\n"@) {
        tag_items_parse(s, i + 6)
    } else {
        (Seq::empty(), i)
    }
}

/// The link list items after a `links:` line.  An item is a `- from:`
/// line, a `  to:` line, and an optional `  description:` line; a
/// half-formed item is left unconsumed.
pub open spec fn link_items_parse(s: Seq<char>, i: int) -> (Seq<LinkView>, int)
    decreases s.len() - i,
    when 0 <= i <= s.len()
    via link_items_parse_dec
{
    match key_line(s, i, "- from: "@) {
        Option::Some((fv, j1)) => match key_line(s, j1, "  to: "@) {
            Option::Some((tv, j2)) => match key_line(s, j2, "  description: "@) {
                Option::Some((dv, j3)) => {
                    let (rest, e) = link_items_parse(s, j3);
                    (
                        seq![LinkView { from: fv, to: tv, description: Option::Some(dv) }] + rest,
                        e,
                    )
                },
                Option::None => {
                    let (rest, e) = link_items_parse(s, j2);
                    (seq![LinkView { from: fv, to: tv, description: Option::None }] + rest, e)
                },
            },
            Option::None => (Seq::empty(), i),
        },
        Option::None => (Seq::empty(), i),
    }
}

#[via_fn]
proof fn link_items_parse_dec(s: Seq<char>, i: int) {
    lemma_key_line_advances(s, i, "- from: "@);
    match key_line(s, i, "- from: "@) {
        Option::Some((fv, j1)) => {
            lemma_key_line_advances(s, j1, "  to: "@);
            match key_line(s, j1, "  to: "@) {
                Option::Some((tv, j2)) => {
                    lemma_key_line_advances(s, j2, "  description: "@);
                },
                Option::None => {},
            }
        },
        Option::None => {},
    }
}

/// The links block at position `i`, or nothing when no links section
/// stands there.
pub open spec fn links_parse(s: Seq<char>, i: int) -> (Seq<LinkView>, int) {
    if starts_with(s, i, "links: []\n"@) {
        (Seq::empty(), i + 10)
    } else if starts_with(s, i, "links:\n"@) {
        link_items_parse(s, i + 7)
    } else {
        (Seq::empty(), i)
    }
}

/// The optional description line at position `i`.
pub open spec fn desc_parse(s: Seq<char>, i: int) -> (Option<Seq<char>>, int) {
    match key_line(s, i, "description: "@) {
        Option::Some((v, j)) => (Option::Some(v), j),
        Option::None => (Option::None, i),
    }
}

/// The whole header from position `i`: the three required lines in
/// order, then the optional blocks.  Returns the metadata and the
/// position just past the header.
pub open spec fn header_parse(s: Seq<char>, i: int) -> Option<(MetaView, int)> {
    match key_line(s, i, "id: "@) {
        Option::Some((idv, i1)) => match key_line(s, i1, "title: "@) {
            Option::Some((tv, i2)) => match key_line(s, i2, "created: "@) {
                Option::Some((cv, i3)) => match ts_parse_spec(cv) {
                    Option::Some(ts) => {
                        let (tags, i4) = tags_parse(s, i3);
                        let (links, i5) = links_parse(s, i4);
                        let (desc, i6) = desc_parse(s, i5);
                        Option::Some(
                            (
                                MetaView {
                                    id: idv,
                                    title: tv,
                                    created: ts,
                                    tags: tags,
                                    links: links,
                                    description: desc,
                                },
                                i6,
                            ),
                        )
                    },
                    Option::None => Option::None,
                },
                Option::None => Option::None,
            },
            Option::None => Option::None,
        },
        Option::None => Option::None,
    }
}

/// Some line of the text, after the opening delimiter, is exactly the
/// delimiter again: the file splits into header and body at all.
pub open spec fn has_close(s: Seq<char>) -> bool {
    exists|p: int|
        4 <= p && #[trigger] starts_with(s, p, delim()) && (p == 4 || s[p - 1] == '\n')
}

/// What `parse` yields on any text: the metadata and body on success;
/// `MalformedHeader` when the delimiter structure is missing, and
/// `SchemaError` when the header between the delimiters does not have
/// the metadata shape.
pub open spec fn parse_spec(s: Seq<char>) -> Result<(MetaView, Seq<char>), ParseError> {
    if !starts_with(s, 0, delim()) {
        Result::Err(ParseError::MalformedHeader)
    } else if !has_close(s) {
        Result::Err(ParseError::MalformedHeader)
    } else {
        match header_parse(s, 4) {
            Option::Some((m, q)) => if starts_with(s, q, delim()) {
                Result::Ok((m, s.subrange(q + 4, s.len() as int)))
            } else {
                Result::Err(ParseError::SchemaError)
            },
            Option::None => Result::Err(ParseError::SchemaError),
        }
    }
}

/// Reads one `key: value` line: the value's range and the newline's
/// position.
fn read_key_line(v: &Vec<char>, i: usize, key: &str) -> (r: Option<(usize, usize)>)
    requires
        i <= v@.len(),
    ensures
        match r {
            Some(p) => {
                &&& key_line(v@, i as int, key@) == Some(
                    (v@.subrange(p.0 as int, p.1 as int), p.1 as int + 1),
                )
                &&& i + key@.len() == p.0 <= p.1 < v@.len()
                &&& line_safe(v@.subrange(p.0 as int, p.1 as int))
            },
            None => key_line(v@, i as int, key@) is None,
        },
{
    let n = v.len();
    if match_lit(v, i, key) {
        let a = i + key.unicode_len();
        match scan_nl(v, a) {
            Some(k) => {
                proof {
                    lemma_find_nl_props(v@, a as int);
                }
                Some((a, k))
            },
            None => None,
        }
    } else {
        None
    }
}

/// Scans for a line that is exactly the closing delimiter.
fn find_close(v: &Vec<char>) -> (r: bool)
    requires
        4 <= v@.len(),
    ensures
        r == has_close(v@),
{
    proof {
        reveal_strlit("---\n");
    }
    let n = v.len();
    let mut p: usize = 4;
    while p < n - 3
        invariant
            4 <= p,
            4 <= n == v@.len(),
            forall|q: int|
                4 <= q < p ==> !(#[trigger] starts_with(v@, q, delim()) && (q == 4 || v@[q - 1]
                    == '\n')),
        decreases n - p,
    {
        if (p == 4 || v[p - 1] == '\n') && match_lit(v, p, "---\n") {
            proof {
                assert(starts_with(v@, p as int, delim()));
            }
            return true;
        }
        p = p + 1;
    }
    proof {
        assert(forall|q: int| #[trigger]
            starts_with(v@, q, delim()) ==> q + 4 <= v@.len() && q < p);
    }
    false
}

/// Reads the tag items after a `tags:` line, returning the tags and the
/// position after the last item.
fn read_tag_items(v: &Vec<char>, start: usize) -> (r: (Vec<String>, usize))
    requires
        start <= v@.len(),
    ensures
        (r.0@.map_values(|s: String| s@), r.1 as int) == tag_items_parse(v@, start as int),
        r.1 <= v@.len(),
        forall|t: int| 0 <= t < r.0@.len() ==> line_safe((#[trigger] r.0@[t])@),
{
    let n = v.len();
    let mut tags: Vec<String> = Vec::new();
    let mut pos: usize = start;
    loop
        invariant
            start <= pos <= n == v@.len(),
            tag_items_parse(v@, start as int).0 =~= tags@.map_values(|s: String| s@)
                + tag_items_parse(v@, pos as int).0,
            tag_items_parse(v@, start as int).1 == tag_items_parse(v@, pos as int).1,
            forall|t: int| 0 <= t < tags@.len() ==> line_safe((#[trigger] tags@[t])@),
        ensures
            start <= pos <= v@.len(),
            tag_items_parse(v@, start as int).0 =~= tags@.map_values(|s: String| s@)
                + tag_items_parse(v@, pos as int).0,
            tag_items_parse(v@, start as int).1 == tag_items_parse(v@, pos as int).1,
            tag_items_parse(v@, pos as int) == (Seq::<Seq<char>>::empty(), pos as int),
            forall|t: int| 0 <= t < tags@.len() ==> line_safe((#[trigger] tags@[t])@),
        decreases v@.len() - pos,
    {
        match read_key_line(v, pos, "- ") {
            Some((a, k)) => {
                let t = string_from_range(v, a, k);
                tags.push(t);
                proof {
                    assert(tags@.map_values(|s: String| s@) =~= tags@.drop_last().map_values(
                        |s: String| s@,
                    ).push(v@.subrange(a as int, k as int)));
                }
                pos = k + 1;
            },
            None => {
                break;
            },
        }
    }
    proof {
        assert(tag_items_parse(v@, pos as int).0 =~= Seq::<Seq<char>>::empty());
        assert(tag_items_parse(v@, start as int).0 =~= tags@.map_values(|s: String| s@));
    }
    (tags, pos)
}

/// Reads the link items after a `links:` line, returning the links and
/// the position after the last complete item.
#[verifier::rlimit(60)]
fn read_link_items(v: &Vec<char>, start: usize) -> (r: (Vec<Link>, usize))
    requires
        start <= v@.len(),
    ensures
        (r.0@.map_values(|l: Link| l@), r.1 as int) == link_items_parse(v@, start as int),
        r.1 <= v@.len(),
        forall|t: int| 0 <= t < r.0@.len() ==> (#[trigger] r.0@[t])@.wf(),
{
    let n = v.len();
    let mut links: Vec<Link> = Vec::new();
    let mut pos: usize = start;
    loop
        invariant
            start <= pos <= n == v@.len(),
            link_items_parse(v@, start as int).0 =~= links@.map_values(|l: Link| l@)
                + link_items_parse(v@, pos as int).0,
            link_items_parse(v@, start as int).1 == link_items_parse(v@, pos as int).1,
            forall|t: int| 0 <= t < links@.len() ==> (#[trigger] links@[t])@.wf(),
        ensures
            start <= pos <= v@.len(),
            link_items_parse(v@, start as int).0 =~= links@.map_values(|l: Link| l@)
                + link_items_parse(v@, pos as int).0,
            link_items_parse(v@, start as int).1 == link_items_parse(v@, pos as int).1,
            link_items_parse(v@, pos as int) == (Seq::<LinkView>::empty(), pos as int),
            forall|t: int| 0 <= t < links@.len() ==> (#[trigger] links@[t])@.wf(),
        decreases v@.len() - pos,
    {
        match read_key_line(v, pos, "- from: ") {
            Some((fa, fk)) => {
                match read_key_line(v, fk + 1, "  to: ") {
                    Some((ta, tk)) => {
                        let from_s = string_from_range(v, fa, fk);
                        let to_s = string_from_range(v, ta, tk);
                        match read_key_line(v, tk + 1, "  description: ") {
                            Some((da, dk)) => {
                                let d = string_from_range(v, da, dk);
                                links.push(
                                    Link { from: from_s, to: to_s, description: Some(d) },
                                );
                                proof {
                                    assert(links@.map_values(|l: Link| l@)
                                        =~= links@.drop_last().map_values(|l: Link| l@).push(
                                        links@.last()@,
                                    ));
                                }
                                pos = dk + 1;
                            },
                            None => {
                                links.push(Link { from: from_s, to: to_s, description: None });
                                proof {
                                    assert(links@.map_values(|l: Link| l@)
                                        =~= links@.drop_last().map_values(|l: Link| l@).push(
                                        links@.last()@,
                                    ));
                                }
                                pos = tk + 1;
                            },
                        }
                    },
                    None => {
                        break;
                    },
                }
            },
            None => {
                break;
            },
        }
    }
    proof {
        assert(link_items_parse(v@, pos as int).0 =~= Seq::<LinkView>::empty());
        assert(link_items_parse(v@, start as int).0 =~= links@.map_values(|l: Link| l@));
    }
    (links, pos)
}

/// Reads a note file's text back into its metadata and body.
#[verifier::rlimit(60)]
pub fn parse(text: &str) -> (r: Result<(NoteMetadata, String), ParseError>)
    ensures
        r matches Ok(p) ==> parse_spec(text@) == Result::Ok::<(MetaView, Seq<char>), ParseError>(
            (p.0@, p.1@),
        ),
        r matches Err(e) ==> parse_spec(text@) == Result::Err::<(MetaView, Seq<char>), ParseError>(
            e,
        ),
        r matches Ok(p) ==> p.0@.wf(),
{
    let v = chars_of_str(text);
    let n = v.len();
    proof {
        reveal_strlit("---\n");
        reveal_strlit("tags: []\n");
        reveal_strlit("tags:\n");
        reveal_strlit("links: []\n");
        reveal_strlit("links:\n");
    }
    if !match_lit(&v, 0, "---\n") {
        return Err(ParseError::MalformedHeader);
    }
    if !find_close(&v) {
        return Err(ParseError::MalformedHeader);
    }
    let (ida, idk) = match read_key_line(&v, 4, "id: ") {
        Some(p) => p,
        None => {
            return Err(ParseError::SchemaError);
        },
    };
    let (ta, tk) = match read_key_line(&v, idk + 1, "title: ") {
        Some(p) => p,
        None => {
            return Err(ParseError::SchemaError);
        },
    };
    let (ca, ck) = match read_key_line(&v, tk + 1, "created: ") {
        Some(p) => p,
        None => {
            return Err(ParseError::SchemaError);
        },
    };
    let cval = subvec(&v, ca, ck);
    let created = match parse_timestamp(&cval) {
        Some(ts) => ts,
        None => {
            return Err(ParseError::SchemaError);
        },
    };
    let i3 = ck + 1;
    let ghost tags_step = tags_parse(v@, i3 as int);
    let mut tags: Vec<String> = Vec::new();
    let mut pos: usize = i3;
    if match_lit(&v, pos, "tags: []\n") {
        pos = pos + 9;
    } else if match_lit(&v, pos, "tags:\n") {
        let (ts, p2) = read_tag_items(&v, pos + 6);
        tags = ts;
        pos = p2;
    }
    proof {
        assert((tags@.map_values(|s: String| s@), pos as int) == tags_step);
    }
    let ghost links_step = links_parse(v@, pos as int);
    let mut links: Vec<Link> = Vec::new();
    if match_lit(&v, pos, "links: []\n") {
        pos = pos + 10;
    } else if match_lit(&v, pos, "links:\n") {
        let (ls, p2) = read_link_items(&v, pos + 7);
        links = ls;
        pos = p2;
    }
    proof {
        assert((links@.map_values(|l: Link| l@), pos as int) == links_step);
    }
    let description = match read_key_line(&v, pos, "description: ") {
        Some((da, dk)) => {
            let d = string_from_range(&v, da, dk);
            pos = dk + 1;
            Some(d)
        },
        None => None,
    };
    if !match_lit(&v, pos, "---\n") {
        return Err(ParseError::SchemaError);
    }
    let body = string_from_range(&v, pos + 4, n);
    let meta = NoteMetadata {
        id: string_from_range(&v, ida, idk),
        title: string_from_range(&v, ta, tk),
        created,
        tags,
        links,
        description,
    };
    proof {
        let hp = header_parse(v@, 4);
        assert(hp matches Some(p) && p.0 == meta@ && p.1 == pos as int);
        assert(body@ == v@.subrange(pos as int + 4, v@.len() as int));
    }
    Ok((meta, body))
}

proof fn lemma_split_suffix(s: Seq<char>, i: int, a: Seq<char>, b: Seq<char>)
    requires
        0 <= i <= s.len(),
        s.subrange(i, s.len() as int) == a + b,
    ensures
        s.subrange(i, i + a.len()) == a,
        s.subrange(i + a.len(), s.len() as int) == b,
        i + a.len() + b.len() == s.len(),
        forall|j: int| 0 <= j < a.len() + b.len() ==> s[i + j] == (a + b)[j],
{
    let sfx = s.subrange(i, s.len() as int);
    assert(sfx.len() == a.len() + b.len());
    assert(forall|j: int| 0 <= j < sfx.len() ==> s[i + j] == #[trigger] sfx[j]);
    assert forall|j: int| 0 <= j < a.len() + b.len() implies s[i + j] == (a + b)[j] by {
        assert(sfx[j] == (a + b)[j]);
    };
    assert forall|j: int| 0 <= j < a.len() implies s.subrange(i, i + a.len() as int)[j] == a[j] by {
        assert(s[i + j] == (a + b)[j]);
    };
    assert(s.subrange(i, i + a.len() as int) =~= a);
    assert forall|j: int| 0 <= j < b.len() implies s.subrange(i + a.len(), s.len() as int)[j]
        == b[j] by {
        assert(s[i + (a.len() + j)] == (a + b)[a.len() + j]);
        assert(s.subrange(i + a.len(), s.len() as int)[j] == s[i + a.len() + j]);
    };
    assert(s.subrange(i + a.len(), s.len() as int) =~= b);
}

/// A `key: value` line followed by `tail` reads back as its value.
proof fn lemma_key_line_of(s: Seq<char>, i: int, key: Seq<char>, val: Seq<char>, tail: Seq<char>)
    requires
        0 <= i <= s.len(),
        s.subrange(i, s.len() as int) == key + val + nl() + tail,
        forall|j: int| 0 <= j < key.len() ==> key[j] != '\n',
        line_safe(val),
    ensures
        key_line(s, i, key) == Some((val, i + key.len() + val.len() + 1)),
        s.subrange(i + key.len() + val.len() + 1, s.len() as int) == tail,
{
    reveal_strlit("\n");
    let a = key + val + nl();
    assert(s.subrange(i, s.len() as int) =~= a + tail);
    lemma_split_suffix(s, i, a, tail);
    assert(a.len() == key.len() + val.len() + 1);
    let k: int = i + key.len() as int + val.len() as int;
    assert(forall|j: int| 0 <= j < a.len() ==> s[i + j] == a[j]);
    assert(s.subrange(i, i + key.len()) =~= key);
    assert(s[k] == a[key.len() + val.len() as int]);
    assert(a[key.len() + val.len() as int] == nl()[0]);
    assert(s[k] == '\n');
    assert(forall|j: int| i + key.len() <= j < k ==> s[j] == a[j - i] && a[j - i] == val[j - (i
        + key.len())]);
    lemma_find_nl_at(s, i + key.len(), k);
    assert(s.subrange(i + key.len(), k) =~= val);
    assert(starts_with(s, i, key));
    assert(s.subrange(k + 1, s.len() as int) =~= tail);
}

/// Serialized tag items followed by the links block read back as the
/// same tags.
proof fn lemma_tag_items_of(s: Seq<char>, i: int, tags: Seq<Seq<char>>, rest: Seq<char>)
    requires
        0 <= i <= s.len(),
        s.subrange(i, s.len() as int) == tag_items(tags) + rest,
        forall|t: int| 0 <= t < tags.len() ==> line_safe(#[trigger] tags[t]),
        rest.len() > 0,
        rest[0] == 'l',
    ensures
        tag_items_parse(s, i) == (tags, i + tag_items(tags).len()),
        s.subrange(i + tag_items(tags).len(), s.len() as int) == rest,
    decreases tags.len(),
{
    reveal_strlit("- ");
    lemma_split_suffix(s, i, tag_items(tags), rest);
    if tags.len() == 0 {
        assert(s.subrange(i, s.len() as int) =~= rest);
        assert(s[i] == 'l');
        if starts_with(s, i, "- "@) {
            assert(s.subrange(i, i + 2)[0] == '-');
            assert(false);
        }
        assert(tags =~= Seq::<Seq<char>>::empty());
    } else {
        let item = "- "@ + tags[0] + nl();
        let tail = tag_items(tags.drop_first()) + rest;
        assert(s.subrange(i, s.len() as int) =~= "- "@ + tags[0] + nl() + tail);
        lemma_key_line_of(s, i, "- "@, tags[0], tail);
        let j: int = i + 2 + tags[0].len() as int + 1;
        lemma_tag_items_of(s, j, tags.drop_first(), rest);
        assert(seq![tags[0]] + tags.drop_first() =~= tags);
    }
}

/// Serialized link items followed by the closing part read back as the
/// same links.
#[verifier::rlimit(100)]
proof fn lemma_link_items_of(s: Seq<char>, i: int, ls: Seq<LinkView>, rest: Seq<char>)
    requires
        0 <= i <= s.len(),
        s.subrange(i, s.len() as int) == link_items(ls) + rest,
        forall|t: int| 0 <= t < ls.len() ==> (#[trigger] ls[t]).wf(),
        rest.len() >= 2,
        rest[0] == 'd' || (rest[0] == '-' && rest[1] == '-'),
    ensures
        link_items_parse(s, i) == (ls, i + link_items(ls).len()),
        s.subrange(i + link_items(ls).len(), s.len() as int) == rest,
    decreases ls.len(),
{
    reveal_strlit("- from: ");
    reveal_strlit("  to: ");
    reveal_strlit("  description: ");
    lemma_split_suffix(s, i, link_items(ls), rest);
    if ls.len() == 0 {
        assert(s.subrange(i, s.len() as int) =~= rest);
        assert(s[i] == rest[0]);
        assert(s[i + 1] == rest[1]);
        if starts_with(s, i, "- from: "@) {
            assert(s.subrange(i, i + 8)[0] == '-');
            assert(s.subrange(i, i + 8)[1] == ' ');
            assert(false);
        }
        assert(ls =~= Seq::<LinkView>::empty());
    } else {
        let l0 = ls[0];
        let dpart = match l0.description {
            Option::Some(d) => "  description: "@ + d + nl(),
            Option::None => Seq::<char>::empty(),
        };
        let tail_links = link_items(ls.drop_first()) + rest;
        assert(s.subrange(i, s.len() as int) =~= "- from: "@ + l0.from + nl() + ("  to: "@
            + l0.to + nl() + (dpart + tail_links)));
        lemma_key_line_of(s, i, "- from: "@, l0.from, "  to: "@ + l0.to + nl() + (dpart
            + tail_links));
        let j1: int = i + 8 + l0.from.len() as int + 1;
        assert(s.subrange(j1, s.len() as int) =~= "  to: "@ + l0.to + nl() + (dpart + tail_links));
        lemma_key_line_of(s, j1, "  to: "@, l0.to, dpart + tail_links);
        let j2: int = j1 + 6 + l0.to.len() as int + 1;
        match l0.description {
            Option::Some(d) => {
                assert(s.subrange(j2, s.len() as int) =~= "  description: "@ + d + nl()
                    + tail_links);
                lemma_key_line_of(s, j2, "  description: "@, d, tail_links);
                let j3: int = j2 + 15 + d.len() as int + 1;
                assert(s.subrange(j3, s.len() as int) =~= link_items(ls.drop_first()) + rest);
                lemma_link_items_of(s, j3, ls.drop_first(), rest);
                assert(seq![l0] + ls.drop_first() =~= ls);
            },
            Option::None => {
                assert(s.subrange(j2, s.len() as int) =~= link_items(ls.drop_first()) + rest);
                // the next line is another item, or the part after the links
                if starts_with(s, j2, "  description: "@) {
                    lemma_split_suffix(s, j2, link_items(ls.drop_first()), rest);
                    if ls.drop_first().len() == 0 {
                        assert(link_items(ls.drop_first()) =~= Seq::<char>::empty());
                        assert(s[j2] == rest[0]);
                        assert(s.subrange(j2, j2 + 15)[0] == ' ');
                        assert(false);
                    } else {
                        let d0 = ls.drop_first()[0];
                        assert(link_items(ls.drop_first())[0] == link_item(d0)[0]);
                        assert(link_item(d0)[0] == "- from: "@[0]);
                        assert(s[j2] == link_items(ls.drop_first())[0]);
                        assert(s.subrange(j2, j2 + 15)[0] == ' ');
                        assert(false);
                    }
                }
                lemma_link_items_of(s, j2, ls.drop_first(), rest);
                assert(seq![l0] + ls.drop_first() =~= ls);
            },
        }
    }
}

/// Non-empty serialized link items end with a newline.
proof fn lemma_link_items_last(ls: Seq<LinkView>)
    requires
        ls.len() > 0,
    ensures
        link_items(ls).len() > 0,
        link_items(ls).last() == '\n',
    decreases ls.len(),
{
    reveal_strlit("\n");
    if ls.len() == 1 {
        assert(ls.drop_first() =~= Seq::<LinkView>::empty());
        assert(link_items(Seq::<LinkView>::empty()) == Seq::<char>::empty());
    } else {
        lemma_link_items_last(ls.drop_first());
    }
}

/// The header block always ends with a newline.
proof fn lemma_header_ends_nl(m: MetaView)
    ensures
        header_text(m).len() > 0,
        header_text(m).last() == '\n',
{
    reveal_strlit("\n");
    reveal_strlit("links: []\n");
    reveal_strlit("links:\n");
    match m.description {
        Option::Some(d) => {},
        Option::None => {
            if m.links.len() > 0 {
                lemma_link_items_last(m.links);
            }
        },
    }
}

/// The serialized header, followed by the closing delimiter and body,
/// reads back as the same metadata.
#[verifier::rlimit(100)]
proof fn lemma_header_parse_of(s: Seq<char>, m: MetaView, body: Seq<char>)
    requires
        m.wf(),
        s.len() >= 4,
        s.subrange(4, s.len() as int) == header_text(m) + (delim() + body),
    ensures
        header_parse(s, 4) == Option::Some((m, 4 + header_text(m).len() as int)),
        s.subrange(4 + header_text(m).len() as int, s.len() as int) == delim() + body,
{
    reveal_strlit("id: ");
    reveal_strlit("title: ");
    reveal_strlit("created: ");
    reveal_strlit("description: ");
    reveal_strlit("---\n");
    reveal_strlit("\n");
    let tb = tags_block(m.tags);
    let lb = links_block(m.links);
    let db = desc_block(m.description);
    let sfx3 = tb + (lb + (db + (delim() + body)));
    assert(s.subrange(4, s.len() as int) =~= "id: "@ + m.id + nl() + ("title: "@ + m.title + nl()
        + ("created: "@ + ts_format(m.created) + nl() + sfx3)));
    lemma_key_line_of(s, 4, "id: "@, m.id, "title: "@ + m.title + nl() + ("created: "@ + ts_format(
        m.created,
    ) + nl() + sfx3));
    let i1: int = 4 + 4 + m.id.len() as int + 1;
    lemma_key_line_of(s, i1, "title: "@, m.title, "created: "@ + ts_format(m.created) + nl()
        + sfx3);
    let i2: int = i1 + 7 + m.title.len() as int + 1;
    crate::timestamp::lemma_format_line_safe(m.created);
    assert(line_safe(ts_format(m.created)));
    lemma_key_line_of(s, i2, "created: "@, ts_format(m.created), sfx3);
    let i3: int = i2 + 9 + ts_format(m.created).len() as int + 1;
    crate::timestamp::lemma_timestamp_round_trip(m.created);
    // the tags block
    let i4: int = i3 + tb.len() as int;
    assert(s.subrange(i3, s.len() as int) == sfx3);
    lemma_split_suffix(s, i3, tb, lb + (db + (delim() + body)));
    reveal_strlit("links: []\n");
    reveal_strlit("links:\n");
    assert((lb + (db + (delim() + body)))[0] == 'l');
    lemma_tags_block_of(s, i3, m.tags, lb + (db + (delim() + body)));
    // the links block
    let i5: int = i4 + lb.len() as int;
    lemma_split_suffix(s, i4, lb, db + (delim() + body));
    let r = db + (delim() + body);
    match m.description {
        Option::Some(d) => {
            assert(r[0] == 'd');
        },
        Option::None => {
            assert(r =~= delim() + body);
            assert(r[0] == '-' && r[1] == '-');
        },
    }
    lemma_links_block_of(s, i4, m.links, db + (delim() + body));
    // the description line
    let i6: int = i5 + db.len() as int;
    lemma_split_suffix(s, i5, db, delim() + body);
    match m.description {
        Option::Some(d) => {
            assert(s.subrange(i5, s.len() as int) =~= "description: "@ + d + nl() + (delim()
                + body));
            lemma_key_line_of(s, i5, "description: "@, d, delim() + body);
            assert(desc_parse(s, i5) == (Option::Some(d), i6));
        },
        Option::None => {
            assert(s.subrange(i5, s.len() as int) =~= delim() + body);
            assert(s[i5] == '-');
            if starts_with(s, i5, "description: "@) {
                assert(s.subrange(i5, i5 + 13)[0] == 'd');
                assert(false);
            }
            assert(desc_parse(s, i5) == (Option::None::<Seq<char>>, i6));
        },
    }
    assert(header_parse(s, 4) == Option::Some((m, i6)));
    assert(s.subrange(i6, s.len() as int) =~= delim() + body);
}

/// A serialized note reads back as exactly the metadata and body it was
/// written from.
#[verifier::rlimit(100)]
pub proof fn lemma_round_trip(m: MetaView, body: Seq<char>)
    requires
        m.wf(),
    ensures
        parse_spec(serialize_spec(m, body)) == Result::Ok::<(MetaView, Seq<char>), ParseError>(
            (m, body),
        ),
{
    reveal_strlit("---\n");
    let s = serialize_spec(m, body);
    let h = header_text(m);
    assert(s.subrange(0, 4) =~= delim());
    assert(starts_with(s, 0, delim()));
    // the closing delimiter stands at a line start
    let pc: int = 4 + h.len() as int;
    lemma_header_ends_nl(m);
    assert(s[pc - 1] == h.last());
    assert(s.subrange(pc, pc + 4) =~= delim());
    assert(starts_with(s, pc, delim()) && (pc == 4 || s[pc - 1] == '\n'));
    assert(has_close(s));
    // the header parses back, then the delimiter and the body follow
    assert(s.subrange(4, s.len() as int) =~= h + (delim() + body));
    lemma_header_parse_of(s, m, body);
    lemma_split_suffix(s, pc, delim(), body);
    assert(starts_with(s, pc, delim()));
    assert(s.subrange(pc + 4, s.len() as int) == body);
}

/// The serialized tags block followed by the links block reads back as
/// the same tags.
proof fn lemma_tags_block_of(s: Seq<char>, i: int, tags: Seq<Seq<char>>, rest: Seq<char>)
    requires
        0 <= i <= s.len(),
        s.subrange(i, s.len() as int) == tags_block(tags) + rest,
        forall|t: int| 0 <= t < tags.len() ==> line_safe(#[trigger] tags[t]),
        rest.len() > 0,
        rest[0] == 'l',
    ensures
        tags_parse(s, i) == (tags, i + tags_block(tags).len()),
{
    reveal_strlit("tags: []\n");
    reveal_strlit("tags:\n");
    lemma_split_suffix(s, i, tags_block(tags), rest);
    if tags.len() == 0 {
        assert(s.subrange(i, i + 9) =~= "tags: []\n"@);
        assert(starts_with(s, i, "tags: []\n"@));
        assert(tags =~= Seq::<Seq<char>>::empty());
    } else {
        assert(s.subrange(i, s.len() as int) =~= "tags:\n"@ + (tag_items(tags) + rest));
        lemma_split_suffix(s, i, "tags:\n"@, tag_items(tags) + rest);
        assert(starts_with(s, i, "tags:\n"@));
        if starts_with(s, i, "tags: []\n"@) {
            assert(s.subrange(i, i + 9)[5] == '[');
            assert(s.subrange(i, i + 6)[5] == '\n');
            assert(false);
        }
        lemma_tag_items_of(s, i + 6, tags, rest);
    }
}

/// The serialized links block followed by the closing part reads back
/// as the same links.
proof fn lemma_links_block_of(s: Seq<char>, i: int, ls: Seq<LinkView>, rest: Seq<char>)
    requires
        0 <= i <= s.len(),
        s.subrange(i, s.len() as int) == links_block(ls) + rest,
        forall|t: int| 0 <= t < ls.len() ==> (#[trigger] ls[t]).wf(),
        rest.len() >= 2,
        rest[0] == 'd' || (rest[0] == '-' && rest[1] == '-'),
    ensures
        links_parse(s, i) == (ls, i + links_block(ls).len()),
{
    reveal_strlit("links: []\n");
    reveal_strlit("links:\n");
    lemma_split_suffix(s, i, links_block(ls), rest);
    if ls.len() == 0 {
        assert(s.subrange(i, i + 10) =~= "links: []\n"@);
        assert(starts_with(s, i, "links: []\n"@));
        assert(ls =~= Seq::<LinkView>::empty());
    } else {
        assert(s.subrange(i, s.len() as int) =~= "links:\n"@ + (link_items(ls) + rest));
        lemma_split_suffix(s, i, "links:\n"@, link_items(ls) + rest);
        assert(starts_with(s, i, "links:\n"@));
        if starts_with(s, i, "links: []\n"@) {
            assert(s.subrange(i, i + 10)[6] == '[');
            assert(s.subrange(i, i + 7)[6] == '\n');
            assert(false);
        }
        lemma_link_items_of(s, i + 7, ls, rest);
    }
}

/// Copies a range of the buffer.
fn subvec(v: &Vec<char>, a: usize, b: usize) -> (r: Vec<char>)
    requires
        a <= b <= v@.len(),
    ensures
        r@ == v@.subrange(a as int, b as int),
{
    let mut r: Vec<char> = Vec::new();
    let mut i: usize = a;
    while i < b
        invariant
            a <= i <= b <= v@.len(),
            r@ == v@.subrange(a as int, i as int),
        decreases b - i,
    {
        r.push(v[i]);
        proof {
            assert(r@ =~= v@.subrange(a as int, i as int + 1));
        }
        i = i + 1;
    }
    r
}

} // verus!

//! Tag operations on a note file's text.
//!
//! Tags are kept as a set: after any mutation the list is deduplicated
//! and sorted lexicographically by character code, so the stored form is
//! canonical.

use vstd::prelude::*;
use crate::codec::{parse, parse_spec, serialize, serialize_spec, ParseError};
use crate::line_safe;
use crate::metadata::MetaView;

verus! {

/// Lexicographic order on character sequences, by character code.
pub open spec fn seq_lt(a: Seq<char>, b: Seq<char>) -> bool
    decreases a.len(),
{
    if b.len() == 0 {
        false
    } else if a.len() == 0 {
        true
    } else if (a[0] as u32) < (b[0] as u32) {
        true
    } else if a[0] == b[0] {
        seq_lt(a.drop_first(), b.drop_first())
    } else {
        false
    }
}

/// Strictly sorted: every earlier element is lexicographically below
/// every later one, so there are no duplicates either.
pub open spec fn sorted_strict(s: Seq<Seq<char>>) -> bool {
    forall|i: int, j: int| 0 <= i < j < s.len() ==> seq_lt(#[trigger] s[i], #[trigger] s[j])
}

/// Characters with the same code are the same character.
proof fn lemma_char_code_inj(c1: char, c2: char)
    requires
        c1 as u32 == c2 as u32,
    ensures
        c1 == c2,
{
}

/// Of two distinct sequences, exactly one is below the other.
pub proof fn lemma_lt_trichotomy(a: Seq<char>, b: Seq<char>)
    ensures
        seq_lt(a, b) || seq_lt(b, a) || a == b,
        seq_lt(a, b) ==> !seq_lt(b, a) && a != b,
    decreases a.len() + b.len(),
{
    if b.len() == 0 {
        if a.len() == 0 {
            assert(a =~= b);
        }
    } else if a.len() == 0 {
    } else if (a[0] as u32) < (b[0] as u32) {
    } else if a[0] == b[0] {
        lemma_lt_trichotomy(a.drop_first(), b.drop_first());
        if a.drop_first() == b.drop_first() {
            assert forall|i: int| 0 <= i < a.len() implies a[i] == b[i] by {
                if i > 0 {
                    assert(a[i] == a.drop_first()[i - 1]);
                    assert(b[i] == b.drop_first()[i - 1]);
                }
            }
            assert(a =~= b);
        }
    } else {
        // distinct characters carry distinct codes
        if (a[0] as u32) == (b[0] as u32) {
            lemma_char_code_inj(a[0], b[0]);
        }
        assert((b[0] as u32) < (a[0] as u32));
    }
}

pub proof fn lemma_lt_trans(a: Seq<char>, b: Seq<char>, c: Seq<char>)
    requires
        seq_lt(a, b),
        seq_lt(b, c),
    ensures
        seq_lt(a, c),
    decreases a.len() + b.len() + c.len(),
{
    if a.len() > 0 && b.len() > 0 && c.len() > 0 && a[0] == b[0] && b[0] == c[0] {
        lemma_lt_trans(a.drop_first(), b.drop_first(), c.drop_first());
    }
}

/// Inserts a tag into a sorted, duplicate-free list, keeping it so.
pub open spec fn insert_tag_spec(s: Seq<Seq<char>>, x: Seq<char>) -> Seq<Seq<char>>
    decreases s.len(),
{
    if s.len() == 0 {
        seq![x]
    } else if seq_lt(x, s[0]) {
        seq![x] + s
    } else if x == s[0] {
        s
    } else {
        seq![s[0]] + insert_tag_spec(s.drop_first(), x)
    }
}

/// Inserts each of `ts` in turn.
pub open spec fn add_all(s: Seq<Seq<char>>, ts: Seq<Seq<char>>) -> Seq<Seq<char>>
    decreases ts.len(),
{
    if ts.len() == 0 {
        s
    } else {
        add_all(insert_tag_spec(s, ts[0]), ts.drop_first())
    }
}

/// What inserting holds: exactly the old elements and `x`.
pub proof fn lemma_insert_set(s: Seq<Seq<char>>, x: Seq<char>)
    ensures
        forall|y: Seq<char>|
            #[trigger] insert_tag_spec(s, x).contains(y) <==> (s.contains(y) || y == x),
    decreases s.len(),
{
    if s.len() == 0 {
        assert forall|y: Seq<char>| #[trigger]
            insert_tag_spec(s, x).contains(y) <==> (s.contains(y) || y == x) by {
            assert(insert_tag_spec(s, x) =~= seq![x]);
            if y == x {
                assert(insert_tag_spec(s, x)[0] == x);
            }
        }
    } else if seq_lt(x, s[0]) {
        assert forall|y: Seq<char>| #[trigger]
            insert_tag_spec(s, x).contains(y) <==> (s.contains(y) || y == x) by {
            let r = seq![x] + s;
            if y == x {
                assert(r[0] == x);
            }
            if s.contains(y) {
                let k = choose|k: int| 0 <= k < s.len() && s[k] == y;
                assert(r[k + 1] == y);
            }
            if r.contains(y) && y != x {
                let k = choose|k: int| 0 <= k < r.len() && r[k] == y;
                assert(k > 0);
                assert(s[k - 1] == y);
            }
        }
    } else if x == s[0] {
        assert forall|y: Seq<char>| #[trigger]
            insert_tag_spec(s, x).contains(y) <==> (s.contains(y) || y == x) by {
            if y == x {
                assert(s[0] == y);
            }
        }
    } else {
        lemma_insert_set(s.drop_first(), x);
        assert forall|y: Seq<char>| #[trigger]
            insert_tag_spec(s, x).contains(y) <==> (s.contains(y) || y == x) by {
            let tail = insert_tag_spec(s.drop_first(), x);
            let r = seq![s[0]] + tail;
            assert(insert_tag_spec(s, x) == r);
            if r.contains(y) {
                let k = choose|k: int| 0 <= k < r.len() && r[k] == y;
                if k == 0 {
                    assert(s[0] == y);
                } else {
                    assert(tail[k - 1] == y);
                    assert(tail.contains(y));
                    if s.drop_first().contains(y) {
                        let k2 = choose|k2: int| 0 <= k2 < s.drop_first().len() && s.drop_first()[
                        k2] == y;
                        assert(s[k2 + 1] == y);
                    }
                }
            }
            if s.contains(y) {
                let k = choose|k: int| 0 <= k < s.len() && s[k] == y;
                if k == 0 {
                    assert(r[0] == y);
                } else {
                    assert(s.drop_first()[k - 1] == y);
                    assert(tail.contains(y));
                    let k3 = choose|k3: int| 0 <= k3 < tail.len() && tail[k3] == y;
                    assert(r[k3 + 1] == y);
                }
            }
            if y == x {
                assert(tail.contains(y));
                let k3 = choose|k3: int| 0 <= k3 < tail.len() && tail[k3] == y;
                assert(r[k3 + 1] == y);
            }
        }
    }
}

/// Inserting keeps the list strictly sorted.
pub proof fn lemma_insert_sorted(s: Seq<Seq<char>>, x: Seq<char>)
    requires
        sorted_strict(s),
    ensures
        sorted_strict(insert_tag_spec(s, x)),
    decreases s.len(),
{
    if s.len() == 0 {
    } else if seq_lt(x, s[0]) {
        let r = seq![x] + s;
        assert forall|i: int, j: int| 0 <= i < j < r.len() implies seq_lt(r[i], r[j]) by {
            if i == 0 {
                if j > 1 {
                    lemma_lt_trans(x, s[0], s[j - 1]);
                }
            }
        }
    } else if x == s[0] {
    } else {
        lemma_lt_trichotomy(x, s[0]);
        assert(seq_lt(s[0], x));
        assert(sorted_strict(s.drop_first()));
        lemma_insert_sorted(s.drop_first(), x);
        lemma_insert_set(s.drop_first(), x);
        let tail = insert_tag_spec(s.drop_first(), x);
        let r = seq![s[0]] + tail;
        assert forall|i: int, j: int| 0 <= i < j < r.len() implies seq_lt(r[i], r[j]) by {
            if i == 0 {
                let y = tail[j - 1];
                assert(tail.contains(y));
                if y == x {
                    assert(seq_lt(s[0], y));
                } else {
                    assert(s.drop_first().contains(y));
                    let k = choose|k: int|
                        0 <= k < s.drop_first().len() && s.drop_first()[k] == y;
                    assert(s[k + 1] == y);
                    assert(seq_lt(s[0], s[k + 1]));
                }
            }
        }
    }
}

/// Inserting a tag the list already holds changes nothing.
pub proof fn lemma_insert_member(s: Seq<Seq<char>>, x: Seq<char>)
    requires
        sorted_strict(s),
        s.contains(x),
    ensures
        insert_tag_spec(s, x) == s,
    decreases s.len(),
{
    let k = choose|k: int| 0 <= k < s.len() && s[k] == x;
    if k == 0 {
        lemma_lt_trichotomy(x, s[0]);
    } else {
        assert(seq_lt(s[0], s[k]));
        lemma_lt_trichotomy(x, s[0]);
        assert(!seq_lt(x, s[0]) && x != s[0]);
        assert(s.drop_first()[k - 1] == x);
        assert(s.drop_first().contains(x));
        assert(sorted_strict(s.drop_first()));
        lemma_insert_member(s.drop_first(), x);
        assert(seq![s[0]] + s.drop_first() =~= s);
    }
}

/// Inserting every tag keeps the list strictly sorted.
pub proof fn lemma_add_all_sorted(s: Seq<Seq<char>>, ts: Seq<Seq<char>>)
    requires
        sorted_strict(s),
    ensures
        sorted_strict(add_all(s, ts)),
    decreases ts.len(),
{
    if ts.len() > 0 {
        lemma_insert_sorted(s, ts[0]);
        lemma_add_all_sorted(insert_tag_spec(s, ts[0]), ts.drop_first());
    }
}

/// What inserting every tag holds: the old elements and all of `ts`.
pub proof fn lemma_add_all_set(s: Seq<Seq<char>>, ts: Seq<Seq<char>>)
    ensures
        forall|y: Seq<char>|
            #[trigger] add_all(s, ts).contains(y) <==> (s.contains(y) || ts.contains(y)),
    decreases ts.len(),
{
    if ts.len() == 0 {
        assert(forall|y: Seq<char>| !ts.contains(y));
    } else {
        lemma_insert_set(s, ts[0]);
        lemma_add_all_set(insert_tag_spec(s, ts[0]), ts.drop_first());
        assert forall|y: Seq<char>| #[trigger]
            add_all(s, ts).contains(y) <==> (s.contains(y) || ts.contains(y)) by {
            let s1 = insert_tag_spec(s, ts[0]);
            assert(add_all(s, ts) == add_all(s1, ts.drop_first()));
            assert(add_all(s1, ts.drop_first()).contains(y) <==> (s1.contains(y)
                || ts.drop_first().contains(y)));
            assert(s1.contains(y) <==> (s.contains(y) || y == ts[0]));
            if ts.contains(y) {
                let k = choose|k: int| 0 <= k < ts.len() && ts[k] == y;
                if k > 0 {
                    assert(ts.drop_first()[k - 1] == y);
                    assert(ts.drop_first().contains(y));
                }
            }
            if ts.drop_first().contains(y) {
                let k = choose|k: int|
                    0 <= k < ts.drop_first().len() && ts.drop_first()[k] == y;
                assert(ts[k + 1] == y);
            }
            if y == ts[0] {
                assert(ts.contains(y));
            }
        }
    }
}

/// Inserting tags a sorted list already holds changes nothing.
pub proof fn lemma_add_all_members(s: Seq<Seq<char>>, ts: Seq<Seq<char>>)
    requires
        sorted_strict(s),
        forall|i: int| 0 <= i < ts.len() ==> s.contains(#[trigger] ts[i]),
    ensures
        add_all(s, ts) == s,
    decreases ts.len(),
{
    if ts.len() > 0 {
        assert(s.contains(ts[0]));
        lemma_insert_member(s, ts[0]);
        assert forall|i: int|
            0 <= i < ts.drop_first().len() implies s.contains(#[trigger] ts.drop_first()[i]) by {
            assert(ts.drop_first()[i] == ts[i + 1]);
            assert(s.contains(ts[i + 1]));
        }
        lemma_add_all_members(s, ts.drop_first());
    }
}

/// The canonical tag list after adding `add` to `old_tags`: the union,
/// deduplicated and sorted.
pub open spec fn tag_union_spec(old_tags: Seq<Seq<char>>, add: Seq<Seq<char>>) -> Seq<Seq<char>> {
    add_all(add_all(Seq::empty(), old_tags), add)
}

/// Adding the same tags a second time changes nothing: the canonical
/// list after two rounds is the list after one.
pub proof fn lemma_add_tags_idempotent(old_tags: Seq<Seq<char>>, add: Seq<Seq<char>>)
    ensures
        tag_union_spec(tag_union_spec(old_tags, add), add) == tag_union_spec(old_tags, add),
{
    let u = tag_union_spec(old_tags, add);
    assert(sorted_strict(Seq::<Seq<char>>::empty()));
    lemma_add_all_sorted(Seq::empty(), old_tags);
    lemma_add_all_sorted(add_all(Seq::empty(), old_tags), add);
    lemma_sorted_add_all_self(u);
    assert(add_all(Seq::empty(), u) == u);
    lemma_add_all_set(add_all(Seq::empty(), old_tags), add);
    assert(forall|i: int| 0 <= i < add.len() ==> u.contains(#[trigger] add[i]));
    lemma_add_all_members(u, add);
}

/// Re-inserting a sorted, duplicate-free list into an empty one gives
/// it back unchanged.
pub proof fn lemma_sorted_add_all_self(s: Seq<Seq<char>>)
    requires
        sorted_strict(s),
    ensures
        add_all(Seq::empty(), s) == s,
{
    assert(s.take(0) =~= Seq::<Seq<char>>::empty());
    assert(s.skip(0) =~= s);
    lemma_sorted_add_all_prefix(s, 0, Seq::empty());
}

proof fn lemma_insert_append(u: Seq<Seq<char>>, x: Seq<char>)
    requires
        forall|i: int| 0 <= i < u.len() ==> seq_lt(#[trigger] u[i], x),
    ensures
        insert_tag_spec(u, x) == u.push(x),
    decreases u.len(),
{
    if u.len() == 0 {
        assert(insert_tag_spec(u, x) =~= u.push(x));
    } else {
        lemma_lt_trichotomy(x, u[0]);
        assert(seq_lt(u[0], x));
        assert(forall|i: int|
            0 <= i < u.drop_first().len() ==> seq_lt(#[trigger] u.drop_first()[i], x));
        lemma_insert_append(u.drop_first(), x);
        assert(seq![u[0]] + u.drop_first().push(x) =~= u.push(x));
    }
}

/// Inserting behind a fully-smaller prefix leaves the prefix alone.
proof fn lemma_insert_skip(s: Seq<Seq<char>>, x: Seq<char>, i: int)
    requires
        0 <= i <= s.len(),
        forall|k: int| 0 <= k < i ==> seq_lt(#[trigger] s[k], x),
    ensures
        insert_tag_spec(s, x) == s.take(i) + insert_tag_spec(s.skip(i), x),
    decreases i,
{
    if i == 0 {
        assert(s.take(0) =~= Seq::<Seq<char>>::empty());
        assert(s.skip(0) =~= s);
        assert(s.take(0) + insert_tag_spec(s, x) =~= insert_tag_spec(s, x));
    } else {
        lemma_lt_trichotomy(s[0], x);
        assert(!seq_lt(x, s[0]) && x != s[0]);
        assert forall|k: int| 0 <= k < i - 1 implies seq_lt(#[trigger] s.drop_first()[k], x) by {
            assert(s.drop_first()[k] == s[k + 1]);
        }
        lemma_insert_skip(s.drop_first(), x, i - 1);
        assert(seq![s[0]] + s.drop_first().take(i - 1) =~= s.take(i));
        assert(s.drop_first().skip(i - 1) =~= s.skip(i));
        assert(seq![s[0]] + (s.drop_first().take(i - 1) + insert_tag_spec(s.skip(i), x)) =~= s.take(
            i,
        ) + insert_tag_spec(s.skip(i), x));
    }
}

/// Folding a pushed element inserts it last.
proof fn lemma_add_all_push(s: Seq<Seq<char>>, ts: Seq<Seq<char>>, x: Seq<char>)
    ensures
        add_all(s, ts.push(x)) == insert_tag_spec(add_all(s, ts), x),
    decreases ts.len(),
{
    if ts.len() == 0 {
        assert(ts.push(x).drop_first() =~= Seq::<Seq<char>>::empty());
        assert(add_all(insert_tag_spec(s, x), Seq::<Seq<char>>::empty()) == insert_tag_spec(
            s,
            x,
        ));
        assert(ts.push(x)[0] == x);
    } else {
        assert(ts.push(x).drop_first() =~= ts.drop_first().push(x));
        lemma_add_all_push(insert_tag_spec(s, ts[0]), ts.drop_first(), x);
        assert(ts.push(x)[0] == ts[0]);
    }
}

proof fn lemma_sorted_add_all_prefix(s: Seq<Seq<char>>, i: int, u: Seq<Seq<char>>)
    requires
        sorted_strict(s),
        0 <= i <= s.len(),
        u == s.take(i),
    ensures
        add_all(u, s.skip(i)) == s,
    decreases s.len() - i,
{
    if i == s.len() {
        assert(s.skip(i) =~= Seq::<Seq<char>>::empty());
        assert(s.take(i) =~= s);
    } else {
        let x = s[i];
        assert(s.skip(i)[0] == x);
        assert forall|k: int| 0 <= k < u.len() implies seq_lt(#[trigger] u[k], x) by {
            assert(u[k] == s.take(i)[k]);
            assert(s.take(i)[k] == s[k]);
            assert(seq_lt(s[k], s[i]));
        }
        lemma_insert_append(u, x);
        assert(u.push(x) =~= s.take(i + 1));
        assert(s.skip(i).drop_first() =~= s.skip(i + 1));
        lemma_sorted_add_all_prefix(s, i + 1, s.take(i + 1));
    }
}


/// Lexicographic comparison of two strings, by character code.
pub fn str_lt(a: &String, b: &String) -> (r: bool)
    ensures
        r == seq_lt(a@, b@),
{
    let av = crate::text::chars_of_str(a.as_str());
    let bv = crate::text::chars_of_str(b.as_str());
    let an = av.len();
    let bn = bv.len();
    let mut i: usize = 0;
    proof {
        assert(a@.skip(0) =~= a@);
        assert(b@.skip(0) =~= b@);
    }
    while i < an && i < bn
        invariant
            0 <= i <= an,
            i <= bn,
            an == a@.len(),
            bn == b@.len(),
            av@ == a@,
            bv@ == b@,
            seq_lt(a@, b@) == seq_lt(a@.skip(i as int), b@.skip(i as int)),
        decreases an - i,
    {
        let ca = av[i];
        let cb = bv[i];
        proof {
            assert(a@.skip(i as int)[0] == a@[i as int]);
            assert(b@.skip(i as int)[0] == b@[i as int]);
        }
        if (ca as u32) < (cb as u32) {
            return true;
        }
        if ca != cb {
            return false;
        }
        proof {
            assert(a@.skip(i as int).drop_first() =~= a@.skip(i as int + 1));
            assert(b@.skip(i as int).drop_first() =~= b@.skip(i as int + 1));
        }
        i = i + 1;
    }
    proof {
        assert(a@.skip(i as int).len() == an - i);
        assert(b@.skip(i as int).len() == bn - i);
    }
    an < bn
}

pub open spec fn tag_views(ts: Seq<String>) -> Seq<Seq<char>> {
    ts.map_values(|s: String| s@)
}

/// Whether a tag occurs in a list.
pub fn contains_tag(v: &Vec<String>, x: &String) -> (r: bool)
    ensures
        r == tag_views(v@).contains(x@),
{
    let n = v.len();
    let mut i: usize = 0;
    while i < n
        invariant
            0 <= i <= n,
            n == v@.len(),
            forall|k: int| 0 <= k < i ==> (#[trigger] v@[k])@ != x@,
        decreases n - i,
    {
        if v[i].eq(x) {
            proof {
                assert(tag_views(v@)[i as int] == x@);
            }
            return true;
        }
        i = i + 1;
    }
    proof {
        assert forall|k: int| 0 <= k < tag_views(v@).len() implies tag_views(v@)[k] != x@ by {
            assert(tag_views(v@)[k] == v@[k]@);
        }
    }
    false
}

/// Inserts a tag into a sorted, duplicate-free list, keeping it so.
fn insert_tag(v: &Vec<String>, x: String) -> (r: Vec<String>)
    ensures
        tag_views(r@) == insert_tag_spec(tag_views(v@), x@),
{
    let ghost sv = tag_views(v@);
    let n = v.len();
    let mut i: usize = 0;
    while i < n && str_lt(&v[i], &x)
        invariant
            0 <= i <= n,
            n == v@.len(),
            sv == tag_views(v@),
            forall|k: int| 0 <= k < i ==> seq_lt(#[trigger] sv[k], x@),
        decreases n - i,
    {
        proof {
            assert(sv[i as int] == v@[i as int]@);
        }
        i = i + 1;
    }
    proof {
        lemma_insert_skip(sv, x@, i as int);
    }
    let mut r: Vec<String> = Vec::new();
    let mut j: usize = 0;
    while j < i
        invariant
            0 <= j <= i <= n,
            n == v@.len(),
            r@.len() == j,
            forall|k: int| 0 <= k < j ==> (#[trigger] r@[k])@ == v@[k]@,
        decreases i - j,
    {
        r.push(crate::metadata::clone_string(&v[j]));
        j = j + 1;
    }
    if i < n && v[i].eq(&x) {
        // already present: the list is unchanged
        let mut k: usize = i;
        while k < n
            invariant
                i <= k <= n,
                n == v@.len(),
                r@.len() == k,
                forall|t: int| 0 <= t < k ==> (#[trigger] r@[t])@ == v@[t]@,
            decreases n - k,
        {
            r.push(crate::metadata::clone_string(&v[k]));
            k = k + 1;
        }
        proof {
            assert(sv.skip(i as int)[0] == v@[i as int]@);
            assert(insert_tag_spec(sv.skip(i as int), x@) == sv.skip(i as int));
            assert(tag_views(r@) =~= sv.take(i as int) + sv.skip(i as int));
            assert(sv.take(i as int) + sv.skip(i as int) =~= sv);
        }
    } else {
        proof {
            if i < n {
                assert(sv.skip(i as int)[0] == v@[i as int]@);
                lemma_lt_trichotomy(x@, sv[i as int]);
                assert(seq_lt(x@, sv[i as int]));
            } else {
                assert(sv.skip(i as int) =~= Seq::<Seq<char>>::empty());
            }
        }
        r.push(x);
        let mut k: usize = i;
        while k < n
            invariant
                i <= k <= n,
                n == v@.len(),
                r@.len() == k + 1,
                forall|t: int| 0 <= t < i ==> (#[trigger] r@[t])@ == v@[t]@,
                r@[i as int]@ == x@,
                forall|t: int| i < t <= k ==> (#[trigger] r@[t])@ == v@[t - 1]@,
            decreases n - k,
        {
            r.push(crate::metadata::clone_string(&v[k]));
            k = k + 1;
        }
        proof {
            assert(tag_views(r@) =~= sv.take(i as int) + (seq![x@] + sv.skip(i as int)));
        }
    }
    r
}


/// Folds every tag of `more` into the sorted accumulator.
fn insert_all(acc: Vec<String>, more: &Vec<String>) -> (r: Vec<String>)
    ensures
        tag_views(r@) == add_all(tag_views(acc@), tag_views(more@)),
{
    let ghost a0 = tag_views(acc@);
    let ghost mv = tag_views(more@);
    let mut cur = acc;
    let n = more.len();
    let mut i: usize = 0;
    proof {
        assert(mv.take(0) =~= Seq::<Seq<char>>::empty());
        assert(add_all(a0, mv.take(0)) == a0);
    }
    while i < n
        invariant
            0 <= i <= n,
            n == more@.len(),
            mv == tag_views(more@),
            tag_views(cur@) == add_all(a0, mv.take(i as int)),
        decreases n - i,
    {
        cur = insert_tag(&cur, crate::metadata::clone_string(&more[i]));
        proof {
            assert(mv.take(i as int + 1) =~= mv.take(i as int).push(mv[i as int]));
            lemma_add_all_push(a0, mv.take(i as int), mv[i as int]);
            assert(mv[i as int] == more@[i as int]@);
        }
        i = i + 1;
    }
    proof {
        assert(mv.take(n as int) =~= mv);
    }
    cur
}

/// The tags of `ts` that are not listed in `rem`, in their old order.
pub open spec fn without_tags(ts: Seq<Seq<char>>, rem: Seq<Seq<char>>) -> Seq<Seq<char>>
    decreases ts.len(),
{
    if ts.len() == 0 {
        Seq::empty()
    } else {
        let rest = without_tags(ts.drop_first(), rem);
        if rem.contains(ts[0]) {
            rest
        } else {
            seq![ts[0]] + rest
        }
    }
}

proof fn lemma_without_push(ts: Seq<Seq<char>>, rem: Seq<Seq<char>>, x: Seq<char>)
    ensures
        without_tags(ts.push(x), rem) == without_tags(ts, rem) + (if rem.contains(x) {
            Seq::<Seq<char>>::empty()
        } else {
            seq![x]
        }),
    decreases ts.len(),
{
    if ts.len() == 0 {
        assert(ts.push(x).drop_first() =~= Seq::<Seq<char>>::empty());
        assert(without_tags(Seq::<Seq<char>>::empty(), rem) == Seq::<Seq<char>>::empty());
        assert(ts.push(x)[0] == x);
        assert(without_tags(ts.push(x), rem) =~= without_tags(ts, rem) + (if rem.contains(x) {
            Seq::<Seq<char>>::empty()
        } else {
            seq![x]
        }));
    } else {
        assert(ts.push(x).drop_first() =~= ts.drop_first().push(x));
        lemma_without_push(ts.drop_first(), rem, x);
        assert(ts.push(x)[0] == ts[0]);
        assert(without_tags(ts.push(x), rem) =~= without_tags(ts, rem) + (if rem.contains(x) {
            Seq::<Seq<char>>::empty()
        } else {
            seq![x]
        }));
    }
}

/// The canonical tag list after removing `rem` from `old_tags`: what is
/// left, deduplicated and sorted.
pub open spec fn tag_removal_spec(old_tags: Seq<Seq<char>>, rem: Seq<Seq<char>>) -> Seq<
    Seq<char>,
> {
    add_all(Seq::empty(), without_tags(old_tags, rem))
}

/// Removing tags that a note does not carry leaves its tag set as it
/// was: only the canonical (sorted, deduplicated) form of the old list
/// remains.
pub proof fn lemma_remove_absent_tags(old_tags: Seq<Seq<char>>, rem: Seq<Seq<char>>)
    requires
        forall|i: int| 0 <= i < old_tags.len() ==> !rem.contains(#[trigger] old_tags[i]),
    ensures
        tag_removal_spec(old_tags, rem) == add_all(Seq::empty(), old_tags),
        forall|y: Seq<char>|
            #[trigger] tag_removal_spec(old_tags, rem).contains(y) <==> old_tags.contains(y),
{
    lemma_without_id(old_tags, rem);
    lemma_add_all_set(Seq::empty(), old_tags);
    assert(forall|y: Seq<char>| !Seq::<Seq<char>>::empty().contains(y));
}

proof fn lemma_without_id(ts: Seq<Seq<char>>, rem: Seq<Seq<char>>)
    requires
        forall|i: int| 0 <= i < ts.len() ==> !rem.contains(#[trigger] ts[i]),
    ensures
        without_tags(ts, rem) == ts,
    decreases ts.len(),
{
    if ts.len() > 0 {
        assert forall|i: int|
            0 <= i < ts.drop_first().len() implies !rem.contains(
            #[trigger] ts.drop_first()[i]) by {
            assert(ts.drop_first()[i] == ts[i + 1]);
        }
        lemma_without_id(ts.drop_first(), rem);
        assert(seq![ts[0]] + ts.drop_first() =~= ts);
    }
}

/// Adds tags to a note file's text: the note's tag list becomes the
/// union of its old tags and the given ones, deduplicated and sorted.
/// A file that does not parse is left alone and its error returned.
pub fn add_tags(content: &str, tags: &Vec<String>) -> (r: Result<String, ParseError>)
    requires
        forall|i: int| 0 <= i < tags@.len() ==> line_safe((#[trigger] tags@[i])@),
    ensures
        parse_spec(content@) matches Err(e) ==> r == Result::Err::<String, ParseError>(e),
        parse_spec(content@) matches Ok(p) ==> r matches Ok(out) && out@ == serialize_spec(
            MetaView { tags: tag_union_spec(p.0.tags, tag_views(tags@)), ..p.0 },
            p.1,
        ),
{
    match parse(content) {
        Err(e) => Err(e),
        Ok((m, body)) => {
            let ghost old_meta = m@;
            let empty: Vec<String> = Vec::new();
            proof {
                assert(tag_views(empty@) =~= Seq::<Seq<char>>::empty());
            }
            let base = insert_all(empty, &m.tags);
            let merged = insert_all(base, tags);
            proof {
                lemma_add_all_set(Seq::empty(), old_meta.tags);
                lemma_add_all_set(add_all(Seq::empty(), old_meta.tags), tag_views(tags@));
                assert(forall|y: Seq<char>| !Seq::<Seq<char>>::empty().contains(y));
            }
            let mut m2 = m;
            m2.tags = merged;
            proof {
                assert forall|i: int|
                    0 <= i < m2@.tags.len() implies line_safe(#[trigger] m2@.tags[i]) by {
                    let y = m2@.tags[i];
                    assert(tag_union_spec(old_meta.tags, tag_views(tags@)).contains(y));
                    if old_meta.tags.contains(y) {
                        let k = choose|k: int|
                            0 <= k < old_meta.tags.len() && old_meta.tags[k] == y;
                        assert(line_safe(old_meta.tags[k]));
                    } else {
                        assert(tag_views(tags@).contains(y));
                        let k = choose|k: int|
                            0 <= k < tag_views(tags@).len() && tag_views(tags@)[k] == y;
                        assert(tag_views(tags@)[k] == tags@[k]@);
                        assert(line_safe(tags@[k]@));
                    }
                }
                assert(m2@ == MetaView {
                    tags: tag_union_spec(old_meta.tags, tag_views(tags@)),
                    ..old_meta
                });
            }
            Ok(serialize(&m2, body.as_str()))
        },
    }
}

/// Removes tags from a note file's text: the listed tags leave the
/// note's tag list, and what remains is deduplicated and sorted.  A
/// file that does not parse is left alone and its error returned.
pub fn remove_tags(content: &str, tags: &Vec<String>) -> (r: Result<String, ParseError>)
    ensures
        parse_spec(content@) matches Err(e) ==> r == Result::Err::<String, ParseError>(e),
        parse_spec(content@) matches Ok(p) ==> r matches Ok(out) && out@ == serialize_spec(
            MetaView { tags: tag_removal_spec(p.0.tags, tag_views(tags@)), ..p.0 },
            p.1,
        ),
{
    match parse(content) {
        Err(e) => Err(e),
        Ok((m, body)) => {
            let ghost old_meta = m@;
            let ghost rem = tag_views(tags@);
            let mut kept: Vec<String> = Vec::new();
            let n = m.tags.len();
            let mut i: usize = 0;
            proof {
                assert(old_meta.tags.take(0) =~= Seq::<Seq<char>>::empty());
                assert(tag_views(kept@) =~= without_tags(old_meta.tags.take(0), rem));
            }
            while i < n
                invariant
                    0 <= i <= n,
                    n == m.tags@.len(),
                    old_meta == m@,
                    rem == tag_views(tags@),
                    tag_views(kept@) == without_tags(old_meta.tags.take(i as int), rem),
                decreases n - i,
            {
                proof {
                    assert(old_meta.tags.take(i as int + 1) =~= old_meta.tags.take(
                        i as int,
                    ).push(old_meta.tags[i as int]));
                    lemma_without_push(old_meta.tags.take(i as int), rem, old_meta.tags[i as int]);
                    assert(old_meta.tags[i as int] == m.tags@[i as int]@);
                }
                if !contains_tag(tags, &m.tags[i]) {
                    kept.push(crate::metadata::clone_string(&m.tags[i]));
                    proof {
                        assert(tag_views(kept@) =~= without_tags(
                            old_meta.tags.take(i as int),
                            rem,
                        ) + seq![old_meta.tags[i as int]]);
                    }
                }
                i = i + 1;
            }
            proof {
                assert(old_meta.tags.take(n as int) =~= old_meta.tags);
            }
            let empty: Vec<String> = Vec::new();
            proof {
                assert(tag_views(empty@) =~= Seq::<Seq<char>>::empty());
            }
            let sorted = insert_all(empty, &kept);
            let mut m2 = m;
            m2.tags = sorted;
            proof {
                lemma_add_all_set(Seq::empty(), without_tags(old_meta.tags, rem));
                assert(forall|y: Seq<char>| !Seq::<Seq<char>>::empty().contains(y));
                assert forall|i2: int|
                    0 <= i2 < m2@.tags.len() implies line_safe(#[trigger] m2@.tags[i2]) by {
                    let y = m2@.tags[i2];
                    assert(tag_removal_spec(old_meta.tags, rem).contains(y));
                    assert(without_tags(old_meta.tags, rem).contains(y));
                    lemma_without_subset(old_meta.tags, rem, y);
                    let k = choose|k: int|
                        0 <= k < old_meta.tags.len() && old_meta.tags[k] == y;
                    assert(line_safe(old_meta.tags[k]));
                }
                assert(m2@ == MetaView {
                    tags: tag_removal_spec(old_meta.tags, rem),
                    ..old_meta
                });
            }
            Ok(serialize(&m2, body.as_str()))
        },
    }
}

/// Whatever remains after a removal was a tag before it.
proof fn lemma_without_subset(ts: Seq<Seq<char>>, rem: Seq<Seq<char>>, y: Seq<char>)
    requires
        without_tags(ts, rem).contains(y),
    ensures
        ts.contains(y),
    decreases ts.len(),
{
    if ts.len() > 0 {
        let rest = without_tags(ts.drop_first(), rem);
        if rem.contains(ts[0]) {
            lemma_without_subset(ts.drop_first(), rem, y);
            let k = choose|k: int| 0 <= k < ts.drop_first().len() && ts.drop_first()[k] == y;
            assert(ts[k + 1] == y);
        } else {
            let r = seq![ts[0]] + rest;
            let k = choose|k: int| 0 <= k < r.len() && r[k] == y;
            if k == 0 {
                assert(ts[0] == y);
            } else {
                assert(rest[k - 1] == y);
                lemma_without_subset(ts.drop_first(), rem, y);
                let k2 = choose|k2: int|
                    0 <= k2 < ts.drop_first().len() && ts.drop_first()[k2] == y;
                assert(ts[k2 + 1] == y);
            }
        }
    }
}

/// What every note of a collection is tagged with, accumulated in order.
pub open spec fn all_tags_from(cs: Seq<Seq<char>>, acc: Seq<Seq<char>>) -> Seq<Seq<char>>
    decreases cs.len(),
{
    if cs.len() == 0 {
        acc
    } else {
        all_tags_from(cs.drop_first(), add_all(acc, note_tags_of(cs[0])))
    }
}

/// The tags a file contributes: its parsed tag list, or none when it
/// does not parse.
pub open spec fn note_tags_of(c: Seq<char>) -> Seq<Seq<char>> {
    match parse_spec(c) {
        Result::Ok(p) => p.0.tags,
        Result::Err(_) => Seq::empty(),
    }
}

/// Every tag of every readable note among `contents`, deduplicated and
/// sorted.
pub fn list_all_tags(contents: &Vec<String>) -> (r: Vec<String>)
    ensures
        tag_views(r@) == all_tags_from(contents@.map_values(|s: String| s@), Seq::empty()),
{
    let ghost cs = contents@.map_values(|s: String| s@);
    let mut acc: Vec<String> = Vec::new();
    proof {
        assert(tag_views(acc@) =~= Seq::<Seq<char>>::empty());
        assert(cs.skip(0) =~= cs);
    }
    let n = contents.len();
    let mut i: usize = 0;
    while i < n
        invariant
            0 <= i <= n,
            n == contents@.len(),
            cs == contents@.map_values(|s: String| s@),
            all_tags_from(cs, Seq::empty()) == all_tags_from(
                cs.skip(i as int),
                tag_views(acc@),
            ),
        decreases n - i,
    {
        proof {
            assert(cs.skip(i as int)[0] == cs[i as int]);
            assert(cs[i as int] == contents@[i as int]@);
            assert(cs.skip(i as int).drop_first() =~= cs.skip(i as int + 1));
        }
        match parse(contents[i].as_str()) {
            Ok((m, _body)) => {
                acc = insert_all(acc, &m.tags);
            },
            Err(_) => {
                proof {
                    assert(note_tags_of(cs[i as int]) =~= Seq::<Seq<char>>::empty());
                    assert(add_all(tag_views(acc@), note_tags_of(cs[i as int])) == tag_views(
                        acc@,
                    ));
                }
            },
        }
        i = i + 1;
    }
    proof {
        assert(cs.skip(n as int) =~= Seq::<Seq<char>>::empty());
    }
    acc
}

} // verus!

//! Character-level text helpers.
//!
//! The codec and the search patterns work on `Vec<char>` buffers whose
//! views are `Seq<char>`, the same view `str` and `String` carry; these
//! helpers convert between the two and scan for characters.

use vstd::prelude::*;
use vstd::string::*;

verus! {

/// Relies on String::push: appends the given character to the end of the
/// string.
#[verifier::external_body]
pub fn push_char(s: &mut String, c: char)
    ensures
        final(s)@ == old(s)@.push(c),
{
    s.push(c);
}

/// The characters of a string slice as a vector.
pub fn chars_of_str(s: &str) -> (r: Vec<char>)
    ensures
        r@ == s@,
{
    let n = s.unicode_len();
    let mut v: Vec<char> = Vec::new();
    let mut i: usize = 0;
    while i < n
        invariant
            0 <= i <= n,
            n == s@.len(),
            v@ == s@.subrange(0, i as int),
        decreases n - i,
    {
        v.push(s.get_char(i));
        proof {
            assert(v@ =~= s@.subrange(0, i as int + 1));
        }
        i = i + 1;
    }
    proof {
        assert(v@ =~= s@);
    }
    v
}

/// A range of a character buffer as a fresh `String`.
pub fn string_from_range(v: &Vec<char>, a: usize, b: usize) -> (r: String)
    requires
        a <= b <= v@.len(),
    ensures
        r@ == v@.subrange(a as int, b as int),
{
    let mut s = String::new();
    let mut i: usize = a;
    while i < b
        invariant
            a <= i <= b <= v@.len(),
            s@ == v@.subrange(a as int, i as int),
        decreases b - i,
    {
        push_char(&mut s, v[i]);
        proof {
            assert(s@ =~= v@.subrange(a as int, i as int + 1));
        }
        i = i + 1;
    }
    s
}

/// The whole character buffer as a fresh `String`.
pub fn string_of_chars(v: &Vec<char>) -> (r: String)
    ensures
        r@ == v@,
{
    let n = v.len();
    let r = string_from_range(v, 0, n);
    proof {
        assert(v@.subrange(0, n as int) =~= v@);
    }
    r
}

/// Appends the characters of a string slice to a buffer.
pub fn push_lit(v: &mut Vec<char>, s: &str)
    ensures
        final(v)@ == old(v)@ + s@,
{
    let n = s.unicode_len();
    let mut i: usize = 0;
    while i < n
        invariant
            0 <= i <= n,
            n == s@.len(),
            v@ == old(v)@ + s@.subrange(0, i as int),
        decreases n - i,
    {
        v.push(s.get_char(i));
        proof {
            assert(v@ =~= old(v)@ + s@.subrange(0, i as int + 1));
        }
        i = i + 1;
    }
    proof {
        assert(v@ =~= old(v)@ + s@);
    }
}

/// Appends an owned string's characters to a buffer.
pub fn push_string(v: &mut Vec<char>, s: &String)
    ensures
        final(v)@ == old(v)@ + s@,
{
    push_lit(v, s.as_str());
}

/// `key` occurs in `s` starting at position `i`.
pub open spec fn starts_with(s: Seq<char>, i: int, key: Seq<char>) -> bool {
    0 <= i && i + key.len() <= s.len() && s.subrange(i, i + key.len()) == key
}

/// Whether the literal `key` occurs in `v` at position `i`.
pub fn match_lit(v: &Vec<char>, i: usize, key: &str) -> (r: bool)
    ensures
        r == starts_with(v@, i as int, key@),
{
    let n = v.len();
    let kn = key.unicode_len();
    if i > n || kn > n - i {
        return false;
    }
    let mut j: usize = 0;
    while j < kn
        invariant
            0 <= j <= kn,
            kn == key@.len(),
            i + kn <= n == v@.len(),
            forall|k: int| 0 <= k < j ==> v@[i + k] == key@[k],
        decreases kn - j,
    {
        if v[i + j] != key.get_char(j) {
            proof {
                assert(v@.subrange(i as int, i as int + kn as int)[j as int] != key@[j as int]);
            }
            return false;
        }
        j = j + 1;
    }
    proof {
        assert(v@.subrange(i as int, i as int + kn as int) =~= key@);
    }
    true
}

/// The position of the first `'\n'` at or after `i`.
pub open spec fn find_nl(s: Seq<char>, i: int) -> Option<int>
    decreases s.len() - i,
    when 0 <= i <= s.len()
{
    if i >= s.len() {
        None
    } else if s[i] == '\n' {
        Some(i)
    } else {
        find_nl(s, i + 1)
    }
}

/// What `find_nl` says of its result.
pub proof fn lemma_find_nl_props(s: Seq<char>, i: int)
    requires
        0 <= i <= s.len(),
    ensures
        find_nl(s, i) matches Some(k) ==> i <= k < s.len() && s[k] == '\n' && (forall|j: int|
            i <= j < k ==> s[j] != '\n'),
        find_nl(s, i) is None ==> forall|j: int| i <= j < s.len() ==> s[j] != '\n',
    decreases s.len() - i,
{
    if i < s.len() && s[i] != '\n' {
        lemma_find_nl_props(s, i + 1);
    }
}

/// A known newline with none before it settles `find_nl`.
pub proof fn lemma_find_nl_at(s: Seq<char>, i: int, k: int)
    requires
        0 <= i <= k < s.len(),
        s[k] == '\n',
        forall|j: int| i <= j < k ==> s[j] != '\n',
    ensures
        find_nl(s, i) == Some(k),
    decreases k - i,
{
    if i < k {
        lemma_find_nl_at(s, i + 1, k);
    }
}

/// Scans `v` for the first `'\n'` at or after `i`.
pub fn scan_nl(v: &Vec<char>, i: usize) -> (r: Option<usize>)
    requires
        i <= v@.len(),
    ensures
        match r {
            Some(k) => find_nl(v@, i as int) == Some(k as int),
            None => find_nl(v@, i as int) is None,
        },
{
    let n = v.len();
    let mut j: usize = i;
    while j < n
        invariant
            i <= j <= n == v@.len(),
            find_nl(v@, i as int) == find_nl(v@, j as int),
        decreases n - j,
    {
        if v[j] == '\n' {
            return Some(j);
        }
        j = j + 1;
    }
    None
}

} // verus!

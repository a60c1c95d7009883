//! Search patterns: a compiled matcher for note titles and bodies.
//!
//! A pattern is either a case-insensitive literal, matched by a verified
//! scan over the lowercased text, or a regular expression, matched by the
//! regex engine behind trusted wrappers.  A query without a backslash is
//! taken as glob-like convenience syntax and rewritten into regex syntax.

use vstd::prelude::*;
use crate::text::{chars_of_str, string_of_chars};

verus! {

/// What `str::to_lowercase` returns: a function of the characters alone.
pub uninterp spec fn lower_of(s: Seq<char>) -> Seq<char>;

/// Whether the regex engine accepts a pattern: a function of the pattern
/// alone.
pub uninterp spec fn regex_ok(pat: Seq<char>) -> bool;

/// The successive non-overlapping leftmost match spans (byte offsets)
/// that the regex engine reports for a pattern on a text.
pub uninterp spec fn regex_spans_of(pat: Seq<char>, text: Seq<char>) -> Seq<(usize, usize)>;

/// Spans in reading order: each runs forward, and none overlaps the next.
pub open spec fn spans_ordered(s: Seq<(usize, usize)>) -> bool {
    &&& forall|i: int| 0 <= i < s.len() ==> (#[trigger] s[i]).0 <= s[i].1
    &&& forall|i: int| 0 <= i < s.len() - 1 ==> (#[trigger] s[i]).1 <= s[i + 1].0
}

/// Relies on str::to_lowercase: the result depends on the characters
/// alone.
#[verifier::external_body]
fn lowercase(s: &str) -> (r: String)
    ensures
        r@ == lower_of(s@),
{
    s.to_lowercase()
}

/// Relies on regex::Regex::new: whether a pattern compiles depends on
/// the pattern alone; on failure the engine's message is returned.
#[verifier::external_body]
fn regex_compile_check(pat: &str) -> (r: Result<(), String>)
    ensures
        r is Ok <==> regex_ok(pat@),
{
    match regex::Regex::new(pat) {
        Ok(_) => Ok(()),
        Err(e) => Err(e.to_string()),
    }
}

/// Relies on regex::Regex::new and Regex::find_iter: the successive
/// non-overlapping matches of a pattern on a text, earliest first, as
/// byte spans; they depend on the pattern and the text alone.
#[verifier::external_body]
fn regex_find_all(pat: &str, text: &str) -> (r: Vec<(usize, usize)>)
    requires
        regex_ok(pat@),
    ensures
        r@ == regex_spans_of(pat@, text@),
        spans_ordered(r@),
{
    match regex::Regex::new(pat) {
        Ok(re) => re.find_iter(text).map(|m| (m.start(), m.end())).collect(),
        Err(_) => Vec::new(),
    }
}

/// The regex text standing for a single query character: `*` and `?`
/// become `.*` and `.`, every other metacharacter is escaped.
pub open spec fn char_escape(c: char) -> Seq<char> {
    if c == '*' {
        seq!['.', '*']
    } else if c == '?' {
        seq!['.']
    } else if c == '.' || c == '+' || c == '(' || c == ')' || c == '[' || c == ']' || c == '{'
        || c == '}' || c == '^' || c == '$' || c == '|' {
        seq!['\\', c]
    } else {
        seq![c]
    }
}

/// The glob-like rewriting of a whole query.
pub open spec fn glob_escape(s: Seq<char>) -> Seq<char>
    decreases s.len(),
{
    if s.len() == 0 {
        Seq::empty()
    } else {
        char_escape(s[0]) + glob_escape(s.drop_first())
    }
}

pub open spec fn has_backslash(s: Seq<char>) -> bool {
    exists|i: int| 0 <= i < s.len() && s[i] == '\\'
}

/// The regex source a query compiles to: left alone when the user wrote
/// a backslash, the glob-like rewriting otherwise.
pub open spec fn query_source(q: Seq<char>) -> Seq<char> {
    if has_backslash(q) {
        q
    } else {
        glob_escape(q)
    }
}

proof fn lemma_glob_escape_push(s: Seq<char>, c: char)
    ensures
        glob_escape(s.push(c)) == glob_escape(s) + char_escape(c),
    decreases s.len(),
{
    if s.len() == 0 {
        assert(s.push(c).drop_first() =~= Seq::<char>::empty());
        assert(glob_escape(Seq::<char>::empty()) == Seq::<char>::empty());
        assert(s.push(c)[0] == c);
        assert(glob_escape(s.push(c)) =~= glob_escape(s) + char_escape(c));
    } else {
        assert(s.push(c).drop_first() =~= s.drop_first().push(c));
        lemma_glob_escape_push(s.drop_first(), c);
        assert(s.push(c)[0] == s[0]);
        assert(glob_escape(s.push(c)) =~= glob_escape(s) + char_escape(c));
    }
}

/// Rewrites a backslash-free query in regex syntax.
fn glob_rewrite(q: &Vec<char>) -> (r: Vec<char>)
    ensures
        r@ == glob_escape(q@),
{
    let n = q.len();
    let mut r: Vec<char> = Vec::new();
    let mut i: usize = 0;
    while i < n
        invariant
            0 <= i <= n,
            n == q@.len(),
            r@ == glob_escape(q@.take(i as int)),
        decreases n - i,
    {
        let c = q[i];
        if c == '*' {
            r.push('.');
            r.push('*');
        } else if c == '?' {
            r.push('.');
        } else if c == '.' || c == '+' || c == '(' || c == ')' || c == '[' || c == ']' || c == '{'
            || c == '}' || c == '^' || c == '$' || c == '|' {
            r.push('\\');
            r.push(c);
        } else {
            r.push(c);
        }
        proof {
            assert(q@.take(i as int + 1) =~= q@.take(i as int).push(q@[i as int]));
            lemma_glob_escape_push(q@.take(i as int), q@[i as int]);
            assert(r@ =~= glob_escape(q@.take(i as int)) + char_escape(q@[i as int]));
        }
        i = i + 1;
    }
    proof {
        assert(q@.take(n as int) =~= q@);
    }
    r
}

fn contains_backslash(q: &Vec<char>) -> (r: bool)
    ensures
        r == has_backslash(q@),
{
    let n = q.len();
    let mut i: usize = 0;
    while i < n
        invariant
            0 <= i <= n,
            n == q@.len(),
            forall|j: int| 0 <= j < i ==> q@[j] != '\\',
        decreases n - i,
    {
        if q[i] == '\\' {
            return true;
        }
        i = i + 1;
    }
    false
}

/// A query failed to compile as a regular expression; the engine's
/// message is carried along.
#[derive(Debug)]
pub enum PatternError {
    InvalidPattern(String),
}

/// A compiled search matcher: a case-insensitive literal, or the source
/// text of a checked regular expression.
#[derive(Debug)]
pub enum SearchPattern {
    Plain(String),
    Regex(String),
}

impl SearchPattern {
    /// A regex variant only carries sources the engine accepts.
    pub open spec fn wf(self) -> bool {
        match self {
            SearchPattern::Plain(_) => true,
            SearchPattern::Regex(p) => regex_ok(p@),
        }
    }

    /// The match spans this pattern finds in a text: for a literal, the
    /// leftmost non-overlapping occurrences of the lowercased query in
    /// the lowercased text (character offsets); for a regex, the
    /// engine's match spans (byte offsets).
    pub open spec fn spans_of(self, text: Seq<char>) -> Seq<(usize, usize)> {
        match self {
            SearchPattern::Plain(q) => occurrences(lower_of(q@), lower_of(text), 0),
            SearchPattern::Regex(q) => regex_spans_of(q@, text),
        }
    }

    /// Whether this pattern matches a text at all.
    pub open spec fn spec_matches(self, text: Seq<char>) -> bool {
        self.spans_of(text).len() > 0
    }

    /// Compiles a query: a case-insensitive literal, or, with
    /// `use_regex`, a regular expression after the glob-like
    /// rewriting.  Fails exactly when the regex engine rejects the
    /// rewritten query.
    pub fn new(pattern: String, use_regex: bool) -> (r: Result<SearchPattern, PatternError>)
        ensures
            use_regex ==> (r is Ok <==> regex_ok(query_source(pattern@))),
            !use_regex ==> r == Result::Ok::<SearchPattern, PatternError>(
                SearchPattern::Plain(pattern),
            ),
            r matches Ok(p) ==> p.wf(),
            (use_regex && r matches Ok(p)) ==> (r->Ok_0 matches SearchPattern::Regex(src) && src@
                == query_source(pattern@)),
            r matches Err(e) ==> use_regex && !regex_ok(query_source(pattern@)) && (e matches
                PatternError::InvalidPattern(m)),
    {
        if !use_regex {
            return Ok(SearchPattern::Plain(pattern));
        }
        let chars = chars_of_str(pattern.as_str());
        let source = if contains_backslash(&chars) {
            pattern
        } else {
            let t = glob_rewrite(&chars);
            string_of_chars(&t)
        };
        match regex_compile_check(source.as_str()) {
            Ok(_) => Ok(SearchPattern::Regex(source)),
            Err(msg) => Err(PatternError::InvalidPattern(msg)),
        }
    }

    /// All match spans of this pattern in `text`, in reading order.
    pub fn find_matches(&self, text: &str) -> (r: Vec<(usize, usize)>)
        requires
            self.wf(),
        ensures
            r@ == self.spans_of(text@),
    {
        match self {
            SearchPattern::Plain(q) => {
                let lq = lowercase(q.as_str());
                let lt = lowercase(text);
                let qv = chars_of_str(lq.as_str());
                let tv = chars_of_str(lt.as_str());
                scan_occurrences(&qv, &tv)
            },
            SearchPattern::Regex(q) => regex_find_all(q.as_str(), text),
        }
    }
}

/// The leftmost non-overlapping occurrences of `pat` in `text` from
/// position `i` on, as (start, end) character offsets.  An empty pattern
/// matches at every position.
pub open spec fn occurrences(pat: Seq<char>, text: Seq<char>, i: int) -> Seq<(usize, usize)>
    decreases text.len() + 1 - i,
    when 0 <= i
{
    if i + pat.len() > text.len() {
        Seq::empty()
    } else if text.subrange(i, i + pat.len()) == pat {
        seq![(i as usize, (i + pat.len()) as usize)] + occurrences(
            pat,
            text,
            i + if pat.len() == 0 {
                1
            } else {
                pat.len() as int
            },
        )
    } else {
        occurrences(pat, text, i + 1)
    }
}

/// Whether `pat` occurs in `text` at position `i`.
fn match_chars(text: &Vec<char>, i: usize, pat: &Vec<char>) -> (r: bool)
    requires
        i + pat@.len() <= text@.len(),
    ensures
        r == (text@.subrange(i as int, i as int + pat@.len()) == pat@),
{
    let n = text.len();
    let plen = pat.len();
    let mut j: usize = 0;
    while j < plen
        invariant
            0 <= j <= plen,
            plen == pat@.len(),
            i + plen <= n == text@.len(),
            forall|k: int| 0 <= k < j ==> text@[i + k] == pat@[k],
        decreases plen - j,
    {
        if text[i + j] != pat[j] {
            proof {
                assert(text@.subrange(i as int, i as int + plen as int)[j as int] != pat@[
                j as int]);
            }
            return false;
        }
        j = j + 1;
    }
    proof {
        assert(text@.subrange(i as int, i as int + plen as int) =~= pat@);
    }
    true
}

/// Scans `text` for every non-overlapping occurrence of `pat`.
fn scan_occurrences(pat: &Vec<char>, text: &Vec<char>) -> (r: Vec<(usize, usize)>)
    ensures
        r@ == occurrences(pat@, text@, 0),
{
    let n = text.len();
    let plen = pat.len();
    let mut acc: Vec<(usize, usize)> = Vec::new();
    let mut i: usize = 0;
    loop
        invariant_except_break
            occurrences(pat@, text@, 0) =~= acc@ + occurrences(pat@, text@, i as int),
        invariant
            0 <= i <= n + 1,
            plen == pat@.len(),
            n == text@.len(),
        ensures
            occurrences(pat@, text@, 0) =~= acc@,
        decreases n + 1 - i,
    {
        if i > n || plen > n - i {
            proof {
                assert(occurrences(pat@, text@, i as int) =~= Seq::<(usize, usize)>::empty());
                assert(acc@ + Seq::<(usize, usize)>::empty() =~= acc@);
            }
            break;
        }
        if match_chars(text, i, pat) {
            acc.push((i, i + plen));
            proof {
                assert(occurrences(pat@, text@, i as int) =~= seq![
                    (i, (i + plen) as usize),
                ] + occurrences(
                    pat@,
                    text@,
                    i as int + if pat@.len() == 0 {
                        1int
                    } else {
                        pat@.len() as int
                    },
                ));
            }
            if plen == 0 {
                if i == n {
                    proof {
                        assert(occurrences(pat@, text@, i as int + 1) =~= Seq::<(
                            usize,
                            usize,
                        )>::empty());
                        assert(occurrences(pat@, text@, 0) =~= acc@);
                    }
                    break;
                }
                i = i + 1;
            } else {
                i = i + plen;
            }
            proof {
                assert(occurrences(pat@, text@, 0) =~= acc@ + occurrences(pat@, text@, i as int));
            }
        } else {
            proof {
                if pat@.len() == 0 {
                    assert(text@.subrange(i as int, i as int) =~= pat@);
                }
            }
            i = i + 1;
        }
    }
    acc
}

} // verus!

//! Configuration values and the pure parts of note creation.
//!
//! Loading and saving the configuration file, and finding it on disk,
//! are the surrounding application's concern; this module holds the
//! values, the key/value update rule, and the filename a new note gets.

use vstd::prelude::*;
use crate::text::{chars_of_str, string_of_chars};

verus! {

/// The user's settings: where notes live, how new note files are named,
/// which template new notes use, and the note last worked on.
#[derive(Debug)]
pub struct Config {
    pub notes_dir: String,
    pub filename_template: String,
    pub default_template: String,
    pub active_note: Option<String>,
}

/// Why a configuration update failed.
#[derive(Debug)]
pub enum ConfigError {
    Message(String),
}

/// The name of the template used when none is asked for.
pub fn default_template_name() -> (r: String)
    ensures
        r@ == "default"@,
{
    let v = chars_of_str("default");
    string_of_chars(&v)
}

/// Whether two string slices hold the same characters.
pub fn str_eq(a: &str, b: &str) -> (r: bool)
    ensures
        r == (a@ == b@),
{
    let av = chars_of_str(a);
    let bv = chars_of_str(b);
    let an = av.len();
    let bn = bv.len();
    if an != bn {
        proof {
            assert(a@.len() != b@.len());
        }
        return false;
    }
    let mut i: usize = 0;
    while i < an
        invariant
            0 <= i <= an,
            an == a@.len() == b@.len(),
            av@ == a@,
            bv@ == b@,
            forall|k: int| 0 <= k < i ==> a@[k] == b@[k],
        decreases an - i,
    {
        if av[i] != bv[i] {
            return false;
        }
        i = i + 1;
    }
    proof {
        assert(a@ =~= b@);
    }
    true
}

impl Default for Config {
    /// The settings a fresh knowledge base starts with.
    fn default() -> (c: Config)
        ensures
            c.notes_dir@ == "notes"@,
            c.filename_template@ == "{timestamp}-{title}"@,
            c.default_template@ == "default"@,
            c.active_note is None,
    {
        let nd = chars_of_str("notes");
        let ft = chars_of_str("{timestamp}-{title}");
        Config {
            notes_dir: string_of_chars(&nd),
            filename_template: string_of_chars(&ft),
            default_template: default_template_name(),
            active_note: None,
        }
    }
}

impl Config {
    /// Updates one settable key.  Only `notes_dir` and
    /// `filename_template` may be set; any other key is rejected and
    /// nothing changes.
    pub fn set(&mut self, key: &str, value: &str) -> (r: Result<(), ConfigError>)
        ensures
            key@ == "notes_dir"@ ==> r is Ok && final(self).notes_dir@ == value@
                && final(self).filename_template == old(self).filename_template,
            key@ == "filename_template"@ ==> r is Ok && final(self).filename_template@ == value@
                && final(self).notes_dir == old(self).notes_dir,
            key@ != "notes_dir"@ && key@ != "filename_template"@ ==> (r matches Err(e) && (
            e matches ConfigError::Message(m)) && *final(self) == *old(self)),
            final(self).default_template == old(self).default_template,
            final(self).active_note == old(self).active_note,
    {
        proof {
            reveal_strlit("notes_dir");
            reveal_strlit("filename_template");
        }
        let vc = chars_of_str(value);
        if str_eq(key, "notes_dir") {
            self.notes_dir = string_of_chars(&vc);
            proof {
                // the two settable keys differ already in length
                assert("notes_dir"@.len() == 9);
                assert("filename_template"@.len() == 17);
            }
            Ok(())
        } else if str_eq(key, "filename_template") {
            self.filename_template = string_of_chars(&vc);
            Ok(())
        } else {
            let mut msg = chars_of_str("unknown configuration key: ");
            crate::text::push_lit(&mut msg, key);
            Err(ConfigError::Message(string_of_chars(&msg)))
        }
    }

    /// The directory templates are kept in, relative to the base
    /// directory.
    pub fn templates_dir(&self) -> (r: String)
        ensures
            r@ == "_templates"@,
    {
        let v = chars_of_str("_templates");
        string_of_chars(&v)
    }

    /// The note last worked on, if one was recorded.
    pub fn get_active_note(&self) -> (r: Option<&String>)
        ensures
            match r {
                Some(s) => self.active_note matches Some(a) && s@ == a@,
                None => self.active_note is None,
            },
    {
        match &self.active_note {
            Some(s) => Some(s),
            None => None,
        }
    }

    /// Records the note last worked on.
    pub fn set_active_note(&mut self, id: &str)
        ensures
            final(self).active_note matches Some(s) && s@ == id@,
            final(self).notes_dir == old(self).notes_dir,
            final(self).filename_template == old(self).filename_template,
            final(self).default_template == old(self).default_template,
    {
        let v = chars_of_str(id);
        self.active_note = Some(string_of_chars(&v));
    }
}

/// Every occurrence of `pat` in `s` replaced by `rep`, scanning left to
/// right without revisiting replacements.
pub open spec fn replace_spec(s: Seq<char>, pat: Seq<char>, rep: Seq<char>) -> Seq<char>
    decreases s.len(),
    when pat.len() > 0
{
    if s.len() < pat.len() {
        s
    } else if s.subrange(0, pat.len() as int) == pat {
        rep + replace_spec(s.skip(pat.len() as int), pat, rep)
    } else {
        seq![s[0]] + replace_spec(s.drop_first(), pat, rep)
    }
}

/// Spaces turned into dashes.
pub open spec fn dashed(s: Seq<char>) -> Seq<char> {
    s.map_values(|c: char| if c == ' ' { '-' } else { c })
}

/// Replaces every occurrence of `pat` in `s` by `rep`.
fn replace_all(s: &Vec<char>, pat: &str, rep: &str) -> (r: Vec<char>)
    requires
        pat@.len() > 0,
    ensures
        r@ == replace_spec(s@, pat@, rep@),
{
    let pv = chars_of_str(pat);
    let n = s.len();
    let plen = pv.len();
    let mut acc: Vec<char> = Vec::new();
    let mut i: usize = 0;
    proof {
        assert(s@.skip(0) =~= s@);
    }
    while n - i >= plen
        invariant
            0 <= i <= n,
            n == s@.len(),
            plen == pat@.len(),
            plen > 0,
            pv@ == pat@,
            replace_spec(s@, pat@, rep@) == acc@ + replace_spec(s@.skip(i as int), pat@, rep@),
        decreases n - i,
    {
        proof {
            assert(s@.skip(i as int).len() == n - i);
        }
        if crate::text::match_lit(s, i, pat) {
            crate::text::push_lit(&mut acc, rep);
            proof {
                assert(s@.skip(i as int).subrange(0, plen as int) =~= s@.subrange(
                    i as int,
                    i as int + plen as int,
                ));
                assert(s@.skip(i as int).skip(plen as int) =~= s@.skip(i as int + plen as int));
            }
            i = i + plen;
        } else {
            acc.push(s[i]);
            proof {
                assert(s@.skip(i as int).subrange(0, plen as int) =~= s@.subrange(
                    i as int,
                    i as int + plen as int,
                ));
                assert(s@.skip(i as int)[0] == s@[i as int]);
                assert(s@.skip(i as int).drop_first() =~= s@.skip(i as int + 1));
                assert(acc@ =~= acc@);
            }
            i = i + 1;
        }
    }
    // the tail is shorter than the pattern and stays as it is
    let ghost acc_mid = acc@;
    let mut j: usize = i;
    while j < n
        invariant
            i <= j <= n,
            n == s@.len(),
            acc@ == acc_mid + s@.subrange(i as int, j as int),
        decreases n - j,
    {
        acc.push(s[j]);
        proof {
            assert(acc@ =~= acc_mid + s@.subrange(i as int, j as int + 1));
        }
        j = j + 1;
    }
    proof {
        assert(s@.skip(i as int).len() == n - i);
        assert(replace_spec(s@.skip(i as int), pat@, rep@) == s@.skip(i as int));
        assert(s@.subrange(i as int, n as int) =~= s@.skip(i as int));
        assert(acc@ =~= acc_mid + replace_spec(s@.skip(i as int), pat@, rep@));
    }
    acc
}

impl Config {
    /// The file name a new note gets: the filename template with its
    /// placeholders filled in, with spaces in the title dashed, and the
    /// markdown extension appended.
    pub fn note_filename(&self, timestamp: &str, title: &str) -> (r: String)
        ensures
            r@ == replace_spec(
                replace_spec(self.filename_template@, "{timestamp}"@, timestamp@),
                "{title}"@,
                dashed(title@),
            ) + ".md"@,
    {
        let tv = chars_of_str(title);
        let mut dash: Vec<char> = Vec::new();
        let tn = tv.len();
        let mut i: usize = 0;
        while i < tn
            invariant
                0 <= i <= tn,
                tn == title@.len(),
                tv@ == title@,
                dash@ == dashed(title@.take(i as int)),
            decreases tn - i,
        {
            if tv[i] == ' ' {
                dash.push('-');
            } else {
                dash.push(tv[i]);
            }
            proof {
                assert(dash@ =~= dashed(title@.take(i as int + 1)));
            }
            i = i + 1;
        }
        proof {
            assert(title@.take(tn as int) =~= title@);
        }
        let dash_str = string_of_chars(&dash);
        let fv = chars_of_str(self.filename_template.as_str());
        proof {
            reveal_strlit("{timestamp}");
            reveal_strlit("{title}");
        }
        let step1 = replace_all(&fv, "{timestamp}", timestamp);
        let step2 = replace_all(&step1, "{title}", dash_str.as_str());
        let mut out = step2;
        crate::text::push_lit(&mut out, ".md");
        string_of_chars(&out)
    }
}

} // verus!

//! The run configuration: the operation mode, raw override text, the
//! include and exclude pattern lists, and the working directory, with
//! the decision of which discovered files to process. Pattern matching
//! is done by the regular-expression engine behind trusted wrappers.

use crate::error::Error;
use crate::strutil::range_views;
use crate::strutil::spec_split_char;
use crate::strutil::split_char_ranges;
use crate::strutil::to_chars;
use vstd::prelude::*;

verus! {

/// What the run does with its results: report only, suggest rewrites,
/// or show a difference.
#[derive(Debug, Clone, Copy, PartialEq, Eq, Structural)]
pub enum Mode {
    Execute,
    Suggest,
    Diff,
}

/// Whether `pattern` is a valid regular expression.
pub uninterp spec fn regex_compiles(pattern: Seq<char>) -> bool;

/// Whether the regular expression `pattern` matches somewhere in
/// `text`; false wherever the pattern is invalid.
pub uninterp spec fn regex_accepts(pattern: Seq<char>, text: Seq<char>) -> bool;

/// Relies on regex::Regex::new: whether a pattern compiles depends on
/// the pattern text alone.
#[verifier::external_body]
fn regex_valid(pattern: &str) -> (r: bool)
    ensures
        r == regex_compiles(pattern@),
{
    regex::Regex::new(pattern).is_ok()
}

/// Relies on regex::Regex::new and regex::Regex::is_match: whether a
/// pattern matches a haystack is a function of the pattern text and the
/// haystack alone; an invalid pattern matches nothing.
#[verifier::external_body]
fn regex_match(pattern: &str, text: &str) -> (r: bool)
    ensures
        r == (regex_compiles(pattern@) && regex_accepts(pattern@, text@)),
{
    match regex::Regex::new(pattern) {
        Ok(re) => re.is_match(text),
        Err(_) => false,
    }
}

/// The run configuration, with already-validated pattern lists.
pub struct Config {
    pub operation_mode: Mode,
    pub overrides: Option<String>,
    pub included_files: Option<Vec<String>>,
    pub excluded_files: Option<Vec<String>>,
    pub working_directory: String,
}

/// Some pattern of the list is valid and matches `text`.
pub open spec fn some_pattern_matches(patterns: Option<Vec<String>>, text: Seq<char>) -> bool {
    patterns is Some && exists|i: int|
        0 <= i < patterns->Some_0@.len() && regex_compiles((#[trigger] patterns->Some_0@[i])@)
            && regex_accepts(patterns->Some_0@[i]@, text)
}

/// Splits a comma-separated pattern list and checks that every piece
/// compiles; an invalid piece rejects the whole list.
pub fn compile_patterns(list: &str) -> (r: Result<Vec<String>, Error>)
    ensures
        match r {
            Ok(ps) => ps.deep_view() == spec_split_char(list@, ',') && forall|i: int|
                0 <= i < ps@.len() ==> regex_compiles((#[trigger] ps.deep_view()[i])),
            Err(e) => e is CommaSeparated && exists|i: int|
                0 <= i < spec_split_char(list@, ',').len() && !regex_compiles(
                    #[trigger] spec_split_char(list@, ',')[i],
                ),
        },
{
    let chars = to_chars(list);
    let pieces = split_char_ranges(&chars, ',');
    let ghost pv = range_views(chars@, pieces@);
    let mut out: Vec<String> = Vec::new();
    let mut i: usize = 0;
    while i < pieces.len()
        invariant
            i <= pieces@.len(),
            chars@ == list@,
            pv == range_views(chars@, pieces@),
            pv == spec_split_char(list@, ','),
            forall|k: int| 0 <= k < pieces@.len() ==> #[trigger] pieces@[k].0 <= pieces@[k].1
                <= chars@.len(),
            out@.len() == i,
            forall|k: int| 0 <= k < i ==> (#[trigger] out@[k])@ == pv[k] && regex_compiles(pv[k]),
        decreases pieces@.len() - i,
    {
        proof {
            assert(pv[i as int] == chars@.subrange(
                pieces@[i as int].0 as int,
                pieces@[i as int].1 as int,
            ));
        }
        let piece = list.substring_char(pieces[i].0, pieces[i].1);
        if !regex_valid(piece) {
            return Err(Error::CommaSeparated("invalid pattern in list".to_owned()));
        }
        let owned = piece.to_owned();
        out.push(owned);
        proof {
            assert(out@[i as int]@ == pv[i as int]);
        }
        i = i + 1;
    }
    proof {
        assert forall|k: int| 0 <= k < out.deep_view().len() implies out.deep_view()[k]
            == pv[k] by {
            assert(out.deep_view()[k] == out@[k]@);
        }
        assert(out.deep_view() =~= pv);
    }
    Ok(out)
}

impl Config {
    /// Decides whether a discovered file takes part in the run: a path
    /// matching an exclude pattern is left out; everything else is
    /// processed.
    pub fn should_process_file(&self, path: &str) -> (r: bool)
        ensures
            r == !some_pattern_matches(self.excluded_files, path@),
    {
        if let Some(excludes) = &self.excluded_files {
            proof {
                assert(self.excluded_files == Some(*excludes));
            }
            let mut i: usize = 0;
            while i < excludes.len()
                invariant
                    self.excluded_files == Some(*excludes),
                    i <= excludes@.len(),
                    forall|k: int|
                        0 <= k < i ==> !(regex_compiles((#[trigger] excludes@[k])@)
                            && regex_accepts(excludes@[k]@, path@)),
                decreases excludes@.len() - i,
            {
                if regex_match(excludes[i].as_str(), path) {
                    proof {
                        assert(regex_compiles(excludes@[i as int]@) && regex_accepts(
                            excludes@[i as int]@,
                            path@,
                        ));
                        let ghost opt = self.excluded_files;
                        assert(opt->Some_0 == *excludes);
                        assert((i as int) < opt->Some_0@.len() && regex_compiles(
                            (opt->Some_0@[i as int])@,
                        ) && regex_accepts(opt->Some_0@[i as int]@, path@));
                        assert(some_pattern_matches(self.excluded_files, path@));
                    }
                    return false;
                }
                i = i + 1;
            }
        }
        proof {
            if self.excluded_files is Some {
                assert(self.excluded_files == Some(self.excluded_files->0));
            }
        }
        if let Some(includes) = &self.included_files {
            let mut i: usize = 0;
            while i < includes.len()
                invariant
                    i <= includes@.len(),
                    !some_pattern_matches(self.excluded_files, path@),
                decreases includes@.len() - i,
            {
                if regex_match(includes[i].as_str(), path) {
                    return true;
                }
                i = i + 1;
            }
        }
        true
    }
}

} // verus!

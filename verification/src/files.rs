//! Source-language detection by file extension. The traversal that
//! discovers the files lives outside the core; each path's language is
//! decided here.

use crate::strutil::chars_eq;
use crate::strutil::to_chars;
use vstd::prelude::*;

verus! {

/// The source languages the pipeline recognizes by extension.
#[derive(Debug, Clone, Copy, PartialEq, Eq, Structural)]
pub enum Language {
    Rust,
    Go,
    C,
    Cpp,
}

/// Index of the last occurrence of `c` in `s`, if any.
pub open spec fn spec_last_index_of(s: Seq<char>, c: char) -> Option<int>
    decreases s.len(),
{
    if s.len() == 0 {
        None
    } else if s.last() == c {
        Some(s.len() - 1)
    } else {
        spec_last_index_of(s.drop_last(), c)
    }
}

/// A last occurrence determines the result of `spec_last_index_of`.
proof fn lemma_last_index_some(s: Seq<char>, c: char, i: int)
    requires
        0 <= i < s.len(),
        s[i] == c,
        forall|j: int| i < j < s.len() ==> s[j] != c,
    ensures
        spec_last_index_of(s, c) == Some(i),
    decreases s.len(),
{
    if i < s.len() - 1 {
        assert forall|j: int| i < j < s.drop_last().len() implies s.drop_last()[j] != c by {
            assert(s.drop_last()[j] == s[j]);
        }
        assert(s.drop_last()[i] == s[i]);
        lemma_last_index_some(s.drop_last(), c, i);
    }
}

/// Absence of `c` determines the result of `spec_last_index_of`.
proof fn lemma_last_index_none(s: Seq<char>, c: char)
    requires
        forall|j: int| 0 <= j < s.len() ==> s[j] != c,
    ensures
        spec_last_index_of(s, c) is None,
    decreases s.len(),
{
    if s.len() > 0 {
        assert forall|j: int| 0 <= j < s.drop_last().len() implies s.drop_last()[j] != c by {
            assert(s.drop_last()[j] == s[j]);
        }
        lemma_last_index_none(s.drop_last(), c);
    }
}

/// The extension of a path: the text after the last dot of the file
/// name (the text after the last path separator), unless the dot is
/// the file name's first character or the name has none.
pub open spec fn spec_extension(p: Seq<char>) -> Option<Seq<char>> {
    let fname = match spec_last_index_of(p, '/') {
        Some(i) => p.skip(i + 1),
        None => p,
    };
    match spec_last_index_of(fname, '.') {
        Some(i) => if i > 0 {
            Some(fname.skip(i + 1))
        } else {
            None
        },
        None => None,
    }
}

/// The language a path's extension names, if the pipeline can operate
/// on it.
pub open spec fn spec_detect(p: Seq<char>) -> Option<Language> {
    match spec_extension(p) {
        Some(e) => if e == "rs"@ {
            Some(Language::Rust)
        } else if e == "go"@ {
            Some(Language::Go)
        } else if e == "c"@ {
            Some(Language::C)
        } else if e == "cpp"@ {
            Some(Language::Cpp)
        } else {
            None
        },
        None => None,
    }
}

/// Scans backwards for the last occurrence of `c` in `v[from..]`.
fn last_index_range(v: &Vec<char>, c: char, from: usize) -> (r: Option<usize>)
    requires
        from <= v.len(),
    ensures
        match r {
            Some(i) => from <= i < v@.len() && v@[i as int] == c && forall|j: int|
                i < j < v@.len() ==> v@[j] != c,
            None => forall|j: int| from <= j < v@.len() ==> v@[j] != c,
        },
{
    let mut i: usize = v.len();
    while i > from
        invariant
            from <= i <= v@.len(),
            forall|j: int| i <= j < v@.len() ==> v@[j] != c,
        decreases i,
    {
        i = i - 1;
        if v[i] == c {
            return Some(i);
        }
    }
    None
}

/// Detects the language a file path's extension names, or `None` for a
/// file the pipeline does not operate on.
pub fn detect_operable_language(file_path: &str) -> (r: Option<Language>)
    ensures
        r == spec_detect(file_path@),
{
    let v = to_chars(file_path);
    let fname_start: usize = match last_index_range(&v, '/', 0) {
        Some(i) => {
            proof {
                lemma_last_index_some(v@, '/', i as int);
            }
            i + 1
        },
        None => {
            proof {
                lemma_last_index_none(v@, '/');
            }
            0
        },
    };
    let ghost fname = v@.skip(fname_start as int);
    proof {
        assert(v@.skip(0int) =~= v@);
    }
    let dot = last_index_range(&v, '.', fname_start);
    let ext_start: usize = match dot {
        Some(i) => {
            proof {
                assert forall|j: int| i - fname_start < j < fname.len() implies fname[j] != '.' by {
                    assert(fname[j] == v@[fname_start + j]);
                }
                assert(fname[i - fname_start as int] == v@[i as int]);
                lemma_last_index_some(fname, '.', i - fname_start as int);
            }
            if i == fname_start {
                return None;
            }
            i + 1
        },
        None => {
            proof {
                assert forall|j: int| 0 <= j < fname.len() implies fname[j] != '.' by {
                    assert(fname[j] == v@[fname_start + j]);
                }
                lemma_last_index_none(fname, '.');
            }
            return None;
        },
    };
    proof {
        assert(fname.skip(ext_start - fname_start as int) =~= v@.skip(ext_start as int));
    }
    let n = v.len();
    let ext = {
        let mut e: Vec<char> = Vec::new();
        let mut k: usize = ext_start;
        while k < n
            invariant
                ext_start <= k <= n == v@.len(),
                e@ == v@.subrange(ext_start as int, k as int),
            decreases n - k,
        {
            proof {
                assert(v@.subrange(ext_start as int, k + 1int) =~= v@.subrange(
                    ext_start as int,
                    k as int,
                ).push(v@[k as int]));
            }
            e.push(v[k]);
            k = k + 1;
        }
        proof {
            assert(e@ =~= v@.skip(ext_start as int));
        }
        e
    };
    let rs_c = to_chars("rs");
    let go_c = to_chars("go");
    let c_c = to_chars("c");
    let cpp_c = to_chars("cpp");
    if chars_eq(&ext, &rs_c) {
        Some(Language::Rust)
    } else if chars_eq(&ext, &go_c) {
        Some(Language::Go)
    } else if chars_eq(&ext, &c_c) {
        Some(Language::C)
    } else if chars_eq(&ext, &cpp_c) {
        Some(Language::Cpp)
    } else {
        None
    }
}

} // verus!

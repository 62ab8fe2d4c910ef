//! Verified text-scanning helpers shared by the structure extractors.
//!
//! Text is modelled as `Seq<char>`. The executable functions work on a
//! `Vec<char>` copy of the text and return index ranges into it, so that
//! callers can cut substrings out of the original `&str` with
//! `substring_char`.

use vstd::prelude::*;

verus! {

/// The whitespace characters that trimming and token splitting treat as
/// blank.
pub open spec fn is_space(c: char) -> bool {
    c == ' ' || c == '\t' || c == '\r' || c == '\n'
}

/// Executable mirror of [`is_space`].
pub fn is_space_char(c: char) -> (r: bool)
    ensures
        r == is_space(c),
{
    c == ' ' || c == '\t' || c == '\r' || c == '\n'
}

/// Index of the first occurrence of `c` in `s`, if any.
pub open spec fn spec_find_char(s: Seq<char>, c: char) -> Option<int>
    decreases s.len(),
{
    if s.len() == 0 {
        None
    } else if s[0] == c {
        Some(0int)
    } else {
        match spec_find_char(s.drop_first(), c) {
            Some(i) => Some(i + 1),
            None => None,
        }
    }
}

/// `spec_find_char` returns the first occurrence: in range, equal to `c`,
/// with nothing equal to `c` before it; or `None` when `c` is absent.
pub proof fn lemma_find_char_props(s: Seq<char>, c: char)
    ensures
        match spec_find_char(s, c) {
            Some(i) => 0 <= i < s.len() && s[i] == c && forall|j: int| 0 <= j < i ==> s[j] != c,
            None => forall|j: int| 0 <= j < s.len() ==> s[j] != c,
        },
    decreases s.len(),
{
    if s.len() == 0 {
    } else if s[0] == c {
    } else {
        lemma_find_char_props(s.drop_first(), c);
        match spec_find_char(s.drop_first(), c) {
            Some(i) => {
                assert(s[i + 1] == s.drop_first()[i]);
                assert forall|j: int| 0 <= j < i + 1 implies s[j] != c by {
                    if j > 0 {
                        assert(s.drop_first()[j - 1] == s[j]);
                    }
                }
            },
            None => {
                assert forall|j: int| 0 <= j < s.len() implies s[j] != c by {
                    if j > 0 {
                        assert(s.drop_first()[j - 1] == s[j]);
                    }
                }
            },
        }
    }
}

/// A first occurrence determines the result of `spec_find_char`.
pub proof fn lemma_find_char_some(s: Seq<char>, c: char, i: int)
    requires
        0 <= i < s.len(),
        s[i] == c,
        forall|j: int| 0 <= j < i ==> s[j] != c,
    ensures
        spec_find_char(s, c) == Some(i),
    decreases i,
{
    if i == 0 {
    } else {
        lemma_find_char_some(s.drop_first(), c, i - 1);
    }
}

/// Absence of `c` determines the result of `spec_find_char`.
pub proof fn lemma_find_char_none(s: Seq<char>, c: char)
    requires
        forall|j: int| 0 <= j < s.len() ==> s[j] != c,
    ensures
        spec_find_char(s, c) is None,
    decreases s.len(),
{
    if s.len() == 0 {
    } else {
        lemma_find_char_none(s.drop_first(), c);
    }
}

/// How many times `c` occurs in `s`.
pub open spec fn count_char(s: Seq<char>, c: char) -> nat
    decreases s.len(),
{
    if s.len() == 0 {
        0
    } else {
        count_char(s.drop_last(), c) + (if s.last() == c {
            1nat
        } else {
            0nat
        })
    }
}

/// A sequence without `c` has count zero.
pub proof fn lemma_count_char_zero(s: Seq<char>, c: char)
    requires
        forall|j: int| 0 <= j < s.len() ==> s[j] != c,
    ensures
        count_char(s, c) == 0,
    decreases s.len(),
{
    if s.len() > 0 {
        lemma_count_char_zero(s.drop_last(), c);
    }
}

/// Copies the characters of `s` into a vector.
pub fn to_chars(s: &str) -> (v: Vec<char>)
    ensures
        v@ == s@,
{
    let n: usize = s.unicode_len();
    let mut v: Vec<char> = Vec::new();
    let mut i: usize = 0;
    while i < n
        invariant
            i <= n,
            n == s@.len(),
            v@ == s@.take(i as int),
        decreases n - i,
    {
        let c = s.get_char(i);
        v.push(c);
        proof {
            assert(s@.take(i + 1int) =~= s@.take(i as int).push(s@[i as int]));
        }
        i = i + 1;
    }
    proof {
        assert(v@ =~= s@);
    }
    v
}

/// First index in `[from, to)` holding `c`, scanning left to right.
pub fn find_char_range(v: &Vec<char>, c: char, from: usize, to: usize) -> (r: Option<usize>)
    requires
        from <= to <= v.len(),
    ensures
        match r {
            Some(i) => from <= i < to && v@[i as int] == c && forall|j: int|
                from <= j < i ==> v@[j] != c,
            None => forall|j: int| from <= j < to ==> v@[j] != c,
        },
{
    let mut i: usize = from;
    while i < to
        invariant
            from <= i <= to <= v.len(),
            forall|j: int| from <= j < i ==> v@[j] != c,
        decreases to - i,
    {
        if v[i] == c {
            return Some(i);
        }
        i = i + 1;
    }
    None
}

/// Counts the occurrences of `c` in `v[from..to]`.
pub fn count_char_range(v: &Vec<char>, c: char, from: usize, to: usize) -> (r: usize)
    requires
        from <= to <= v.len(),
    ensures
        r == count_char(v@.subrange(from as int, to as int), c),
        r <= to - from,
{
    let mut i: usize = from;
    let mut cnt: usize = 0;
    while i < to
        invariant
            from <= i <= to <= v.len(),
            cnt == count_char(v@.subrange(from as int, i as int), c),
            cnt <= i - from,
        decreases to - i,
    {
        proof {
            assert(v@.subrange(from as int, i + 1int).drop_last() =~= v@.subrange(
                from as int,
                i as int,
            ));
            assert(v@.subrange(from as int, i + 1int).last() == v@[i as int]);
        }
        if v[i] == c {
            cnt = cnt + 1;
        }
        i = i + 1;
    }
    cnt
}

/// `s` with leading whitespace removed.
pub open spec fn spec_trim_front(s: Seq<char>) -> Seq<char>
    decreases s.len(),
{
    if s.len() > 0 && is_space(s[0]) {
        spec_trim_front(s.drop_first())
    } else {
        s
    }
}

/// `s` with trailing whitespace removed.
pub open spec fn spec_trim_back(s: Seq<char>) -> Seq<char>
    decreases s.len(),
{
    if s.len() > 0 && is_space(s.last()) {
        spec_trim_back(s.drop_last())
    } else {
        s
    }
}

/// `s` with leading and trailing whitespace removed.
pub open spec fn spec_trim(s: Seq<char>) -> Seq<char> {
    spec_trim_back(spec_trim_front(s))
}

/// Narrows `[from, to)` to the whitespace-trimmed subrange.
pub fn trim_range(v: &Vec<char>, from: usize, to: usize) -> (r: (usize, usize))
    requires
        from <= to <= v.len(),
    ensures
        from <= r.0 <= r.1 <= to,
        v@.subrange(r.0 as int, r.1 as int) == spec_trim(v@.subrange(from as int, to as int)),
{
    let mut a: usize = from;
    while a < to && is_space_char(v[a])
        invariant
            from <= a <= to <= v.len(),
            spec_trim_front(v@.subrange(from as int, to as int)) == spec_trim_front(
                v@.subrange(a as int, to as int),
            ),
        decreases to - a,
    {
        proof {
            assert(v@.subrange(a as int, to as int).drop_first() =~= v@.subrange(
                a + 1int,
                to as int,
            ));
        }
        a = a + 1;
    }
    proof {
        assert(spec_trim_front(v@.subrange(from as int, to as int)) == v@.subrange(
            a as int,
            to as int,
        ));
    }
    let mut b: usize = to;
    while b > a && is_space_char(v[b - 1])
        invariant
            from <= a <= b <= to <= v.len(),
            spec_trim_back(v@.subrange(a as int, to as int)) == spec_trim_back(
                v@.subrange(a as int, b as int),
            ),
        decreases b,
    {
        proof {
            assert(v@.subrange(a as int, b as int).drop_last() =~= v@.subrange(
                a as int,
                b - 1int,
            ));
        }
        b = b - 1;
    }
    proof {
        assert(spec_trim_back(v@.subrange(a as int, b as int)) == v@.subrange(a as int, b as int));
    }
    (a, b)
}

/// Does `s` begin with `p`?
pub open spec fn spec_starts_with(s: Seq<char>, p: Seq<char>) -> bool {
    p.len() <= s.len() && s.subrange(0, p.len() as int) == p
}

/// Does `v[from..to]` begin with `p`?
pub fn chars_starts_with(v: &Vec<char>, from: usize, to: usize, p: &Vec<char>) -> (r: bool)
    requires
        from <= to <= v.len(),
    ensures
        r == spec_starts_with(v@.subrange(from as int, to as int), p@),
{
    let ghost s = v@.subrange(from as int, to as int);
    if to - from < p.len() {
        return false;
    }
    let mut i: usize = 0;
    while i < p.len()
        invariant
            i <= p.len() <= to - from,
            from <= to <= v.len(),
            s == v@.subrange(from as int, to as int),
            forall|j: int| 0 <= j < i ==> s[j] == p@[j],
        decreases p.len() - i,
    {
        if v[from + i] != p[i] {
            proof {
                assert(s[i as int] == v@[from + i]);
                assert(s.subrange(0, p@.len() as int)[i as int] != p@[i as int]);
            }
            return false;
        }
        proof {
            assert(s[i as int] == v@[from + i]);
        }
        i = i + 1;
    }
    proof {
        assert(s.subrange(0, p@.len() as int) =~= p@);
    }
    true
}

/// Are two character vectors equal as sequences?
pub fn chars_eq(a: &Vec<char>, b: &Vec<char>) -> (r: bool)
    ensures
        r == (a@ == b@),
{
    if a.len() != b.len() {
        return false;
    }
    let mut i: usize = 0;
    while i < a.len()
        invariant
            i <= a.len(),
            a.len() == b.len(),
            forall|j: int| 0 <= j < i ==> a@[j] == b@[j],
        decreases a.len() - i,
    {
        if a[i] != b[i] {
            return false;
        }
        i = i + 1;
    }
    proof {
        assert(a@ =~= b@);
    }
    true
}

/// Are two strings equal, character for character?
pub fn str_eq(a: &str, b: &str) -> (r: bool)
    ensures
        r == (a@ == b@),
{
    let va = to_chars(a);
    let vb = to_chars(b);
    chars_eq(&va, &vb)
}

/// The lines of `s`, split at `'\n'`, without a trailing empty line.
pub open spec fn spec_lines(s: Seq<char>) -> Seq<Seq<char>>
    decreases s.len(),
    via spec_lines_decreases
{
    if s.len() == 0 {
        Seq::empty()
    } else {
        match spec_find_char(s, '\n') {
            Some(k) => seq![s.take(k)] + spec_lines(s.skip(k + 1)),
            None => seq![s],
        }
    }
}

#[via_fn]
proof fn spec_lines_decreases(s: Seq<char>) {
    lemma_find_char_props(s, '\n');
}

/// The subranges of `v` that a vector of index pairs denotes.
pub open spec fn range_views(v: Seq<char>, r: Seq<(usize, usize)>) -> Seq<Seq<char>> {
    r.map_values(|p: (usize, usize)| v.subrange(p.0 as int, p.1 as int))
}

/// Splits `v` into its line ranges: each pair bounds one line, exclusive
/// of its terminating `'\n'`.
pub fn line_ranges(v: &Vec<char>) -> (r: Vec<(usize, usize)>)
    ensures
        forall|k: int| 0 <= k < r@.len() ==> #[trigger] r@[k].0 <= r@[k].1 <= v@.len(),
        range_views(v@, r@) == spec_lines(v@),
        forall|k: int| 0 <= k < r@.len() - 1 ==> (#[trigger] r@[k]).1 <= r@[k + 1].0,
        r@.len() > 0 ==> r@[0].0 == 0,
{
    let mut r: Vec<(usize, usize)> = Vec::new();
    let mut pos: usize = 0;
    let n: usize = v.len();
    proof {
        assert(v@.skip(0) =~= v@);
        assert(range_views(v@, r@) + spec_lines(v@) =~= spec_lines(v@));
    }
    while pos < n
        invariant
            pos <= n == v@.len(),
            forall|k: int| 0 <= k < r@.len() ==> #[trigger] r@[k].0 <= r@[k].1 <= v@.len(),
            spec_lines(v@) == range_views(v@, r@) + spec_lines(v@.skip(pos as int)),
            forall|k: int| 0 <= k < r@.len() - 1 ==> (#[trigger] r@[k]).1 <= r@[k + 1].0,
            r@.len() > 0 ==> r@[0].0 == 0,
            r@.len() == 0 ==> pos == 0,
            forall|k: int| 0 <= k < r@.len() ==> (#[trigger] r@[k]).1 <= pos,
        decreases n - pos,
    {
        let ghost rest = v@.skip(pos as int);
        match find_char_range(v, '\n', pos, n) {
            Some(k) => {
                proof {
                    assert forall|j: int| 0 <= j < k - pos implies rest[j] != '\n' by {
                        assert(rest[j] == v@[pos + j]);
                    }
                    assert(rest[k - pos] == v@[k as int]);
                    lemma_find_char_some(rest, '\n', k - pos);
                    assert(rest.take(k - pos) =~= v@.subrange(pos as int, k as int));
                    assert(rest.skip(k - pos + 1) =~= v@.skip(k + 1int));
                }
                let ghost old_r = r@;
                r.push((pos, k));
                proof {
                    assert forall|kk: int| 0 <= kk < r@.len() implies #[trigger] r@[kk].0
                        <= r@[kk].1 <= v@.len() by {
                        if kk < old_r.len() {
                            assert(r@[kk] == old_r[kk]);
                        }
                    }
                    assert forall|kk: int| 0 <= kk < r@.len() - 1 implies (#[trigger] r@[kk]).1
                        <= r@[kk + 1].0 by {
                        assert(r@[kk] == old_r[kk]);
                        if kk + 1 < old_r.len() {
                            assert(r@[kk + 1] == old_r[kk + 1]);
                        }
                    }
                    assert forall|kk: int| 0 <= kk < r@.len() implies (#[trigger] r@[kk]).1
                        <= k by {
                        if kk < old_r.len() {
                            assert(r@[kk] == old_r[kk]);
                        }
                    }
                    if old_r.len() == 0 {
                        assert(r@[0] == (pos, k));
                    } else {
                        assert(r@[0] == old_r[0]);
                    }
                    assert(range_views(v@, r@) =~= range_views(v@, old_r).push(
                        v@.subrange(pos as int, k as int),
                    ));
                    assert(range_views(v@, r@) + spec_lines(v@.skip(k + 1int)) =~= range_views(
                        v@,
                        old_r,
                    ) + spec_lines(rest));
                }
                pos = k + 1;
            },
            None => {
                proof {
                    assert forall|j: int| 0 <= j < rest.len() implies rest[j] != '\n' by {
                        assert(rest[j] == v@[pos + j]);
                    }
                    lemma_find_char_none(rest, '\n');
                    assert(rest =~= v@.subrange(pos as int, n as int));
                    assert(spec_lines(rest) =~= seq![rest]);
                }
                let ghost old_r = r@;
                r.push((pos, n));
                proof {
                    assert forall|kk: int| 0 <= kk < r@.len() implies #[trigger] r@[kk].0
                        <= r@[kk].1 <= v@.len() by {
                        if kk < old_r.len() {
                            assert(r@[kk] == old_r[kk]);
                        }
                    }
                    assert forall|kk: int| 0 <= kk < r@.len() - 1 implies (#[trigger] r@[kk]).1
                        <= r@[kk + 1].0 by {
                        assert(r@[kk] == old_r[kk]);
                        if kk + 1 < old_r.len() {
                            assert(r@[kk + 1] == old_r[kk + 1]);
                        }
                    }
                    assert forall|kk: int| 0 <= kk < r@.len() implies (#[trigger] r@[kk]).1
                        <= n by {
                        if kk < old_r.len() {
                            assert(r@[kk] == old_r[kk]);
                        }
                    }
                    if old_r.len() == 0 {
                        assert(r@[0] == (pos, n));
                    } else {
                        assert(r@[0] == old_r[0]);
                    }
                    assert(range_views(v@, r@) =~= range_views(v@, old_r).push(
                        v@.subrange(pos as int, n as int),
                    ));
                    assert(spec_lines(v@.skip(n as int)) =~= Seq::<Seq<char>>::empty());
                    assert(range_views(v@, r@) + spec_lines(v@.skip(n as int)) =~= range_views(
                        v@,
                        old_r,
                    ) + spec_lines(rest));
                }
                pos = n;
            },
        }
    }
    proof {
        assert(spec_lines(v@.skip(pos as int)) =~= Seq::<Seq<char>>::empty());
        assert(range_views(v@, r@) + spec_lines(v@.skip(pos as int)) =~= range_views(v@, r@));
    }
    r
}

/// Index of the first occurrence of `p` as a contiguous subsequence of
/// `s`, if any.
pub open spec fn spec_find_substr(s: Seq<char>, p: Seq<char>) -> Option<int>
    decreases s.len(),
{
    if spec_starts_with(s, p) {
        Some(0int)
    } else if s.len() == 0 {
        None
    } else {
        match spec_find_substr(s.drop_first(), p) {
            Some(i) => Some(i + 1),
            None => None,
        }
    }
}

/// `spec_find_substr` returns the first match position, or `None` when
/// `p` occurs nowhere in `s`.
pub proof fn lemma_find_substr_props(s: Seq<char>, p: Seq<char>)
    ensures
        match spec_find_substr(s, p) {
            Some(i) => 0 <= i <= s.len() && spec_starts_with(s.skip(i), p) && forall|j: int|
                0 <= j < i ==> !spec_starts_with(s.skip(j), p),
            None => forall|j: int| 0 <= j <= s.len() ==> !spec_starts_with(s.skip(j), p),
        },
    decreases s.len(),
{
    if spec_starts_with(s, p) {
        assert(s.skip(0) =~= s);
    } else if s.len() == 0 {
        assert forall|j: int| 0 <= j <= s.len() implies !spec_starts_with(s.skip(j), p) by {
            assert(s.skip(j) =~= s);
        }
    } else {
        lemma_find_substr_props(s.drop_first(), p);
        assert forall|j: int| 1 <= j <= s.len() implies s.skip(j) =~= s.drop_first().skip(
            j - 1,
        ) by {}
        match spec_find_substr(s.drop_first(), p) {
            Some(i) => {
                assert(s.skip(i + 1) =~= s.drop_first().skip(i));
                assert forall|j: int| 0 <= j < i + 1 implies !spec_starts_with(s.skip(j), p) by {
                    if j == 0 {
                        assert(s.skip(0) =~= s);
                    } else {
                        assert(s.skip(j) =~= s.drop_first().skip(j - 1));
                    }
                }
            },
            None => {
                assert forall|j: int| 0 <= j <= s.len() implies !spec_starts_with(s.skip(j), p) by {
                    if j == 0 {
                        assert(s.skip(0) =~= s);
                    } else {
                        assert(s.skip(j) =~= s.drop_first().skip(j - 1));
                    }
                }
            },
        }
    }
}

/// A first match determines the result of `spec_find_substr`.
pub proof fn lemma_find_substr_some(s: Seq<char>, p: Seq<char>, i: int)
    requires
        0 <= i <= s.len(),
        spec_starts_with(s.skip(i), p),
        forall|j: int| 0 <= j < i ==> !spec_starts_with(s.skip(j), p),
    ensures
        spec_find_substr(s, p) == Some(i),
    decreases i,
{
    if i == 0 {
        assert(s.skip(0) =~= s);
    } else {
        assert(s.skip(0) =~= s);
        assert(!spec_starts_with(s, p));
        assert(s.drop_first().skip(i - 1) =~= s.skip(i));
        assert forall|j: int| 0 <= j < i - 1 implies !spec_starts_with(
            s.drop_first().skip(j),
            p,
        ) by {
            assert(s.drop_first().skip(j) =~= s.skip(j + 1));
        }
        lemma_find_substr_some(s.drop_first(), p, i - 1);
    }
}

/// Absence of a match determines the result of `spec_find_substr`.
pub proof fn lemma_find_substr_none(s: Seq<char>, p: Seq<char>)
    requires
        forall|j: int| 0 <= j <= s.len() ==> !spec_starts_with(s.skip(j), p),
    ensures
        spec_find_substr(s, p) is None,
    decreases s.len(),
{
    assert(s.skip(0) =~= s);
    if s.len() > 0 {
        assert forall|j: int| 0 <= j <= s.drop_first().len() implies !spec_starts_with(
            s.drop_first().skip(j),
            p,
        ) by {
            assert(s.drop_first().skip(j) =~= s.skip(j + 1));
        }
        lemma_find_substr_none(s.drop_first(), p);
    }
}

/// First position in `[from, to)` where `p` begins as a subsequence of
/// `v[..to]`, scanning left to right.
pub fn find_substr_range(v: &Vec<char>, from: usize, to: usize, p: &Vec<char>) -> (r: Option<
    usize,
>)
    requires
        from <= to <= v.len(),
    ensures
        match r {
            Some(i) => from <= i <= to && spec_find_substr(v@.subrange(from as int, to as int), p@)
                == Some(i - from as int),
            None => spec_find_substr(v@.subrange(from as int, to as int), p@) is None,
        },
{
    let ghost s = v@.subrange(from as int, to as int);
    if p.len() == 0 {
        proof {
            assert(s.skip(0) =~= s);
            assert(s.subrange(0, 0) =~= p@);
            lemma_find_substr_some(s, p@, 0);
        }
        return Some(from);
    }
    let mut i: usize = from;
    while i < to
        invariant
            from <= i <= to,
            to <= v.len(),
            s == v@.subrange(from as int, to as int),
            forall|j: int| 0 <= j < i - from ==> !spec_starts_with(s.skip(j), p@),
        decreases to - i,
    {
        if chars_starts_with(v, i, to, p) {
            proof {
                assert(s.skip(i - from) =~= v@.subrange(i as int, to as int));
                lemma_find_substr_some(s, p@, i - from);
            }
            return Some(i);
        }
        proof {
            assert(s.skip(i - from) =~= v@.subrange(i as int, to as int));
        }
        i = i + 1;
    }
    proof {
        assert forall|j: int| 0 <= j <= s.len() implies !spec_starts_with(s.skip(j), p@) by {
            if j == s.len() {
                assert(s.skip(j).len() == 0);
            }
        }
        lemma_find_substr_none(s, p@);
    }
    None
}

/// `s` with every occurrence of `c` removed.
pub open spec fn spec_remove_char(s: Seq<char>, c: char) -> Seq<char>
    decreases s.len(),
{
    if s.len() == 0 {
        Seq::empty()
    } else if s[0] == c {
        spec_remove_char(s.drop_first(), c)
    } else {
        seq![s[0]] + spec_remove_char(s.drop_first(), c)
    }
}

/// A prefix free of `c` passes through `spec_remove_char` unchanged.
proof fn lemma_remove_char_clean_prefix(s: Seq<char>, c: char, m: int)
    requires
        0 <= m <= s.len(),
        forall|j: int| 0 <= j < m ==> s[j] != c,
    ensures
        spec_remove_char(s, c) == s.take(m) + spec_remove_char(s.skip(m), c),
    decreases m,
{
    if m == 0 {
        assert(s.take(0) =~= Seq::<char>::empty());
        assert(s.skip(0) =~= s);
        assert(s.take(0) + spec_remove_char(s, c) =~= spec_remove_char(s, c));
    } else {
        assert forall|j: int| 0 <= j < m - 1 implies s.drop_first()[j] != c by {
            assert(s.drop_first()[j] == s[j + 1]);
        }
        lemma_remove_char_clean_prefix(s.drop_first(), c, m - 1);
        assert(s.drop_first().take(m - 1) =~= s.take(m).drop_first());
        assert(s.drop_first().skip(m - 1) =~= s.skip(m));
        assert(seq![s[0]] + (s.drop_first().take(m - 1) + spec_remove_char(s.skip(m), c)) =~= s.take(
            m,
        ) + spec_remove_char(s.skip(m), c));
    }
}

/// Removes every occurrence of `c` from `s`.
pub fn remove_char_str(s: &str, c: char) -> (r: String)
    ensures
        r@ == spec_remove_char(s@, c),
{
    let v = to_chars(s);
    let n: usize = v.len();
    let mut r = String::new();
    let mut pos: usize = 0;
    proof {
        assert(s@.skip(0) =~= s@);
        assert(r@ + spec_remove_char(s@, c) =~= spec_remove_char(s@, c));
    }
    while pos < n
        invariant
            pos <= n == v@.len(),
            v@ == s@,
            spec_remove_char(s@, c) == r@ + spec_remove_char(s@.skip(pos as int), c),
        decreases n - pos,
    {
        let ghost rest = s@.skip(pos as int);
        match find_char_range(&v, c, pos, n) {
            Some(k) => {
                proof {
                    assert forall|j: int| 0 <= j < k - pos implies rest[j] != c by {
                        assert(rest[j] == v@[pos + j]);
                    }
                    lemma_remove_char_clean_prefix(rest, c, k - pos);
                    assert(rest.take(k - pos) =~= s@.subrange(pos as int, k as int));
                    assert(rest.skip(k - pos) =~= s@.skip(k as int));
                    assert(rest.skip(k - pos)[0] == v@[k as int]);
                    assert(rest.skip(k - pos).drop_first() =~= s@.skip(k + 1int));
                }
                let piece = s.substring_char(pos, k);
                r.append(piece);
                pos = k + 1;
            },
            None => {
                proof {
                    assert forall|j: int| 0 <= j < rest.len() implies rest[j] != c by {
                        assert(rest[j] == v@[pos + j]);
                    }
                    lemma_remove_char_clean_prefix(rest, c, rest.len() as int);
                    assert(rest.take(rest.len() as int) =~= s@.subrange(pos as int, n as int));
                    assert(rest.skip(rest.len() as int) =~= Seq::<char>::empty());
                }
                let piece = s.substring_char(pos, n);
                r.append(piece);
                pos = n;
            },
        }
    }
    proof {
        assert(spec_remove_char(s@.skip(pos as int), c) =~= Seq::<char>::empty());
    }
    r
}

/// The length of the whitespace-free token at the front of `s`.
pub open spec fn token_len(s: Seq<char>) -> int
    decreases s.len(),
{
    if s.len() == 0 || is_space(s[0]) {
        0
    } else {
        1 + token_len(s.drop_first())
    }
}

/// The token length is within the sequence.
pub proof fn lemma_token_len_bounds(s: Seq<char>)
    ensures
        0 <= token_len(s) <= s.len(),
    decreases s.len(),
{
    if s.len() > 0 && !is_space(s[0]) {
        lemma_token_len_bounds(s.drop_first());
    }
}

/// A non-space run followed by a space or the end determines the token
/// length.
pub proof fn lemma_token_len_at(s: Seq<char>, k: int)
    requires
        0 <= k <= s.len(),
        forall|j: int| 0 <= j < k ==> !is_space(s[j]),
        k < s.len() ==> is_space(s[k]),
    ensures
        token_len(s) == k,
    decreases k,
{
    if k == 0 {
    } else {
        assert forall|j: int| 0 <= j < k - 1 implies !is_space(s.drop_first()[j]) by {
            assert(s.drop_first()[j] == s[j + 1]);
        }
        if k - 1 < s.drop_first().len() {
            assert(s.drop_first()[k - 1] == s[k]);
        }
        lemma_token_len_at(s.drop_first(), k - 1);
    }
}

/// The whitespace-separated tokens of `s`, in order.
pub open spec fn spec_ws_tokens(s: Seq<char>) -> Seq<Seq<char>>
    decreases s.len(),
    via spec_ws_tokens_decreases
{
    if s.len() == 0 {
        Seq::empty()
    } else if is_space(s[0]) {
        spec_ws_tokens(s.drop_first())
    } else {
        seq![s.take(token_len(s))] + spec_ws_tokens(s.skip(token_len(s)))
    }
}

#[via_fn]
proof fn spec_ws_tokens_decreases(s: Seq<char>) {
    lemma_token_len_bounds(s);
    if s.len() > 0 && !is_space(s[0]) {
        lemma_token_len_bounds(s.drop_first());
        assert(token_len(s) == 1 + token_len(s.drop_first()));
    }
}

/// Splits `v[from..to]` into its whitespace-separated token ranges.
pub fn ws_token_ranges(v: &Vec<char>, from: usize, to: usize) -> (r: Vec<(usize, usize)>)
    requires
        from <= to <= v.len(),
    ensures
        forall|k: int| 0 <= k < r@.len() ==> from <= #[trigger] r@[k].0 <= r@[k].1 <= to,
        range_views(v@, r@) == spec_ws_tokens(v@.subrange(from as int, to as int)),
{
    let mut r: Vec<(usize, usize)> = Vec::new();
    let mut pos: usize = from;
    proof {
        assert(v@.subrange(from as int, to as int).skip(0) =~= v@.subrange(from as int, to as int));
        assert(range_views(v@, r@) + spec_ws_tokens(v@.subrange(from as int, to as int)) =~= range_views(
            v@,
            r@,
        ) + spec_ws_tokens(v@.subrange(from as int, to as int)));
        assert(range_views(v@, r@) =~= Seq::<Seq<char>>::empty());
        assert(range_views(v@, r@) + spec_ws_tokens(v@.subrange(from as int, to as int)) =~= spec_ws_tokens(
            v@.subrange(from as int, to as int),
        ));
    }
    while pos < to
        invariant
            from <= pos <= to <= v.len(),
            forall|k: int| 0 <= k < r@.len() ==> from <= #[trigger] r@[k].0 <= r@[k].1 <= to,
            spec_ws_tokens(v@.subrange(from as int, to as int)) == range_views(v@, r@)
                + spec_ws_tokens(v@.subrange(pos as int, to as int)),
        decreases to - pos,
    {
        let ghost rest = v@.subrange(pos as int, to as int);
        if is_space_char(v[pos]) {
            proof {
                assert(rest[0] == v@[pos as int]);
                assert(rest.drop_first() =~= v@.subrange(pos + 1int, to as int));
            }
            pos = pos + 1;
        } else {
            let mut end: usize = pos + 1;
            while end < to && !is_space_char(v[end])
                invariant
                    pos < end <= to <= v.len(),
                    forall|j: int| pos <= j < end ==> !is_space(v@[j]),
                decreases to - end,
            {
                end = end + 1;
            }
            proof {
                assert(rest[0] == v@[pos as int]);
                assert forall|j: int| 0 <= j < end - pos implies !is_space(rest[j]) by {
                    assert(rest[j] == v@[pos + j]);
                }
                if end < to {
                    assert(rest[end - pos] == v@[end as int]);
                }
                lemma_token_len_at(rest, end - pos);
                assert(rest.take(end - pos) =~= v@.subrange(pos as int, end as int));
                assert(rest.skip(end - pos) =~= v@.subrange(end as int, to as int));
            }
            let ghost old_r = r@;
            r.push((pos, end));
            proof {
                assert forall|kk: int| 0 <= kk < r@.len() implies from <= #[trigger] r@[kk].0
                    <= r@[kk].1 <= to by {
                    if kk < old_r.len() {
                        assert(r@[kk] == old_r[kk]);
                    }
                }
                assert(range_views(v@, r@) =~= range_views(v@, old_r).push(
                    v@.subrange(pos as int, end as int),
                ));
                assert(range_views(v@, r@) + spec_ws_tokens(v@.subrange(end as int, to as int))
                    =~= range_views(v@, old_r) + spec_ws_tokens(rest));
            }
            pos = end;
        }
    }
    proof {
        assert(spec_ws_tokens(v@.subrange(pos as int, to as int)) =~= Seq::<Seq<char>>::empty());
        assert(range_views(v@, r@) + spec_ws_tokens(v@.subrange(pos as int, to as int)) =~= range_views(
            v@,
            r@,
        ));
    }
    r
}

/// Does the line open a structure definition? Leading whitespace and a
/// leading visibility keyword are ignored.
pub open spec fn is_struct_header(l: Seq<char>) -> bool {
    let t = spec_trim(l);
    let t2 = if spec_starts_with(t, "pub "@) {
        spec_trim(t.skip(4))
    } else {
        t
    };
    spec_starts_with(t2, "struct "@)
}

/// Executable mirror of [`is_struct_header`] on `v[from..to]`.
pub fn is_struct_header_line(v: &Vec<char>, from: usize, to: usize) -> (r: bool)
    requires
        from <= to <= v.len(),
    ensures
        r == is_struct_header(v@.subrange(from as int, to as int)),
{
    let pub_c = to_chars("pub ");
    let struct_c = to_chars("struct ");
    proof {
        reveal_strlit("pub ");
        reveal_strlit("struct ");
    }
    let (a, b) = trim_range(v, from, to);
    if chars_starts_with(v, a, b, &pub_c) {
        proof {
            assert(v@.subrange(a as int, b as int).skip(4) =~= v@.subrange(a + 4int, b as int));
        }
        let (a2, b2) = trim_range(v, a + 4, b);
        chars_starts_with(v, a2, b2, &struct_c)
    } else {
        chars_starts_with(v, a, b, &struct_c)
    }
}

/// Appends `x` to `v`, extending the vector's deep view by `x`'s value.
pub fn push_deep<T: DeepView>(v: &mut Vec<T>, x: T)
    ensures
        final(v).deep_view() == old(v).deep_view().push(x.deep_view()),
        final(v)@.len() == old(v)@.len() + 1,
{
    let ghost old_vec = v@;
    let ghost old_deep = v.deep_view();
    let ghost xv = x.deep_view();
    v.push(x);
    proof {
        assert forall|k: int| 0 <= k < v.deep_view().len() implies v.deep_view()[k]
            == old_deep.push(xv)[k] by {
            assert(v.deep_view()[k] == v@[k].deep_view());
            if k < old_vec.len() {
                assert(v@[k] == old_vec[k]);
                assert(old_deep[k] == old_vec[k].deep_view());
            }
        }
        assert(v.deep_view() =~= old_deep.push(xv));
    }
}

/// The segments of `s` split at `c`, keeping empty segments; the empty
/// text has one empty segment.
pub open spec fn spec_split_char(s: Seq<char>, c: char) -> Seq<Seq<char>>
    decreases s.len(),
    via spec_split_char_decreases
{
    match spec_find_char(s, c) {
        Some(k) => seq![s.take(k)] + spec_split_char(s.skip(k + 1), c),
        None => seq![s],
    }
}

#[via_fn]
proof fn spec_split_char_decreases(s: Seq<char>, c: char) {
    lemma_find_char_props(s, c);
}

/// Splits `v` at `c` into segment ranges, keeping empty segments.
pub fn split_char_ranges(v: &Vec<char>, c: char) -> (r: Vec<(usize, usize)>)
    ensures
        forall|k: int| 0 <= k < r@.len() ==> #[trigger] r@[k].0 <= r@[k].1 <= v@.len(),
        r@.len() > 0,
        range_views(v@, r@) == spec_split_char(v@, c),
{
    let mut r: Vec<(usize, usize)> = Vec::new();
    let mut pos: usize = 0;
    let n: usize = v.len();
    proof {
        assert(v@.skip(0) =~= v@);
        assert(range_views(v@, r@) =~= Seq::<Seq<char>>::empty());
        assert(range_views(v@, r@) + spec_split_char(v@, c) =~= spec_split_char(v@, c));
    }
    loop
        invariant
            pos <= n == v@.len(),
            forall|k: int| 0 <= k < r@.len() ==> #[trigger] r@[k].0 <= r@[k].1 <= v@.len(),
            spec_split_char(v@, c) == range_views(v@, r@) + spec_split_char(v@.skip(pos as int), c),
        decreases n - pos,
    {
        let ghost rest = v@.skip(pos as int);
        match find_char_range(v, c, pos, n) {
            Some(k) => {
                proof {
                    assert forall|j: int| 0 <= j < k - pos implies rest[j] != c by {
                        assert(rest[j] == v@[pos + j]);
                    }
                    assert(rest[k - pos] == v@[k as int]);
                    lemma_find_char_some(rest, c, k - pos);
                    assert(rest.take(k - pos) =~= v@.subrange(pos as int, k as int));
                    assert(rest.skip(k - pos + 1) =~= v@.skip(k + 1int));
                }
                let ghost old_r = r@;
                r.push((pos, k));
                proof {
                    assert forall|kk: int| 0 <= kk < r@.len() implies #[trigger] r@[kk].0
                        <= r@[kk].1 <= v@.len() by {
                        if kk < old_r.len() {
                            assert(r@[kk] == old_r[kk]);
                        } else {
                            assert(r@[kk] == (pos, k));
                        }
                    }
                    assert(range_views(v@, r@) =~= range_views(v@, old_r).push(
                        v@.subrange(pos as int, k as int),
                    ));
                    assert(range_views(v@, r@) + spec_split_char(v@.skip(k + 1int), c)
                        =~= range_views(v@, old_r) + spec_split_char(rest, c));
                }
                pos = k + 1;
            },
            None => {
                proof {
                    assert forall|j: int| 0 <= j < rest.len() implies rest[j] != c by {
                        assert(rest[j] == v@[pos + j]);
                    }
                    lemma_find_char_none(rest, c);
                    assert(rest =~= v@.subrange(pos as int, n as int));
                    assert(spec_split_char(rest, c) =~= seq![rest]);
                }
                let ghost old_r = r@;
                r.push((pos, n));
                proof {
                    assert forall|kk: int| 0 <= kk < r@.len() implies #[trigger] r@[kk].0
                        <= r@[kk].1 <= v@.len() by {
                        if kk < old_r.len() {
                            assert(r@[kk] == old_r[kk]);
                        }
                    }
                    assert(range_views(v@, r@) =~= range_views(v@, old_r).push(
                        v@.subrange(pos as int, n as int),
                    ));
                    assert(range_views(v@, r@) + Seq::<Seq<char>>::empty() =~= range_views(
                        v@,
                        old_r,
                    ) + spec_split_char(rest, c));
                    assert(spec_split_char(v@, c) == range_views(v@, r@));
                }
                return r;
            },
        }
    }
}

} // verus!

//! The C-like structure extractor: whitespace-delimited `type name`
//! field lines between a structure keyword line and a lone closing
//! brace.

use crate::strutil::chars_starts_with;
use crate::strutil::line_ranges;
use crate::strutil::push_deep;
use crate::strutil::range_views;
use crate::strutil::spec_lines;
use crate::strutil::spec_starts_with;
use crate::strutil::spec_trim;
use crate::strutil::spec_ws_tokens;
use crate::strutil::to_chars;
use crate::strutil::trim_range;
use crate::strutil::ws_token_ranges;
use vstd::prelude::*;

verus! {

/// The structures that the C-like rule reads from a line sequence,
/// carried through the scan state: whether a block is open, its name,
/// and the `(field name, field type)` pairs seen so far.
pub open spec fn spec_c_structs(
    lines: Seq<Seq<char>>,
    in_struct: bool,
    name: Seq<char>,
    fields: Seq<(Seq<char>, Seq<char>)>,
) -> Seq<(Seq<char>, Seq<(Seq<char>, Seq<char>)>)>
    decreases lines.len(),
{
    if lines.len() == 0 {
        Seq::empty()
    } else {
        let l = lines[0];
        let rest = lines.drop_first();
        if spec_starts_with(spec_trim(l), "struct"@) {
            let toks = spec_ws_tokens(l);
            if toks.len() >= 2 {
                spec_c_structs(rest, true, toks[1], Seq::empty())
            } else {
                spec_c_structs(rest, false, name, fields)
            }
        } else if in_struct && spec_trim(l) == seq!['}'] {
            seq![(name, fields)] + spec_c_structs(rest, false, name, fields)
        } else if in_struct {
            let toks = spec_ws_tokens(l);
            if toks.len() == 2 {
                spec_c_structs(rest, true, name, fields.push((toks[1], toks[0])))
            } else {
                spec_c_structs(rest, true, name, fields)
            }
        } else {
            spec_c_structs(rest, false, name, fields)
        }
    }
}

/// The structures that the C-like rule reads from a file's text.
pub open spec fn spec_c_parse(s: Seq<char>) -> Seq<(Seq<char>, Seq<(Seq<char>, Seq<char>)>)> {
    spec_c_structs(spec_lines(s), false, Seq::empty(), Seq::empty())
}

/// A copy of a field-pair vector denoting the same sequence of values.
fn copy_pairs(v: &Vec<(String, String)>) -> (r: Vec<(String, String)>)
    ensures
        r.deep_view() == v.deep_view(),
{
    let mut r: Vec<(String, String)> = Vec::new();
    let mut i: usize = 0;
    while i < v.len()
        invariant
            i <= v@.len(),
            r@.len() == i,
            forall|k: int| 0 <= k < i ==> (#[trigger] r@[k]).deep_view() == v@[k].deep_view(),
        decreases v@.len() - i,
    {
        r.push((v[i].0.clone(), v[i].1.clone()));
        i = i + 1;
    }
    proof {
        assert forall|k: int| 0 <= k < r.deep_view().len() implies r.deep_view()[k]
            == v.deep_view()[k] by {
            assert(r.deep_view()[k] == r@[k].deep_view());
            assert(v.deep_view()[k] == v@[k].deep_view());
        }
        assert(r.deep_view() =~= v.deep_view());
    }
    r
}

/// Extracts every structure from C-like text: a block starts at a line
/// whose trimmed text begins with the structure keyword (its name is
/// the line's second whitespace token) and ends at a lone closing
/// brace; every two-token line between them is a `type name` field.
pub fn parse_c_structs(file_content: &str) -> (r: Vec<(String, Vec<(String, String)>)>)
    ensures
        r.deep_view() == spec_c_parse(file_content@),
{
    let chars = to_chars(file_content);
    let lines = line_ranges(&chars);
    let ghost lv = range_views(chars@, lines@);
    let struct_c = to_chars("struct");
    let mut out: Vec<(String, Vec<(String, String)>)> = Vec::new();
    let mut in_struct: bool = false;
    let mut name: String = String::new();
    let mut fields: Vec<(String, String)> = Vec::new();
    let mut j: usize = 0;
    proof {
        reveal_strlit("struct");
        assert(lv.skip(0) =~= lv);
        assert(out.deep_view() =~= Seq::<(Seq<char>, Seq<(Seq<char>, Seq<char>)>)>::empty());
        assert(name@ =~= Seq::<char>::empty());
        assert(fields.deep_view() =~= Seq::<(Seq<char>, Seq<char>)>::empty());
        assert(out.deep_view() + spec_c_structs(lv, false, name@, fields.deep_view())
            =~= spec_c_structs(lv, false, name@, fields.deep_view()));
    }
    while j < lines.len()
        invariant
            j <= lines@.len(),
            chars@ == file_content@,
            lv == range_views(chars@, lines@),
            lv.len() == lines@.len(),
            struct_c@ == "struct"@,
            forall|k: int|
                0 <= k < lines@.len() ==> #[trigger] lines@[k].0 <= lines@[k].1 <= chars@.len(),
            spec_c_parse(file_content@) == out.deep_view() + spec_c_structs(
                lv.skip(j as int),
                in_struct,
                name@,
                fields.deep_view(),
            ),
        decreases lines@.len() - j,
    {
        let ghost rem = lv.skip(j as int);
        let from = lines[j].0;
        let to = lines[j].1;
        proof {
            assert(rem[0] == lv[j as int]);
            assert(lv[j as int] == chars@.subrange(from as int, to as int));
            assert(rem.drop_first() =~= lv.skip(j + 1int));
        }
        let (ta, tb) = trim_range(&chars, from, to);
        if chars_starts_with(&chars, ta, tb, &struct_c) {
            let toks = ws_token_ranges(&chars, from, to);
            proof {
                assert(range_views(chars@, toks@) == spec_ws_tokens(rem[0]));
            }
            if toks.len() >= 2 {
                proof {
                    assert(range_views(chars@, toks@)[1] == chars@.subrange(
                        toks@[1].0 as int,
                        toks@[1].1 as int,
                    ));
                }
                let piece = file_content.substring_char(toks[1].0, toks[1].1);
                name = piece.to_owned();
                fields = Vec::new();
                in_struct = true;
                proof {
                    assert(fields.deep_view() =~= Seq::<(Seq<char>, Seq<char>)>::empty());
                }
            } else {
                in_struct = false;
            }
        } else if in_struct && tb - ta == 1 && chars[ta] == '}' {
            proof {
                assert(spec_trim(rem[0]) == chars@.subrange(ta as int, tb as int));
                assert(spec_trim(rem[0])[0] == chars@[ta as int]);
                assert(spec_trim(rem[0]) =~= seq!['}']);
            }
            let emitted_fields = copy_pairs(&fields);
            let ghost ev = (name@, fields.deep_view());
            let ghost old_out = out.deep_view();
            push_deep(&mut out, (name.clone(), emitted_fields));
            in_struct = false;
            proof {
                assert(out.deep_view() =~= old_out.push(ev));
                assert(out.deep_view() + spec_c_structs(
                    lv.skip(j + 1int),
                    false,
                    name@,
                    fields.deep_view(),
                ) =~= old_out + (seq![ev] + spec_c_structs(
                    lv.skip(j + 1int),
                    false,
                    name@,
                    fields.deep_view(),
                )));
            }
        } else if in_struct {
            proof {
                if spec_trim(rem[0]) == seq!['}'] {
                    assert(chars@.subrange(ta as int, tb as int) == spec_trim(rem[0]));
                    assert(chars@.subrange(ta as int, tb as int).len() == 1);
                    assert(tb - ta == 1);
                    assert(chars@.subrange(ta as int, tb as int)[0] == chars@[ta as int]);
                    assert(seq!['}'][0] == '}');
                    assert(chars@[ta as int] == '}');
                }
            }
            let toks = ws_token_ranges(&chars, from, to);
            proof {
                assert(range_views(chars@, toks@) == spec_ws_tokens(rem[0]));
            }
            if toks.len() == 2 {
                proof {
                    assert(range_views(chars@, toks@)[0] == chars@.subrange(
                        toks@[0].0 as int,
                        toks@[0].1 as int,
                    ));
                    assert(range_views(chars@, toks@)[1] == chars@.subrange(
                        toks@[1].0 as int,
                        toks@[1].1 as int,
                    ));
                }
                let fname = file_content.substring_char(toks[1].0, toks[1].1);
                let ftype = file_content.substring_char(toks[0].0, toks[0].1);
                push_deep(&mut fields, (fname.to_owned(), ftype.to_owned()));
            }
        }
        j = j + 1;
    }
    proof {
        assert(lv.skip(lines@.len() as int) =~= Seq::<Seq<char>>::empty());
        assert(out.deep_view() + spec_c_structs(
            lv.skip(lines@.len() as int),
            in_struct,
            name@,
            fields.deep_view(),
        ) =~= out.deep_view());
    }
    out
}

} // verus!

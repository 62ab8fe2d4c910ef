//! The language-neutral side of structure extraction: the intermediate
//! form (a structure name with its raw field name/type pairs), the
//! shared brace-balancing block discovery, and the shared line-based
//! field splitting that the per-language extractors configure.

use crate::error::Error;
use crate::strutil::chars_starts_with;
use crate::strutil::count_char;
use crate::strutil::count_char_range;
use crate::strutil::find_char_range;
use crate::strutil::find_substr_range;
use crate::strutil::is_struct_header;
use crate::strutil::is_struct_header_line;
use crate::strutil::lemma_count_char_zero;
use crate::strutil::lemma_find_char_none;
use crate::strutil::lemma_find_char_some;
use crate::strutil::line_ranges;
use crate::strutil::push_deep;
use crate::strutil::range_views;
use crate::strutil::remove_char_str;
use crate::strutil::spec_find_char;
use crate::strutil::spec_find_substr;
use crate::strutil::spec_lines;
use crate::strutil::spec_remove_char;
use crate::strutil::spec_starts_with;
use crate::strutil::spec_trim;
use crate::strutil::to_chars;
use crate::strutil::trim_range;
use vstd::prelude::*;

verus! {

/// One raw field of an extracted structure: its name and the literal
/// type text, unresolved.
#[derive(Debug)]
pub struct MetaField {
    pub field_name: String,
    pub field_type: String,
}

/// The mathematical value of a [`MetaField`].
pub ghost struct SpecMetaField {
    pub field_name: Seq<char>,
    pub field_type: Seq<char>,
}

impl View for MetaField {
    type V = SpecMetaField;

    open spec fn view(&self) -> SpecMetaField {
        SpecMetaField { field_name: self.field_name@, field_type: self.field_type@ }
    }
}

impl DeepView for MetaField {
    type V = SpecMetaField;

    open spec fn deep_view(&self) -> SpecMetaField {
        self.view()
    }
}

/// One extracted structure definition: its name and its ordered raw
/// fields.
#[derive(Debug)]
pub struct MetaStruct {
    pub name: String,
    pub fields: Vec<MetaField>,
}

/// The mathematical value of a [`MetaStruct`].
pub ghost struct SpecMetaStruct {
    pub name: Seq<char>,
    pub fields: Seq<SpecMetaField>,
}

impl View for MetaStruct {
    type V = SpecMetaStruct;

    open spec fn view(&self) -> SpecMetaStruct {
        SpecMetaStruct { name: self.name@, fields: self.fields.deep_view() }
    }
}

impl DeepView for MetaStruct {
    type V = SpecMetaStruct;

    open spec fn deep_view(&self) -> SpecMetaStruct {
        self.view()
    }
}

/// A placeholder extractor handle.
#[derive(Debug)]
pub struct Parser;

impl Parser {
    /// A new extractor handle.
    pub fn new() -> Parser {
        Parser {  }
    }
}

/// A per-language structure extractor: one method splits a single block
/// into a definition, the other walks a whole file.
pub trait StructParser {
    /// Splits one structure block into its definition.
    fn extract(&self, current_struct: &str) -> Result<MetaStruct, Error>;

    /// Extracts every structure definition from one file's text.
    fn parse(&self, file_content: String) -> Result<Vec<MetaStruct>, Error>;
}

/// Runs a structure extractor over one file's text.
pub fn parse<T: StructParser>(parser: &T, file_content: String) -> Result<Vec<MetaStruct>, Error> {
    parser.parse(file_content)
}

/// The structure blocks of a line sequence, by brace balance: a block
/// begins at a header line and ends on the line where every opening
/// brace seen since the header is closed again. An unterminated block
/// at the end of the text yields nothing.
pub open spec fn spec_blocks_from(
    lines: Seq<Seq<char>>,
    inside: bool,
    acc: Seq<char>,
    opened: bool,
    depth: int,
) -> Seq<Seq<char>>
    decreases lines.len(),
{
    if lines.len() == 0 {
        Seq::empty()
    } else {
        let l = lines[0];
        let rest = lines.drop_first();
        if !inside && !is_struct_header(l) {
            spec_blocks_from(rest, false, Seq::empty(), false, 0)
        } else {
            let acc1 = acc + l + seq!['\n'];
            let o = count_char(l, '{') as int;
            let c = count_char(l, '}') as int;
            let opened1 = (inside && opened) || o > 0;
            let d1 = (if inside {
                depth
            } else {
                0
            }) + o - c;
            if opened1 && d1 <= 0 {
                seq![acc1] + spec_blocks_from(rest, false, Seq::empty(), false, 0)
            } else {
                spec_blocks_from(
                    rest,
                    true,
                    acc1,
                    opened1,
                    if d1 < 0 {
                        0
                    } else {
                        d1
                    },
                )
            }
        }
    }
}

/// The structure blocks of a file's text.
pub open spec fn spec_blocks(s: Seq<char>) -> Seq<Seq<char>> {
    spec_blocks_from(spec_lines(s), false, Seq::empty(), false, 0)
}

/// Collects the structure blocks of `content`, each with its lines
/// re-joined by `'\n'`.
pub fn collect_blocks(content: &str) -> (r: Vec<String>)
    ensures
        r.deep_view() == spec_blocks(content@),
{
    let chars = to_chars(content);
    let lines = line_ranges(&chars);
    let ghost lv = range_views(chars@, lines@);
    let mut out: Vec<String> = Vec::new();
    let mut inside: bool = false;
    let mut acc: String = String::new();
    let mut opened: bool = false;
    let mut depth: usize = 0;
    let mut j: usize = 0;
    proof {
        assert(lv.skip(0) =~= lv);
        assert(out.deep_view() =~= Seq::<Seq<char>>::empty());
        assert(out.deep_view() + spec_blocks_from(lv, false, Seq::empty(), false, 0)
            =~= spec_blocks_from(lv, false, Seq::empty(), false, 0));
    }
    while j < lines.len()
        invariant
            j <= lines@.len(),
            chars@ == content@,
            lv == range_views(chars@, lines@),
            lv.len() == lines@.len(),
            forall|k: int|
                0 <= k < lines@.len() ==> #[trigger] lines@[k].0 <= lines@[k].1 <= chars@.len(),
            forall|k: int|
                0 <= k < lines@.len() - 1 ==> (#[trigger] lines@[k]).1 <= lines@[k + 1].0,
            inside && j < lines@.len() ==> depth <= lines@[j as int].0,
            depth <= chars@.len(),
            !inside ==> acc@ == Seq::<char>::empty() && !opened && depth == 0,
            spec_blocks(content@) == out.deep_view() + spec_blocks_from(
                lv.skip(j as int),
                inside,
                acc@,
                opened,
                depth as int,
            ),
        decreases lines@.len() - j,
    {
        let ghost rem = lv.skip(j as int);
        let from = lines[j].0;
        let to = lines[j].1;
        proof {
            assert(rem[0] == lv[j as int]);
            assert(lv[j as int] == chars@.subrange(from as int, to as int));
            assert(rem.drop_first() =~= lv.skip(j + 1int));
            reveal_strlit("\n");
        }
        let ghost g_inside = inside;
        let ghost g_acc = acc@;
        let ghost g_opened = opened;
        let ghost g_depth = depth as int;
        let is_header = is_struct_header_line(&chars, from, to);
        if inside || is_header {
            let ghost acc1 = g_acc + rem[0] + seq!['\n'];
            let piece = content.substring_char(from, to);
            acc.append(piece);
            acc.append("\n");
            proof {
                assert(acc@ =~= acc1);
            }
            let o = count_char_range(&chars, '{', from, to);
            let c = count_char_range(&chars, '}', from, to);
            let dpo = depth + o;
            let opened1 = opened || o > 0;
            proof {
                assert(opened1 == ((g_inside && g_opened) || o as int > 0));
                assert(g_depth + o - c == dpo - c);
            }
            if opened1 && dpo <= c {
                proof {
                    assert(spec_blocks_from(rem, g_inside, g_acc, g_opened, g_depth)
                        == seq![acc1] + spec_blocks_from(
                        rem.drop_first(),
                        false,
                        Seq::empty(),
                        false,
                        0,
                    ));
                }
                let ghost blockv = acc@;
                let ghost old_out = out.deep_view();
                push_deep(&mut out, acc);
                acc = String::new();
                inside = false;
                opened = false;
                depth = 0;
                proof {
                    assert(out.deep_view() =~= old_out.push(blockv));
                    assert(out.deep_view() + spec_blocks_from(
                        lv.skip(j + 1int),
                        false,
                        Seq::empty(),
                        false,
                        0,
                    ) =~= old_out + (seq![blockv] + spec_blocks_from(
                        lv.skip(j + 1int),
                        false,
                        Seq::empty(),
                        false,
                        0,
                    )));
                }
            } else {
                let ghost d1 = g_depth + o - c;
                let ghost d2 = if d1 < 0 { 0int } else { d1 };
                depth = if c > dpo {
                    0
                } else {
                    dpo - c
                };
                opened = opened1;
                inside = true;
                proof {
                    assert(depth as int == d2);
                    assert(spec_blocks_from(rem, g_inside, g_acc, g_opened, g_depth)
                        == spec_blocks_from(rem.drop_first(), true, acc1, opened1, d2));
                    if j + 1 < lines@.len() {
                        assert(lines@[j as int].1 <= lines@[j + 1int].0);
                    }
                }
            }
        } else {
            proof {
                assert(spec_blocks_from(rem, g_inside, g_acc, g_opened, g_depth)
                    == spec_blocks_from(rem.drop_first(), false, Seq::empty(), false, 0));
            }
        }
        j = j + 1;
    }
    proof {
        assert(lv.skip(lines@.len() as int) =~= Seq::<Seq<char>>::empty());
        assert(out.deep_view() + spec_blocks_from(
            lv.skip(lines@.len() as int),
            inside,
            acc@,
            opened,
            depth as int,
        ) =~= out.deep_view());
    }
    out
}

/// The name of the structure in a block: on the first line mentioning
/// the structure keyword, the text after the keyword and before any
/// opening brace, trimmed. `None` when no line mentions the keyword.
pub open spec fn spec_name_of(lines: Seq<Seq<char>>) -> Option<Seq<char>>
    decreases lines.len(),
{
    if lines.len() == 0 {
        None
    } else if spec_find_substr(lines[0], "struct"@) is Some {
        let i = spec_find_substr(lines[0], "struct"@)->Some_0;
        let after = lines[0].skip(i + 6);
        let upto = match spec_find_char(after, '{') {
            Some(k) => after.take(k),
            None => after,
        };
        Some(spec_trim(upto))
    } else {
        spec_name_of(lines.drop_first())
    }
}

/// One line's field, if its shape admits one: a non-empty, non-header,
/// non-brace, non-attribute, non-comment line with exactly one colon.
/// The name is the trimmed text before the colon (with a leading
/// visibility keyword removed when `strip_pub` is set); the type is the
/// trimmed text after it, commas removed.
pub open spec fn spec_field_of_line(l: Seq<char>, strip_pub: bool) -> Option<SpecMetaField> {
    let t = spec_trim(l);
    if t.len() == 0 {
        None
    } else if spec_starts_with(t, "struct"@) {
        None
    } else if t[0] == '{' || t[0] == '}' || t[0] == '#' {
        None
    } else if spec_starts_with(t, "//"@) {
        None
    } else if count_char(t, ':') != 1 {
        None
    } else {
        let k = spec_find_char(t, ':')->Some_0;
        let raw = spec_trim(t.take(k));
        let name = if strip_pub && spec_starts_with(raw, "pub "@) {
            raw.skip(4)
        } else {
            raw
        };
        let ty = spec_remove_char(spec_trim(t.skip(k + 1)), ',');
        Some(SpecMetaField { field_name: name, field_type: ty })
    }
}

/// The fields of a block's lines, in order.
pub open spec fn spec_fields_of(lines: Seq<Seq<char>>, strip_pub: bool) -> Seq<SpecMetaField>
    decreases lines.len(),
{
    if lines.len() == 0 {
        Seq::empty()
    } else {
        match spec_field_of_line(lines[0], strip_pub) {
            Some(f) => seq![f] + spec_fields_of(lines.drop_first(), strip_pub),
            None => spec_fields_of(lines.drop_first(), strip_pub),
        }
    }
}

/// The definition a block denotes: its name and its fields. `None` when
/// the block has no discoverable, non-empty name.
pub open spec fn spec_extract(s: Seq<char>, strip_pub: bool) -> Option<SpecMetaStruct> {
    let lines = spec_lines(s);
    match spec_name_of(lines) {
        None => None,
        Some(n) => if n.len() == 0 {
            None
        } else {
            Some(SpecMetaStruct { name: n, fields: spec_fields_of(lines, strip_pub) })
        },
    }
}

/// Finds the structure name in `content`'s lines, as absolute trimmed
/// bounds into `chars`, or `None` when no line mentions the keyword.
fn find_name_range(chars: &Vec<char>, lines: &Vec<(usize, usize)>) -> (r: Option<(usize, usize)>)
    requires
        forall|k: int|
            0 <= k < lines@.len() ==> #[trigger] lines@[k].0 <= lines@[k].1 <= chars@.len(),
    ensures
        match r {
            Some(p) => p.0 <= p.1 <= chars@.len() && spec_name_of(range_views(chars@, lines@))
                == Some(chars@.subrange(p.0 as int, p.1 as int)),
            None => spec_name_of(range_views(chars@, lines@)) is None,
        },
{
    let ghost lv = range_views(chars@, lines@);
    let struct_c = to_chars("struct");
    proof {
        reveal_strlit("struct");
        assert(lv.skip(0) =~= lv);
    }
    let mut j: usize = 0;
    while j < lines.len()
        invariant
            j <= lines@.len(),
            lv == range_views(chars@, lines@),
            lv.len() == lines@.len(),
            struct_c@ == "struct"@,
            ("struct"@).len() == 6,
            forall|k: int|
                0 <= k < lines@.len() ==> #[trigger] lines@[k].0 <= lines@[k].1 <= chars@.len(),
            spec_name_of(lv) == spec_name_of(lv.skip(j as int)),
        decreases lines@.len() - j,
    {
        let ghost rem = lv.skip(j as int);
        let from = lines[j].0;
        let to = lines[j].1;
        proof {
            assert(rem[0] == lv[j as int]);
            assert(lv[j as int] == chars@.subrange(from as int, to as int));
            assert(rem.drop_first() =~= lv.skip(j + 1int));
        }
        match find_substr_range(chars, from, to, &struct_c) {
            Some(i) => {
                let ghost l = chars@.subrange(from as int, to as int);
                proof {
                    assert(spec_find_substr(l, "struct"@) == Some(i - from as int));
                    crate::strutil::lemma_find_substr_props(l, "struct"@);
                    assert(spec_starts_with(l.skip(i - from as int), "struct"@));
                    assert(l.skip(i - from as int).len() >= 6);
                }
                let after_start = i + 6;
                let ghost after = l.skip(i - from + 6);
                proof {
                    assert(after =~= chars@.subrange(after_start as int, to as int));
                }
                let cut = match find_char_range(chars, '{', after_start, to) {
                    Some(kabs) => {
                        proof {
                            assert forall|q: int| 0 <= q < kabs - after_start implies after[q]
                                != '{' by {
                                assert(after[q] == chars@[after_start + q]);
                            }
                            assert(after[kabs - after_start as int] == chars@[kabs as int]);
                            lemma_find_char_some(after, '{', kabs - after_start as int);
                            assert(after.take(kabs - after_start as int) =~= chars@.subrange(
                                after_start as int,
                                kabs as int,
                            ));
                        }
                        kabs
                    },
                    None => {
                        proof {
                            assert forall|q: int| 0 <= q < after.len() implies after[q] != '{' by {
                                assert(after[q] == chars@[after_start + q]);
                            }
                            lemma_find_char_none(after, '{');
                            assert(after.take(after.len() as int) =~= after);
                        }
                        to
                    },
                };
                let (a, b) = trim_range(chars, after_start, cut);
                return Some((a, b));
            },
            None => {
            },
        }
        j = j + 1;
    }
    proof {
        assert(lv.skip(lines@.len() as int) =~= Seq::<Seq<char>>::empty());
    }
    None
}

/// Splits one structure block into its definition: the name found after
/// the structure keyword and every line shaped like a field. Fails with
/// `MalformedDefinition` when the block has no discoverable, non-empty
/// name.
pub fn extract_block(current: &str, strip_pub: bool) -> (r: Result<MetaStruct, Error>)
    ensures
        match r {
            Ok(m) => spec_extract(current@, strip_pub) == Some(m.deep_view()),
            Err(e) => spec_extract(current@, strip_pub) is None && e is MalformedDefinition,
        },
{
    let chars = to_chars(current);
    let lines = line_ranges(&chars);
    let ghost lv = range_views(chars@, lines@);
    let name = match find_name_range(&chars, &lines) {
        Some(p) => {
            if p.0 == p.1 {
                return Err(Error::MalformedDefinition("could not find struct name".to_owned()));
            }
            current.substring_char(p.0, p.1)
        },
        None => {
            return Err(Error::MalformedDefinition("could not find struct name".to_owned()));
        },
    };
    let struct_c = to_chars("struct");
    let slashes_c = to_chars("//");
    let pub_c = to_chars("pub ");
    let mut fields: Vec<MetaField> = Vec::new();
    let mut j: usize = 0;
    proof {
        reveal_strlit("struct");
        reveal_strlit("//");
        reveal_strlit("pub ");
        assert(lv.skip(0) =~= lv);
        assert(fields.deep_view() =~= Seq::<SpecMetaField>::empty());
        assert(fields.deep_view() + spec_fields_of(lv, strip_pub) =~= spec_fields_of(
            lv,
            strip_pub,
        ));
    }
    while j < lines.len()
        invariant
            j <= lines@.len(),
            chars@ == current@,
            lv == range_views(chars@, lines@),
            lv.len() == lines@.len(),
            struct_c@ == "struct"@,
            slashes_c@ == "//"@,
            pub_c@ == "pub "@,
            ("pub "@).len() == 4,
            forall|k: int|
                0 <= k < lines@.len() ==> #[trigger] lines@[k].0 <= lines@[k].1 <= chars@.len(),
            spec_fields_of(lv, strip_pub) == fields.deep_view() + spec_fields_of(
                lv.skip(j as int),
                strip_pub,
            ),
        decreases lines@.len() - j,
    {
        let ghost rem = lv.skip(j as int);
        let from = lines[j].0;
        let to = lines[j].1;
        proof {
            assert(rem[0] == lv[j as int]);
            assert(lv[j as int] == chars@.subrange(from as int, to as int));
            assert(rem.drop_first() =~= lv.skip(j + 1int));
        }
        let (a, b) = trim_range(&chars, from, to);
        let ghost t = spec_trim(lv[j as int]);
        proof {
            assert(t == chars@.subrange(a as int, b as int));
        }
        let mut skip_line: bool = a == b;
        if !skip_line {
            if chars_starts_with(&chars, a, b, &struct_c) {
                skip_line = true;
            } else if chars[a] == '{' || chars[a] == '}' || chars[a] == '#' {
                proof {
                    assert(t[0] == chars@[a as int]);
                }
                skip_line = true;
            } else if chars_starts_with(&chars, a, b, &slashes_c) {
                skip_line = true;
            }
        }
        proof {
            if !skip_line && b > a {
                assert(t[0] == chars@[a as int]);
            }
        }
        if !skip_line {
            let colons = count_char_range(&chars, ':', a, b);
            if colons == 1 {
                match find_char_range(&chars, ':', a, b) {
                    Some(kc) => {
                        proof {
                            assert forall|q: int| 0 <= q < kc - a implies t[q] != ':' by {
                                assert(t[q] == chars@[a + q]);
                            }
                            assert(t[kc - a as int] == chars@[kc as int]);
                            lemma_find_char_some(t, ':', kc - a as int);
                            assert(t.take(kc - a as int) =~= chars@.subrange(a as int, kc as int));
                            assert(t.skip(kc - a + 1int) =~= chars@.subrange(
                                kc + 1int,
                                b as int,
                            ));
                        }
                        let (na, nb) = trim_range(&chars, a, kc);
                        let field_name = if strip_pub && chars_starts_with(&chars, na, nb, &pub_c) {
                            proof {
                                assert(chars@.subrange(na as int, nb as int).skip(4)
                                    =~= chars@.subrange(na + 4int, nb as int));
                            }
                            current.substring_char(na + 4, nb)
                        } else {
                            current.substring_char(na, nb)
                        };
                        let (ta, tb) = trim_range(&chars, kc + 1, b);
                        let ty_piece = current.substring_char(ta, tb);
                        let field_type = remove_char_str(ty_piece, ',');
                        let mf = MetaField { field_name: field_name.to_owned(), field_type };
                        proof {
                            assert(mf.deep_view() == spec_field_of_line(rem[0], strip_pub)->Some_0);
                        }
                        push_deep(&mut fields, mf);
                        proof {
                            assert(fields.deep_view() + spec_fields_of(
                                lv.skip(j + 1int),
                                strip_pub,
                            ) =~= fields.deep_view().drop_last() + (seq![
                                spec_field_of_line(rem[0], strip_pub)->Some_0,
                            ] + spec_fields_of(lv.skip(j + 1int), strip_pub)));
                        }
                    },
                    None => {
                        proof {
                            lemma_count_char_zero(t, ':');
                            assert(false);
                        }
                    },
                }
            }
        }
        j = j + 1;
    }
    proof {
        assert(lv.skip(lines@.len() as int) =~= Seq::<Seq<char>>::empty());
        assert(fields.deep_view() + spec_fields_of(
            lv.skip(lines@.len() as int),
            strip_pub,
        ) =~= fields.deep_view());
    }
    let m = MetaStruct { name: name.to_owned(), fields };
    proof {
        assert(spec_extract(current@, strip_pub) == Some(m.deep_view()));
    }
    Ok(m)
}

/// The definitions a whole file's text denotes: each block's extraction
/// result, with unnameable blocks skipped.
pub open spec fn spec_extract_all(blocks: Seq<Seq<char>>, strip_pub: bool) -> Seq<SpecMetaStruct>
    decreases blocks.len(),
{
    if blocks.len() == 0 {
        Seq::empty()
    } else {
        match spec_extract(blocks[0], strip_pub) {
            Some(m) => seq![m] + spec_extract_all(blocks.drop_first(), strip_pub),
            None => spec_extract_all(blocks.drop_first(), strip_pub),
        }
    }
}

/// Every definition in a file's text, in order of appearance.
pub open spec fn spec_parse_structs(s: Seq<char>, strip_pub: bool) -> Seq<SpecMetaStruct> {
    spec_extract_all(spec_blocks(s), strip_pub)
}

/// Extracts every structure definition from `content`: discovers the
/// blocks by brace balance and extracts each, skipping malformed ones.
pub fn parse_content(content: &str, strip_pub: bool) -> (r: Vec<MetaStruct>)
    ensures
        r.deep_view() == spec_parse_structs(content@, strip_pub),
{
    let blocks = collect_blocks(content);
    let ghost bv = blocks.deep_view();
    let mut out: Vec<MetaStruct> = Vec::new();
    let mut j: usize = 0;
    proof {
        assert(bv.skip(0) =~= bv);
        assert(out.deep_view() =~= Seq::<SpecMetaStruct>::empty());
        assert(out.deep_view() + spec_extract_all(bv, strip_pub) =~= spec_extract_all(
            bv,
            strip_pub,
        ));
    }
    while j < blocks.len()
        invariant
            j <= blocks@.len(),
            bv == blocks.deep_view(),
            bv.len() == blocks@.len(),
            spec_parse_structs(content@, strip_pub) == out.deep_view() + spec_extract_all(
                bv.skip(j as int),
                strip_pub,
            ),
        decreases blocks@.len() - j,
    {
        let ghost rem = bv.skip(j as int);
        proof {
            assert(rem[0] == bv[j as int]);
            assert(bv[j as int] == blocks@[j as int]@);
            assert(rem.drop_first() =~= bv.skip(j + 1int));
        }
        match extract_block(blocks[j].as_str(), strip_pub) {
            Ok(m) => {
                let ghost mv = m.deep_view();
                push_deep(&mut out, m);
                proof {
                    assert(out.deep_view() + spec_extract_all(bv.skip(j + 1int), strip_pub)
                        =~= out.deep_view().drop_last() + (seq![mv] + spec_extract_all(
                        bv.skip(j + 1int),
                        strip_pub,
                    )));
                }
            },
            Err(_) => {
            },
        }
        j = j + 1;
    }
    proof {
        assert(bv.skip(blocks@.len() as int) =~= Seq::<Seq<char>>::empty());
        assert(out.deep_view() + spec_extract_all(
            bv.skip(blocks@.len() as int),
            strip_pub,
        ) =~= out.deep_view());
    }
    out
}

} // verus!

//! The whole-corpus pipeline: extracts the structure definitions from
//! every discovered file with the extractor its language calls for,
//! merges them into one corpus, and resolves the corpus against the
//! registry. Extraction needs no global knowledge; resolution starts
//! only once every file has been extracted.

use crate::error::Error;
use crate::files::Language;
use crate::parsers::base::spec_parse_structs;
use crate::parsers::base::parse_content;
use crate::parsers::base::MetaField;
use crate::parsers::base::MetaStruct;
use crate::parsers::base::SpecMetaField;
use crate::parsers::base::SpecMetaStruct;
use crate::parsers::c::parse_c_structs;
use crate::parsers::c::spec_c_parse;
use crate::registry::TypeRegistry;
use crate::resolve::acyclic;
use crate::resolve::dup_exists;
use crate::resolve::is_cycle;
use crate::resolve::report_ok;
use crate::resolve::resolve;
use crate::resolve::unique_names;
use crate::resolve::AnalysisReport;
use crate::strutil::push_deep;
use vstd::prelude::*;

verus! {

/// One discovered source file: its path, its detected language, and
/// its raw text.
#[derive(Debug)]
pub struct SourceFile {
    pub path: String,
    pub language: Language,
    pub content: String,
}

/// The mathematical value of a [`SourceFile`].
pub ghost struct SpecSource {
    pub path: Seq<char>,
    pub language: Language,
    pub content: Seq<char>,
}

impl View for SourceFile {
    type V = SpecSource;

    open spec fn view(&self) -> SpecSource {
        SpecSource { path: self.path@, language: self.language, content: self.content@ }
    }
}

impl DeepView for SourceFile {
    type V = SpecSource;

    open spec fn deep_view(&self) -> SpecSource {
        self.view()
    }
}

/// The intermediate form of one structure the C-like rule read.
pub open spec fn c_meta(t: (Seq<char>, Seq<(Seq<char>, Seq<char>)>)) -> SpecMetaStruct {
    SpecMetaStruct {
        name: t.0,
        fields: t.1.map_values(
            |p: (Seq<char>, Seq<char>)| SpecMetaField { field_name: p.0, field_type: p.1 },
        ),
    }
}

/// The definitions one file contributes: the extractor its language
/// calls for, or nothing for a language without one.
pub open spec fn spec_extract_source(f: SpecSource) -> Seq<SpecMetaStruct> {
    match f.language {
        Language::Rust => spec_parse_structs(f.content, true),
        Language::C => spec_c_parse(f.content).map_values(
            |t: (Seq<char>, Seq<(Seq<char>, Seq<char>)>)| c_meta(t),
        ),
        Language::Go => Seq::empty(),
        Language::Cpp => Seq::empty(),
    }
}

/// The merged corpus of every file's definitions, in file order.
pub open spec fn spec_corpus(fs: Seq<SpecSource>) -> Seq<SpecMetaStruct>
    decreases fs.len(),
{
    if fs.len() == 0 {
        Seq::empty()
    } else {
        spec_extract_source(fs[0]) + spec_corpus(fs.drop_first())
    }
}

/// Converts one structure the C-like rule read to the intermediate
/// form.
fn c_struct_to_meta(t: (String, Vec<(String, String)>)) -> (r: MetaStruct)
    ensures
        r.deep_view() == c_meta(t.deep_view()),
{
    let (name, pairs) = t;
    let mut fields: Vec<MetaField> = Vec::new();
    let mut i: usize = 0;
    while i < pairs.len()
        invariant
            i <= pairs@.len(),
            fields@.len() == i,
            forall|k: int|
                0 <= k < i ==> (#[trigger] fields@[k])@ == (SpecMetaField {
                    field_name: pairs@[k].0@,
                    field_type: pairs@[k].1@,
                }),
        decreases pairs@.len() - i,
    {
        fields.push(
            MetaField { field_name: pairs[i].0.clone(), field_type: pairs[i].1.clone() },
        );
        i = i + 1;
    }
    let r = MetaStruct { name, fields };
    proof {
        assert forall|k: int| 0 <= k < r.fields.deep_view().len() implies r.fields.deep_view()[k]
            == c_meta(t.deep_view()).fields[k] by {
            assert(r.fields.deep_view()[k] == r.fields@[k]@);
            assert(t.deep_view().1[k] == (t.1@[k].0@, t.1@[k].1@));
        }
        assert(r.fields.deep_view() =~= c_meta(t.deep_view()).fields);
    }
    r
}

/// Extracts every file and resolves the merged corpus: the full
/// analysis of one run, after discovery and before reporting.
pub fn analyze_sources(files: &Vec<SourceFile>, registry: &mut TypeRegistry) -> (r: Result<
    AnalysisReport,
    Error,
>)
    requires
        old(registry).wf(),
    ensures
        final(registry).wf(),
        dup_exists(spec_corpus(files.deep_view())) <==> (r matches Err(e)
            && e matches Error::DuplicateDefinition(_)),
        match r {
            Ok(rep) => {
                &&& unique_names(spec_corpus(files.deep_view()))
                &&& acyclic(spec_corpus(files.deep_view()))
                &&& report_ok(
                    spec_corpus(files.deep_view()),
                    old(registry)@,
                    final(registry)@,
                    rep,
                )
            },
            Err(e) => match e {
                Error::DuplicateDefinition(_) => final(registry)@ == old(registry)@,
                Error::CyclicDependency(names) => {
                    &&& final(registry)@ == old(registry)@
                    &&& exists|c: Seq<int>|
                        is_cycle(spec_corpus(files.deep_view()), c) && names.deep_view().len()
                            == c.len() && forall|k: int|
                            0 <= k < c.len() ==> names.deep_view()[k] == spec_corpus(
                                files.deep_view(),
                            )[#[trigger] c[k]].name
                },
                _ => false,
            },
        },
{
    let ghost fv = files.deep_view();
    let mut all: Vec<MetaStruct> = Vec::new();
    let mut i: usize = 0;
    let n = files.len();
    proof {
        assert(fv.len() == n);
        assert(fv.take(0) =~= Seq::<SpecSource>::empty());
        assert(all.deep_view() =~= spec_corpus(fv.take(0)));
    }
    while i < n
        invariant
            i <= n == fv.len(),
            fv == files.deep_view(),
            all.deep_view() == spec_corpus(fv.take(i as int)),
        decreases n - i,
    {
        proof {
            assert(fv[i as int] == files@[i as int]@);
        }
        let parsed: Vec<MetaStruct> = match files[i].language {
            Language::Rust => parse_content(files[i].content.as_str(), true),
            Language::C => {
                let raw = parse_c_structs(files[i].content.as_str());
                let ghost rv = raw.deep_view();
                let mut out: Vec<MetaStruct> = Vec::new();
                let mut rest = raw;
                let mut j: usize = 0;
                let nr = rest.len();
                proof {
                    assert(rv.len() == nr);
                }
                while j < nr
                    invariant
                        j <= nr == rv.len(),
                        rest@.len() == nr - j,
                        forall|k: int|
                            0 <= k < nr - j ==> (#[trigger] rest@[k]).deep_view() == rv[j + k],
                        out@.len() == j,
                        forall|k: int|
                            0 <= k < j ==> (#[trigger] out@[k]).deep_view() == c_meta(rv[k]),
                    decreases nr - j,
                {
                    let t = rest.remove(0);
                    proof {
                        assert(t.deep_view() == rv[j as int]);
                        assert forall|k: int|
                            0 <= k < nr - j - 1 implies (#[trigger] rest@[k]).deep_view() == rv[j
                            + 1 + k] by {}
                    }
                    let m = c_struct_to_meta(t);
                    out.push(m);
                    j = j + 1;
                }
                proof {
                    assert forall|k: int|
                        0 <= k < out.deep_view().len() implies out.deep_view()[k]
                        == spec_extract_source(fv[i as int])[k] by {
                        assert(out.deep_view()[k] == out@[k]@);
                    }
                    assert(out.deep_view() =~= spec_extract_source(fv[i as int]));
                }
                out
            },
            Language::Go => Vec::new(),
            Language::Cpp => Vec::new(),
        };
        proof {
            assert(parsed.deep_view() =~= spec_extract_source(fv[i as int]));
        }
        let ghost parsed_v = parsed.deep_view();
        let mut rest = parsed;
        let mut j: usize = 0;
        let nr = rest.len();
        proof {
            assert(parsed_v.len() == nr);
        }
        while j < nr
            invariant
                j <= nr == parsed_v.len(),
                rest@.len() == nr - j,
                forall|k: int| 0 <= k < nr - j ==> (#[trigger] rest@[k]).deep_view() == parsed_v[j
                    + k],
                all.deep_view() == spec_corpus(fv.take(i as int)) + parsed_v.take(j as int),
                i < n == fv.len(),
                fv == files.deep_view(),
            decreases nr - j,
        {
            let m = rest.remove(0);
            proof {
                assert(m.deep_view() == parsed_v[j as int]);
                assert forall|k: int|
                    0 <= k < nr - j - 1 implies (#[trigger] rest@[k]).deep_view() == parsed_v[j + 1
                    + k] by {}
            }
            push_deep(&mut all, m);
            proof {
                assert(parsed_v.take(j + 1int) =~= parsed_v.take(j as int).push(
                    parsed_v[j as int],
                ));
                assert(all.deep_view() =~= spec_corpus(fv.take(i as int)) + parsed_v.take(
                    j + 1int,
                ));
            }
            j = j + 1;
        }
        proof {
            assert(parsed_v.take(nr as int) =~= parsed_v);
            lemma_corpus_snoc(fv, i as int);
            assert(all.deep_view() =~= spec_corpus(fv.take(i + 1int)));
        }
        i = i + 1;
    }
    proof {
        assert(fv.take(n as int) =~= fv);
    }
    resolve(&all, registry)
}

/// Extending the file prefix by one appends that file's definitions.
proof fn lemma_corpus_snoc(fs: Seq<SpecSource>, i: int)
    requires
        0 <= i < fs.len(),
    ensures
        spec_corpus(fs.take(i + 1)) == spec_corpus(fs.take(i)) + spec_extract_source(fs[i]),
    decreases i,
{
    if i == 0 {
        assert(fs.take(1)[0] == fs[0]);
        assert(fs.take(1).drop_first() =~= Seq::<SpecSource>::empty());
        assert(spec_corpus(fs.take(0)) =~= Seq::<SpecMetaStruct>::empty());
        assert(spec_corpus(fs.take(1)) == spec_extract_source(fs.take(1)[0]) + spec_corpus(
            fs.take(1).drop_first(),
        ));
        assert(spec_corpus(fs.take(1).drop_first()) =~= Seq::<SpecMetaStruct>::empty());
        assert(spec_corpus(fs.take(1)) =~= spec_extract_source(fs[0]));
        assert(spec_corpus(fs.take(0)) + spec_extract_source(fs[0]) =~= spec_extract_source(
            fs[0],
        ));
    } else {
        lemma_corpus_snoc(fs.drop_first(), i - 1);
        assert(fs.take(i + 1).drop_first() =~= fs.drop_first().take(i));
        assert(fs.take(i).drop_first() =~= fs.drop_first().take(i - 1));
        assert(fs.take(i + 1)[0] == fs[0]);
        assert(fs.take(i)[0] == fs[0]);
        assert(fs.drop_first()[i - 1] == fs[i]);
        assert(spec_corpus(fs.take(i + 1)) == spec_extract_source(fs[0]) + spec_corpus(
            fs.drop_first().take(i),
        ));
        assert(spec_corpus(fs.take(i)) == spec_extract_source(fs[0]) + spec_corpus(
            fs.drop_first().take(i - 1),
        ));
        assert(spec_extract_source(fs[0]) + (spec_corpus(fs.drop_first().take(i - 1))
            + spec_extract_source(fs[i])) =~= (spec_extract_source(fs[0]) + spec_corpus(
            fs.drop_first().take(i - 1),
        )) + spec_extract_source(fs[i]));
    }
}

} // verus!

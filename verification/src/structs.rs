//! A standalone structure finder over Rust-like text that annotates
//! each extracted field with the default primitive facts for its type:
//! size and alignment from the default table, or zero for a type the
//! table does not know (to be resolved later against the full corpus).

use crate::error::Error;
use crate::parsers::base::extract_block;
use crate::parsers::base::parse_content;
use crate::parsers::base::spec_extract;
use crate::parsers::base::spec_parse_structs;
use crate::parsers::base::SpecMetaField;
use crate::parsers::base::SpecMetaStruct;
use crate::registry::default_registry;
use crate::registry::default_types;
use crate::registry::TypeRegistry;
use vstd::prelude::*;

verus! {

/// The structure finder.
#[derive(Debug)]
pub struct StructFinder {}

/// A raw field annotated with the default primitive facts for its
/// type: zero size and alignment when the type is not in the default
/// table.
#[derive(Debug)]
pub struct MetaField {
    pub field_name: String,
    pub field_type: String,
    pub size: u64,
    pub alignment: u64,
}

/// The mathematical value of a [`MetaField`].
pub ghost struct SpecFieldInfo {
    pub field_name: Seq<char>,
    pub field_type: Seq<char>,
    pub size: int,
    pub alignment: int,
}

impl View for MetaField {
    type V = SpecFieldInfo;

    open spec fn view(&self) -> SpecFieldInfo {
        SpecFieldInfo {
            field_name: self.field_name@,
            field_type: self.field_type@,
            size: self.size as int,
            alignment: self.alignment as int,
        }
    }
}

impl DeepView for MetaField {
    type V = SpecFieldInfo;

    open spec fn deep_view(&self) -> SpecFieldInfo {
        self.view()
    }
}

/// A structure definition with annotated fields.
#[derive(Debug)]
pub struct MetaStruct {
    pub name: String,
    pub fields: Vec<MetaField>,
}

/// The mathematical value of a [`MetaStruct`].
pub ghost struct SpecStructInfo {
    pub name: Seq<char>,
    pub fields: Seq<SpecFieldInfo>,
}

impl View for MetaStruct {
    type V = SpecStructInfo;

    open spec fn view(&self) -> SpecStructInfo {
        SpecStructInfo { name: self.name@, fields: self.fields.deep_view() }
    }
}

impl DeepView for MetaStruct {
    type V = SpecStructInfo;

    open spec fn deep_view(&self) -> SpecStructInfo {
        self.view()
    }
}

/// The annotation of one raw field against the default table.
pub open spec fn info_of(f: SpecMetaField) -> SpecFieldInfo {
    if default_types().dom().contains(f.field_type) {
        SpecFieldInfo {
            field_name: f.field_name,
            field_type: f.field_type,
            size: default_types()[f.field_type].size as int,
            alignment: default_types()[f.field_type].nat_align as int,
        }
    } else {
        SpecFieldInfo {
            field_name: f.field_name,
            field_type: f.field_type,
            size: 0,
            alignment: 0,
        }
    }
}

/// The annotation of one extracted structure.
pub open spec fn spec_annotate(m: SpecMetaStruct) -> SpecStructInfo {
    SpecStructInfo { name: m.name, fields: m.fields.map_values(|f: SpecMetaField| info_of(f)) }
}

/// The annotation of a whole extraction result.
pub open spec fn spec_annotate_all(ms: Seq<SpecMetaStruct>) -> Seq<SpecStructInfo> {
    ms.map_values(|m: SpecMetaStruct| spec_annotate(m))
}

/// Annotates an extracted structure with default facts for each field.
fn annotate(m: crate::parsers::base::MetaStruct, registry: &TypeRegistry) -> (r: MetaStruct)
    requires
        registry@ == default_types(),
    ensures
        r.deep_view() == spec_annotate(m.deep_view()),
{
    let mut fields: Vec<MetaField> = Vec::new();
    let mut i: usize = 0;
    let n = m.fields.len();
    while i < n
        invariant
            i <= n == m.fields@.len(),
            registry@ == default_types(),
            fields@.len() == i,
            forall|k: int|
                0 <= k < i ==> (#[trigger] fields@[k])@ == info_of(m.fields.deep_view()[k]),
        decreases n - i,
    {
        let f = &m.fields[i];
        proof {
            assert(m.fields.deep_view()[i as int] == m.fields@[i as int]@);
        }
        let (size, alignment) = match registry.lookup(f.field_type.as_str()) {
            Some(info) => (info.size, info.nat_align),
            None => (0u64, 0u64),
        };
        fields.push(
            MetaField {
                field_name: f.field_name.clone(),
                field_type: f.field_type.clone(),
                size,
                alignment,
            },
        );
        i = i + 1;
    }
    let r = MetaStruct { name: m.name, fields };
    proof {
        assert forall|k: int| 0 <= k < r.fields.deep_view().len() implies r.fields.deep_view()[k]
            == spec_annotate(m.deep_view()).fields[k] by {
            assert(r.fields.deep_view()[k] == r.fields@[k]@);
        }
        assert(r.fields.deep_view() =~= spec_annotate(m.deep_view()).fields);
    }
    r
}

impl StructFinder {
    /// A new structure finder.
    pub fn new() -> StructFinder {
        StructFinder {  }
    }

    /// Splits one structure block into an annotated definition. Fails
    /// with `MalformedDefinition` exactly when the block has no
    /// discoverable, non-empty name.
    pub fn parse_struct(&self, struct_str: &str) -> (r: Result<MetaStruct, Error>)
        ensures
            match r {
                Ok(m) => spec_extract(struct_str@, false) is Some && m.deep_view()
                    == spec_annotate(spec_extract(struct_str@, false)->Some_0),
                Err(e) => spec_extract(struct_str@, false) is None && e is MalformedDefinition,
            },
    {
        match extract_block(struct_str, false) {
            Ok(m) => {
                let registry = default_registry();
                Ok(annotate(m, &registry))
            },
            Err(e) => Err(e),
        }
    }

    /// Extracts every structure definition from one file's text,
    /// annotated, skipping malformed blocks.
    pub fn parse(&self, file_content: String) -> (r: Result<Vec<MetaStruct>, Error>)
        ensures
            r is Ok,
            r->Ok_0.deep_view() == spec_annotate_all(spec_parse_structs(file_content@, false)),
    {
        let raw = parse_content(file_content.as_str(), false);
        let registry = default_registry();
        let mut out: Vec<MetaStruct> = Vec::new();
        let ghost rv = raw.deep_view();
        let mut i: usize = 0;
        let n = raw.len();
        let mut rest = raw;
        proof {
            assert(rv.len() == n);
        }
        while i < n
            invariant
                i <= n == rv.len(),
                rest@.len() == n - i,
                registry@ == default_types(),
                forall|k: int| 0 <= k < n - i ==> (#[trigger] rest@[k])@ == rv[i + k],
                out@.len() == i,
                forall|k: int| 0 <= k < i ==> (#[trigger] out@[k])@ == spec_annotate(rv[k]),
            decreases n - i,
        {
            let m = rest.remove(0);
            proof {
                assert(m@ == rv[i as int]);
                assert forall|k: int| 0 <= k < n - i - 1 implies (#[trigger] rest@[k])@ == rv[i + 1
                    + k] by {}
            }
            let a = annotate(m, &registry);
            out.push(a);
            i = i + 1;
        }
        proof {
            assert forall|k: int| 0 <= k < out.deep_view().len() implies out.deep_view()[k]
                == spec_annotate_all(rv)[k] by {
                assert(out.deep_view()[k] == out@[k]@);
            }
            assert(out.deep_view() =~= spec_annotate_all(rv));
        }
        Ok(out)
    }
}

} // verus!

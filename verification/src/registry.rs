//! The type registry: a run-scoped store mapping type names to their
//! size and natural alignment. It is seeded with the default primitive
//! facts, may be overridden by external configuration before analysis
//! begins, and receives an entry for each structure as it is resolved.

use crate::strutil::str_eq;
use vstd::prelude::*;

verus! {

/// Size and natural alignment of a type, in bytes.
#[derive(Clone, Copy, Debug, PartialEq, Eq, Structural)]
pub struct TypeInfo {
    pub nat_align: u64,
    pub size: u64,
}

/// The mapping that a sequence of registrations denotes: later entries
/// shadow earlier ones of the same name.
pub open spec fn entries_map(entries: Seq<(String, TypeInfo)>) -> Map<Seq<char>, TypeInfo>
    decreases entries.len(),
{
    if entries.len() == 0 {
        Map::empty()
    } else {
        entries_map(entries.drop_last()).insert(entries.last().0@, entries.last().1)
    }
}

/// The run-scoped registry of resolved types. Explicitly constructed
/// for each invocation; never shared across runs.
pub struct TypeRegistry {
    entries: Vec<(String, TypeInfo)>,
}

impl View for TypeRegistry {
    type V = Map<Seq<char>, TypeInfo>;

    closed spec fn view(&self) -> Map<Seq<char>, TypeInfo> {
        entries_map(self.entries@)
    }
}

/// If no entry from position `i` on is named `k`, the first `i` entries
/// decide `k` entirely.
proof fn lemma_map_unaffected(entries: Seq<(String, TypeInfo)>, i: int, k: Seq<char>)
    requires
        0 <= i <= entries.len(),
        forall|j: int| i <= j < entries.len() ==> (#[trigger] entries[j]).0@ != k,
    ensures
        entries_map(entries).dom().contains(k) == entries_map(entries.take(i)).dom().contains(k),
        entries_map(entries).dom().contains(k) ==> entries_map(entries)[k] == entries_map(
            entries.take(i),
        )[k],
    decreases entries.len() - i,
{
    if i < entries.len() {
        lemma_map_unaffected(entries.take(entries.len() - 1), i, k);
        assert(entries.take(entries.len() - 1).take(i) =~= entries.take(i));
        assert forall|j: int|
            i <= j < entries.take(entries.len() - 1).len() implies (#[trigger] entries.take(
            entries.len() - 1,
        )[j]).0@ != k by {
            assert(entries.take(entries.len() - 1)[j] == entries[j]);
        }
        assert(entries_map(entries) == entries_map(entries.drop_last()).insert(
            entries.last().0@,
            entries.last().1,
        ));
        assert(entries.drop_last() =~= entries.take(entries.len() - 1));
    } else {
        assert(entries.take(entries.len() as int) =~= entries);
    }
}

impl TypeRegistry {
    /// Every registered alignment is at least 1.
    pub open spec fn wf(self) -> bool {
        forall|k: Seq<char>|
            self@.dom().contains(k) ==> (#[trigger] self@[k]).nat_align >= 1
    }

    /// An empty registry.
    pub fn new() -> (r: TypeRegistry)
        ensures
            r@ == Map::<Seq<char>, TypeInfo>::empty(),
            r.wf(),
    {
        TypeRegistry { entries: Vec::new() }
    }

    /// Registers `info` under `name`, replacing any earlier entry of
    /// that name. Used both for primitives and for resolved structures.
    pub fn register(&mut self, name: String, info: TypeInfo)
        requires
            old(self).wf(),
            info.nat_align >= 1,
        ensures
            final(self)@ == old(self)@.insert(name@, info),
            final(self).wf(),
    {
        let ghost old_entries = self.entries@;
        self.entries.push((name, info));
        proof {
            assert(self.entries@.drop_last() =~= old_entries);
        }
    }

    /// Looks a type name up: the entry registered last under that name,
    /// if any.
    pub fn lookup(&self, name: &str) -> (r: Option<TypeInfo>)
        ensures
            r == if self@.dom().contains(name@) {
                Some(self@[name@])
            } else {
                None::<TypeInfo>
            },
            self.wf() && r is Some ==> r->Some_0.nat_align >= 1,
    {
        let ghost es = self.entries@;
        let mut i: usize = self.entries.len();
        while i > 0
            invariant
                i <= es.len(),
                es == self.entries@,
                forall|j: int| i <= j < es.len() ==> (#[trigger] es[j]).0@ != name@,
            decreases i,
        {
            i = i - 1;
            if str_eq(self.entries[i].0.as_str(), name) {
                proof {
                    lemma_map_unaffected(es, i + 1, name@);
                    assert(es.take(i + 1).drop_last() =~= es.take(i as int));
                    assert(es.take(i + 1).last() == es[i as int]);
                }
                return Some(self.entries[i].1);
            }
        }
        proof {
            lemma_map_unaffected(es, 0, name@);
            assert(es.take(0) =~= Seq::<(String, TypeInfo)>::empty());
        }
        None
    }

    /// The mapping after a sequence of overrides is applied on top of
    /// `m`: each override replaces or adds an entry.
    pub open spec fn applied(m: Map<Seq<char>, TypeInfo>, ovs: Seq<(String, TypeInfo)>) -> Map<
        Seq<char>,
        TypeInfo,
    >
        decreases ovs.len(),
    {
        if ovs.len() == 0 {
            m
        } else {
            Self::applied(m, ovs.drop_last()).insert(ovs.last().0@, ovs.last().1)
        }
    }

    /// Applies externally supplied overrides before any extraction
    /// begins: each replaces a known type's facts or adds a new
    /// primitive.
    pub fn apply_overrides(&mut self, ovs: &Vec<(String, TypeInfo)>)
        requires
            old(self).wf(),
            forall|i: int| 0 <= i < ovs@.len() ==> (#[trigger] ovs@[i]).1.nat_align >= 1,
        ensures
            final(self)@ == Self::applied(old(self)@, ovs@),
            final(self).wf(),
    {
        let mut i: usize = 0;
        proof {
            assert(ovs@.take(0) =~= Seq::<(String, TypeInfo)>::empty());
        }
        while i < ovs.len()
            invariant
                i <= ovs@.len(),
                self@ == Self::applied(old(self)@, ovs@.take(i as int)),
                self.wf(),
                forall|j: int| 0 <= j < ovs@.len() ==> (#[trigger] ovs@[j]).1.nat_align >= 1,
            decreases ovs@.len() - i,
        {
            self.register(ovs[i].0.clone(), ovs[i].1);
            proof {
                assert(ovs@.take(i + 1int).drop_last() =~= ovs@.take(i as int));
                assert(ovs@.take(i + 1int).last() == ovs@[i as int]);
            }
            i = i + 1;
        }
        proof {
            assert(ovs@.take(ovs@.len() as int) =~= ovs@);
        }
    }
}

/// The default primitive facts a registry starts from.
pub open spec fn default_types() -> Map<Seq<char>, TypeInfo> {
    Map::<Seq<char>, TypeInfo>::empty().insert("u8"@, TypeInfo { nat_align: 1, size: 1 }).insert(
        "i8"@,
        TypeInfo { nat_align: 1, size: 1 },
    ).insert("u16"@, TypeInfo { nat_align: 2, size: 2 }).insert(
        "i16"@,
        TypeInfo { nat_align: 2, size: 2 },
    ).insert("u32"@, TypeInfo { nat_align: 4, size: 4 }).insert(
        "i32"@,
        TypeInfo { nat_align: 4, size: 4 },
    ).insert("u64"@, TypeInfo { nat_align: 8, size: 8 }).insert(
        "i64"@,
        TypeInfo { nat_align: 8, size: 8 },
    ).insert("f32"@, TypeInfo { nat_align: 4, size: 4 }).insert(
        "f64"@,
        TypeInfo { nat_align: 8, size: 8 },
    ).insert("bool"@, TypeInfo { nat_align: 1, size: 1 }).insert(
        "char"@,
        TypeInfo { nat_align: 4, size: 4 },
    ).insert("String"@, TypeInfo { nat_align: 1, size: 3 })
}

/// A registry seeded with the default primitive facts.
pub fn default_registry() -> (r: TypeRegistry)
    ensures
        r@ == default_types(),
        r.wf(),
{
    let mut r = TypeRegistry::new();
    r.register("u8".to_owned(), TypeInfo { nat_align: 1, size: 1 });
    r.register("i8".to_owned(), TypeInfo { nat_align: 1, size: 1 });
    r.register("u16".to_owned(), TypeInfo { nat_align: 2, size: 2 });
    r.register("i16".to_owned(), TypeInfo { nat_align: 2, size: 2 });
    r.register("u32".to_owned(), TypeInfo { nat_align: 4, size: 4 });
    r.register("i32".to_owned(), TypeInfo { nat_align: 4, size: 4 });
    r.register("u64".to_owned(), TypeInfo { nat_align: 8, size: 8 });
    r.register("i64".to_owned(), TypeInfo { nat_align: 8, size: 8 });
    r.register("f32".to_owned(), TypeInfo { nat_align: 4, size: 4 });
    r.register("f64".to_owned(), TypeInfo { nat_align: 8, size: 8 });
    r.register("bool".to_owned(), TypeInfo { nat_align: 1, size: 1 });
    r.register("char".to_owned(), TypeInfo { nat_align: 4, size: 4 });
    r.register("String".to_owned(), TypeInfo { nat_align: 1, size: 3 });
    r
}

} // verus!

//! The layout optimizer: proposes a field ordering that minimizes
//! padding by sorting fields by descending alignment, then descending
//! size, then ascending declaration index, and keeps the original order
//! whenever the candidate is not strictly smaller.

use crate::layout::compute_layout;
use crate::layout::fields_valid;
use crate::layout::layout_matches;
use crate::layout::spec_total_size;
use crate::layout::Layout;
use crate::layout::LayoutEntry;
use crate::layout::ResolvedField;
use crate::layout::SpecField;
use vstd::prelude::*;
use vstd::seq_lib::group_to_multiset_ensures;

verus! {

/// A candidate field ordering, its layout, and the bytes saved relative
/// to the original ordering (zero when the original order is kept).
#[derive(Debug)]
pub struct OptimizationSuggestion {
    pub order: Vec<ResolvedField>,
    pub layout: Layout,
    pub bytes_saved: u64,
}

/// The reordering policy's order relation: `a` may stand before `b`
/// when `a` has higher alignment, or equal alignment and larger size,
/// or equal alignment and size and an earlier declaration index.
pub open spec fn field_le(a: SpecField, b: SpecField) -> bool {
    ||| a.alignment > b.alignment
    ||| (a.alignment == b.alignment && a.size > b.size)
    ||| (a.alignment == b.alignment && a.size == b.size && a.decl_index <= b.decl_index)
}

/// The sequence is sorted by the reordering policy's order.
pub open spec fn sorted_fields(s: Seq<SpecField>) -> bool {
    forall|i: int, j: int| 0 <= i <= j < s.len() ==> field_le(#[trigger] s[i], #[trigger] s[j])
}

/// No two fields share a declaration index.
pub open spec fn distinct_indices(s: Seq<SpecField>) -> bool {
    forall|i: int, j: int|
        0 <= i < j < s.len() ==> (#[trigger] s[i]).decl_index != (#[trigger] s[j]).decl_index
}

/// The one candidate order the policy considers: a permutation of the
/// fields sorted by the policy's order.
pub open spec fn is_candidate(fs: Seq<SpecField>, cand: Seq<SpecField>) -> bool {
    &&& cand.to_multiset() == fs.to_multiset()
    &&& sorted_fields(cand)
}

/// Everything `optimize` promises: the suggested order is a permutation
/// of the input fields; its layout is exact for that order; the bytes
/// saved are the exact difference of the total sizes; and the suggested
/// order is the sorted candidate when that candidate is strictly
/// smaller, and the unchanged input order otherwise.
pub open spec fn optimize_post(fs: Seq<SpecField>, s: OptimizationSuggestion) -> bool {
    let ov = s.order.deep_view();
    &&& ov.to_multiset() == fs.to_multiset()
    &&& layout_matches(ov, s.layout)
    &&& s.bytes_saved as int == spec_total_size(fs) - spec_total_size(ov)
    &&& spec_total_size(ov) <= spec_total_size(fs)
    &&& exists|cand: Seq<SpecField>|
        #[trigger] is_candidate(fs, cand) && if spec_total_size(cand) < spec_total_size(fs) {
            ov == cand
        } else {
            ov == fs && s.bytes_saved == 0
        }
}

/// Executable mirror of [`field_le`].
fn field_le_exec(a: &ResolvedField, b: &ResolvedField) -> (r: bool)
    ensures
        r == field_le(a@, b@),
{
    a.alignment > b.alignment || (a.alignment == b.alignment && a.size > b.size) || (a.alignment
        == b.alignment && a.size == b.size && a.decl_index <= b.decl_index)
}

/// A copy of a field that denotes the same mathematical value.
fn copy_field(f: &ResolvedField) -> (r: ResolvedField)
    ensures
        r@ == f@,
{
    ResolvedField {
        name: f.name.clone(),
        size: f.size,
        alignment: f.alignment,
        decl_index: f.decl_index,
    }
}

/// A copy of a field vector that denotes the same sequence of values.
fn copy_fields(v: &Vec<ResolvedField>) -> (r: Vec<ResolvedField>)
    ensures
        r.deep_view() == v.deep_view(),
{
    let mut r: Vec<ResolvedField> = Vec::new();
    let mut i: usize = 0;
    while i < v.len()
        invariant
            i <= v@.len(),
            r@.len() == i,
            forall|k: int| 0 <= k < i ==> (#[trigger] r@[k])@ == v@[k]@,
        decreases v@.len() - i,
    {
        let x = copy_field(&v[i]);
        r.push(x);
        i = i + 1;
    }
    proof {
        assert forall|k: int| 0 <= k < r.deep_view().len() implies r.deep_view()[k]
            == v.deep_view()[k] by {
            assert(r.deep_view()[k] == r@[k]@);
            assert(v.deep_view()[k] == v@[k]@);
        }
        assert(r.deep_view() =~= v.deep_view());
    }
    r
}

/// A copy of a layout with the same contents.
fn copy_layout(l: &Layout) -> (r: Layout)
    ensures
        r.entries@.len() == l.entries@.len(),
        forall|i: int|
            0 <= i < l.entries@.len() ==> {
                &&& (#[trigger] r.entries@[i]).name@ == l.entries@[i].name@
                &&& r.entries@[i].offset == l.entries@[i].offset
                &&& r.entries@[i].size == l.entries@[i].size
                &&& r.entries@[i].padding_before == l.entries@[i].padding_before
            },
        r.trailing_padding == l.trailing_padding,
        r.total_size == l.total_size,
        r.alignment == l.alignment,
{
    let mut entries: Vec<LayoutEntry> = Vec::new();
    let mut i: usize = 0;
    while i < l.entries.len()
        invariant
            i <= l.entries@.len(),
            entries@.len() == i,
            forall|k: int|
                0 <= k < i ==> {
                    &&& (#[trigger] entries@[k]).name@ == l.entries@[k].name@
                    &&& entries@[k].offset == l.entries@[k].offset
                    &&& entries@[k].size == l.entries@[k].size
                    &&& entries@[k].padding_before == l.entries@[k].padding_before
                },
        decreases l.entries@.len() - i,
    {
        entries.push(
            LayoutEntry {
                name: l.entries[i].name.clone(),
                offset: l.entries[i].offset,
                size: l.entries[i].size,
                padding_before: l.entries[i].padding_before,
            },
        );
        i = i + 1;
    }
    Layout {
        entries,
        trailing_padding: l.trailing_padding,
        total_size: l.total_size,
        alignment: l.alignment,
    }
}

/// Sorts the fields by the reordering policy's order; the result is a
/// permutation of the input.
fn sort_fields(v: &Vec<ResolvedField>) -> (r: Vec<ResolvedField>)
    ensures
        sorted_fields(r.deep_view()),
        r.deep_view().to_multiset() == v.deep_view().to_multiset(),
{
    let ghost dv = v.deep_view();
    let mut r: Vec<ResolvedField> = Vec::new();
    let mut i: usize = 0;
    proof {
        broadcast use group_to_multiset_ensures;

        assert(r.deep_view() =~= Seq::<SpecField>::empty());
        assert(dv.take(0) =~= Seq::<SpecField>::empty());
        assert(r.deep_view().to_multiset() =~= dv.take(0).to_multiset());
    }
    while i < v.len()
        invariant
            i <= dv.len(),
            dv == v.deep_view(),
            dv.len() == v@.len(),
            sorted_fields(r.deep_view()),
            r.deep_view().to_multiset() == dv.take(i as int).to_multiset(),
        decreases dv.len() - i,
    {
        let x = copy_field(&v[i]);
        let ghost xv = x@;
        proof {
            assert(dv[i as int] == v@[i as int]@);
            assert(xv == dv[i as int]);
        }
        let mut p: usize = 0;
        while p < r.len() && field_le_exec(&r[p], &x)
            invariant
                p <= r@.len(),
                r@.len() == r.deep_view().len(),
                forall|k: int| 0 <= k < p ==> field_le(#[trigger] r.deep_view()[k], xv),
                xv == x@,
                sorted_fields(r.deep_view()),
            decreases r@.len() - p,
        {
            proof {
                assert(r.deep_view()[p as int] == r@[p as int]@);
            }
            p = p + 1;
        }
        proof {
            if p < r@.len() {
                assert(r.deep_view()[p as int] == r@[p as int]@);
                assert(!field_le(r.deep_view()[p as int], xv));
            }
        }
        let ghost old_dv = r.deep_view();
        r.insert(p, x);
        proof {
            broadcast use group_to_multiset_ensures;

            let new_dv = r.deep_view();
            assert(new_dv =~= old_dv.insert(p as int, xv));
            assert(new_dv.remove(p as int) =~= old_dv);
            assert(new_dv[p as int] == xv);
            assert(new_dv.remove(p as int).to_multiset() =~= new_dv.to_multiset().remove(xv));
            assert(new_dv.to_multiset().contains(xv)) by {
                assert(new_dv[p as int] == xv);
                assert(new_dv.contains(xv));
            }
            assert(new_dv.to_multiset() =~= old_dv.to_multiset().insert(xv));
            assert(dv.take(i + 1int).drop_last() =~= dv.take(i as int));
            assert(dv.take(i + 1int) =~= dv.take(i as int).push(dv[i as int]));
            assert(dv.take(i + 1int).to_multiset() =~= dv.take(i as int).to_multiset().insert(
                dv[i as int],
            ));
            assert forall|a: int, b: int|
                0 <= a <= b < new_dv.len() implies field_le(#[trigger] new_dv[a], #[trigger] new_dv[b]) by {
                if a < p && b < p {
                    assert(new_dv[a] == old_dv[a]);
                    assert(new_dv[b] == old_dv[b]);
                } else if a < p && b == p {
                    assert(new_dv[a] == old_dv[a]);
                } else if a < p && b > p {
                    assert(new_dv[a] == old_dv[a]);
                    assert(new_dv[b] == old_dv[b - 1]);
                } else if a == p && b == p {
                } else if a == p && b > p {
                    assert(new_dv[b] == old_dv[b - 1]);
                    if p < old_dv.len() {
                        assert(!field_le(old_dv[p as int], xv));
                        assert(field_le(old_dv[p as int], old_dv[b - 1]));
                    }
                } else {
                    assert(new_dv[a] == old_dv[a - 1]);
                    assert(new_dv[b] == old_dv[b - 1]);
                }
            }
        }
        i = i + 1;
    }
    proof {
        assert(dv.take(dv.len() as int) =~= dv);
    }
    r
}

/// Computes the suggestion for `fields`, whose layout in the declared
/// order is `original`. Returns `None` only when the candidate order's
/// total size would not fit in a `u64`.
pub fn optimize(fields: &Vec<ResolvedField>, original: &Layout) -> (r: Option<
    OptimizationSuggestion,
>)
    requires
        fields_valid(fields.deep_view()),
        layout_matches(fields.deep_view(), *original),
    ensures
        match r {
            Some(s) => optimize_post(fields.deep_view(), s),
            None => exists|cand: Seq<SpecField>|
                #[trigger] is_candidate(fields.deep_view(), cand) && spec_total_size(cand)
                    > u64::MAX,
        },
{
    let ghost fs = fields.deep_view();
    let sorted = sort_fields(fields);
    let ghost cand = sorted.deep_view();
    proof {
        assert(is_candidate(fs, cand));
        assert forall|k: int| 0 <= k < cand.len() implies (#[trigger] cand[k]).alignment >= 1
            && cand[k].size >= 0 by {
            broadcast use group_to_multiset_ensures;

            assert(cand.to_multiset().contains(cand[k])) by {
                assert(cand.contains(cand[k]));
            }
            assert(fs.to_multiset().contains(cand[k]));
            assert(fs.contains(cand[k]));
        }
    }
    let cand_layout = match compute_layout(&sorted) {
        Some(l) => l,
        None => {
            return None;
        },
    };
    if cand_layout.total_size < original.total_size {
        let saved = original.total_size - cand_layout.total_size;
        Some(OptimizationSuggestion { order: sorted, layout: cand_layout, bytes_saved: saved })
    } else {
        let order = copy_fields(fields);
        let layout = copy_layout(original);
        proof {
            assert(layout_matches(fs, layout));
        }
        Some(OptimizationSuggestion { order, layout, bytes_saved: 0 })
    }
}

/// The optimizer never changes the field set or the fields'
/// identities, only their order: every suggested order is a
/// permutation of the input fields.
pub proof fn lemma_optimizer_preserves_fields(fs: Seq<SpecField>, s: OptimizationSuggestion)
    requires
        optimize_post(fs, s),
    ensures
        s.order.deep_view().to_multiset() == fs.to_multiset(),
        s.order.deep_view().len() == fs.len(),
{
    broadcast use group_to_multiset_ensures;

    assert(s.order.deep_view().to_multiset().len() == s.order.deep_view().len());
    assert(fs.to_multiset().len() == fs.len());
}

/// No two sorted permutations of the same fields differ when the
/// declaration indices are distinct: the policy's order is then total
/// and antisymmetric, so the sorted order is unique.
pub proof fn lemma_sorted_perm_unique(x: Seq<SpecField>, y: Seq<SpecField>)
    requires
        sorted_fields(x),
        sorted_fields(y),
        x.to_multiset() == y.to_multiset(),
        distinct_indices(x),
    ensures
        x == y,
    decreases x.len(),
{
    broadcast use group_to_multiset_ensures;

    assert(x.to_multiset().len() == x.len());
    assert(y.to_multiset().len() == y.len());
    if x.len() == 0 {
        assert(x =~= y);
    } else {
        assert(y.len() == x.len());
        assert(x.to_multiset().contains(x[0])) by {
            assert(x.contains(x[0]));
        }
        assert(y.to_multiset().contains(x[0]));
        assert(y.contains(x[0]));
        let k = choose|k: int| 0 <= k < y.len() && y[k] == x[0];
        assert(y.to_multiset().contains(y[0])) by {
            assert(y.contains(y[0]));
        }
        assert(x.to_multiset().contains(y[0]));
        assert(x.contains(y[0]));
        let m = choose|m: int| 0 <= m < x.len() && x[m] == y[0];
        assert(field_le(y[0], y[k]));
        assert(field_le(x[0], x[m]));
        assert(x[0].decl_index == y[0].decl_index && x[0].alignment == y[0].alignment && x[0].size
            == y[0].size);
        assert(x[m].decl_index == x[0].decl_index);
        if m != 0 {
            assert(x[0].decl_index != x[m].decl_index);
        }
        assert(x[0] == y[0]);
        let xt = x.remove(0);
        let yt = y.remove(0);
        assert(xt.to_multiset() =~= x.to_multiset().remove(x[0]));
        assert(yt.to_multiset() =~= y.to_multiset().remove(y[0]));
        assert(xt.to_multiset() == yt.to_multiset());
        assert(sorted_fields(xt)) by {
            assert forall|a: int, b: int|
                0 <= a <= b < xt.len() implies field_le(#[trigger] xt[a], #[trigger] xt[b]) by {
                assert(xt[a] == x[a + 1]);
                assert(xt[b] == x[b + 1]);
            }
        }
        assert(sorted_fields(yt)) by {
            assert forall|a: int, b: int|
                0 <= a <= b < yt.len() implies field_le(#[trigger] yt[a], #[trigger] yt[b]) by {
                assert(yt[a] == y[a + 1]);
                assert(yt[b] == y[b + 1]);
            }
        }
        assert(distinct_indices(xt)) by {
            assert forall|a: int, b: int|
                0 <= a < b < xt.len() implies (#[trigger] xt[a]).decl_index
                != (#[trigger] xt[b]).decl_index by {
                assert(xt[a] == x[a + 1]);
                assert(xt[b] == x[b + 1]);
            }
        }
        lemma_sorted_perm_unique(xt, yt);
        assert(x =~= y) by {
            assert forall|j: int| 0 <= j < x.len() implies x[j] == y[j] by {
                if j > 0 {
                    assert(xt[j - 1] == x[j]);
                    assert(yt[j - 1] == y[j]);
                }
            }
        }
    }
}

/// A permutation of fields with distinct declaration indices itself has
/// distinct declaration indices.
pub proof fn lemma_distinct_preserved(fs: Seq<SpecField>, o: Seq<SpecField>)
    requires
        distinct_indices(fs),
        o.to_multiset() == fs.to_multiset(),
    ensures
        distinct_indices(o),
{
    broadcast use group_to_multiset_ensures;

    assert forall|i: int, j: int|
        0 <= i < j < o.len() implies (#[trigger] o[i]).decl_index != (#[trigger] o[j]).decl_index by {
        if o[i] == o[j] {
            let removed = o.remove(i);
            assert(removed.to_multiset() =~= o.to_multiset().remove(o[i]));
            assert(removed[j - 1] == o[j]);
            assert(removed.contains(o[j]));
            assert(removed.to_multiset().contains(o[j]));
            assert(o.to_multiset().count(o[i]) >= 2);
            assert(fs.to_multiset().count(o[i]) >= 2);
            let a = choose|a: int| 0 <= a < fs.len() && fs[a] == o[i];
            assert(fs.to_multiset().contains(o[i])) by {
                assert(fs.to_multiset().count(o[i]) >= 2);
            }
            assert(fs.contains(o[i]));
            let fa = choose|a: int| 0 <= a < fs.len() && fs[a] == o[i];
            let frem = fs.remove(fa);
            assert(frem.to_multiset() =~= fs.to_multiset().remove(fs[fa]));
            assert(frem.to_multiset().count(o[i]) >= 1);
            assert(frem.contains(o[i]));
            let fb = choose|b: int| 0 <= b < frem.len() && frem[b] == o[i];
            if fb < fa {
                assert(frem[fb] == fs[fb]);
                assert(fs[fb].decl_index == fs[fa].decl_index);
            } else {
                assert(frem[fb] == fs[fb + 1]);
                assert(fs[fb + 1].decl_index == fs[fa].decl_index);
            }
        } else {
            if o[i].decl_index == o[j].decl_index {
                assert(o.to_multiset().contains(o[i])) by {
                    assert(o.contains(o[i]));
                }
                assert(fs.contains(o[i]));
                assert(o.to_multiset().contains(o[j])) by {
                    assert(o.contains(o[j]));
                }
                assert(fs.contains(o[j]));
                let a = choose|a: int| 0 <= a < fs.len() && fs[a] == o[i];
                let b = choose|b: int| 0 <= b < fs.len() && fs[b] == o[j];
                assert(a != b);
            }
        }
    }
}

/// Idempotence of the optimizer: running the policy on a suggested
/// order saves nothing further and leaves the order unchanged.
pub proof fn lemma_optimize_idempotent(
    fs: Seq<SpecField>,
    s1: OptimizationSuggestion,
    s2: OptimizationSuggestion,
)
    requires
        distinct_indices(fs),
        optimize_post(fs, s1),
        optimize_post(s1.order.deep_view(), s2),
    ensures
        s2.bytes_saved == 0,
        s2.order.deep_view() == s1.order.deep_view(),
{
    let o1 = s1.order.deep_view();
    let o2 = s2.order.deep_view();
    lemma_distinct_preserved(fs, o1);
    let cand1 = choose|cand: Seq<SpecField>|
        #[trigger] is_candidate(fs, cand) && if spec_total_size(cand) < spec_total_size(fs) {
            o1 == cand
        } else {
            o1 == fs && s1.bytes_saved == 0
        };
    let cand2 = choose|cand: Seq<SpecField>|
        #[trigger] is_candidate(o1, cand) && if spec_total_size(cand) < spec_total_size(o1) {
            o2 == cand
        } else {
            o2 == o1 && s2.bytes_saved == 0
        };
    if spec_total_size(cand1) < spec_total_size(fs) {
        // the sorted candidate was adopted, so the suggested order is
        // itself sorted and the second sort cannot change it
        assert(o1 == cand1);
        assert(sorted_fields(o1));
        lemma_sorted_perm_unique(o1, cand2);
        assert(spec_total_size(cand2) == spec_total_size(o1));
    } else {
        // the original order was kept; both candidates sort the same
        // multiset, so the second candidate saves nothing either
        assert(o1 == fs);
        assert(is_candidate(fs, cand2));
        lemma_distinct_preserved(fs, cand1);
        lemma_sorted_perm_unique(cand1, cand2);
        assert(spec_total_size(cand2) >= spec_total_size(fs));
    }
}

} // verus!

//! The layout calculator: given a structure's fields in a fixed order,
//! each with a resolved size and natural alignment, computes every field
//! offset, the padding before each field, the trailing padding, the
//! structure alignment and the total size under the natural-alignment
//! model.

use vstd::arithmetic::div_mod::lemma_fundamental_div_mod;
use vstd::arithmetic::div_mod::lemma_mod_multiples_basic;
use vstd::arithmetic::div_mod::lemma_mod_self_0;
use vstd::arithmetic::div_mod::lemma_small_mod;
use vstd::prelude::*;

verus! {

/// A field whose type has been resolved to a concrete size and
/// alignment.
#[derive(Debug)]
pub struct ResolvedField {
    pub name: String,
    pub size: u64,
    pub alignment: u64,
    /// The field's position in the structure's declared order; the
    /// stable tie-break when reordering.
    pub decl_index: usize,
}

/// The mathematical value of a [`ResolvedField`].
pub ghost struct SpecField {
    pub name: Seq<char>,
    pub size: int,
    pub alignment: int,
    pub decl_index: int,
}

impl View for ResolvedField {
    type V = SpecField;

    open spec fn view(&self) -> SpecField {
        SpecField {
            name: self.name@,
            size: self.size as int,
            alignment: self.alignment as int,
            decl_index: self.decl_index as int,
        }
    }
}

impl DeepView for ResolvedField {
    type V = SpecField;

    open spec fn deep_view(&self) -> SpecField {
        self.view()
    }
}

/// One laid-out field: where it sits and how much padding precedes it.
#[derive(Debug)]
pub struct LayoutEntry {
    pub name: String,
    pub offset: u64,
    pub size: u64,
    pub padding_before: u64,
}

/// The complete layout of one structure under one field ordering.
#[derive(Debug)]
pub struct Layout {
    pub entries: Vec<LayoutEntry>,
    pub trailing_padding: u64,
    pub total_size: u64,
    pub alignment: u64,
}

/// The padding needed to advance `off` to the next multiple of `align`.
pub open spec fn spec_pad(off: int, align: int) -> int
    recommends
        align >= 1,
        off >= 0,
{
    (align - off % align) % align
}

/// Every field has an alignment of at least 1 and a non-negative size.
pub open spec fn fields_valid(fs: Seq<SpecField>) -> bool {
    forall|i: int| 0 <= i < fs.len() ==> (#[trigger] fs[i]).alignment >= 1 && fs[i].size >= 0
}

/// The running offset after laying out the first `i` fields of `fs`.
pub open spec fn spec_offset_after(fs: Seq<SpecField>, i: int) -> int
    decreases i,
{
    if i <= 0 {
        0
    } else {
        let prev = spec_offset_after(fs, i - 1);
        prev + spec_pad(prev, fs[i - 1].alignment) + fs[i - 1].size
    }
}

/// The structure alignment: the maximum field alignment, and 1 for a
/// structure with no fields.
pub open spec fn spec_struct_align(fs: Seq<SpecField>) -> int
    decreases fs.len(),
{
    if fs.len() == 0 {
        1
    } else {
        let rest = spec_struct_align(fs.drop_last());
        if fs.last().alignment > rest {
            fs.last().alignment
        } else {
            rest
        }
    }
}

/// The offset just past the last field.
pub open spec fn spec_end_offset(fs: Seq<SpecField>) -> int {
    spec_offset_after(fs, fs.len() as int)
}

/// The padding after the last field that rounds the size up to a
/// multiple of the structure alignment.
pub open spec fn spec_trailing(fs: Seq<SpecField>) -> int {
    spec_pad(spec_end_offset(fs), spec_struct_align(fs))
}

/// The total size of the structure for this field order.
pub open spec fn spec_total_size(fs: Seq<SpecField>) -> int {
    spec_end_offset(fs) + spec_trailing(fs)
}

/// The sum of the field sizes alone, with no padding.
pub open spec fn sum_sizes(fs: Seq<SpecField>) -> int
    decreases fs.len(),
{
    if fs.len() == 0 {
        0
    } else {
        sum_sizes(fs.drop_last()) + fs.last().size
    }
}

/// What the computed layout says about the field order it was computed
/// from: every entry carries the field's name and size, the exact
/// padding and offset, and the aggregate numbers are exact.
pub open spec fn layout_matches(fs: Seq<SpecField>, l: Layout) -> bool {
    &&& l.entries@.len() == fs.len()
    &&& forall|i: int|
        0 <= i < fs.len() ==> {
            let before = spec_offset_after(fs, i);
            let pad = spec_pad(before, fs[i].alignment);
            &&& (#[trigger] l.entries@[i]).name@ == fs[i].name
            &&& l.entries@[i].size == fs[i].size
            &&& l.entries@[i].padding_before == pad
            &&& l.entries@[i].offset == before + pad
        }
    &&& l.alignment == spec_struct_align(fs)
    &&& l.trailing_padding == spec_trailing(fs)
    &&& l.total_size == spec_total_size(fs)
}

/// Padding is non-negative and smaller than the alignment.
pub proof fn lemma_pad_bounds(off: int, align: int)
    requires
        align >= 1,
        off >= 0,
    ensures
        0 <= spec_pad(off, align) < align,
{
}

/// Offsets never decrease as fields are laid out.
pub proof fn lemma_offset_monotone(fs: Seq<SpecField>, i: int, j: int)
    requires
        fields_valid(fs),
        0 <= i <= j <= fs.len(),
    ensures
        0 <= spec_offset_after(fs, i) <= spec_offset_after(fs, j),
    decreases j,
{
    if j > 0 {
        if i == j {
            lemma_offset_monotone(fs, i - 1, j - 1);
        } else {
            lemma_offset_monotone(fs, i, j - 1);
        }
        lemma_pad_bounds(spec_offset_after(fs, j - 1), fs[j - 1].alignment);
    }
}

/// The structure alignment is at least 1, and at least every field's
/// alignment.
pub proof fn lemma_struct_align_bounds(fs: Seq<SpecField>)
    ensures
        spec_struct_align(fs) >= 1,
        forall|i: int| 0 <= i < fs.len() ==> (#[trigger] fs[i]).alignment <= spec_struct_align(fs),
    decreases fs.len(),
{
    if fs.len() > 0 {
        lemma_struct_align_bounds(fs.drop_last());
        assert forall|i: int| 0 <= i < fs.len() implies (#[trigger] fs[i]).alignment
            <= spec_struct_align(fs) by {
            if i < fs.len() - 1 {
                assert(fs.drop_last()[i] == fs[i]);
            }
        }
    }
}

/// The end offset dominates the sum of the field sizes.
proof fn lemma_end_ge_sum(fs: Seq<SpecField>, i: int)
    requires
        fields_valid(fs),
        0 <= i <= fs.len(),
    ensures
        spec_offset_after(fs, i) >= sum_sizes(fs.take(i)),
    decreases i,
{
    if i > 0 {
        lemma_end_ge_sum(fs, i - 1);
        assert(fs.take(i).drop_last() =~= fs.take(i - 1));
        assert(fs.take(i).last() == fs[i - 1]);
        lemma_offset_monotone(fs, 0, i - 1);
        lemma_pad_bounds(spec_offset_after(fs, i - 1), fs[i - 1].alignment);
    }
}

/// The corrected size invariant: for every field order, the total size
/// is a multiple of the structure alignment and at least the sum of the
/// field sizes. (Total size is not independent of the order; reordering
/// changes only the padding.)
pub proof fn lemma_total_size_invariant(fs: Seq<SpecField>)
    requires
        fields_valid(fs),
    ensures
        spec_struct_align(fs) >= 1,
        spec_total_size(fs) % spec_struct_align(fs) == 0,
        spec_total_size(fs) >= sum_sizes(fs),
        spec_total_size(fs) >= 0,
{
    lemma_struct_align_bounds(fs);
    let end = spec_end_offset(fs);
    let a = spec_struct_align(fs);
    lemma_offset_monotone(fs, 0, fs.len() as int);
    lemma_end_ge_sum(fs, fs.len() as int);
    assert(fs.take(fs.len() as int) =~= fs);
    let m = end % a;
    lemma_fundamental_div_mod(end, a);
    if m == 0 {
        lemma_mod_self_0(a);
        assert(spec_pad(end, a) == 0);
        assert(end == a * (end / a));
        lemma_mod_multiples_basic(end / a, a);
        assert((end / a) * a == a * (end / a)) by (nonlinear_arith);
    } else {
        lemma_small_mod((a - m) as nat, a as nat);
        assert(spec_pad(end, a) == a - m);
        assert(end + (a - m) == a * (end / a) + a);
        assert(a * (end / a) + a == (end / a + 1) * a) by (nonlinear_arith);
        lemma_mod_multiples_basic(end / a + 1, a);
    }
}

/// Laid-out fields do not overlap: each entry ends at or before the
/// next entry's offset, and the last ends at or before the end offset.
pub proof fn lemma_offsets_non_overlapping(fs: Seq<SpecField>, i: int)
    requires
        fields_valid(fs),
        0 <= i < fs.len(),
    ensures
        spec_offset_after(fs, i) + spec_pad(spec_offset_after(fs, i), fs[i].alignment) + fs[i].size
            == spec_offset_after(fs, i + 1),
        spec_offset_after(fs, i + 1) <= spec_end_offset(fs),
{
    lemma_offset_monotone(fs, i + 1, fs.len() as int);
}

/// The padding that advances `off` to the next multiple of `align`.
pub fn pad_for(off: u64, align: u64) -> (r: u64)
    requires
        align >= 1,
    ensures
        r == spec_pad(off as int, align as int),
        r < align,
{
    let m = off % align;
    if m == 0 {
        proof {
            lemma_mod_self_0(align as int);
        }
        0
    } else {
        proof {
            lemma_small_mod((align - m) as nat, align as nat);
        }
        align - m
    }
}

/// Computes the layout of `fields` in the given order, or `None` when
/// the total size would not fit in a `u64`.
pub fn compute_layout(fields: &Vec<ResolvedField>) -> (r: Option<Layout>)
    requires
        fields_valid(fields.deep_view()),
    ensures
        match r {
            Some(l) => layout_matches(fields.deep_view(), l),
            None => spec_total_size(fields.deep_view()) > u64::MAX,
        },
{
    let ghost fs = fields.deep_view();
    let mut entries: Vec<LayoutEntry> = Vec::new();
    let mut offset: u64 = 0;
    let mut max_align: u64 = 1;
    let mut i: usize = 0;
    while i < fields.len()
        invariant
            i <= fs.len(),
            fs == fields.deep_view(),
            fs.len() == fields@.len(),
            fields_valid(fs),
            offset == spec_offset_after(fs, i as int),
            max_align == spec_struct_align(fs.take(i as int)),
            max_align >= 1,
            entries@.len() == i,
            forall|k: int|
                0 <= k < i ==> {
                    let before = spec_offset_after(fs, k);
                    let pad = spec_pad(before, fs[k].alignment);
                    &&& (#[trigger] entries@[k]).name@ == fs[k].name
                    &&& entries@[k].size == fs[k].size
                    &&& entries@[k].padding_before == pad
                    &&& entries@[k].offset == before + pad
                },
        decreases fs.len() - i,
    {
        proof {
            assert(fs[i as int] == fields@[i as int]@);
        }
        let pad = pad_for(offset, fields[i].alignment);
        if pad > u64::MAX - offset {
            proof {
                lemma_offset_monotone(fs, i + 1, fs.len() as int);
                lemma_struct_align_bounds(fs);
                lemma_pad_bounds(spec_end_offset(fs), spec_struct_align(fs));
            }
            return None;
        }
        let placed: u64 = offset + pad;
        if fields[i].size > u64::MAX - placed {
            proof {
                lemma_offset_monotone(fs, i + 1, fs.len() as int);
                lemma_struct_align_bounds(fs);
                lemma_pad_bounds(spec_end_offset(fs), spec_struct_align(fs));
            }
            return None;
        }
        entries.push(
            LayoutEntry {
                name: fields[i].name.clone(),
                offset: placed,
                size: fields[i].size,
                padding_before: pad,
            },
        );
        offset = placed + fields[i].size;
        if fields[i].alignment > max_align {
            max_align = fields[i].alignment;
        }
        proof {
            assert(fs.take(i + 1int).drop_last() =~= fs.take(i as int));
            assert(fs.take(i + 1int).last() == fs[i as int]);
        }
        i = i + 1;
    }
    proof {
        assert(fs.take(fs.len() as int) =~= fs);
    }
    let trailing = pad_for(offset, max_align);
    if trailing > u64::MAX - offset {
        return None;
    }
    Some(
        Layout {
            entries,
            trailing_padding: trailing,
            total_size: offset + trailing,
            alignment: max_align,
        },
    )
}

} // verus!

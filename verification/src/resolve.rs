//! The dependency resolver: builds the reference graph over the
//! extracted structures, rejects duplicate names and reference cycles,
//! orders resolution so that a structure's own size and alignment are
//! known before it is used as a field type, and feeds each resolved
//! structure through the layout calculator and the optimizer.

use crate::error::Error;
use crate::layout::compute_layout;
use crate::layout::layout_matches;
use crate::layout::spec_total_size;
use crate::layout::Layout;
use crate::layout::ResolvedField;
use crate::layout::SpecField;
use crate::optimize::is_candidate;
use crate::optimize::optimize;
use crate::optimize::optimize_post;
use crate::optimize::OptimizationSuggestion;
use crate::parsers::base::MetaStruct;
use crate::parsers::base::SpecMetaStruct;
use crate::registry::TypeInfo;
use crate::registry::TypeRegistry;
use crate::strutil::str_eq;
use vstd::prelude::*;

verus! {

/// Two structures in the corpus share a name.
pub open spec fn dup_exists(ds: Seq<SpecMetaStruct>) -> bool {
    exists|i: int, j: int| 0 <= i < j < ds.len() && ds[i].name == ds[j].name
}

/// All structure names are pairwise distinct.
pub open spec fn unique_names(ds: Seq<SpecMetaStruct>) -> bool {
    forall|i: int, j: int| 0 <= i < j < ds.len() ==> (#[trigger] ds[i]).name != (#[trigger] ds[j]).name
}

/// Structure `i` references structure `j` by value: some field of `i`
/// names `j`'s structure as its type.
pub open spec fn spec_edge(ds: Seq<SpecMetaStruct>, i: int, j: int) -> bool {
    &&& 0 <= i < ds.len()
    &&& 0 <= j < ds.len()
    &&& exists|f: int|
        0 <= f < ds[i].fields.len() && (#[trigger] ds[i].fields[f]).field_type == ds[j].name
}

/// `c` is a reference cycle: a non-empty index sequence in which each
/// structure references the next and the last references the first.
pub open spec fn is_cycle(ds: Seq<SpecMetaStruct>, c: Seq<int>) -> bool {
    &&& c.len() > 0
    &&& forall|k: int| 0 <= k < c.len() ==> 0 <= #[trigger] c[k] < ds.len()
    &&& forall|k: int| 0 <= k < c.len() - 1 ==> spec_edge(ds, #[trigger] c[k], c[k + 1])
    &&& spec_edge(ds, c[c.len() - 1], c[0])
}

/// The reference graph has no cycle.
pub open spec fn acyclic(ds: Seq<SpecMetaStruct>) -> bool {
    forall|c: Seq<int>| !is_cycle(ds, c)
}

/// Index `i` appears somewhere in `order`.
pub open spec fn in_order(order: Seq<usize>, i: int) -> bool {
    exists|p: int| 0 <= p < order.len() && (#[trigger] order[p]) == i
}

/// `order` is a dependency order: every structure index appears, no
/// index repeats, and every reference points to an earlier position.
pub open spec fn is_topo(ds: Seq<SpecMetaStruct>, order: Seq<usize>) -> bool {
    &&& forall|p: int| 0 <= p < order.len() ==> (#[trigger] order[p]) < ds.len()
    &&& forall|p1: int, p2: int|
        0 <= p1 < p2 < order.len() ==> (#[trigger] order[p1]) != (#[trigger] order[p2])
    &&& forall|i: int| 0 <= i < ds.len() ==> #[trigger] in_order(order, i)
    &&& forall|p: int, j: int|
        0 <= p < order.len() && #[trigger] spec_edge(ds, order[p] as int, j) ==> exists|p2: int|
            0 <= p2 < p && order[p2] == j
}

/// In a dependency order, each node of a cycle has a position bounded
/// by the first node's position minus its distance along the cycle.
proof fn lemma_cycle_positions(ds: Seq<SpecMetaStruct>, order: Seq<usize>, c: Seq<int>, k: int, p0: int)
    requires
        is_topo(ds, order),
        is_cycle(ds, c),
        0 <= p0 < order.len(),
        order[p0] == c[0],
        0 <= k < c.len(),
    ensures
        exists|p: int| 0 <= p <= p0 - k && order[p] == c[k],
    decreases k,
{
    if k == 0 {
        assert(0 <= p0 <= p0 - 0 && order[p0] == c[0]);
    } else {
        lemma_cycle_positions(ds, order, c, k - 1, p0);
        let p = choose|p: int| 0 <= p <= p0 - (k - 1) && order[p] == c[k - 1];
        assert(spec_edge(ds, c[k - 1], c[k]));
        assert(spec_edge(ds, order[p] as int, c[k]));
        let p2 = choose|p2: int| 0 <= p2 < p && order[p2] == c[k];
        assert(0 <= p2 <= p0 - k && order[p2] == c[k]);
    }
}

/// A dependency order rules every cycle out.
pub proof fn lemma_topo_acyclic(ds: Seq<SpecMetaStruct>, order: Seq<usize>)
    requires
        is_topo(ds, order),
    ensures
        acyclic(ds),
{
    assert forall|c: Seq<int>| !is_cycle(ds, c) by {
        if is_cycle(ds, c) {
            let i0 = c[0];
            assert(0 <= i0 < ds.len());
            assert(in_order(order, i0));
            let p0 = choose|p: int| 0 <= p < order.len() && order[p] == i0;
            let last = c.len() - 1;
            lemma_cycle_positions(ds, order, c, last, p0);
            let pl = choose|p: int| 0 <= p <= p0 - last && order[p] == c[last];
            assert(spec_edge(ds, order[pl] as int, c[0]));
            let p2 = choose|p2: int| 0 <= p2 < pl && order[p2] == c[0];
            assert(order[p2] == order[p0]);
            assert(p2 < pl <= p0);
            assert(order[p2] != order[p0]);
        }
    }
}

/// Looks for two structures sharing a name; reports the name.
fn find_duplicate(defs: &Vec<MetaStruct>) -> (r: Option<String>)
    ensures
        match r {
            Some(name) => dup_exists(defs.deep_view()),
            None => unique_names(defs.deep_view()),
        },
{
    let ghost dv = defs.deep_view();
    let n = defs.len();
    proof {
        assert(dv.len() == n);
    }
    let mut i: usize = 0;
    while i < n
        invariant
            i <= n == dv.len(),
            dv == defs.deep_view(),
            forall|a: int, b: int| 0 <= a < b < dv.len() && a < i ==> (#[trigger] dv[a]).name != (#[trigger] dv[b]).name,
        decreases n - i,
    {
        let mut j: usize = i + 1;
        while j < n
            invariant
                i < j <= n == dv.len(),
                dv == defs.deep_view(),
                forall|b: int| i < b < j ==> dv[i as int].name != (#[trigger] dv[b]).name,
            decreases n - j,
        {
            proof {
                assert(dv[i as int] == defs@[i as int]@);
                assert(dv[j as int] == defs@[j as int]@);
            }
            if str_eq(defs[i].name.as_str(), defs[j].name.as_str()) {
                return Some(defs[i].name.clone());
            }
            j = j + 1;
        }
        i = i + 1;
    }
    None
}

/// Builds the adjacency rows of the reference graph: row `i` holds
/// exactly the targets of `i`'s reference edges.
fn build_adj(defs: &Vec<MetaStruct>) -> (adj: Vec<Vec<usize>>)
    ensures
        adj@.len() == defs.deep_view().len(),
        forall|i: int, k: int|
            0 <= i < adj@.len() && 0 <= k < adj@[i]@.len() ==> spec_edge(
                defs.deep_view(),
                i,
                (#[trigger] adj@[i]@[k]) as int,
            ),
        forall|i: int, j: int|
            spec_edge(defs.deep_view(), i, j) ==> exists|k: int|
                0 <= k < adj@[i]@.len() && adj@[i]@[k] == j,
{
    let ghost dv = defs.deep_view();
    let n = defs.len();
    proof {
        assert(dv.len() == n);
    }
    let mut adj: Vec<Vec<usize>> = Vec::new();
    let mut i: usize = 0;
    while i < n
        invariant
            i <= n == dv.len(),
            dv == defs.deep_view(),
            adj@.len() == i,
            forall|a: int, k: int|
                0 <= a < i && 0 <= k < adj@[a]@.len() ==> spec_edge(
                    dv,
                    a,
                    (#[trigger] adj@[a]@[k]) as int,
                ),
            forall|a: int, j: int|
                0 <= a < i && spec_edge(dv, a, j) ==> exists|k: int|
                    0 <= k < adj@[a]@.len() && adj@[a]@[k] == j,
        decreases n - i,
    {
        let mut row: Vec<usize> = Vec::new();
        let nf = defs[i].fields.len();
        proof {
            assert(dv[i as int] == defs@[i as int]@);
            assert(dv[i as int].fields.len() == nf);
        }
        let mut f: usize = 0;
        while f < nf
            invariant
                f <= nf == dv[i as int].fields.len(),
                i < n == dv.len(),
                dv == defs.deep_view(),
                dv[i as int] == defs@[i as int]@,
                forall|k: int|
                    0 <= k < row@.len() ==> spec_edge(dv, i as int, (#[trigger] row@[k]) as int),
                forall|j: int, ff: int|
                    0 <= j < dv.len() && 0 <= ff < f && (#[trigger] dv[i as int].fields[ff]).field_type
                        == (#[trigger] dv[j]).name ==> exists|k: int|
                        0 <= k < row@.len() && row@[k] == j,
            decreases nf - f,
        {
            proof {
                assert(dv[i as int].fields[f as int] == defs@[i as int].fields@[f as int]@);
            }
            let mut j: usize = 0;
            while j < n
                invariant
                    j <= n == dv.len(),
                    f < nf == dv[i as int].fields.len(),
                    i < n,
                    dv == defs.deep_view(),
                    dv[i as int] == defs@[i as int]@,
                    dv[i as int].fields[f as int] == defs@[i as int].fields@[f as int]@,
                    forall|k: int|
                        0 <= k < row@.len() ==> spec_edge(dv, i as int, (#[trigger] row@[k]) as int),
                    forall|jj: int, ff: int|
                        0 <= jj < dv.len() && 0 <= ff < f && (#[trigger] dv[i as int].fields[ff]).field_type
                            == (#[trigger] dv[jj]).name ==> exists|k: int|
                            0 <= k < row@.len() && row@[k] == jj,
                    forall|jj: int|
                        0 <= jj < j && (#[trigger] dv[jj]).name == dv[i as int].fields[f as int].field_type
                            ==> exists|k: int| 0 <= k < row@.len() && row@[k] == jj,
                decreases n - j,
            {
                proof {
                    assert(dv[j as int] == defs@[j as int]@);
                }
                if str_eq(defs[i].fields[f].field_type.as_str(), defs[j].name.as_str()) {
                    let ghost old_row = row@;
                    row.push(j);
                    proof {
                        assert forall|jj: int, ff: int|
                            0 <= jj < dv.len() && 0 <= ff < f && (#[trigger] dv[i as int].fields[ff]).field_type
                                == (#[trigger] dv[jj]).name implies exists|k: int|
                            0 <= k < row@.len() && row@[k] == jj by {
                            let k = choose|k: int| 0 <= k < old_row.len() && old_row[k] == jj;
                            assert(row@[k] == old_row[k]);
                        }
                        assert forall|jj: int|
                            0 <= jj <= j && (#[trigger] dv[jj]).name == dv[i as int].fields[f as int].field_type
                                implies exists|k: int| 0 <= k < row@.len() && row@[k] == jj by {
                            if jj < j {
                                let k = choose|k: int| 0 <= k < old_row.len() && old_row[k] == jj;
                                assert(row@[k] == old_row[k]);
                            } else {
                                assert(row@[row@.len() - 1] == j);
                            }
                        }
                    }
                }
                j = j + 1;
            }
            f = f + 1;
        }
        let ghost rowv = row@;
        let ghost old_adj = adj@;
        adj.push(row);
        proof {
            assert(adj@[i as int]@ == rowv);
            assert forall|a: int, j: int|
                0 <= a < i + 1 && spec_edge(dv, a, j) implies exists|k: int|
                0 <= k < adj@[a]@.len() && adj@[a]@[k] == j by {
                if a == i {
                    let ff = choose|ff: int|
                        0 <= ff < dv[a].fields.len() && (#[trigger] dv[a].fields[ff]).field_type
                            == dv[j].name;
                    assert(dv[i as int].fields[ff].field_type == dv[j].name);
                    let k = choose|k: int| 0 <= k < rowv.len() && rowv[k] == j;
                    assert(adj@[a]@[k] == j);
                } else {
                    assert(adj@[a] == old_adj[a]);
                    let k = choose|k: int| 0 <= k < old_adj[a]@.len() && old_adj[a]@[k] == j;
                    assert(adj@[a]@[k] == j);
                }
            }
            assert forall|a: int, k: int|
                0 <= a < i + 1 && 0 <= k < adj@[a]@.len() implies spec_edge(
                dv,
                a,
                (#[trigger] adj@[a]@[k]) as int,
            ) by {
                if a < i {
                    assert(adj@[a] == old_adj[a]);
                }
            }
        }
        i = i + 1;
    }
    adj
}

/// How many entries of `s` hold `c`.
spec fn num_with(s: Seq<u8>, c: u8) -> int
    decreases s.len(),
{
    if s.len() == 0 {
        0
    } else {
        num_with(s.drop_last(), c) + (if s.last() == c {
            1int
        } else {
            0int
        })
    }
}

/// How one update changes the count.
proof fn lemma_num_with_update(s: Seq<u8>, i: int, v: u8, c: u8)
    requires
        0 <= i < s.len(),
    ensures
        num_with(s.update(i, v), c) == num_with(s, c) - (if s[i] == c {
            1int
        } else {
            0int
        }) + (if v == c {
            1int
        } else {
            0int
        }),
    decreases s.len(),
{
    let t = s.update(i, v);
    if i == s.len() - 1 {
        assert(t.drop_last() =~= s.drop_last());
        assert(t.last() == v);
        assert(s.last() == s[i]);
    } else {
        assert(t.drop_last() =~= s.drop_last().update(i, v));
        assert(t.last() == s.last());
        assert(s.drop_last()[i] == s[i]);
        lemma_num_with_update(s.drop_last(), i, v, c);
    }
}

/// The count is non-negative.
proof fn lemma_num_with_nonneg(s: Seq<u8>, c: u8)
    ensures
        num_with(s, c) >= 0,
    decreases s.len(),
{
    if s.len() > 0 {
        lemma_num_with_nonneg(s.drop_last(), c);
    }
}

/// Computes a dependency order by an iterative depth-first traversal
/// with an in-progress set, or reports a reference cycle, naming the
/// cycle's member structures in order.
#[verifier::rlimit(50)]
fn topo_sort(defs: &Vec<MetaStruct>, adj: &Vec<Vec<usize>>) -> (r: Result<Vec<usize>, Error>)
    requires
        adj@.len() == defs.deep_view().len(),
        forall|i: int, k: int|
            0 <= i < adj@.len() && 0 <= k < adj@[i]@.len() ==> spec_edge(
                defs.deep_view(),
                i,
                (#[trigger] adj@[i]@[k]) as int,
            ),
        forall|i: int, j: int|
            spec_edge(defs.deep_view(), i, j) ==> exists|k: int|
                0 <= k < adj@[i]@.len() && adj@[i]@[k] == j,
    ensures
        match r {
            Ok(order) => is_topo(defs.deep_view(), order@),
            Err(e) => match e {
                Error::CyclicDependency(names) => exists|c: Seq<int>|
                    is_cycle(defs.deep_view(), c) && names.deep_view().len() == c.len()
                        && forall|k: int|
                        0 <= k < c.len() ==> names.deep_view()[k] == defs.deep_view()[#[trigger] c[k]].name,
                _ => false,
            },
        },
{
    let ghost dv = defs.deep_view();
    let n = defs.len();
    proof {
        assert(dv.len() == n);
    }
    let mut color: Vec<u8> = Vec::new();
    let mut t: usize = 0;
    while t < n
        invariant
            t <= n,
            color@.len() == t,
            forall|i: int| 0 <= i < t ==> color@[i] == 0u8,
        decreases n - t,
    {
        color.push(0);
        t = t + 1;
    }
    let mut order: Vec<usize> = Vec::new();
    let mut root: usize = 0;
    while root < n
        invariant
            root <= n == dv.len(),
            dv == defs.deep_view(),
            adj@.len() == n,
            forall|i: int, k: int|
                0 <= i < adj@.len() && 0 <= k < adj@[i]@.len() ==> spec_edge(
                    dv,
                    i,
                    (#[trigger] adj@[i]@[k]) as int,
                ),
            forall|i: int, j: int|
                spec_edge(dv, i, j) ==> exists|k: int|
                    0 <= k < adj@[i]@.len() && adj@[i]@[k] == j,
            color@.len() == n,
            forall|i: int| 0 <= i < n ==> (#[trigger] color@[i]) == 0u8 || color@[i] == 2u8,
            forall|i: int| 0 <= i < root ==> (#[trigger] color@[i]) == 2u8,
            forall|p: int|
                0 <= p < order@.len() ==> (#[trigger] order@[p]) < n && color@[order@[p] as int]
                    == 2u8,
            forall|p1: int, p2: int|
                0 <= p1 < p2 < order@.len() ==> (#[trigger] order@[p1]) != (#[trigger] order@[p2]),
            forall|i: int|
                0 <= i < n && color@[i] == 2u8 ==> #[trigger] in_order(order@, i),
            forall|p: int, j: int|
                0 <= p < order@.len() && #[trigger] spec_edge(dv, order@[p] as int, j)
                    ==> exists|p2: int| 0 <= p2 < p && order@[p2] == j,
        decreases n - root,
    {
        if color[root] == 0 {
            let mut stack: Vec<(usize, usize)> = Vec::new();
            let ghost c0 = color@;
            color[root] = 1;
            proof {
                lemma_num_with_update(c0, root as int, 1u8, 0u8);
                lemma_num_with_update(c0, root as int, 1u8, 1u8);
            }
            stack.push((root, 0));
            proof {
                assert(stack@[0].0 == root);
                assert forall|i: int|
                    0 <= i < n && (#[trigger] color@[i]) == 1u8 implies exists|m: int|
                    0 <= m < stack@.len() && stack@[m].0 == i by {
                    assert(i == root);
                    assert(stack@[0].0 == i);
                }
            }
            while stack.len() > 0
                invariant
                    n == dv.len(),
                    dv == defs.deep_view(),
                    adj@.len() == n,
                    root < n,
                    forall|i: int, k: int|
                        0 <= i < adj@.len() && 0 <= k < adj@[i]@.len() ==> spec_edge(
                            dv,
                            i,
                            (#[trigger] adj@[i]@[k]) as int,
                        ),
                    forall|i: int, j: int|
                        spec_edge(dv, i, j) ==> exists|k: int|
                            0 <= k < adj@[i]@.len() && adj@[i]@[k] == j,
                    color@.len() == n,
                    forall|i: int| 0 <= i < n ==> (#[trigger] color@[i]) <= 2u8,
                    color@[root as int] != 0u8,
                    forall|i: int| 0 <= i < root ==> (#[trigger] color@[i]) == 2u8,
                    forall|m: int|
                        0 <= m < stack@.len() ==> (#[trigger] stack@[m]).0 < n
                            && color@[stack@[m].0 as int] == 1u8 && stack@[m].1
                            <= adj@[stack@[m].0 as int]@.len(),
                    forall|m1: int, m2: int|
                        0 <= m1 < m2 < stack@.len() ==> (#[trigger] stack@[m1]).0
                            != (#[trigger] stack@[m2]).0,
                    forall|m: int|
                        0 <= m < stack@.len() - 1 ==> spec_edge(
                            dv,
                            (#[trigger] stack@[m]).0 as int,
                            stack@[m + 1].0 as int,
                        ),
                    forall|i: int|
                        0 <= i < n && (#[trigger] color@[i]) == 1u8 ==> exists|m: int|
                            0 <= m < stack@.len() && stack@[m].0 == i,
                    forall|m: int, cc: int|
                        #![trigger adj@[stack@[m].0 as int]@[cc]]
                        0 <= m < stack@.len() && 0 <= cc < stack@[m].1 ==> {
                            let ch = adj@[stack@[m].0 as int]@[cc] as int;
                            color@[ch] == 2u8 || (m + 1 < stack@.len() && ch == stack@[m
                                + 1].0 as int)
                        },
                    forall|p: int|
                        0 <= p < order@.len() ==> (#[trigger] order@[p]) < n
                            && color@[order@[p] as int] == 2u8,
                    forall|p1: int, p2: int|
                        0 <= p1 < p2 < order@.len() ==> (#[trigger] order@[p1]) != (
                        #[trigger] order@[p2]),
                    forall|i: int|
                        0 <= i < n && color@[i] == 2u8 ==> #[trigger] in_order(order@, i),
                    forall|p: int, j: int|
                        0 <= p < order@.len() && #[trigger] spec_edge(dv, order@[p] as int, j)
                            ==> exists|p2: int| 0 <= p2 < p && order@[p2] == j,
                decreases
                    num_with(color@, 0u8) + num_with(color@, 1u8),
                    num_with(color@, 0u8),
                    (if stack@.len() > 0 {
                        adj@[stack@.last().0 as int]@.len() - stack@.last().1
                    } else {
                        0
                    }),
            {
                let top = stack.len() - 1;
                let u = stack[top].0;
                let k = stack[top].1;
                if k < adj[u].len() {
                    let v_ = adj[u][k];
                    let ghost old_stack = stack@;
                    stack[top] = (u, k + 1);
                    proof {
                        assert(stack@ =~= old_stack.update(top as int, (u, (k + 1) as usize)));
                        assert forall|m: int| 0 <= m < stack@.len() implies (#[trigger] stack@[m]).0
                            == old_stack[m].0 by {}
                        assert forall|m: int| 0 <= m < stack@.len() && m != top implies (
                        #[trigger] stack@[m]).1 == old_stack[m].1 by {}
                        assert(stack@.last() == (u, (k + 1) as usize));
                        assert(spec_edge(dv, u as int, v_ as int));
                        assert forall|i: int|
                            0 <= i < n && (#[trigger] color@[i]) == 1u8 implies exists|m: int|
                            0 <= m < stack@.len() && stack@[m].0 == i by {
                            let mm = choose|mm: int|
                                0 <= mm < old_stack.len() && old_stack[mm].0 == i;
                            assert(stack@[mm].0 == i);
                        }
                    }
                    let cv = color[v_];
                    if cv == 1 {
                        // a reference into the in-progress set closes a
                        // cycle: the stack from that entry to the top is
                        // its member list
                        proof {
                            let mm = choose|mm: int|
                                0 <= mm < stack@.len() && (#[trigger] stack@[mm]).0 == v_;
                        }
                        let mut m: usize = 0;
                        while m < stack.len() && stack[m].0 != v_
                            invariant
                                m <= stack@.len(),
                                forall|mm: int| 0 <= mm < m ==> (#[trigger] stack@[mm]).0 != v_,
                            decreases stack@.len() - m,
                        {
                            m = m + 1;
                        }
                        proof {
                            let mm = choose|mm: int|
                                0 <= mm < stack@.len() && (#[trigger] stack@[mm]).0 == v_;
                            assert(m < stack@.len());
                            assert(stack@[m as int].0 == v_);
                        }
                        let ghost c = Seq::new(
                            (stack@.len() - m as int) as nat,
                            |q: int| stack@[m + q].0 as int,
                        );
                        let mut names: Vec<String> = Vec::new();
                        let mut q: usize = m;
                        while q < stack.len()
                            invariant
                                m <= q <= stack@.len(),
                                dv == defs.deep_view(),
                                n == dv.len(),
                                forall|mm: int|
                                    0 <= mm < stack@.len() ==> (#[trigger] stack@[mm]).0 < n,
                                names@.len() == q - m,
                                forall|x: int|
                                    0 <= x < q - m ==> (#[trigger] names@[x])@ == dv[stack@[m
                                        + x].0 as int].name,
                            decreases stack@.len() - q,
                        {
                            proof {
                                assert(dv[stack@[q as int].0 as int] == defs@[stack@[q as int].0 as int]@);
                            }
                            names.push(defs[stack[q].0].name.clone());
                            q = q + 1;
                        }
                        proof {
                            assert(c.len() > 0);
                            assert(c[c.len() - 1] == stack@[stack@.len() - 1].0 as int);
                            assert(stack@[stack@.len() - 1].0 == u);
                            assert(c[0] == v_ as int);
                            assert forall|kk: int| 0 <= kk < c.len() - 1 implies spec_edge(
                                dv,
                                #[trigger] c[kk],
                                c[kk + 1],
                            ) by {
                                assert(spec_edge(
                                    dv,
                                    stack@[m + kk].0 as int,
                                    stack@[m + kk + 1].0 as int,
                                ));
                            }
                            assert(spec_edge(dv, c[c.len() - 1], c[0]));
                            assert(is_cycle(dv, c));
                            assert forall|kk: int| 0 <= kk < c.len() implies names.deep_view()[kk]
                                == dv[#[trigger] c[kk]].name by {
                                assert(names.deep_view()[kk] == names@[kk]@);
                            }
                        }
                        return Err(Error::CyclicDependency(names));
                    }
                    if cv == 0 {
                        let ghost c1 = color@;
                        color[v_] = 1;
                        proof {
                            lemma_num_with_update(c1, v_ as int, 1u8, 0u8);
                            lemma_num_with_update(c1, v_ as int, 1u8, 1u8);
                            lemma_num_with_nonneg(color@, 0u8);
                            lemma_num_with_nonneg(color@, 1u8);
                        }
                        let ghost mid_stack = stack@;
                        stack.push((v_, 0));
                        proof {
                            assert(stack@ =~= mid_stack.push((v_, 0usize)));
                            assert(stack@[stack@.len() - 1].0 == v_);
                            assert(stack@[stack@.len() - 1].1 == 0);
                            assert forall|m: int| 0 <= m < stack@.len() - 1 implies #[trigger] stack@[m]
                                == mid_stack[m] by {}
                            assert forall|i: int|
                                0 <= i < n && (#[trigger] color@[i]) == 1u8 implies exists|m: int|
                                0 <= m < stack@.len() && stack@[m].0 == i by {
                                if i == v_ {
                                    assert(stack@[stack@.len() - 1].0 == i);
                                } else {
                                    assert(c1[i] == 1u8);
                                    let mm = choose|mm: int|
                                        0 <= mm < old_stack.len() && old_stack[mm].0 == i;
                                    assert(stack@[mm].0 == i);
                                }
                            }
                            assert forall|m: int, cc: int|
                                #![trigger adj@[stack@[m].0 as int]@[cc]]
                                0 <= m < stack@.len() && 0 <= cc < stack@[m].1 implies {
                                let ch = adj@[stack@[m].0 as int]@[cc] as int;
                                color@[ch] == 2u8 || (m + 1 < stack@.len() && ch == stack@[m
                                    + 1].0 as int)
                            } by {
                                if m < stack@.len() - 1 {
                                    assert(stack@[m] == mid_stack[m]);
                                    assert(stack@[m].0 == old_stack[m].0);
                                    let ch = adj@[stack@[m].0 as int]@[cc] as int;
                                    if m == top {
                                        if cc == k {
                                            assert(ch == v_ as int);
                                            assert(stack@[m + 1].0 == v_);
                                        } else {
                                            assert(adj@[old_stack[m].0 as int]@[cc] == adj@[stack@[m].0 as int]@[cc]);
                                            assert(c1[ch] == 2u8 || (m + 1 < old_stack.len()
                                                && ch == old_stack[m + 1].0 as int));
                                        }
                                    } else {
                                        assert(cc < old_stack[m].1);
                                        assert(adj@[old_stack[m].0 as int]@[cc] == adj@[stack@[m].0 as int]@[cc]);
                                        assert(c1[ch] == 2u8 || (m + 1 < old_stack.len() && ch
                                            == old_stack[m + 1].0 as int));
                                        assert(stack@[m + 1] == mid_stack[m + 1]);
                                    }
                                }
                            }
                        }
                    } else {
                        proof {
                            assert(cv == 2);
                            assert(color@[v_ as int] == 2u8);
                            assert forall|m: int, cc: int|
                                #![trigger adj@[stack@[m].0 as int]@[cc]]
                                0 <= m < stack@.len() && 0 <= cc < stack@[m].1 implies {
                                let ch = adj@[stack@[m].0 as int]@[cc] as int;
                                color@[ch] == 2u8 || (m + 1 < stack@.len() && ch == stack@[m
                                    + 1].0 as int)
                            } by {
                                let ch = adj@[stack@[m].0 as int]@[cc] as int;
                                assert(stack@[m].0 == old_stack[m].0);
                                assert(adj@[old_stack[m].0 as int]@[cc] == adj@[stack@[m].0 as int]@[cc]);
                                if m == top {
                                    if cc == k {
                                        assert(ch == v_ as int);
                                    } else {
                                        assert(cc < old_stack[m].1);
                                        assert(color@[ch] == 2u8 || (m + 1 < old_stack.len()
                                            && ch == old_stack[m + 1].0 as int));
                                    }
                                } else {
                                    assert(cc < old_stack[m].1);
                                    assert(color@[ch] == 2u8 || (m + 1 < old_stack.len() && ch
                                        == old_stack[m + 1].0 as int));
                                    if m + 1 < stack@.len() {
                                        assert(stack@[m + 1].0 == old_stack[m + 1].0);
                                    }
                                }
                            }
                        }
                    }
                } else {
                    let ghost c2 = color@;
                    color[u] = 2;
                    proof {
                        lemma_num_with_update(c2, u as int, 2u8, 0u8);
                        lemma_num_with_update(c2, u as int, 2u8, 1u8);
                        lemma_num_with_nonneg(color@, 0u8);
                        lemma_num_with_nonneg(color@, 1u8);
                    }
                    let ghost old_order = order@;
                    order.push(u);
                    let ghost full_stack = stack@;
                    let _ = stack.pop();
                    proof {
                        assert(stack@ =~= full_stack.drop_last());
                        assert forall|m: int| 0 <= m < stack@.len() implies #[trigger] stack@[m]
                            == full_stack[m] by {}
                        assert forall|p: int| 0 <= p < order@.len() implies (#[trigger] order@[p])
                            < n && color@[order@[p] as int] == 2u8 by {
                            if p < old_order.len() {
                                assert(order@[p] == old_order[p]);
                            } else {
                                assert(order@[p] == u);
                            }
                        }
                        assert forall|p1: int, p2: int|
                            0 <= p1 < p2 < order@.len() implies (#[trigger] order@[p1]) != (
                        #[trigger] order@[p2]) by {
                            if p2 == order@.len() - 1 {
                                assert(order@[p2] == u);
                                assert(order@[p1] == old_order[p1]);
                                assert(c2[old_order[p1] as int] == 2u8);
                                assert(c2[u as int] == 1u8);
                            } else {
                                assert(order@[p1] == old_order[p1]);
                                assert(order@[p2] == old_order[p2]);
                            }
                        }
                        assert forall|i: int|
                            0 <= i < n && color@[i] == 2u8 implies #[trigger] in_order(
                            order@,
                            i,
                        ) by {
                            if i == u {
                                assert(order@[order@.len() - 1] == i);
                            } else {
                                assert(c2[i] == 2u8);
                                assert(in_order(old_order, i));
                                let p = choose|p: int|
                                    0 <= p < old_order.len() && old_order[p] == i;
                                assert(order@[p] == i);
                            }
                        }
                        assert forall|i: int|
                            0 <= i < n && (#[trigger] color@[i]) == 1u8 implies exists|m: int|
                            0 <= m < stack@.len() && stack@[m].0 == i by {
                            assert(c2[i] == 1u8);
                            let mm = choose|mm: int|
                                0 <= mm < full_stack.len() && full_stack[mm].0 == i;
                            assert(i != u);
                            assert(mm != full_stack.len() - 1);
                            assert(stack@[mm].0 == i);
                        }
                        assert forall|p: int, j: int|
                            0 <= p < order@.len() && #[trigger] spec_edge(dv, order@[p] as int, j)
                                implies exists|p2: int| 0 <= p2 < p && order@[p2] == j by {
                            if p < old_order.len() {
                                assert(order@[p] == old_order[p]);
                                let p2 = choose|p2: int| 0 <= p2 < p && old_order[p2] == j;
                                assert(order@[p2] == j);
                            } else {
                                assert(order@[p] == u);
                                let kk = choose|kk: int|
                                    0 <= kk < adj@[u as int]@.len() && adj@[u as int]@[kk] == j;
                                assert(adj@[full_stack[full_stack.len() - 1].0 as int]@[kk]
                                    == j);
                                assert(c2[j] == 2u8);
                                assert(in_order(old_order, j));
                                let p2 = choose|p2: int| 0 <= p2 < old_order.len() && old_order[p2]
                                    == j;
                                assert(order@[p2] == j);
                            }
                        }
                        assert forall|m: int, cc: int|
                            #![trigger adj@[stack@[m].0 as int]@[cc]]
                            0 <= m < stack@.len() && 0 <= cc < stack@[m].1 implies {
                            let ch = adj@[stack@[m].0 as int]@[cc] as int;
                            color@[ch] == 2u8 || (m + 1 < stack@.len() && ch == stack@[m
                                + 1].0 as int)
                        } by {
                            assert(stack@[m] == full_stack[m]);
                            let ch = adj@[full_stack[m].0 as int]@[cc] as int;
                            if m + 1 < full_stack.len() {
                                assert(full_stack[m + 1].0 < n);
                                if ch == full_stack[m + 1].0 as int && m + 1 == full_stack.len()
                                    - 1 {
                                    assert(ch == u as int);
                                }
                            }
                        }
                    }
                }
            }
            proof {
                assert forall|i: int| 0 <= i < n implies (#[trigger] color@[i]) == 0u8
                    || color@[i] == 2u8 by {
                    if color@[i] == 1u8 {
                        let mm = choose|m: int| 0 <= m < stack@.len() && stack@[m].0 == i;
                    }
                }
                assert(color@[root as int] == 2u8);
            }
        }
        root = root + 1;
    }
    proof {
        assert forall|i: int| 0 <= i < dv.len() implies #[trigger] in_order(order@, i) by {
            assert(color@[i] == 2u8);
        }
        assert(is_topo(dv, order@));
    }
    Ok(order)
}

/// One successfully resolved structure: its resolved fields in declared
/// order, the layout of that order, and the reordering suggestion.
#[derive(Debug)]
pub struct StructReport {
    pub name: String,
    pub fields: Vec<ResolvedField>,
    pub layout: Layout,
    pub suggestion: OptimizationSuggestion,
}

/// A structure skipped because one field's type is neither a registered
/// primitive nor a resolved structure.
#[derive(Debug)]
pub struct SkipReport {
    pub name: String,
    pub field_name: String,
    pub unresolved_type: String,
}

/// Everything one run resolves: the per-structure results, the skipped
/// structures with their diagnostics, and the structures whose layout
/// would not fit in the machine's size range.
#[derive(Debug)]
pub struct AnalysisReport {
    pub resolved: Vec<StructReport>,
    pub skipped: Vec<SkipReport>,
    pub oversized: Vec<String>,
}

/// Some structure in `ds` is named `k`.
pub open spec fn struct_named(ds: Seq<SpecMetaStruct>, k: Seq<char>) -> bool {
    exists|i: int| 0 <= i < ds.len() && (#[trigger] ds[i]).name == k
}

/// Some resolved entry is named `k`.
pub open spec fn resolved_has_name(res: Seq<StructReport>, k: Seq<char>) -> bool {
    exists|ri: int| 0 <= ri < res.len() && (#[trigger] res[ri]).name@ == k
}

/// Some skip entry is named `k`.
pub open spec fn skipped_has_name(sk: Seq<SkipReport>, k: Seq<char>) -> bool {
    exists|si: int| 0 <= si < sk.len() && (#[trigger] sk[si]).name@ == k
}

/// Some oversize entry is named `k`.
pub open spec fn oversized_has_name(ov: Seq<String>, k: Seq<char>) -> bool {
    exists|oi: int| 0 <= oi < ov.len() && (#[trigger] ov[oi])@ == k
}

/// `fs` resolves `d`'s fields against `reg`: one entry per field, in
/// declared order, each carrying the field's name, its type's
/// registered size and alignment, and its declaration index.
pub open spec fn fields_resolve(
    d: SpecMetaStruct,
    reg: Map<Seq<char>, TypeInfo>,
    fs: Seq<SpecField>,
) -> bool {
    &&& fs.len() == d.fields.len()
    &&& forall|f: int|
        0 <= f < d.fields.len() ==> {
            let ty = (#[trigger] d.fields[f]).field_type;
            &&& reg.dom().contains(ty)
            &&& fs[f] == (SpecField {
                name: d.fields[f].field_name,
                size: reg[ty].size as int,
                alignment: reg[ty].nat_align as int,
                decl_index: f,
            })
        }
}

/// A resolved entry is exact: it names a structure of the corpus, its
/// fields resolve against the final registry, its layout and its
/// suggestion are exact for those fields, and the registry holds the
/// layout's total size and alignment under the structure's name.
pub open spec fn resolved_entry_ok(
    ds: Seq<SpecMetaStruct>,
    reg: Map<Seq<char>, TypeInfo>,
    r: StructReport,
) -> bool {
    exists|i: int|
        #![trigger ds[i]]
        {
            &&& 0 <= i < ds.len()
            &&& ds[i].name == r.name@
            &&& fields_resolve(ds[i], reg, r.fields.deep_view())
            &&& layout_matches(r.fields.deep_view(), r.layout)
            &&& optimize_post(r.fields.deep_view(), r.suggestion)
            &&& reg.dom().contains(r.name@)
            &&& reg[r.name@] == (TypeInfo {
                nat_align: r.layout.alignment,
                size: r.layout.total_size,
            })
        }
}

/// A skip entry is exact: it names a structure of the corpus and one of
/// its fields whose type text is absent from the final registry.
pub open spec fn skipped_entry_ok(
    ds: Seq<SpecMetaStruct>,
    reg: Map<Seq<char>, TypeInfo>,
    s: SkipReport,
) -> bool {
    exists|i: int|
        #![trigger ds[i]]
        {
            &&& 0 <= i < ds.len()
            &&& ds[i].name == s.name@
            &&& exists|f: int|
                0 <= f < ds[i].fields.len() && (#[trigger] ds[i].fields[f]).field_name
                    == s.field_name@ && ds[i].fields[f].field_type == s.unresolved_type@
            &&& !reg.dom().contains(s.unresolved_type@)
        }
}

/// An oversize entry is exact: it names a structure whose fields
/// resolve, but some ordering of them has a total size beyond `u64`.
pub open spec fn oversized_entry_ok(
    ds: Seq<SpecMetaStruct>,
    reg: Map<Seq<char>, TypeInfo>,
    k: Seq<char>,
) -> bool {
    exists|i: int|
        #![trigger ds[i]]
        {
            &&& 0 <= i < ds.len()
            &&& ds[i].name == k
            &&& exists|fs: Seq<SpecField>, fs2: Seq<SpecField>|
                #[trigger] fields_resolve(ds[i], reg, fs) && #[trigger] fs2.to_multiset()
                    == fs.to_multiset() && spec_total_size(fs2) > u64::MAX
        }
}

/// What a completed resolution promises about the report and the
/// registry: every entry of each kind is exact; every structure of the
/// corpus appears under its name in exactly one of the three kinds; the
/// registry gained exactly the resolved structures' entries; and keys
/// that name no structure kept their old facts.
pub open spec fn report_ok(
    ds: Seq<SpecMetaStruct>,
    reg0: Map<Seq<char>, TypeInfo>,
    reg1: Map<Seq<char>, TypeInfo>,
    rep: AnalysisReport,
) -> bool {
    &&& forall|ri: int|
        0 <= ri < rep.resolved@.len() ==> resolved_entry_ok(ds, reg1, #[trigger] rep.resolved@[ri])
    &&& forall|si: int|
        0 <= si < rep.skipped@.len() ==> skipped_entry_ok(ds, reg1, #[trigger] rep.skipped@[si])
    &&& forall|oi: int|
        0 <= oi < rep.oversized@.len() ==> oversized_entry_ok(
            ds,
            reg1,
            (#[trigger] rep.oversized@[oi])@,
        )
    &&& forall|i: int|
        0 <= i < ds.len() ==> resolved_has_name(rep.resolved@, (#[trigger] ds[i]).name)
            || skipped_has_name(rep.skipped@, ds[i].name) || oversized_has_name(
            rep.oversized@,
            ds[i].name,
        )
    &&& forall|k: Seq<char>|
        #![trigger reg1.dom().contains(k)]
        reg1.dom().contains(k) <==> reg0.dom().contains(k) || resolved_has_name(rep.resolved@, k)
    &&& forall|k: Seq<char>|
        #![trigger reg0[k]]
        reg0.dom().contains(k) && !struct_named(ds, k) ==> reg1.dom().contains(k) && reg1[k]
            == reg0[k]
}

/// Index `j` stands before position `p` in `order`.
spec fn processed(order: Seq<usize>, p: int, j: int) -> bool {
    exists|q: int| 0 <= q < p && (#[trigger] order[q]) as int == j
}

/// Every structure that a field type of `i` names stands before
/// position `p` in `order`.
spec fn types_settled(ds: Seq<SpecMetaStruct>, order: Seq<usize>, p: int, i: int) -> bool {
    forall|f: int, j: int|
        0 <= f < ds[i].fields.len() && 0 <= j < ds.len() && (#[trigger] ds[i].fields[f]).field_type
            == (#[trigger] ds[j]).name ==> processed(order, p, j)
}

/// A resolved entry together with the processing evidence the loop
/// carries: its structure and every structure its field types name
/// stand before position `p`.
spec fn resolved_entry_inv(
    ds: Seq<SpecMetaStruct>,
    reg: Map<Seq<char>, TypeInfo>,
    order: Seq<usize>,
    p: int,
    r: StructReport,
) -> bool {
    exists|i: int|
        #![trigger ds[i]]
        {
            &&& 0 <= i < ds.len()
            &&& ds[i].name == r.name@
            &&& fields_resolve(ds[i], reg, r.fields.deep_view())
            &&& layout_matches(r.fields.deep_view(), r.layout)
            &&& optimize_post(r.fields.deep_view(), r.suggestion)
            &&& reg.dom().contains(r.name@)
            &&& reg[r.name@] == (TypeInfo {
                nat_align: r.layout.alignment,
                size: r.layout.total_size,
            })
            &&& processed(order, p, i)
            &&& types_settled(ds, order, p, i)
        }
}

/// A skip entry with its processing evidence.
spec fn skipped_entry_inv(
    ds: Seq<SpecMetaStruct>,
    reg: Map<Seq<char>, TypeInfo>,
    order: Seq<usize>,
    p: int,
    s: SkipReport,
) -> bool {
    exists|i: int|
        #![trigger ds[i]]
        {
            &&& 0 <= i < ds.len()
            &&& ds[i].name == s.name@
            &&& exists|f: int|
                0 <= f < ds[i].fields.len() && (#[trigger] ds[i].fields[f]).field_name
                    == s.field_name@ && ds[i].fields[f].field_type == s.unresolved_type@
            &&& !reg.dom().contains(s.unresolved_type@)
            &&& forall|j: int|
                0 <= j < ds.len() && (#[trigger] ds[j]).name == s.unresolved_type@ ==> processed(
                    order,
                    p,
                    j,
                )
        }
}

/// An oversize entry with its processing evidence.
spec fn oversized_entry_inv(
    ds: Seq<SpecMetaStruct>,
    reg: Map<Seq<char>, TypeInfo>,
    order: Seq<usize>,
    p: int,
    k: Seq<char>,
) -> bool {
    exists|i: int|
        #![trigger ds[i]]
        {
            &&& 0 <= i < ds.len()
            &&& ds[i].name == k
            &&& exists|fs: Seq<SpecField>, fs2: Seq<SpecField>|
                #[trigger] fields_resolve(ds[i], reg, fs) && #[trigger] fs2.to_multiset()
                    == fs.to_multiset() && spec_total_size(fs2) > u64::MAX
            &&& processed(order, p, i)
            &&& types_settled(ds, order, p, i)
        }
}

/// Processes the structures in dependency order: resolves each field
/// against the registry, computes the layout and the suggestion, and
/// registers the structure's own size and alignment; a structure with
/// an unknown field type, or one beyond the machine's size range, is
/// recorded and skipped without stopping the run.
#[verifier::rlimit(100)]
fn resolve_in_order(
    defs: &Vec<MetaStruct>,
    order: &Vec<usize>,
    registry: &mut TypeRegistry,
) -> (rep: AnalysisReport)
    requires
        old(registry).wf(),
        unique_names(defs.deep_view()),
        is_topo(defs.deep_view(), order@),
    ensures
        final(registry).wf(),
        report_ok(defs.deep_view(), old(registry)@, final(registry)@, rep),
{
    let ghost dv = defs.deep_view();
    let ghost reg0 = registry@;
    let n = defs.len();
    proof {
        assert(dv.len() == n);
    }
    let mut resolved: Vec<StructReport> = Vec::new();
    let mut skipped: Vec<SkipReport> = Vec::new();
    let mut oversized: Vec<String> = Vec::new();
    let mut p: usize = 0;
    let np = order.len();
    while p < np
        invariant
            p <= np == order@.len(),
            n == dv.len(),
            dv == defs.deep_view(),
            registry.wf(),
            unique_names(dv),
            is_topo(dv, order@),
            forall|ri: int|
                0 <= ri < resolved@.len() ==> resolved_entry_inv(
                    dv,
                    registry@,
                    order@,
                    p as int,
                    #[trigger] resolved@[ri],
                ),
            forall|si: int|
                0 <= si < skipped@.len() ==> skipped_entry_inv(
                    dv,
                    registry@,
                    order@,
                    p as int,
                    #[trigger] skipped@[si],
                ),
            forall|oi: int|
                0 <= oi < oversized@.len() ==> oversized_entry_inv(
                    dv,
                    registry@,
                    order@,
                    p as int,
                    (#[trigger] oversized@[oi])@,
                ),
            forall|q: int|
                0 <= q < p ==> resolved_has_name(resolved@, dv[(#[trigger] order@[q]) as int].name)
                    || skipped_has_name(skipped@, dv[order@[q] as int].name) || oversized_has_name(
                    oversized@,
                    dv[order@[q] as int].name,
                ),
            forall|k: Seq<char>|
                #![trigger registry@.dom().contains(k)]
                registry@.dom().contains(k) <==> reg0.dom().contains(k) || resolved_has_name(
                    resolved@,
                    k,
                ),
            forall|k: Seq<char>|
                #![trigger reg0[k]]
                reg0.dom().contains(k) && !struct_named(dv, k) ==> registry@.dom().contains(k)
                    && registry@[k] == reg0[k],
        decreases np - p,
    {
        let u = order[p];
        proof {
            assert(order@[p as int] == u);
            assert(u < n);
            assert(dv[u as int] == defs@[u as int]@);
        }
        let d = &defs[u];
        let nf = d.fields.len();
        proof {
            assert(dv[u as int].fields.len() == nf);
        }
        let mut rfields: Vec<ResolvedField> = Vec::new();
        let mut failing: Option<(String, String)> = None;
        let mut f: usize = 0;
        while f < nf && failing.is_none()
            invariant
                f <= nf == dv[u as int].fields.len(),
                nf == defs@[u as int].fields@.len(),
                nf == d.fields@.len(),
                *d == defs@[u as int],
                u < n == dv.len(),
                dv == defs.deep_view(),
                dv[u as int] == defs@[u as int]@,
                registry.wf(),
                failing is None ==> {
                    &&& rfields@.len() == f
                    &&& forall|ff: int|
                        0 <= ff < f ==> {
                            let ty = (#[trigger] dv[u as int].fields[ff]).field_type;
                            &&& registry@.dom().contains(ty)
                            &&& rfields@[ff]@ == (SpecField {
                                name: dv[u as int].fields[ff].field_name,
                                size: registry@[ty].size as int,
                                alignment: registry@[ty].nat_align as int,
                                decl_index: ff,
                            })
                        }
                },
                failing matches Some(pair) ==> exists|ff: int|
                    0 <= ff < nf && (#[trigger] dv[u as int].fields[ff]).field_name == pair.0@
                        && dv[u as int].fields[ff].field_type == pair.1@
                        && !registry@.dom().contains(pair.1@),
            decreases nf - f,
        {
            proof {
                assert(dv[u as int].fields[f as int] == defs@[u as int].fields@[f as int]@);
            }
            let ghost old_rfields = rfields@;
            match registry.lookup(d.fields[f].field_type.as_str()) {
                Some(info) => {
                    rfields.push(
                        ResolvedField {
                            name: d.fields[f].field_name.clone(),
                            size: info.size,
                            alignment: info.nat_align,
                            decl_index: f,
                        },
                    );
                    proof {
                        let ty = dv[u as int].fields[f as int].field_type;
                        assert(rfields@[f as int]@ == (SpecField {
                            name: dv[u as int].fields[f as int].field_name,
                            size: registry@[ty].size as int,
                            alignment: registry@[ty].nat_align as int,
                            decl_index: f as int,
                        }));
                        assert forall|ff: int| 0 <= ff < f implies (#[trigger] rfields@[ff])
                            == old_rfields[ff] by {}
                    }
                },
                None => {
                    failing = Some(
                        (d.fields[f].field_name.clone(), d.fields[f].field_type.clone()),
                    );
                    proof {
                        let pair = failing->Some_0;
                        assert(dv[u as int].fields[f as int].field_name == pair.0@);
                        assert(dv[u as int].fields[f as int].field_type == pair.1@);
                    }
                },
            }
            f = f + 1;
        }
        let ghost old_resolved = resolved@;
        let ghost old_skipped = skipped@;
        let ghost old_oversized = oversized@;
        match failing {
            Some(pair) => {
                let entry = SkipReport {
                    name: d.name.clone(),
                    field_name: pair.0,
                    unresolved_type: pair.1,
                };
                proof {
                    let ff = choose|ff: int|
                        0 <= ff < nf && (#[trigger] dv[u as int].fields[ff]).field_name
                            == entry.field_name@ && dv[u as int].fields[ff].field_type
                            == entry.unresolved_type@ && !registry@.dom().contains(
                            entry.unresolved_type@,
                        );
                    assert forall|j: int|
                        0 <= j < dv.len() && (#[trigger] dv[j]).name == entry.unresolved_type@
                            implies processed(order@, p as int, j) by {
                        assert(spec_edge(dv, u as int, j));
                        assert(spec_edge(dv, order@[p as int] as int, j));
                    }
                    assert(skipped_entry_inv(dv, registry@, order@, p as int, entry));
                }
                skipped.push(entry);
                proof {
                    assert forall|si: int|
                        0 <= si < skipped@.len() implies skipped_entry_inv(
                        dv,
                        registry@,
                        order@,
                        p + 1int,
                        #[trigger] skipped@[si],
                    ) by {
                        if si < old_skipped.len() {
                            assert(skipped@[si] == old_skipped[si]);
                        }
                    }
                    assert(skipped_has_name(skipped@, dv[u as int].name)) by {
                        assert(skipped@[skipped@.len() - 1].name@ == dv[u as int].name);
                    }
                    assert forall|q: int|
                        0 <= q < p + 1 implies resolved_has_name(
                        resolved@,
                        dv[(#[trigger] order@[q]) as int].name,
                    ) || skipped_has_name(skipped@, dv[order@[q] as int].name)
                        || oversized_has_name(oversized@, dv[order@[q] as int].name) by {
                        if q < p {
                            if skipped_has_name(old_skipped, dv[order@[q] as int].name) {
                                let si = choose|si: int|
                                    0 <= si < old_skipped.len() && (#[trigger] old_skipped[si]).name@
                                        == dv[order@[q] as int].name;
                                assert(skipped@[si] == old_skipped[si]);
                            }
                        }
                    }
                }
            },
            None => {
                proof {
                    assert(rfields@.len() == nf);
                    assert forall|ff: int|
                        0 <= ff < rfields.deep_view().len() implies (#[trigger] rfields.deep_view()[ff]).alignment
                        >= 1 && rfields.deep_view()[ff].size >= 0 by {
                        assert(rfields.deep_view()[ff] == rfields@[ff]@);
                        let ty = dv[u as int].fields[ff].field_type;
                        assert(registry@[ty].nat_align >= 1);
                    }
                    assert(fields_resolve(dv[u as int], registry@, rfields.deep_view())) by {
                        assert forall|ff: int| 0 <= ff < dv[u as int].fields.len() implies {
                            let ty = (#[trigger] dv[u as int].fields[ff]).field_type;
                            &&& registry@.dom().contains(ty)
                            &&& rfields.deep_view()[ff] == (SpecField {
                                name: dv[u as int].fields[ff].field_name,
                                size: registry@[ty].size as int,
                                alignment: registry@[ty].nat_align as int,
                                decl_index: ff,
                            })
                        } by {
                            assert(rfields.deep_view()[ff] == rfields@[ff]@);
                        }
                    }
                    assert forall|ff: int, j: int|
                        0 <= ff < dv[u as int].fields.len() && 0 <= j < dv.len() && (
                        #[trigger] dv[u as int].fields[ff]).field_type == (#[trigger] dv[j]).name
                            implies processed(order@, p as int, j) by {
                        assert(spec_edge(dv, u as int, j));
                        assert(spec_edge(dv, order@[p as int] as int, j));
                    }
                }
                let maybe_layout = compute_layout(&rfields);
                match maybe_layout {
                    None => {
                        let entry = d.name.clone();
                        proof {
                            let fs = rfields.deep_view();
                            assert(fs.to_multiset() == fs.to_multiset());
                            assert(oversized_entry_inv(dv, registry@, order@, p + 1int, entry@))
                                by {
                                assert(processed(order@, p + 1int, u as int)) by {
                                    assert(order@[p as int] == u);
                                }
                            }
                        }
                        oversized.push(entry);
                        proof {
                            assert forall|oi: int|
                                0 <= oi < oversized@.len() implies oversized_entry_inv(
                                dv,
                                registry@,
                                order@,
                                p + 1int,
                                (#[trigger] oversized@[oi])@,
                            ) by {
                                if oi < old_oversized.len() {
                                    assert(oversized@[oi] == old_oversized[oi]);
                                }
                            }
                            assert(oversized_has_name(oversized@, dv[u as int].name)) by {
                                assert(oversized@[oversized@.len() - 1]@ == dv[u as int].name);
                            }
                            assert forall|q: int|
                                0 <= q < p + 1 implies resolved_has_name(
                                resolved@,
                                dv[(#[trigger] order@[q]) as int].name,
                            ) || skipped_has_name(skipped@, dv[order@[q] as int].name)
                                || oversized_has_name(oversized@, dv[order@[q] as int].name) by {
                                if q < p {
                                    if oversized_has_name(old_oversized, dv[order@[q] as int].name) {
                                        let oi = choose|oi: int|
                                            0 <= oi < old_oversized.len() && (
                                            #[trigger] old_oversized[oi])@ == dv[order@[q] as int].name;
                                        assert(oversized@[oi] == old_oversized[oi]);
                                    }
                                }
                            }
                        }
                    },
                    Some(layout) => {
                        match optimize(&rfields, &layout) {
                            None => {
                                let entry = d.name.clone();
                                proof {
                                    let fs = rfields.deep_view();
                                    let cand = choose|cand: Seq<SpecField>|
                                        #[trigger] is_candidate(fs, cand) && spec_total_size(cand)
                                            > u64::MAX;
                                    assert(cand.to_multiset() == fs.to_multiset());
                                    assert(oversized_entry_inv(
                                        dv,
                                        registry@,
                                        order@,
                                        p + 1int,
                                        entry@,
                                    )) by {
                                        assert(processed(order@, p + 1int, u as int)) by {
                                            assert(order@[p as int] == u);
                                        }
                                    }
                                }
                                oversized.push(entry);
                                proof {
                                    assert forall|oi: int|
                                        0 <= oi < oversized@.len() implies oversized_entry_inv(
                                        dv,
                                        registry@,
                                        order@,
                                        p + 1int,
                                        (#[trigger] oversized@[oi])@,
                                    ) by {
                                        if oi < old_oversized.len() {
                                            assert(oversized@[oi] == old_oversized[oi]);
                                        }
                                    }
                                    assert(oversized_has_name(oversized@, dv[u as int].name)) by {
                                        assert(oversized@[oversized@.len() - 1]@ == dv[u as int].name);
                                    }
                                    assert forall|q: int|
                                        0 <= q < p + 1 implies resolved_has_name(
                                        resolved@,
                                        dv[(#[trigger] order@[q]) as int].name,
                                    ) || skipped_has_name(skipped@, dv[order@[q] as int].name)
                                        || oversized_has_name(
                                        oversized@,
                                        dv[order@[q] as int].name,
                                    ) by {
                                        if q < p {
                                            if oversized_has_name(
                                                old_oversized,
                                                dv[order@[q] as int].name,
                                            ) {
                                                let oi = choose|oi: int|
                                                    0 <= oi < old_oversized.len() && (
                                                    #[trigger] old_oversized[oi])@ == dv[order@[q] as int].name;
                                                assert(oversized@[oi] == old_oversized[oi]);
                                            }
                                        }
                                    }
                                }
                            },
                            Some(suggestion) => {
                                let info = TypeInfo {
                                    nat_align: layout.alignment,
                                    size: layout.total_size,
                                };
                                proof {
                                    crate::layout::lemma_struct_align_bounds(
                                        rfields.deep_view(),
                                    );
                                }
                                let ghost kn = dv[u as int].name;
                                let ghost regpre = registry@;
                                registry.register(d.name.clone(), info);
                                let entry = StructReport {
                                    name: d.name.clone(),
                                    fields: rfields,
                                    layout,
                                    suggestion,
                                };
                                proof {
                                    assert(registry@ == regpre.insert(kn, info));
                                    // no structure that is still pending shares a
                                    // name with anything the loop's evidence
                                    // mentions, so older entries keep their facts
                                    assert forall|j: int|
                                        0 <= j < dv.len() && processed(order@, p as int, j)
                                            implies (#[trigger] dv[j]).name != kn by {
                                        if dv[j].name == kn {
                                            assert(j == u as int);
                                            let q = choose|q: int|
                                                0 <= q < p && (#[trigger] order@[q]) as int == j;
                                            assert(order@[q] != order@[p as int]);
                                        }
                                    }
                                    assert(fields_resolve(
                                        dv[u as int],
                                        registry@,
                                        entry.fields.deep_view(),
                                    )) by {
                                        assert forall|ff: int|
                                            0 <= ff < dv[u as int].fields.len() implies {
                                            let ty = (#[trigger] dv[u as int].fields[ff]).field_type;
                                            &&& registry@.dom().contains(ty)
                                            &&& entry.fields.deep_view()[ff] == (SpecField {
                                                name: dv[u as int].fields[ff].field_name,
                                                size: registry@[ty].size as int,
                                                alignment: registry@[ty].nat_align as int,
                                                decl_index: ff,
                                            })
                                        } by {
                                            let ty = dv[u as int].fields[ff].field_type;
                                            if ty == kn {
                                                assert(struct_named(dv, ty)) by {
                                                    assert(dv[u as int].name == ty);
                                                }
                                                let j = choose|j: int|
                                                    0 <= j < dv.len() && (#[trigger] dv[j]).name
                                                        == ty;
                                                assert(processed(order@, p as int, j));
                                                assert(false);
                                            }
                                        }
                                    }
                                    assert(resolved_entry_inv(
                                        dv,
                                        registry@,
                                        order@,
                                        p + 1int,
                                        entry,
                                    )) by {
                                        assert(processed(order@, p + 1int, u as int)) by {
                                            assert(order@[p as int] == u);
                                        }
                                    }
                                    assert forall|ri: int|
                                        0 <= ri < old_resolved.len() implies resolved_entry_inv(
                                        dv,
                                        registry@,
                                        order@,
                                        p + 1int,
                                        #[trigger] old_resolved[ri],
                                    ) by {
                                        let r = old_resolved[ri];
                                        let i = choose|i: int|
                                            #![trigger dv[i]]
                                            {
                                                &&& 0 <= i < dv.len()
                                                &&& dv[i].name == r.name@
                                                &&& fields_resolve(
                                                    dv[i],
                                                    regpre,
                                                    r.fields.deep_view(),
                                                )
                                                &&& layout_matches(r.fields.deep_view(), r.layout)
                                                &&& optimize_post(
                                                    r.fields.deep_view(),
                                                    r.suggestion,
                                                )
                                                &&& regpre.dom().contains(r.name@)
                                                &&& regpre[r.name@] == (TypeInfo {
                                                    nat_align: r.layout.alignment,
                                                    size: r.layout.total_size,
                                                })
                                                &&& processed(order@, p as int, i)
                                                &&& types_settled(dv, order@, p as int, i)
                                            };
                                        assert(dv[i].name != kn);
                                        assert(fields_resolve(
                                            dv[i],
                                            registry@,
                                            r.fields.deep_view(),
                                        )) by {
                                            assert forall|ff: int|
                                                0 <= ff < dv[i].fields.len() implies {
                                                let ty = (#[trigger] dv[i].fields[ff]).field_type;
                                                &&& registry@.dom().contains(ty)
                                                &&& r.fields.deep_view()[ff] == (SpecField {
                                                    name: dv[i].fields[ff].field_name,
                                                    size: registry@[ty].size as int,
                                                    alignment: registry@[ty].nat_align as int,
                                                    decl_index: ff,
                                                })
                                            } by {
                                                let ty = dv[i].fields[ff].field_type;
                                                if ty == kn {
                                                    let j = choose|j: int|
                                                        0 <= j < dv.len() && (#[trigger] dv[j]).name
                                                            == ty;
                                                    assert(processed(order@, p as int, j));
                                                    assert(false);
                                                }
                                            }
                                        }
                                    }
                                    assert forall|si: int|
                                        0 <= si < skipped@.len() implies skipped_entry_inv(
                                        dv,
                                        registry@,
                                        order@,
                                        p + 1int,
                                        #[trigger] skipped@[si],
                                    ) by {
                                        let s = skipped@[si];
                                        let i = choose|i: int|
                                            #![trigger dv[i]]
                                            {
                                                &&& 0 <= i < dv.len()
                                                &&& dv[i].name == s.name@
                                                &&& exists|f2: int|
                                                    0 <= f2 < dv[i].fields.len() && (
                                                    #[trigger] dv[i].fields[f2]).field_name
                                                        == s.field_name@ && dv[i].fields[f2].field_type
                                                        == s.unresolved_type@
                                                &&& !regpre.dom().contains(s.unresolved_type@)
                                                &&& forall|j: int|
                                                    0 <= j < dv.len() && (#[trigger] dv[j]).name
                                                        == s.unresolved_type@ ==> processed(
                                                        order@,
                                                        p as int,
                                                        j,
                                                    )
                                            };
                                        if s.unresolved_type@ == kn {
                                            assert(struct_named(dv, kn)) by {
                                                assert(dv[u as int].name == kn);
                                            }
                                            let j = choose|j: int|
                                                0 <= j < dv.len() && (#[trigger] dv[j]).name == kn;
                                            assert(processed(order@, p as int, j));
                                            assert(false);
                                        }
                                    }
                                    assert forall|oi: int|
                                        0 <= oi < oversized@.len() implies oversized_entry_inv(
                                        dv,
                                        registry@,
                                        order@,
                                        p + 1int,
                                        (#[trigger] oversized@[oi])@,
                                    ) by {
                                        let k = oversized@[oi]@;
                                        let i = choose|i: int|
                                            #![trigger dv[i]]
                                            {
                                                &&& 0 <= i < dv.len()
                                                &&& dv[i].name == k
                                                &&& exists|fs: Seq<SpecField>, fs2: Seq<SpecField>|
                                                    #[trigger] fields_resolve(dv[i], regpre, fs)
                                                        && #[trigger] fs2.to_multiset()
                                                        == fs.to_multiset() && spec_total_size(fs2)
                                                        > u64::MAX
                                                &&& processed(order@, p as int, i)
                                                &&& types_settled(dv, order@, p as int, i)
                                            };
                                        let (fs, fs2) = choose|fs: Seq<SpecField>, fs2: Seq<SpecField>|
                                            #[trigger] fields_resolve(dv[i], regpre, fs)
                                                && #[trigger] fs2.to_multiset() == fs.to_multiset()
                                                && spec_total_size(fs2) > u64::MAX;
                                        assert(fields_resolve(dv[i], registry@, fs)) by {
                                            assert forall|ff: int|
                                                0 <= ff < dv[i].fields.len() implies {
                                                let ty = (#[trigger] dv[i].fields[ff]).field_type;
                                                &&& registry@.dom().contains(ty)
                                                &&& fs[ff] == (SpecField {
                                                    name: dv[i].fields[ff].field_name,
                                                    size: registry@[ty].size as int,
                                                    alignment: registry@[ty].nat_align as int,
                                                    decl_index: ff,
                                                })
                                            } by {
                                                let ty = dv[i].fields[ff].field_type;
                                                if ty == kn {
                                                    let j = choose|j: int|
                                                        0 <= j < dv.len() && (#[trigger] dv[j]).name
                                                            == ty;
                                                    assert(processed(order@, p as int, j));
                                                    assert(false);
                                                }
                                            }
                                        }
                                    }
                                }
                                resolved.push(entry);
                                proof {
                                    assert forall|ri: int|
                                        0 <= ri < resolved@.len() implies resolved_entry_inv(
                                        dv,
                                        registry@,
                                        order@,
                                        p + 1int,
                                        #[trigger] resolved@[ri],
                                    ) by {
                                        if ri < old_resolved.len() {
                                            assert(resolved@[ri] == old_resolved[ri]);
                                        }
                                    }
                                    assert(resolved_has_name(resolved@, dv[u as int].name)) by {
                                        assert(resolved@[resolved@.len() - 1].name@ == dv[u as int].name);
                                    }
                                    assert forall|q: int|
                                        0 <= q < p + 1 implies resolved_has_name(
                                        resolved@,
                                        dv[(#[trigger] order@[q]) as int].name,
                                    ) || skipped_has_name(skipped@, dv[order@[q] as int].name)
                                        || oversized_has_name(
                                        oversized@,
                                        dv[order@[q] as int].name,
                                    ) by {
                                        if q < p {
                                            if resolved_has_name(
                                                old_resolved,
                                                dv[order@[q] as int].name,
                                            ) {
                                                let ri = choose|ri: int|
                                                    0 <= ri < old_resolved.len() && (
                                                    #[trigger] old_resolved[ri]).name@ == dv[order@[q] as int].name;
                                                assert(resolved@[ri] == old_resolved[ri]);
                                            }
                                        }
                                    }
                                    assert forall|k: Seq<char>|
                                        #![trigger registry@.dom().contains(k)]
                                        registry@.dom().contains(k) <==> reg0.dom().contains(k)
                                            || resolved_has_name(resolved@, k) by {
                                        if registry@.dom().contains(k) {
                                            if !regpre.dom().contains(k) {
                                                assert(k == kn);
                                                assert(resolved@[resolved@.len() - 1].name@ == k);
                                            } else {
                                                if resolved_has_name(old_resolved, k) {
                                                    let ri = choose|ri: int|
                                                        0 <= ri < old_resolved.len() && (
                                                        #[trigger] old_resolved[ri]).name@ == k;
                                                    assert(resolved@[ri] == old_resolved[ri]);
                                                }
                                            }
                                        } else {
                                            if resolved_has_name(resolved@, k) {
                                                let ri = choose|ri: int|
                                                    0 <= ri < resolved@.len() && (
                                                    #[trigger] resolved@[ri]).name@ == k;
                                                if ri < old_resolved.len() {
                                                    assert(old_resolved[ri] == resolved@[ri]);
                                                    assert(regpre.dom().contains(k));
                                                }
                                            }
                                        }
                                    }
                                }
                            },
                        }
                    },
                }
            },
        }
        p = p + 1;
    }
    let rep = AnalysisReport { resolved, skipped, oversized };
    proof {
        assert forall|i: int|
            0 <= i < dv.len() implies resolved_has_name(rep.resolved@, (#[trigger] dv[i]).name)
            || skipped_has_name(rep.skipped@, dv[i].name) || oversized_has_name(
            rep.oversized@,
            dv[i].name,
        ) by {
            assert(in_order(order@, i));
            let q = choose|q: int| 0 <= q < order@.len() && (#[trigger] order@[q]) == i;
            assert(dv[order@[q] as int].name == dv[i].name);
        }
        assert forall|ri: int|
            0 <= ri < rep.resolved@.len() implies resolved_entry_ok(
            dv,
            registry@,
            #[trigger] rep.resolved@[ri],
        ) by {
            assert(resolved_entry_inv(dv, registry@, order@, np as int, rep.resolved@[ri]));
        }
        assert forall|si: int|
            0 <= si < rep.skipped@.len() implies skipped_entry_ok(
            dv,
            registry@,
            #[trigger] rep.skipped@[si],
        ) by {
            assert(skipped_entry_inv(dv, registry@, order@, np as int, rep.skipped@[si]));
        }
        assert forall|oi: int|
            0 <= oi < rep.oversized@.len() implies oversized_entry_ok(
            dv,
            registry@,
            (#[trigger] rep.oversized@[oi])@,
        ) by {
            assert(oversized_entry_inv(dv, registry@, order@, np as int, rep.oversized@[oi]@));
        }
    }
    rep
}

/// Resolves the whole corpus: rejects duplicate names and reference
/// cycles (which abort the run and leave the registry untouched), then
/// processes every structure in dependency order.
pub fn resolve(defs: &Vec<MetaStruct>, registry: &mut TypeRegistry) -> (r: Result<
    AnalysisReport,
    Error,
>)
    requires
        old(registry).wf(),
    ensures
        final(registry).wf(),
        dup_exists(defs.deep_view()) <==> (r matches Err(e) && e matches Error::DuplicateDefinition(
            _,
        )),
        match r {
            Ok(rep) => {
                &&& unique_names(defs.deep_view())
                &&& acyclic(defs.deep_view())
                &&& report_ok(defs.deep_view(), old(registry)@, final(registry)@, rep)
            },
            Err(e) => match e {
                Error::DuplicateDefinition(_) => final(registry)@ == old(registry)@,
                Error::CyclicDependency(names) => {
                    &&& unique_names(defs.deep_view())
                    &&& final(registry)@ == old(registry)@
                    &&& exists|c: Seq<int>|
                        is_cycle(defs.deep_view(), c) && names.deep_view().len() == c.len()
                            && forall|k: int|
                            0 <= k < c.len() ==> names.deep_view()[k] == defs.deep_view()[#[trigger] c[k]].name
                },
                _ => false,
            },
        },
{
    let ghost dv = defs.deep_view();
    if let Some(name) = find_duplicate(defs) {
        return Err(Error::DuplicateDefinition(name));
    }
    let adj = build_adj(defs);
    let order = match topo_sort(defs, &adj) {
        Ok(o) => o,
        Err(e) => {
            proof {
                if !(e matches Error::CyclicDependency(_)) {
                    assert(false);
                }
            }
            return Err(e);
        },
    };
    proof {
        lemma_topo_acyclic(dv, order@);
    }
    let rep = resolve_in_order(defs, &order, registry);
    Ok(rep)
}

/// A reference cycle in a duplicate-free corpus is always reported as
/// `CyclicDependency`: resolution never succeeds on it, and never
/// reports anything else.
pub proof fn lemma_cycle_always_detected(
    ds: Seq<SpecMetaStruct>,
    reg0: Map<Seq<char>, TypeInfo>,
    reg1: Map<Seq<char>, TypeInfo>,
    r: Result<AnalysisReport, Error>,
    c: Seq<int>,
)
    requires
        !dup_exists(ds),
        is_cycle(ds, c),
        // everything `resolve` ensures about its result
        (dup_exists(ds) <==> (r matches Err(e) && e matches Error::DuplicateDefinition(_))),
        match r {
            Ok(rep) => unique_names(ds) && acyclic(ds) && report_ok(ds, reg0, reg1, rep),
            Err(e) => match e {
                Error::DuplicateDefinition(_) => true,
                Error::CyclicDependency(_) => true,
                _ => false,
            },
        },
    ensures
        r matches Err(e) && e matches Error::CyclicDependency(_),
{
    match r {
        Ok(rep) => {
            assert(!is_cycle(ds, c));
        },
        Err(e) => match e {
            Error::DuplicateDefinition(_) => {
                assert(dup_exists(ds));
            },
            _ => {
            },
        },
    }
}

} // verus!

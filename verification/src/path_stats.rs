use vstd::prelude::*;

use crate::store_path::GraphView;
use crate::store_path::NodeView;
use crate::store_path::StorePath;
use crate::store_path::referrers;
use crate::store_path::StorePathGraph;
use crate::store_path::has_node;
use crate::store_path::index_of_id;
use crate::store_path::lemma_index_of_id;
use crate::store_path::node_at;
use crate::util::str_eq;

verus! {

/// The number of `false` entries in a sequence of booleans.
pub open spec fn count_false(s: Seq<bool>) -> int
    decreases s.len(),
{
    if s.len() == 0 {
        0
    } else {
        count_false(s.drop_last()) + if s.last() {
            0int
        } else {
            1int
        }
    }
}

proof fn lemma_count_false_bounds(s: Seq<bool>)
    ensures
        0 <= count_false(s) <= s.len(),
    decreases s.len(),
{
    if s.len() > 0 {
        lemma_count_false_bounds(s.drop_last());
    }
}

/// Turning a `false` entry into `true` lowers the count of `false` entries by one.
proof fn lemma_count_false_update(s: Seq<bool>, j: int)
    requires
        0 <= j < s.len(),
        !s[j],
    ensures
        count_false(s.update(j, true)) == count_false(s) - 1,
    decreases s.len(),
{
    let t = s.update(j, true);
    if j == s.len() - 1 {
        assert(t.drop_last() =~= s.drop_last());
    } else {
        assert(t.drop_last() =~= s.drop_last().update(j, true));
        lemma_count_false_update(s.drop_last(), j);
    }
}

/// `id` differs from the excluded identifier, if one is given.
pub open spec fn avoids_one(id: Seq<char>, ex: Option<Seq<char>>) -> bool {
    match ex {
        Some(e) => id != e,
        None => true,
    }
}

/// A dependency chain: a non-empty sequence of identifiers, each present in
/// the store, each mentioning the next among its references.
pub open spec fn is_chain(g: GraphView, p: Seq<Seq<char>>) -> bool {
    &&& p.len() >= 1
    &&& forall|i: int| 0 <= i < p.len() ==> has_node(g, #[trigger] p[i])
    &&& forall|i: int|
        0 <= i < p.len() - 1 ==> node_at(g, #[trigger] p[i]).references.contains(p[i + 1])
}

/// Every identifier on the chain differs from the excluded one.
pub open spec fn chain_avoids(p: Seq<Seq<char>>, ex: Option<Seq<char>>) -> bool {
    forall|i: int| 0 <= i < p.len() ==> avoids_one(#[trigger] p[i], ex)
}

/// A dependency chain avoiding `ex` leads from `from` to `to`.
pub open spec fn reaches(g: GraphView, from: Seq<char>, to: Seq<char>, ex: Option<Seq<char>>) -> bool {
    exists|p: Seq<Seq<char>>|
        is_chain(g, p) && chain_avoids(p, ex) && p.first() == from && p.last() == to
}

/// `to` lies in the union closure of the `starts`, traversal forbidden from
/// touching the excluded identifier.
pub open spec fn in_closure(
    g: GraphView,
    starts: Seq<Seq<char>>,
    ex: Option<Seq<char>>,
    to: Seq<char>,
) -> bool {
    exists|k: int| 0 <= k < starts.len() && reaches(g, #[trigger] starts[k], to, ex)
}

/// The sum of `nar_size` over the first `n` nodes that are the first
/// occurrence of their identifier and lie in the closure: each distinct
/// reachable identifier is counted exactly once.
pub open spec fn closure_sum(
    g: GraphView,
    starts: Seq<Seq<char>>,
    ex: Option<Seq<char>>,
    n: int,
) -> int
    decreases n,
{
    if n <= 0 {
        0
    } else {
        closure_sum(g, starts, ex, n - 1) + if index_of_id(g.nodes, g.nodes[n - 1].id) == n - 1
            && in_closure(g, starts, ex, g.nodes[n - 1].id) {
            g.nodes[n - 1].nar_size as int
        } else {
            0
        }
    }
}

/// The total number of bytes in the union closure of the `starts`.
pub open spec fn total_closure_size(
    g: GraphView,
    starts: Seq<Seq<char>>,
    ex: Option<Seq<char>>,
) -> int {
    closure_sum(g, starts, ex, g.nodes.len() as int)
}

/// An integer clamped into the `u64` range from above.
pub open spec fn clamp_u64(x: int) -> int {
    if x <= u64::MAX {
        x
    } else {
        u64::MAX as int
    }
}

/// The marginal bytes of `target` inside the context `ctx`: the context's
/// closure size minus the closure size obtained when traversal may not touch
/// `target`, never negative. Both sums saturate at `u64::MAX`.
pub open spec fn spec_added_size(g: GraphView, ctx: Seq<Seq<char>>, target: Seq<char>) -> int {
    let total = clamp_u64(total_closure_size(g, ctx, None));
    let filtered = clamp_u64(total_closure_size(g, ctx, Some(target)));
    if total >= filtered {
        total - filtered
    } else {
        0
    }
}

/// The view of an optional borrowed identifier.
pub open spec fn opt_id_view(e: Option<&String>) -> Option<Seq<char>> {
    match e {
        Some(s) => Some(s@),
        None => None,
    }
}

/// Index `i` of `vis` is flagged exactly when node `i` is the first
/// occurrence of its identifier and that identifier is in the closure.
pub open spec fn flags_exact(
    g: GraphView,
    vis: Seq<bool>,
    starts: Seq<Seq<char>>,
    ex: Option<Seq<char>>,
) -> bool {
    &&& vis.len() == g.nodes.len()
    &&& forall|i: int|
        0 <= i < vis.len() ==> (vis[i] <==> (index_of_id(g.nodes, g.nodes[i].id) == i
            && in_closure(g, starts, ex, #[trigger] g.nodes[i].id)))
}

/// The first `r` references of node `i` are flagged, unless they dangle or
/// are the excluded identifier.
spec fn refs_flagged_upto(g: GraphView, vis: Seq<bool>, ex: Option<Seq<char>>, i: int, r: int) -> bool {
    forall|k: int|
        0 <= k < r ==> {
            let rid = #[trigger] g.nodes[i].references[k];
            (avoids_one(rid, ex) && has_node(g, rid)) ==> vis[index_of_id(g.nodes, rid)]
        }
}

/// All references of every flagged node are themselves flagged, unless they
/// dangle or are the excluded identifier.
spec fn refs_flagged(g: GraphView, vis: Seq<bool>, ex: Option<Seq<char>>, i: int) -> bool {
    refs_flagged_upto(g, vis, ex, i, g.nodes[i].references.len() as int)
}

/// The first `k` starting identifiers that stand in the store and are not
/// excluded are flagged.
spec fn starts_marked_upto(
    g: GraphView,
    vis: Seq<bool>,
    sv: Seq<Seq<char>>,
    ex: Option<Seq<char>>,
    k: int,
) -> bool {
    forall|k0: int|
        0 <= k0 < k && avoids_one(#[trigger] sv[k0], ex) && has_node(g, sv[k0]) ==> vis[index_of_id(
            g.nodes,
            sv[k0],
        )]
}

proof fn lemma_starts_marked_mono(
    g: GraphView,
    vis1: Seq<bool>,
    vis2: Seq<bool>,
    sv: Seq<Seq<char>>,
    ex: Option<Seq<char>>,
    k: int,
)
    requires
        vis1.len() == g.nodes.len(),
        vis2.len() == vis1.len(),
        starts_marked_upto(g, vis1, sv, ex, k),
        forall|x: int| 0 <= x < vis1.len() && vis1[x] ==> vis2[x],
    ensures
        starts_marked_upto(g, vis2, sv, ex, k),
{
    assert forall|k0: int|
        0 <= k0 < k && avoids_one(#[trigger] sv[k0], ex) && has_node(g, sv[k0]) implies vis2[
        index_of_id(g.nodes, sv[k0])] by {
        lemma_index_of_id(g.nodes, sv[k0]);
        assert(vis1[index_of_id(g.nodes, sv[k0])]);
    }
}

proof fn lemma_refs_flagged_upto_mono(
    g: GraphView,
    vis1: Seq<bool>,
    vis2: Seq<bool>,
    ex: Option<Seq<char>>,
    i: int,
    r: int,
)
    requires
        vis1.len() == g.nodes.len(),
        vis2.len() == vis1.len(),
        refs_flagged_upto(g, vis1, ex, i, r),
        forall|x: int| 0 <= x < vis1.len() && vis1[x] ==> vis2[x],
    ensures
        refs_flagged_upto(g, vis2, ex, i, r),
{
    assert forall|k: int| 0 <= k < r implies {
        let rid = #[trigger] g.nodes[i].references[k];
        (avoids_one(rid, ex) && has_node(g, rid)) ==> vis2[index_of_id(g.nodes, rid)]
    } by {
        let rid = g.nodes[i].references[k];
        if avoids_one(rid, ex) && has_node(g, rid) {
            lemma_index_of_id(g.nodes, rid);
            assert(vis1[index_of_id(g.nodes, rid)]);
        }
    }
}

spec fn on_stack(stack: Seq<usize>, i: int) -> bool {
    exists|t: int| 0 <= t < stack.len() && stack[t] == i
}

proof fn lemma_on_stack_push(stack: Seq<usize>, x: usize, i: int)
    requires
        on_stack(stack, i),
    ensures
        on_stack(stack.push(x), i),
{
    let t = choose|t: int| 0 <= t < stack.len() && stack[t] == i;
    assert(stack.push(x)[t] == i);
}

proof fn lemma_on_stack_drop_last(stack: Seq<usize>, i: int)
    requires
        on_stack(stack, i),
        stack.len() > 0,
        i != stack.last(),
    ensures
        on_stack(stack.drop_last(), i),
{
    let t = choose|t: int| 0 <= t < stack.len() && stack[t] == i;
    assert(t != stack.len() - 1);
    assert(stack.drop_last()[t] == i);
}

/// Extending a chain by one referenced, present, non-excluded identifier.
proof fn lemma_reaches_step(
    g: GraphView,
    from: Seq<char>,
    mid: Seq<char>,
    to: Seq<char>,
    ex: Option<Seq<char>>,
)
    requires
        reaches(g, from, mid, ex),
        has_node(g, to),
        node_at(g, mid).references.contains(to),
        avoids_one(to, ex),
    ensures
        reaches(g, from, to, ex),
{
    let p = choose|p: Seq<Seq<char>>|
        is_chain(g, p) && chain_avoids(p, ex) && p.first() == from && p.last() == mid;
    assert(is_chain(g, p) && chain_avoids(p, ex) && p.first() == from && p.last() == mid);
    let q = p.push(to);
    assert(q.first() == from);
    assert(q.last() == to);
    assert forall|i: int| 0 <= i < q.len() implies has_node(g, #[trigger] q[i]) by {
        if i < p.len() {
            assert(q[i] == p[i]);
        }
    }
    assert forall|i: int|
        0 <= i < q.len() - 1 implies node_at(g, #[trigger] q[i]).references.contains(
        q[i + 1],
    ) by {
        if i < p.len() - 1 {
            assert(q[i] == p[i] && q[i + 1] == p[i + 1]);
        } else {
            assert(q[i] == p.last());
        }
    }
    assert forall|i: int| 0 <= i < q.len() implies avoids_one(#[trigger] q[i], ex) by {
        if i < p.len() {
            assert(q[i] == p[i]);
        }
    }
}

/// When the flag set is closed under references, the end of any chain that
/// starts at a flagged identifier is flagged too.
proof fn lemma_chain_covered(
    g: GraphView,
    vis: Seq<bool>,
    ex: Option<Seq<char>>,
    p: Seq<Seq<char>>,
)
    requires
        vis.len() == g.nodes.len(),
        forall|i: int| 0 <= i < vis.len() && vis[i] ==> refs_flagged(g, vis, ex, i),
        is_chain(g, p),
        chain_avoids(p, ex),
        vis[index_of_id(g.nodes, p.first())],
    ensures
        vis[index_of_id(g.nodes, p.last())],
    decreases p.len(),
{
    lemma_index_of_id(g.nodes, p.first());
    if p.len() > 1 {
        let i = index_of_id(g.nodes, p.first());
        assert(has_node(g, p[0]));
        assert(0 <= i < g.nodes.len());
        assert(g.nodes[i] == node_at(g, p[0]));
        assert(node_at(g, p[0]).references.contains(p[1]));
        let k = choose|k: int|
            0 <= k < g.nodes[i].references.len() && g.nodes[i].references[k] == p[1];
        assert(refs_flagged(g, vis, ex, i));
        assert(has_node(g, p[1]));
        assert(avoids_one(p[1], ex));
        assert(vis[index_of_id(g.nodes, p[1])]);
        let q = p.drop_first();
        assert(q.len() == p.len() - 1);
        assert(forall|j: int| 0 <= j < q.len() ==> q[j] == p[j + 1]);
        assert(q.first() == p[1]);
        assert(q.last() == p.last());
        assert forall|j: int| 0 <= j < q.len() implies has_node(g, #[trigger] q[j]) by {
            assert(q[j] == p[j + 1]);
        }
        assert forall|j: int|
            0 <= j < q.len() - 1 implies node_at(g, #[trigger] q[j]).references.contains(
            q[j + 1],
        ) by {
            assert(q[j] == p[j + 1] && q[j + 1] == p[j + 2]);
        }
        assert forall|j: int| 0 <= j < q.len() implies avoids_one(#[trigger] q[j], ex) by {
            assert(q[j] == p[j + 1]);
        }
        lemma_chain_covered(g, vis, ex, q);
    }
}

/// Resolves an identifier to the position of its first occurrence.
fn resolve_index(graph: &StorePathGraph, id: &str) -> (r: Option<usize>)
    ensures
        match r {
            Some(i) => 0 <= i < graph@.nodes.len() && index_of_id(graph@.nodes, id@) == i,
            None => !has_node(graph@, id@),
        },
{
    let mut i: usize = 0;
    while i < graph.paths.len()
        invariant
            0 <= i <= graph@.nodes.len(),
            graph@.nodes.len() == graph.paths@.len(),
            forall|j: int| 0 <= j < i ==> graph@.nodes[j].id != id@,
        decreases graph.paths@.len() - i,
    {
        proof {
            assert(graph@.nodes[i as int] == graph.paths@[i as int]@);
        }
        if str_eq(graph.paths[i].path.as_str(), id) {
            proof {
                lemma_index_of_id(graph@.nodes, id@);
            }
            return Some(i);
        }
        i += 1;
    }
    None
}

/// Marks exactly the first occurrences of the identifiers in the union
/// closure of `starts`, traversal forbidden from touching `exclude`.
fn closure_flags(graph: &StorePathGraph, starts: &Vec<String>, exclude: Option<&String>) -> (vis:
    Vec<bool>)
    ensures
        flags_exact(graph@, vis@, starts.deep_view(), opt_id_view(exclude)),
{
    let ghost g = graph@;
    let ghost sv = starts.deep_view();
    let ghost exv = opt_id_view(exclude);
    let n = graph.paths.len();
    let mut vis: Vec<bool> = Vec::new();
    let mut i: usize = 0;
    while i < n
        invariant
            0 <= i <= n,
            vis@.len() == i,
            forall|j: int| 0 <= j < i ==> !vis@[j],
        decreases n - i,
    {
        vis.push(false);
        i += 1;
    }
    let mut stack: Vec<usize> = Vec::new();
    // Mark the starting identifiers.
    let mut k: usize = 0;
    while k < starts.len()
        invariant
            0 <= k <= starts@.len(),
            sv.len() == starts@.len(),
            sv == starts.deep_view(),
            g == graph@,
            exv == opt_id_view(exclude),
            n == g.nodes.len(),
            vis@.len() == n,
            forall|t: int| 0 <= t < stack@.len() ==> #[trigger] stack@[t] < n,
            forall|i0: int|
                0 <= i0 < n && vis@[i0] ==> index_of_id(g.nodes, g.nodes[i0].id) == i0
                    && in_closure(g, sv, exv, #[trigger] g.nodes[i0].id),
            forall|i0: int| 0 <= i0 < n && vis@[i0] ==> on_stack(stack@, i0),
            forall|t: int| 0 <= t < stack@.len() ==> vis@[#[trigger] stack@[t] as int],
            starts_marked_upto(g, vis@, sv, exv, k as int),
        decreases starts@.len() - k,
    {
        proof {
            assert(sv[k as int] == starts@[k as int]@);
        }
        let skip = match exclude {
            Some(x) => str_eq(starts[k].as_str(), x.as_str()),
            None => false,
        };
        if !skip {
            match resolve_index(graph, starts[k].as_str()) {
                Some(idx) => {
                    proof {
                        lemma_index_of_id(g.nodes, sv[k as int]);
                        assert(g.nodes[idx as int].id == sv[k as int]);
                    }
                    if !vis[idx] {
                        let ghost visb = vis@;
                        let ghost stackb = stack@;
                        vis[idx] = true;
                        stack.push(idx);
                        proof {
                            let single = seq![sv[k as int]];
                            assert(is_chain(g, single));
                            assert(chain_avoids(single, exv));
                            assert(single.first() == sv[k as int]);
                            assert(single.last() == sv[k as int]);
                            assert(reaches(g, sv[k as int], g.nodes[idx as int].id, exv));
                            assert(in_closure(g, sv, exv, g.nodes[idx as int].id));
                            assert forall|i0: int|
                                0 <= i0 < n && vis@[i0] implies on_stack(stack@, i0) by {
                                if i0 == idx {
                                    assert(stack@[stack@.len() - 1] == idx);
                                } else {
                                    assert(visb[i0]);
                                    lemma_on_stack_push(stackb, idx, i0);
                                }
                            }
                            lemma_starts_marked_mono(g, visb, vis@, sv, exv, k as int);
                            assert(vis@[idx as int]);
                        }
                    }
                    proof {
                        assert(starts_marked_upto(g, vis@, sv, exv, k as int + 1)) by {
                            assert(vis@[idx as int]);
                            assert(forall|k0: int|
                                0 <= k0 < k ==> (avoids_one(#[trigger] sv[k0], exv) && has_node(
                                    g,
                                    sv[k0],
                                )) ==> vis@[index_of_id(g.nodes, sv[k0])]);
                        }
                    }
                },
                None => {
                    proof {
                        assert(!has_node(g, sv[k as int]));
                    }
                },
            }
        } else {
            proof {
                assert(!avoids_one(sv[k as int], exv));
            }
        }
        k += 1;
    }
    proof {
        lemma_count_false_bounds(vis@);
        assert forall|i0: int|
            0 <= i0 < n && vis@[i0] && !on_stack(stack@, i0) implies refs_flagged(
            g,
            vis@,
            exv,
            i0,
        ) by {
            assert(on_stack(stack@, i0));
        }
    }
    // Walk the references of everything marked.
    while stack.len() > 0
        invariant
            sv == starts.deep_view(),
            g == graph@,
            exv == opt_id_view(exclude),
            n == g.nodes.len(),
            n == graph.paths@.len(),
            vis@.len() == n,
            forall|t: int| 0 <= t < stack@.len() ==> #[trigger] stack@[t] < n,
            forall|t: int| 0 <= t < stack@.len() ==> vis@[#[trigger] stack@[t] as int],
            forall|i0: int|
                0 <= i0 < n && vis@[i0] ==> index_of_id(g.nodes, g.nodes[i0].id) == i0
                    && in_closure(g, sv, exv, #[trigger] g.nodes[i0].id),
            starts_marked_upto(g, vis@, sv, exv, sv.len() as int),
            forall|i0: int|
                0 <= i0 < n && vis@[i0] && !on_stack(stack@, i0) ==> refs_flagged(
                    g,
                    vis@,
                    exv,
                    i0,
                ),
            count_false(vis@) >= 0,
        decreases count_false(vis@) + stack@.len(),
    {
        let ghost vis0 = vis@;
        let ghost stack0 = stack@;
        let idx = stack.pop().unwrap();
        proof {
            assert(stack@ =~= stack0.drop_last());
            assert(idx == stack0.last());
            assert(vis@[idx as int]);
            assert(in_closure(g, sv, exv, g.nodes[idx as int].id));
            assert(g.nodes[idx as int] == graph.paths@[idx as int]@);
            assert forall|i0: int|
                0 <= i0 < n && vis@[i0] && !on_stack(stack@, i0) && i0 != idx implies refs_flagged(
                g,
                vis@,
                exv,
                i0,
            ) by {
                if on_stack(stack0, i0) {
                    lemma_on_stack_drop_last(stack0, i0);
                    assert(false);
                }
            }
        }
        let nrefs = graph.paths[idx].references.len();
        let mut r: usize = 0;
        while r < nrefs
            invariant
                sv == starts.deep_view(),
                g == graph@,
                exv == opt_id_view(exclude),
                n == g.nodes.len(),
                n == graph.paths@.len(),
                0 <= idx < n,
                vis@.len() == n,
                vis@[idx as int],
                0 <= r <= nrefs,
                nrefs == g.nodes[idx as int].references.len(),
                forall|t: int| 0 <= t < stack@.len() ==> #[trigger] stack@[t] < n,
                forall|t: int| 0 <= t < stack@.len() ==> vis@[#[trigger] stack@[t] as int],
                forall|i0: int|
                    0 <= i0 < n && vis@[i0] ==> index_of_id(g.nodes, g.nodes[i0].id) == i0
                        && in_closure(g, sv, exv, #[trigger] g.nodes[i0].id),
                starts_marked_upto(g, vis@, sv, exv, sv.len() as int),
                forall|i0: int|
                    0 <= i0 < n && vis@[i0] && !on_stack(stack@, i0) && i0 != idx ==> refs_flagged(
                        g,
                        vis@,
                        exv,
                        i0,
                    ),
                refs_flagged_upto(g, vis@, exv, idx as int, r as int),
                count_false(vis@) >= 0,
                count_false(vis@) + stack@.len() <= count_false(vis0) + stack0.len() - 1,
            decreases nrefs - r,
        {
            proof {
                assert(g.nodes[idx as int] == graph.paths@[idx as int]@);
                assert(g.nodes[idx as int].references[r as int]
                    == graph.paths@[idx as int].references.deep_view()[r as int]);
                assert(graph.paths@[idx as int].references.deep_view()[r as int]
                    == graph.paths@[idx as int].references@[r as int]@);
            }
            let rid = &graph.paths[idx].references[r];
            let ghost ridv = rid@;
            proof {
                assert(g.nodes[idx as int].references[r as int] == ridv);
            }
            let skip = match exclude {
                Some(x) => str_eq(rid.as_str(), x.as_str()),
                None => false,
            };
            if !skip {
                match resolve_index(graph, rid.as_str()) {
                    Some(j) => {
                        proof {
                            lemma_index_of_id(g.nodes, ridv);
                            assert(g.nodes[j as int].id == ridv);
                        }
                        if !vis[j] {
                            let ghost visb = vis@;
                            let ghost stackb = stack@;
                            vis[j] = true;
                            stack.push(j);
                            proof {
                                lemma_index_of_id(g.nodes, g.nodes[idx as int].id);
                                assert(node_at(g, g.nodes[idx as int].id).references.contains(
                                    ridv,
                                )) by {
                                    assert(g.nodes[idx as int].references[r as int] == ridv);
                                }
                                let k0 = choose|k0: int|
                                    0 <= k0 < sv.len() && reaches(
                                        g,
                                        #[trigger] sv[k0],
                                        g.nodes[idx as int].id,
                                        exv,
                                    );
                                lemma_reaches_step(
                                    g,
                                    sv[k0],
                                    g.nodes[idx as int].id,
                                    ridv,
                                    exv,
                                );
                                assert(in_closure(g, sv, exv, g.nodes[j as int].id));
                                lemma_count_false_update(visb, j as int);
                                lemma_starts_marked_mono(g, visb, vis@, sv, exv, sv.len() as int);
                                lemma_refs_flagged_upto_mono(
                                    g,
                                    visb,
                                    vis@,
                                    exv,
                                    idx as int,
                                    r as int,
                                );
                                assert forall|i0: int|
                                    0 <= i0 < n && vis@[i0] && !on_stack(stack@, i0) && i0
                                        != idx implies refs_flagged(g, vis@, exv, i0) by {
                                    assert(i0 != j) by {
                                        assert(stack@[stack@.len() - 1] == j);
                                    }
                                    assert(visb[i0]);
                                    assert(!on_stack(stackb, i0)) by {
                                        if on_stack(stackb, i0) {
                                            lemma_on_stack_push(stackb, j, i0);
                                        }
                                    }
                                    assert(refs_flagged(g, visb, exv, i0));
                                    lemma_refs_flagged_upto_mono(
                                        g,
                                        visb,
                                        vis@,
                                        exv,
                                        i0,
                                        g.nodes[i0].references.len() as int,
                                    );
                                }
                            }
                        }
                        proof {
                            assert(vis@[j as int]);
                            assert(refs_flagged_upto(g, vis@, exv, idx as int, r as int + 1)) by {
                                assert(g.nodes[idx as int].references[r as int] == ridv);
                                assert(vis@[index_of_id(g.nodes, ridv)]);
                            }
                        }
                    },
                    None => {
                        proof {
                            assert(!has_node(g, ridv));
                        }
                    },
                }
            } else {
                proof {
                    assert(!avoids_one(ridv, exv));
                }
            }
            proof {
                lemma_count_false_bounds(vis@);
            }
            r += 1;
        }
        proof {
            // The popped node is now closed under its references.
            assert(refs_flagged(g, vis@, exv, idx as int));
            assert forall|i0: int|
                0 <= i0 < n && vis@[i0] && !on_stack(stack@, i0) implies refs_flagged(
                g,
                vis@,
                exv,
                i0,
            ) by {
                if i0 != idx {
                    assert(refs_flagged(g, vis@, exv, i0));
                }
            }
        }
    }
    proof {
        assert forall|i0: int|
            0 <= i0 < n implies (vis@[i0] <==> (index_of_id(g.nodes, g.nodes[i0].id) == i0
            && in_closure(g, sv, exv, #[trigger] g.nodes[i0].id))) by {
            if index_of_id(g.nodes, g.nodes[i0].id) == i0 && in_closure(g, sv, exv, g.nodes[i0].id)
                && !vis@[i0] {
                let k0 = choose|k0: int|
                    0 <= k0 < sv.len() && reaches(g, #[trigger] sv[k0], g.nodes[i0].id, exv);
                let p = choose|p: Seq<Seq<char>>|
                    is_chain(g, p) && chain_avoids(p, exv) && p.first() == sv[k0] && p.last()
                        == g.nodes[i0].id;
                assert(has_node(g, p.first())) by {
                    assert(has_node(g, p[0]));
                }
                assert(avoids_one(sv[k0], exv)) by {
                    assert(avoids_one(p[0], exv));
                }
                assert(vis@[index_of_id(g.nodes, sv[k0])]);
                assert forall|ii: int| 0 <= ii < vis@.len() && vis@[ii] implies refs_flagged(
                    g,
                    vis@,
                    exv,
                    ii,
                ) by {
                    assert(!on_stack(stack@, ii));
                }
                lemma_chain_covered(g, vis@, exv, p);
                lemma_index_of_id(g.nodes, g.nodes[i0].id);
                assert(false);
            }
        }
    }
    vis
}

/// The number of flagged bytes among the first `n` nodes.
spec fn flag_sum(g: GraphView, vis: Seq<bool>, n: int) -> int
    decreases n,
{
    if n <= 0 {
        0
    } else {
        flag_sum(g, vis, n - 1) + if vis[n - 1] {
            g.nodes[n - 1].nar_size as int
        } else {
            0
        }
    }
}

proof fn lemma_flag_sum_is_closure_sum(
    g: GraphView,
    vis: Seq<bool>,
    starts: Seq<Seq<char>>,
    ex: Option<Seq<char>>,
    n: int,
)
    requires
        flags_exact(g, vis, starts, ex),
        0 <= n <= g.nodes.len(),
    ensures
        flag_sum(g, vis, n) == closure_sum(g, starts, ex, n),
    decreases n,
{
    if n > 0 {
        lemma_flag_sum_is_closure_sum(g, vis, starts, ex, n - 1);
    }
}

/// Adds up `nar_size` over the flagged nodes, saturating at `u64::MAX`.
fn sum_flagged(graph: &StorePathGraph, vis: &Vec<bool>) -> (total: u64)
    requires
        vis@.len() == graph@.nodes.len(),
    ensures
        total as int == clamp_u64(flag_sum(graph@, vis@, graph@.nodes.len() as int)),
{
    let ghost g = graph@;
    let n = graph.paths.len();
    let mut total: u64 = 0;
    let mut i: usize = 0;
    while i < n
        invariant
            0 <= i <= n,
            n == g.nodes.len(),
            n == graph.paths@.len(),
            g == graph@,
            vis@.len() == n,
            total as int == clamp_u64(flag_sum(g, vis@, i as int)),
            flag_sum(g, vis@, i as int) >= 0,
        decreases n - i,
    {
        proof {
            assert(g.nodes[i as int] == graph.paths@[i as int]@);
        }
        if vis[i] {
            let x = graph.paths[i].nar_size;
            if total <= u64::MAX - x {
                total = total + x;
            } else {
                total = u64::MAX;
            }
        }
        i += 1;
    }
    total
}

/// The set of store identifiers reachable from `path` along references,
/// `path` itself included when present; each member appears exactly once.
/// Identifiers absent from the store are never members.
pub fn calculate_closure(graph: &StorePathGraph, path: &str) -> (r: Vec<String>)
    ensures
        r.deep_view().no_duplicates(),
        forall|id: Seq<char>|
            r.deep_view().contains(id) <==> in_closure(graph@, seq![path@], None, id),
{
    let ghost g = graph@;
    let mut starts: Vec<String> = Vec::new();
    starts.push(path.to_owned());
    proof {
        assert(starts.deep_view() =~= seq![path@]);
    }
    let vis = closure_flags(graph, &starts, None);
    let n = graph.paths.len();
    let mut out: Vec<String> = Vec::new();
    let mut i: usize = 0;
    while i < n
        invariant
            0 <= i <= n,
            n == g.nodes.len(),
            n == graph.paths@.len(),
            g == graph@,
            vis@.len() == n,
            flags_exact(g, vis@, seq![path@], None),
            forall|id: Seq<char>|
                out.deep_view().contains(id) <==> (exists|j: int|
                    0 <= j < i && #[trigger] vis@[j] && g.nodes[j].id == id),
            out.deep_view().no_duplicates(),
        decreases n - i,
    {
        let ghost outd = out.deep_view();
        proof {
            assert(g.nodes[i as int] == graph.paths@[i as int]@);
        }
        if vis[i] {
            out.push(graph.paths[i].path.clone());
            proof {
                let ghost tid = g.nodes[i as int].id;
                let newd = out.deep_view();
                assert(newd =~= outd.push(tid));
                assert forall|id: Seq<char>| newd.contains(id) implies (exists|j: int|
                    0 <= j < i + 1 && #[trigger] vis@[j] && g.nodes[j].id == id) by {
                    let t = choose|t: int| 0 <= t < newd.len() && newd[t] == id;
                    if t < outd.len() {
                        assert(outd[t] == id);
                        assert(outd.contains(id));
                    } else {
                        assert(id == tid);
                        assert(vis@[i as int] && g.nodes[i as int].id == id);
                    }
                }
                assert forall|id: Seq<char>| (exists|j: int|
                    0 <= j < i + 1 && #[trigger] vis@[j] && g.nodes[j].id == id) implies
                    newd.contains(id) by {
                    let j = choose|j: int| 0 <= j < i + 1 && #[trigger] vis@[j] && g.nodes[j].id == id;
                    if j < i {
                        assert(outd.contains(id));
                        let t = choose|t: int| 0 <= t < outd.len() && outd[t] == id;
                        assert(newd[t] == id);
                    } else {
                        assert(newd[newd.len() - 1] == tid);
                    }
                }
                assert(!outd.contains(tid)) by {
                    if outd.contains(tid) {
                        let j = choose|j: int|
                            0 <= j < i && #[trigger] vis@[j] && g.nodes[j].id == tid;
                        assert(index_of_id(g.nodes, g.nodes[j].id) == j);
                        assert(index_of_id(g.nodes, g.nodes[i as int].id) == i);
                    }
                }
                assert(newd.no_duplicates()) by {
                    assert forall|x: int, y: int|
                        0 <= x < newd.len() && 0 <= y < newd.len() && x != y implies newd[x]
                        != newd[y] by {
                        if x < outd.len() && y < outd.len() {
                            assert(outd.no_duplicates());
                        } else if x < outd.len() {
                            assert(newd[y] == tid);
                            assert(outd[x] == newd[x]);
                            if newd[x] == tid {
                                assert(outd.contains(tid));
                            }
                        } else {
                            assert(newd[x] == tid);
                            assert(outd[y] == newd[y]);
                            if newd[y] == tid {
                                assert(outd.contains(tid));
                            }
                        }
                    }
                }
            }
        } else {
            proof {
                assert forall|id: Seq<char>| (exists|j: int|
                    0 <= j < i + 1 && #[trigger] vis@[j] && g.nodes[j].id == id) implies
                    out.deep_view().contains(id) by {
                    let j = choose|j: int| 0 <= j < i + 1 && #[trigger] vis@[j] && g.nodes[j].id == id;
                    assert(j != i);
                }
            }
        }
        i += 1;
    }
    proof {
        assert forall|id: Seq<char>| out.deep_view().contains(id) implies in_closure(
            g,
            seq![path@],
            None,
            id,
        ) by {
            let j = choose|j: int| 0 <= j < n && #[trigger] vis@[j] && g.nodes[j].id == id;
            assert(in_closure(g, seq![path@], None, g.nodes[j].id));
        }
        assert forall|id: Seq<char>| in_closure(g, seq![path@], None, id) implies
            out.deep_view().contains(id) by {
            let k0 = choose|k0: int|
                0 <= k0 < seq![path@].len() && reaches(g, #[trigger] seq![path@][k0], id, None);
            let p = choose|p: Seq<Seq<char>>|
                is_chain(g, p) && chain_avoids(p, None) && p.first() == seq![path@][k0] && p.last()
                    == id;
            assert(has_node(g, id)) by {
                assert(has_node(g, p[p.len() - 1]));
            }
            lemma_index_of_id(g.nodes, id);
            let j = index_of_id(g.nodes, id);
            assert(g.nodes[j].id == id);
            assert(vis@[j]);
        }
    }
    out
}

/// The marginal ("added") size of `path` within the context `context_roots`:
/// the bytes that would be reclaimed from that context if `path`, and
/// everything reachable only through it, were removed.
pub fn calculate_added_size_for_path(
    path: &str,
    graph: &StorePathGraph,
    context_roots: &Vec<String>,
) -> (r: u64)
    ensures
        r as int == spec_added_size(graph@, context_roots.deep_view(), path@),
{
    let excluded = path.to_owned();
    let total_flags = closure_flags(graph, context_roots, None);
    let total = sum_flagged(graph, &total_flags);
    let filtered_flags = closure_flags(graph, context_roots, Some(&excluded));
    let filtered = sum_flagged(graph, &filtered_flags);
    proof {
        lemma_flag_sum_is_closure_sum(
            graph@,
            total_flags@,
            context_roots.deep_view(),
            None,
            graph@.nodes.len() as int,
        );
        lemma_flag_sum_is_closure_sum(
            graph@,
            filtered_flags@,
            context_roots.deep_view(),
            Some(excluded@),
            graph@.nodes.len() as int,
        );
    }
    if total >= filtered {
        total - filtered
    } else {
        0
    }
}

/// Derived statistics for one artifact: its transitive size, the marginal
/// size once computed for the current context, and its direct referrers.
#[derive(Debug, Clone)]
pub struct PathStats {
    pub closure_size: u64,
    pub added_size: Option<u64>,
    pub immediate_parents: Vec<String>,
}

/// The mathematical content of one statistics record.
pub ghost struct PathStatsView {
    pub closure_size: u64,
    pub added_size: Option<u64>,
    pub immediate_parents: Seq<Seq<char>>,
}

impl View for PathStats {
    type V = PathStatsView;

    open spec fn view(&self) -> PathStatsView {
        PathStatsView {
            closure_size: self.closure_size,
            added_size: self.added_size,
            immediate_parents: self.immediate_parents.deep_view(),
        }
    }
}

/// One statistics record keyed by its artifact identifier.
#[derive(Debug, Clone)]
pub struct StatsEntry {
    pub id: String,
    pub stats: PathStats,
}

pub ghost struct StatsEntryView {
    pub id: Seq<char>,
    pub stats: PathStatsView,
}

impl View for StatsEntry {
    type V = StatsEntryView;

    open spec fn view(&self) -> StatsEntryView {
        StatsEntryView { id: self.id@, stats: self.stats@ }
    }
}

/// The per-artifact statistics produced once after graph construction,
/// one record per node, in graph order.
#[derive(Debug, Clone)]
pub struct StatsTable {
    pub entries: Vec<StatsEntry>,
}

impl View for StatsTable {
    type V = Seq<StatsEntryView>;

    open spec fn view(&self) -> Seq<StatsEntryView> {
        self.entries@.map_values(|e: StatsEntry| e@)
    }
}

/// The first position of a record keyed by `id`, or `-1` when there is none.
pub open spec fn stats_index(entries: Seq<StatsEntryView>, id: Seq<char>) -> int
    decreases entries.len(),
{
    if entries.len() == 0 {
        -1
    } else if entries[0].id == id {
        0
    } else {
        let r = stats_index(entries.drop_first(), id);
        if r < 0 {
            -1
        } else {
            r + 1
        }
    }
}

/// The statistics record stored under `id`, if any.
pub open spec fn stats_for(entries: Seq<StatsEntryView>, id: Seq<char>) -> Option<PathStatsView> {
    if stats_index(entries, id) >= 0 {
        Some(entries[stats_index(entries, id)].stats)
    } else {
        None
    }
}

pub proof fn lemma_stats_index(entries: Seq<StatsEntryView>, id: Seq<char>)
    ensures
        (stats_index(entries, id) >= 0) <==> (exists|i: int|
            0 <= i < entries.len() && entries[i].id == id),
        stats_index(entries, id) >= 0 ==> stats_index(entries, id) < entries.len()
            && entries[stats_index(entries, id)].id == id,
        stats_index(entries, id) >= 0 ==> (forall|j: int|
            0 <= j < stats_index(entries, id) ==> entries[j].id != id),
    decreases entries.len(),
{
    if entries.len() == 0 {
    } else if entries[0].id == id {
    } else {
        lemma_stats_index(entries.drop_first(), id);
        assert(forall|j: int|
            0 <= j < entries.drop_first().len() ==> entries.drop_first()[j] == entries[j + 1]);
        if exists|i: int| 0 <= i < entries.len() && entries[i].id == id {
            let i = choose|i: int| 0 <= i < entries.len() && entries[i].id == id;
            assert(i != 0);
            assert(entries.drop_first()[i - 1].id == id);
        }
        if stats_index(entries, id) >= 0 {
            assert forall|j: int| 0 <= j < stats_index(entries, id) implies entries[j].id
                != id by {
                if j > 0 {
                    assert(entries.drop_first()[j - 1].id != id);
                }
            }
        }
    }
}

impl StatsTable {
    /// An empty table.
    pub fn new() -> (t: Self)
        ensures
            t@ == Seq::<StatsEntryView>::empty(),
    {
        let t = StatsTable { entries: Vec::new() };
        proof {
            assert(t@ =~= Seq::<StatsEntryView>::empty());
        }
        t
    }

    /// Looks the record for `id` up; the first record keyed by it, if any.
    pub fn get(&self, id: &str) -> (r: Option<&PathStats>)
        ensures
            match r {
                Some(s) => stats_for(self@, id@) == Some(s@),
                None => stats_for(self@, id@) is None,
            },
    {
        let mut i: usize = 0;
        while i < self.entries.len()
            invariant
                0 <= i <= self@.len(),
                self@.len() == self.entries@.len(),
                forall|j: int| 0 <= j < i ==> self@[j].id != id@,
            decreases self.entries@.len() - i,
        {
            proof {
                assert(self@[i as int] == self.entries@[i as int]@);
            }
            if str_eq(self.entries[i].id.as_str(), id) {
                proof {
                    lemma_stats_index(self@, id@);
                    assert(stats_index(self@, id@) == i);
                }
                return Some(&self.entries[i].stats);
            }
            i += 1;
        }
        proof {
            lemma_stats_index(self@, id@);
        }
        None
    }
}

/// The identifiers of the direct referrers of `id`, in graph order.
pub open spec fn parent_ids(g: GraphView, id: Seq<char>) -> Seq<Seq<char>> {
    referrers(g, id).map_values(|n: NodeView| n.id)
}

/// The transitive size recorded for a node: the precomputed value when the
/// provider supplied one, otherwise the computed closure sum, saturated.
pub open spec fn spec_closure_size_of(g: GraphView, n: NodeView) -> int {
    match n.closure_size {
        Some(c) => c as int,
        None => clamp_u64(total_closure_size(g, seq![n.id], None)),
    }
}

/// Builds one statistics record per node: the transitive size (computed by
/// reachability when not precomputed), an unfilled marginal size, and the
/// direct referrer identifiers.
pub fn calculate_stats(graph: &StorePathGraph) -> (t: StatsTable)
    ensures
        t@.len() == graph@.nodes.len(),
        forall|i: int|
            0 <= i < graph@.nodes.len() ==> (#[trigger] t@[i]).id == graph@.nodes[i].id,
        forall|i: int|
            0 <= i < graph@.nodes.len() ==> (#[trigger] t@[i]).stats.added_size is None,
        forall|i: int|
            0 <= i < graph@.nodes.len() ==> (#[trigger] t@[i]).stats.immediate_parents
                == parent_ids(graph@, graph@.nodes[i].id),
        forall|i: int|
            0 <= i < graph@.nodes.len() ==> (#[trigger] t@[i]).stats.closure_size as int
                == spec_closure_size_of(graph@, graph@.nodes[i]),
{
    let ghost g = graph@;
    let n = graph.paths.len();
    let mut entries: Vec<StatsEntry> = Vec::new();
    let mut i: usize = 0;
    while i < n
        invariant
            0 <= i <= n,
            n == g.nodes.len(),
            n == graph.paths@.len(),
            g == graph@,
            entries@.len() == i,
            forall|k: int| 0 <= k < i ==> (#[trigger] entries@[k]@).id == g.nodes[k].id,
            forall|k: int| 0 <= k < i ==> (#[trigger] entries@[k]@).stats.added_size is None,
            forall|k: int|
                0 <= k < i ==> (#[trigger] entries@[k]@).stats.immediate_parents == parent_ids(
                    g,
                    g.nodes[k].id,
                ),
            forall|k: int|
                0 <= k < i ==> (#[trigger] entries@[k]@).stats.closure_size as int
                    == spec_closure_size_of(g, g.nodes[k]),
        decreases n - i,
    {
        proof {
            assert(g.nodes[i as int] == graph.paths@[i as int]@);
        }
        let closure_size: u64 = match graph.paths[i].closure_size {
            Some(c) => c,
            None => {
                let mut starts: Vec<String> = Vec::new();
                starts.push(graph.paths[i].path.clone());
                proof {
                    assert(starts.deep_view() =~= seq![g.nodes[i as int].id]);
                }
                let vis = closure_flags(graph, &starts, None);
                let s = sum_flagged(graph, &vis);
                proof {
                    lemma_flag_sum_is_closure_sum(
                        g,
                        vis@,
                        starts.deep_view(),
                        None,
                        g.nodes.len() as int,
                    );
                }
                s
            },
        };
        let referrer_nodes = graph.get_referrers(graph.paths[i].path.as_str());
        let mut parents: Vec<String> = Vec::new();
        let mut k: usize = 0;
        proof {
            assert(parents.deep_view() =~= Seq::<Seq<char>>::empty());
        }
        while k < referrer_nodes.len()
            invariant
                0 <= k <= referrer_nodes@.len(),
                g == graph@,
                i < n,
                n == graph.paths@.len(),
                n == g.nodes.len(),
                referrer_nodes@.map_values(|p: &StorePath| p@) == referrers(
                    g,
                    g.nodes[i as int].id,
                ),
                parents.deep_view() =~= parent_ids(g, g.nodes[i as int].id).take(k as int),
            decreases referrer_nodes@.len() - k,
        {
            let ghost pd = parents.deep_view();
            parents.push(referrer_nodes[k].path.clone());
            proof {
                assert(referrer_nodes@[k as int]@ == referrers(g, g.nodes[i as int].id)[k as int]);
                assert(parents.deep_view() =~= pd.push(
                    referrers(g, g.nodes[i as int].id)[k as int].id,
                ));
                assert(parents.deep_view() =~= parent_ids(g, g.nodes[i as int].id).take(
                    k as int + 1,
                ));
            }
            k += 1;
        }
        proof {
            assert(parent_ids(g, g.nodes[i as int].id).take(
                parent_ids(g, g.nodes[i as int].id).len() as int,
            ) =~= parent_ids(g, g.nodes[i as int].id));
        }
        let entry = StatsEntry {
            id: graph.paths[i].path.clone(),
            stats: PathStats {
                closure_size,
                added_size: None,
                immediate_parents: parents,
            },
        };
        entries.push(entry);
        i += 1;
    }
    let t = StatsTable { entries };
    proof {
        assert(t@.len() == g.nodes.len());
        assert(forall|k: int| 0 <= k < n ==> t@[k] == t.entries@[k]@);
    }
    t
}

/// A sort order for the browsing panes. The operator cycles through the
/// three orders; the cycle is alphabetical, then transitive size descending,
/// then marginal size descending, and back to alphabetical.
#[derive(Debug, Clone, Copy, PartialEq, Eq, Structural)]
pub enum SortOrder {
    Alphabetical,
    ClosureSize,
    AddedSize,
}

impl SortOrder {
    /// The order that follows this one in the cycle.
    pub open spec fn spec_next(self) -> SortOrder {
        match self {
            SortOrder::Alphabetical => SortOrder::ClosureSize,
            SortOrder::ClosureSize => SortOrder::AddedSize,
            SortOrder::AddedSize => SortOrder::Alphabetical,
        }
    }

    pub fn next(&self) -> (r: Self)
        ensures
            r == self.spec_next(),
    {
        match self {
            SortOrder::Alphabetical => SortOrder::ClosureSize,
            SortOrder::ClosureSize => SortOrder::AddedSize,
            SortOrder::AddedSize => SortOrder::Alphabetical,
        }
    }

    /// The label under which the order is shown.
    pub open spec fn spec_label(self) -> Seq<char> {
        match self {
            SortOrder::Alphabetical => "name"@,
            SortOrder::ClosureSize => "closure size"@,
            SortOrder::AddedSize => "added size"@,
        }
    }

    pub fn as_str(&self) -> (r: &'static str)
        ensures
            r@ == self.spec_label(),
    {
        match self {
            SortOrder::Alphabetical => "name",
            SortOrder::ClosureSize => "closure size",
            SortOrder::AddedSize => "added size",
        }
    }
}

/// Advancing the sort order three times returns to the starting order: the
/// cycle is exactly alphabetical, closure size, added size, alphabetical.
pub proof fn lemma_sort_order_cycle(o: SortOrder)
    ensures
        o.spec_next().spec_next().spec_next() == o,
{
}

/// Lexicographic comparison of identifiers by code point; `true` when `a`
/// sorts at or before `b`.
pub open spec fn lex_le(a: Seq<char>, b: Seq<char>) -> bool
    decreases a.len(),
{
    if a.len() == 0 {
        true
    } else if b.len() == 0 {
        false
    } else if (a[0] as u32) == (b[0] as u32) {
        lex_le(a.drop_first(), b.drop_first())
    } else {
        (a[0] as u32) < (b[0] as u32)
    }
}

proof fn lemma_lex_le_total(a: Seq<char>, b: Seq<char>)
    ensures
        lex_le(a, b) || lex_le(b, a),
    decreases a.len(),
{
    if a.len() > 0 && b.len() > 0 && (a[0] as u32) == (b[0] as u32) {
        lemma_lex_le_total(a.drop_first(), b.drop_first());
    }
}

proof fn lemma_lex_le_trans(a: Seq<char>, b: Seq<char>, c: Seq<char>)
    requires
        lex_le(a, b),
        lex_le(b, c),
    ensures
        lex_le(a, c),
    decreases a.len(),
{
    if a.len() > 0 && b.len() > 0 && c.len() > 0 {
        if (a[0] as u32) == (b[0] as u32) && (b[0] as u32) == (c[0] as u32) {
            lemma_lex_le_trans(a.drop_first(), b.drop_first(), c.drop_first());
        }
    }
}

/// The transitive-size key an identifier sorts by: its recorded closure
/// size, or zero when no record exists.
pub open spec fn closure_key(t: Seq<StatsEntryView>, id: Seq<char>) -> int {
    match stats_for(t, id) {
        Some(s) => s.closure_size as int,
        None => 0,
    }
}

/// The marginal-size key an identifier sorts by: its recorded marginal size,
/// or zero when none was computed or no record exists.
pub open spec fn added_key(t: Seq<StatsEntryView>, id: Seq<char>) -> int {
    match stats_for(t, id) {
        Some(s) => match s.added_size {
            Some(a) => a as int,
            None => 0,
        },
        None => 0,
    }
}

/// `a` sorts at or before `b` under the given order: alphabetically by
/// identifier, or by descending size key.
pub open spec fn le_ids(
    order: SortOrder,
    t: Seq<StatsEntryView>,
    a: Seq<char>,
    b: Seq<char>,
) -> bool {
    match order {
        SortOrder::Alphabetical => lex_le(a, b),
        SortOrder::ClosureSize => closure_key(t, b) <= closure_key(t, a),
        SortOrder::AddedSize => added_key(t, b) <= added_key(t, a),
    }
}

pub proof fn lemma_le_ids_total(order: SortOrder, t: Seq<StatsEntryView>, a: Seq<char>, b: Seq<char>)
    ensures
        le_ids(order, t, a, b) || le_ids(order, t, b, a),
{
    if order is Alphabetical {
        lemma_lex_le_total(a, b);
    }
}

pub proof fn lemma_le_ids_trans(
    order: SortOrder,
    t: Seq<StatsEntryView>,
    a: Seq<char>,
    b: Seq<char>,
    c: Seq<char>,
)
    requires
        le_ids(order, t, a, b),
        le_ids(order, t, b, c),
    ensures
        le_ids(order, t, a, c),
{
    if order is Alphabetical {
        lemma_lex_le_trans(a, b, c);
    }
}

/// `x` inserted into `l` after every element that sorts at or before it:
/// a stable insertion into a sorted list.
pub open spec fn spec_insert_sorted(
    order: SortOrder,
    t: Seq<StatsEntryView>,
    l: Seq<Seq<char>>,
    x: Seq<char>,
) -> Seq<Seq<char>>
    decreases l.len(),
{
    if l.len() == 0 {
        seq![x]
    } else if le_ids(order, t, l[0], x) {
        seq![l[0]] + spec_insert_sorted(order, t, l.drop_first(), x)
    } else {
        seq![x] + l
    }
}

/// The stable insertion sort of `l` under the given order.
pub open spec fn spec_sort_ids(
    order: SortOrder,
    t: Seq<StatsEntryView>,
    l: Seq<Seq<char>>,
) -> Seq<Seq<char>>
    decreases l.len(),
{
    if l.len() == 0 {
        Seq::empty()
    } else {
        spec_insert_sorted(order, t, spec_sort_ids(order, t, l.drop_last()), l.last())
    }
}

/// Every element sorts at or before every later one.
pub open spec fn sorted_by(order: SortOrder, t: Seq<StatsEntryView>, l: Seq<Seq<char>>) -> bool {
    forall|i: int, j: int| 0 <= i <= j < l.len() ==> le_ids(order, t, #[trigger] l[i], #[trigger] l[j])
}

proof fn lemma_insert_sorted_len(
    order: SortOrder,
    t: Seq<StatsEntryView>,
    l: Seq<Seq<char>>,
    x: Seq<char>,
)
    ensures
        spec_insert_sorted(order, t, l, x).len() == l.len() + 1,
    decreases l.len(),
{
    if l.len() > 0 && le_ids(order, t, l[0], x) {
        lemma_insert_sorted_len(order, t, l.drop_first(), x);
    }
}

proof fn lemma_insert_preserves_sorted(
    order: SortOrder,
    t: Seq<StatsEntryView>,
    l: Seq<Seq<char>>,
    x: Seq<char>,
)
    requires
        sorted_by(order, t, l),
    ensures
        sorted_by(order, t, spec_insert_sorted(order, t, l, x)),
    decreases l.len(),
{
    let m = spec_insert_sorted(order, t, l, x);
    lemma_insert_sorted_len(order, t, l, x);
    if l.len() == 0 {
        assert(m == seq![x]);
        assert forall|i: int, j: int| 0 <= i <= j < m.len() implies le_ids(
            order,
            t,
            #[trigger] m[i],
            #[trigger] m[j],
        ) by {
            lemma_le_ids_total(order, t, x, x);
        }
    } else if le_ids(order, t, l[0], x) {
        let rest = l.drop_first();
        assert(sorted_by(order, t, rest)) by {
            assert(forall|i: int, j: int|
                0 <= i <= j < rest.len() ==> rest[i] == l[i + 1] && rest[j] == l[j + 1]);
        }
        lemma_insert_preserves_sorted(order, t, rest, x);
        let mrest = spec_insert_sorted(order, t, rest, x);
        lemma_insert_sorted_len(order, t, rest, x);
        assert(m == seq![l[0]] + mrest);
        // l[0] sorts at or before everything inserted after it.
        assert forall|i: int, j: int| 0 <= i <= j < m.len() implies le_ids(
            order,
            t,
            #[trigger] m[i],
            #[trigger] m[j],
        ) by {
            assert(m[0] == l[0]);
            if i == 0 {
                if j == 0 {
                    lemma_le_ids_total(order, t, l[0], l[0]);
                } else {
                    // m[j] is either an element of rest or x itself.
                    assert(m[j] == mrest[j - 1]);
                    lemma_insert_sorted_member(order, t, rest, x, j - 1);
                    if mrest[j - 1] == x {
                        assert(le_ids(order, t, l[0], x));
                    } else {
                        let w = choose|w: int| 0 <= w < rest.len() && rest[w] == mrest[j - 1];
                        assert(rest[w] == l[w + 1]);
                        assert(le_ids(order, t, l[0], l[w + 1]));
                    }
                }
            } else {
                assert(m[i] == mrest[i - 1] && m[j] == mrest[j - 1]);
            }
        }
    } else {
        // x stands first and sorts at or before every element of l.
        assert(m == seq![x] + l);
        assert(!le_ids(order, t, l[0], x));
        lemma_le_ids_total(order, t, l[0], x);
        assert(le_ids(order, t, x, l[0]));
        assert forall|i: int, j: int| 0 <= i <= j < m.len() implies le_ids(
            order,
            t,
            #[trigger] m[i],
            #[trigger] m[j],
        ) by {
            assert(m[0] == x);
            if i == 0 {
                if j == 0 {
                    lemma_le_ids_total(order, t, x, x);
                } else {
                    assert(m[j] == l[j - 1]);
                    assert(le_ids(order, t, l[0], l[j - 1]));
                    lemma_le_ids_trans(order, t, x, l[0], l[j - 1]);
                }
            } else {
                assert(m[i] == l[i - 1] && m[j] == l[j - 1]);
            }
        }
    }
}

/// Every element of an insertion result is the inserted element or one of
/// the original elements.
proof fn lemma_insert_sorted_member(
    order: SortOrder,
    t: Seq<StatsEntryView>,
    l: Seq<Seq<char>>,
    x: Seq<char>,
    j: int,
)
    requires
        0 <= j < spec_insert_sorted(order, t, l, x).len(),
    ensures
        spec_insert_sorted(order, t, l, x)[j] == x || exists|w: int|
            0 <= w < l.len() && l[w] == spec_insert_sorted(order, t, l, x)[j],
    decreases l.len(),
{
    let m = spec_insert_sorted(order, t, l, x);
    if l.len() == 0 {
    } else if le_ids(order, t, l[0], x) {
        if j == 0 {
            assert(l[0] == m[0]);
        } else {
            let rest = l.drop_first();
            lemma_insert_sorted_member(order, t, rest, x, j - 1);
            let mrest = spec_insert_sorted(order, t, rest, x);
            assert(m[j] == mrest[j - 1]);
            if mrest[j - 1] != x {
                let w = choose|w: int| 0 <= w < rest.len() && rest[w] == mrest[j - 1];
                assert(l[w + 1] == m[j]);
            }
        }
    } else {
        if j > 0 {
            assert(l[j - 1] == m[j]);
        }
    }
}

/// The sorted output of the stable insertion sort.
pub proof fn lemma_sort_ids_sorted(order: SortOrder, t: Seq<StatsEntryView>, l: Seq<Seq<char>>)
    ensures
        sorted_by(order, t, spec_sort_ids(order, t, l)),
        spec_sort_ids(order, t, l).len() == l.len(),
    decreases l.len(),
{
    if l.len() > 0 {
        lemma_sort_ids_sorted(order, t, l.drop_last());
        lemma_insert_preserves_sorted(order, t, spec_sort_ids(order, t, l.drop_last()), l.last());
        lemma_insert_sorted_len(order, t, spec_sort_ids(order, t, l.drop_last()), l.last());
    }
}

proof fn lemma_insert_at_end(order: SortOrder, t: Seq<StatsEntryView>, l: Seq<Seq<char>>, x: Seq<char>)
    requires
        forall|i: int| 0 <= i < l.len() ==> le_ids(order, t, #[trigger] l[i], x),
    ensures
        spec_insert_sorted(order, t, l, x) == l.push(x),
    decreases l.len(),
{
    if l.len() == 0 {
        assert(spec_insert_sorted(order, t, l, x) =~= l.push(x));
    } else {
        let rest = l.drop_first();
        assert(forall|i: int| 0 <= i < rest.len() ==> rest[i] == l[i + 1]);
        lemma_insert_at_end(order, t, rest, x);
        assert(spec_insert_sorted(order, t, l, x) =~= l.push(x));
    }
}

/// Sorting leaves an already sorted list unchanged.
proof fn lemma_sort_of_sorted(order: SortOrder, t: Seq<StatsEntryView>, l: Seq<Seq<char>>)
    requires
        sorted_by(order, t, l),
    ensures
        spec_sort_ids(order, t, l) == l,
    decreases l.len(),
{
    if l.len() > 0 {
        let front = l.drop_last();
        assert(sorted_by(order, t, front)) by {
            assert(forall|i: int, j: int|
                0 <= i <= j < front.len() ==> front[i] == l[i] && front[j] == l[j]);
        }
        lemma_sort_of_sorted(order, t, front);
        assert forall|i: int| 0 <= i < front.len() implies le_ids(
            order,
            t,
            #[trigger] front[i],
            l.last(),
        ) by {
            assert(le_ids(order, t, l[i], l[l.len() - 1]));
        }
        lemma_insert_at_end(order, t, front, l.last());
        assert(front.push(l.last()) =~= l);
    }
}

/// Re-sorting is idempotent: sorting a list a second time under the same
/// order and the same statistics yields the same list.
pub proof fn lemma_sort_idempotent(order: SortOrder, t: Seq<StatsEntryView>, l: Seq<Seq<char>>)
    ensures
        spec_sort_ids(order, t, spec_sort_ids(order, t, l)) == spec_sort_ids(order, t, l),
{
    lemma_sort_ids_sorted(order, t, l);
    lemma_sort_of_sorted(order, t, spec_sort_ids(order, t, l));
}

/// Compares two identifiers lexicographically by code point.
fn lex_le_exec(a: &str, b: &str) -> (r: bool)
    ensures
        r == lex_le(a@, b@),
{
    let na = a.unicode_len();
    let nb = b.unicode_len();
    let mut i: usize = 0;
    loop
        invariant
            na == a@.len(),
            nb == b@.len(),
            0 <= i <= na,
            i <= nb,
            forall|j: int| 0 <= j < i ==> (a@[j] as u32) == (b@[j] as u32),
        decreases na - i,
    {
        proof {
            lemma_lex_le_skip(a@, b@, i as int);
        }
        if i == na {
            return true;
        }
        if i == nb {
            return false;
        }
        let ca = a.get_char(i) as u32;
        let cb = b.get_char(i) as u32;
        if ca != cb {
            return ca < cb;
        }
        i += 1;
    }
}

/// With an equal prefix of length `i`, the comparison is decided by the
/// remainders.
proof fn lemma_lex_le_skip(a: Seq<char>, b: Seq<char>, i: int)
    requires
        0 <= i <= a.len(),
        i <= b.len(),
        forall|j: int| 0 <= j < i ==> (a[j] as u32) == (b[j] as u32),
    ensures
        lex_le(a, b) == lex_le(a.skip(i), b.skip(i)),
    decreases i,
{
    if i == 0 {
        assert(a.skip(0) =~= a);
        assert(b.skip(0) =~= b);
    } else {
        assert((a[0] as u32) == (b[0] as u32));
        let a1 = a.drop_first();
        let b1 = b.drop_first();
        assert(forall|j: int| 0 <= j < i - 1 ==> a1[j] == a[j + 1] && b1[j] == b[j + 1]);
        lemma_lex_le_skip(a1, b1, i - 1);
        assert(a1.skip(i - 1) =~= a.skip(i));
        assert(b1.skip(i - 1) =~= b.skip(i));
    }
}

/// The transitive-size key of `id`.
fn closure_key_exec(stats: &StatsTable, id: &String) -> (r: u64)
    ensures
        r as int == closure_key(stats@, id@),
{
    match stats.get(id.as_str()) {
        Some(s) => s.closure_size,
        None => 0,
    }
}

/// The marginal-size key of `id`.
fn added_key_exec(stats: &StatsTable, id: &String) -> (r: u64)
    ensures
        r as int == added_key(stats@, id@),
{
    match stats.get(id.as_str()) {
        Some(s) => match s.added_size {
            Some(a) => a,
            None => 0,
        },
        None => 0,
    }
}

/// Whether `a` sorts at or before `b` under the given order.
fn le_ids_exec(order: SortOrder, stats: &StatsTable, a: &String, b: &String) -> (r: bool)
    ensures
        r == le_ids(order, stats@, a@, b@),
{
    match order {
        SortOrder::Alphabetical => lex_le_exec(a.as_str(), b.as_str()),
        SortOrder::ClosureSize => closure_key_exec(stats, b) <= closure_key_exec(stats, a),
        SortOrder::AddedSize => added_key_exec(stats, b) <= added_key_exec(stats, a),
    }
}

/// The insertion point found by a left-to-right scan matches the stable
/// insertion: the result is the prefix, the element, then the suffix.
proof fn lemma_insert_sorted_split(
    order: SortOrder,
    t: Seq<StatsEntryView>,
    l: Seq<Seq<char>>,
    x: Seq<char>,
    p: int,
)
    requires
        0 <= p <= l.len(),
        forall|j: int| 0 <= j < p ==> le_ids(order, t, #[trigger] l[j], x),
        p == l.len() || !le_ids(order, t, l[p], x),
    ensures
        spec_insert_sorted(order, t, l, x) == l.take(p) + seq![x] + l.skip(p),
    decreases p,
{
    if l.len() == 0 {
        assert(spec_insert_sorted(order, t, l, x) =~= l.take(0) + seq![x] + l.skip(0));
    } else if p == 0 {
        assert(!le_ids(order, t, l[0], x));
        assert(spec_insert_sorted(order, t, l, x) =~= l.take(0) + seq![x] + l.skip(0));
    } else {
        let rest = l.drop_first();
        assert(forall|j: int| 0 <= j < rest.len() ==> rest[j] == l[j + 1]);
        lemma_insert_sorted_split(order, t, rest, x, p - 1);
        assert(le_ids(order, t, l[0], x));
        assert(spec_insert_sorted(order, t, l, x) == seq![l[0]] + spec_insert_sorted(
            order,
            t,
            rest,
            x,
        ));
        assert(seq![l[0]] + (rest.take(p - 1) + seq![x] + rest.skip(p - 1)) =~= l.take(p)
            + seq![x] + l.skip(p));
    }
}

/// Inserts `x` into the sorted list `out`, after every element that sorts at
/// or before it.
fn insert_sorted(out: &mut Vec<String>, x: String, stats: &StatsTable, order: SortOrder)
    ensures
        final(out).deep_view() == spec_insert_sorted(
            order,
            stats@,
            old(out).deep_view(),
            x@,
        ),
{
    let ghost l = old(out).deep_view();
    let mut p: usize = 0;
    while p < out.len() && le_ids_exec(order, stats, &out[p], &x)
        invariant
            out == old(out),
            l == out.deep_view(),
            0 <= p <= out@.len(),
            l.len() == out@.len(),
            forall|j: int| 0 <= j < p ==> le_ids(order, stats@, #[trigger] l[j], x@),
        decreases out@.len() - p,
    {
        proof {
            assert(l[p as int] == out@[p as int]@);
        }
        p += 1;
    }
    proof {
        if p < out@.len() {
            assert(l[p as int] == out@[p as int]@);
        }
        lemma_insert_sorted_split(order, stats@, l, x@, p as int);
    }
    let ghost xv = x@;
    out.insert(p, x);
    proof {
        assert(out.deep_view() =~= l.take(p as int) + seq![xv] + l.skip(p as int));
    }
}

/// Sorts the identifiers in place under the given order: a stable insertion
/// sort, so items with equal keys keep their relative order.
pub fn sort_paths(paths: &mut Vec<String>, stats: &StatsTable, order: SortOrder)
    ensures
        final(paths).deep_view() == spec_sort_ids(order, stats@, old(paths).deep_view()),
{
    let ghost orig = old(paths).deep_view();
    let mut out: Vec<String> = Vec::new();
    let mut i: usize = 0;
    proof {
        assert(out.deep_view() =~= spec_sort_ids(order, stats@, orig.take(0)));
    }
    while i < paths.len()
        invariant
            0 <= i <= paths@.len(),
            paths == old(paths),
            orig == paths.deep_view(),
            orig.len() == paths@.len(),
            out.deep_view() == spec_sort_ids(order, stats@, orig.take(i as int)),
        decreases paths@.len() - i,
    {
        proof {
            assert(orig[i as int] == paths@[i as int]@);
        }
        insert_sorted(&mut out, paths[i].clone(), stats, order);
        proof {
            assert(orig.take(i as int + 1).drop_last() =~= orig.take(i as int));
            assert(orig.take(i as int + 1).last() == orig[i as int]);
        }
        i += 1;
    }
    proof {
        assert(orig.take(orig.len() as int) =~= orig);
    }
    *paths = out;
}

/// A tree of identifiers grouping all dependency paths that reach the
/// why-depends target: each leaf is the target, each child is one reference
/// of its parent through which the target is reachable.
#[derive(Debug)]
pub struct Treeish {
    pub node: String,
    pub children: Vec<Treeish>,
}

/// The chains read off a why-depends tree, leftmost subtree first: a leaf
/// yields exactly its own identifier; an inner node prepends its identifier
/// to every chain of its children, in child order.
pub open spec fn tree_paths(t: Treeish) -> Seq<Seq<Seq<char>>>
    decreases t,
{
    if t.children@.len() == 0 {
        seq![seq![t.node@]]
    } else {
        forest_paths(t.children@).map_values(|q: Seq<Seq<char>>| seq![t.node@] + q)
    }
}

/// The chains of a row of subtrees, concatenated in order.
pub open spec fn forest_paths(cs: Seq<Treeish>) -> Seq<Seq<Seq<char>>>
    decreases cs,
{
    if cs.len() == 0 {
        Seq::empty()
    } else {
        forest_paths(cs.drop_last()) + tree_paths(cs.last())
    }
}

proof fn lemma_tree_paths_nonempty(t: Treeish)
    ensures
        tree_paths(t).len() >= 1,
    decreases t,
{
    if t.children@.len() > 0 {
        lemma_forest_paths_len(t.children@);
    }
}

proof fn lemma_forest_paths_len(cs: Seq<Treeish>)
    ensures
        forest_paths(cs).len() >= cs.len(),
    decreases cs,
{
    if cs.len() > 0 {
        lemma_forest_paths_len(cs.drop_last());
        lemma_tree_paths_nonempty(cs.last());
    }
}

impl Treeish {
    /// A leaf holding one identifier.
    pub fn new(node: String) -> (t: Self)
        ensures
            t.node@ == node@,
            t.children@.len() == 0,
    {
        Treeish { node, children: Vec::new() }
    }

    /// An inner node holding one identifier above the given subtrees.
    pub fn with_children(node: String, children: Vec<Treeish>) -> (t: Self)
        ensures
            t.node@ == node@,
            t.children == children,
    {
        Treeish { node, children }
    }

    /// Exactly the chains of this tree, leftmost subtree first: a leaf
    /// yields its own one-element chain; an inner node yields its children's
    /// chains in child order, each with this node's identifier prepended.
    pub fn to_paths(&self) -> (r: Vec<Vec<String>>)
        ensures
            r.deep_view() == tree_paths(*self),
            r.deep_view().len() == r@.len(),
            r@.len() >= 1,
        decreases *self,
    {
        let mut out: Vec<Vec<String>> = Vec::new();
        if self.children.len() == 0 {
            let mut single: Vec<String> = Vec::new();
            single.push(self.node.clone());
            proof {
                assert(single.deep_view() =~= seq![self.node@]);
            }
            out.push(single);
            proof {
                assert(out.deep_view() =~= seq![seq![self.node@]]);
            }
        } else {
            let mut c: usize = 0;
            proof {
                assert(self.children@.take(0) =~= Seq::<Treeish>::empty());
                assert(out.deep_view() =~= forest_paths(self.children@.take(0)).map_values(
                    |q: Seq<Seq<char>>| seq![self.node@] + q,
                ));
            }
            while c < self.children.len()
                invariant
                    0 <= c <= self.children@.len(),
                    out.deep_view().len() == out@.len(),
                    self.children@.len() > 0,
                    out.deep_view() == forest_paths(self.children@.take(c as int)).map_values(
                        |q: Seq<Seq<char>>| seq![self.node@] + q,
                    ),
                decreases self.children@.len() - c,
            {
                let sub = self.children[c].to_paths();
                let ghost pre_chunk = forest_paths(self.children@.take(c as int));
                let mut k: usize = 0;
                while k < sub.len()
                    invariant
                        0 <= k <= sub@.len(),
                        0 <= c < self.children@.len(),
                        sub@.len() >= 1,
                        sub.deep_view().len() == sub@.len(),
                        sub.deep_view() == tree_paths(self.children@[c as int]),
                        pre_chunk == forest_paths(self.children@.take(c as int)),
                        out.deep_view().len() == out@.len(),
                        out.deep_view() == (pre_chunk + tree_paths(self.children@[c as int]).take(
                            k as int,
                        )).map_values(|q: Seq<Seq<char>>| seq![self.node@] + q),
                    decreases sub@.len() - k,
                {
                    let path = &sub[k];
                    let mut np: Vec<String> = Vec::new();
                    np.push(self.node.clone());
                    let mut j: usize = 0;
                    while j < path.len()
                        invariant
                            0 <= j <= path@.len(),
                            np.deep_view() =~= seq![self.node@] + path.deep_view().take(j as int),
                        decreases path@.len() - j,
                    {
                        let ghost npd = np.deep_view();
                        np.push(path[j].clone());
                        proof {
                            assert(np.deep_view() =~= npd.push(path@[j as int]@));
                            assert(path.deep_view()[j as int] == path@[j as int]@);
                            assert(npd.push(path@[j as int]@) =~= seq![self.node@]
                                + path.deep_view().take(j as int + 1));
                        }
                        j += 1;
                    }
                    proof {
                        assert(path.deep_view().take(path@.len() as int) =~= path.deep_view());
                        assert(np.deep_view() =~= seq![self.node@] + path.deep_view());
                        assert(sub.deep_view()[k as int] == path.deep_view()) by {
                            assert(sub.deep_view()[k as int] == sub@[k as int].deep_view());
                        }
                    }
                    let ghost outd = out.deep_view();
                    out.push(np);
                    proof {
                        let f = |q: Seq<Seq<char>>| seq![self.node@] + q;
                        let chunk = tree_paths(self.children@[c as int]);
                        assert(out.deep_view() =~= outd.push(f(chunk[k as int])));
                        assert((pre_chunk + chunk.take(k as int + 1)).map_values(f) =~= (pre_chunk
                            + chunk.take(k as int)).map_values(f).push(f(chunk[k as int])));
                    }
                    k += 1;
                }
                proof {
                    let chunk = tree_paths(self.children@[c as int]);
                    assert(chunk.take(chunk.len() as int) =~= chunk);
                    assert(self.children@.take(c as int + 1).drop_last() =~= self.children@.take(
                        c as int,
                    ));
                    assert(self.children@.take(c as int + 1).last() == self.children@[c as int]);
                    assert(forest_paths(self.children@.take(c as int + 1)) == pre_chunk + chunk);
                }
                c += 1;
            }
            proof {
                assert(self.children@.take(self.children@.len() as int) =~= self.children@);
                lemma_forest_paths_len(self.children@);
                assert(out.deep_view() == tree_paths(*self));
            }
        }
        out
    }
}

/// All identifiers of a chain are pairwise distinct: the chain is simple.
pub open spec fn distinct_ids(p: Seq<Seq<char>>) -> bool {
    forall|a: int, b: int| 0 <= a < b < p.len() ==> p[a] != p[b]
}

/// A traversal stack with no marks, one slot per node.
pub open spec fn no_marks(n: int) -> Seq<bool> {
    Seq::new(n as nat, |i: int| false)
}

/// The discovery-order enumeration of the simple dependency chains from node
/// `i` to the target node `tidx`: nothing when `i` is marked on the
/// traversal stack; the one-element chain when `i` is the target; otherwise,
/// for each reference in stored order, the chains through that reference
/// with `i`'s identifier prepended, enumerated with `i` marked.
pub open spec fn spec_paths_from(g: GraphView, tidx: int, i: int, stack: Seq<bool>) -> Seq<
    Seq<Seq<char>>,
>
    decreases count_false(stack), 0int,
    via spec_paths_from_dec
{
    if !(0 <= i < g.nodes.len()) || stack.len() != g.nodes.len() || stack[i] {
        Seq::empty()
    } else if i == tidx {
        seq![seq![g.nodes[i].id]]
    } else {
        spec_paths_refs(
            g,
            tidx,
            i,
            stack.update(i, true),
            g.nodes[i].references.len() as int,
        ).map_values(|q: Seq<Seq<char>>| seq![g.nodes[i].id] + q)
    }
}

#[via_fn]
proof fn spec_paths_from_dec(g: GraphView, tidx: int, i: int, stack: Seq<bool>) {
    if 0 <= i < g.nodes.len() && stack.len() == g.nodes.len() && !stack[i] && i != tidx {
        lemma_count_false_update(stack, i);
        lemma_count_false_bounds(stack.update(i, true));
    }
}

/// The chains through the first `k` references of node `i`, concatenated in
/// reference order; references absent from the store contribute nothing.
pub open spec fn spec_paths_refs(
    g: GraphView,
    tidx: int,
    i: int,
    stack: Seq<bool>,
    k: int,
) -> Seq<Seq<Seq<char>>>
    decreases count_false(stack), k,
{
    if !(0 <= i < g.nodes.len()) || k <= 0 {
        Seq::empty()
    } else {
        let rid = g.nodes[i].references[k - 1];
        spec_paths_refs(g, tidx, i, stack, k - 1) + (if has_node(g, rid) {
            spec_paths_from(g, tidx, index_of_id(g.nodes, rid), stack)
        } else {
            Seq::empty()
        })
    }
}

/// The enumerations of the first `k` declared roots, concatenated in
/// declaration order; a root absent from the store contributes nothing.
pub open spec fn spec_why_from_roots(g: GraphView, tidx: int, k: int) -> Seq<Seq<Seq<char>>>
    decreases k,
{
    if k <= 0 {
        Seq::empty()
    } else {
        spec_why_from_roots(g, tidx, k - 1) + (if has_node(g, g.roots[k - 1]) {
            spec_paths_from(
                g,
                tidx,
                index_of_id(g.nodes, g.roots[k - 1]),
                no_marks(g.nodes.len() as int),
            )
        } else {
            Seq::empty()
        })
    }
}

/// Every simple dependency chain from each declared root to `target`, roots
/// in declaration order, chains of one root in discovery order; nothing when
/// the target is absent from the store.
pub open spec fn spec_why_all(g: GraphView, target: Seq<char>) -> Seq<Seq<Seq<char>>> {
    if !has_node(g, target) {
        Seq::empty()
    } else {
        spec_why_from_roots(g, index_of_id(g.nodes, target), g.roots.len() as int)
    }
}

/// The enumeration capped at its first 1000 chains.
pub open spec fn spec_why_depends(g: GraphView, target: Seq<char>) -> Seq<Seq<Seq<char>>> {
    if spec_why_all(g, target).len() <= 1000 {
        spec_why_all(g, target)
    } else {
        spec_why_all(g, target).take(1000)
    }
}

/// Every identifier of the chain stands in the store, at a slot unmarked on
/// the stack.
spec fn path_avoids(g: GraphView, stack: Seq<bool>, p: Seq<Seq<char>>) -> bool {
    forall|w: int|
        0 <= w < p.len() ==> has_node(g, #[trigger] p[w]) && !stack[index_of_id(g.nodes, p[w])]
}

/// Soundness of the enumeration: every enumerated chain is a simple
/// dependency chain from node `i`'s identifier to the target's, touching
/// only unmarked store nodes.
proof fn lemma_spec_paths_members(g: GraphView, tidx: int, i: int, stack: Seq<bool>)
    requires
        0 <= tidx < g.nodes.len(),
        index_of_id(g.nodes, g.nodes[tidx].id) == tidx,
        0 <= i < g.nodes.len(),
        index_of_id(g.nodes, g.nodes[i].id) == i,
    ensures
        forall|w: int|
            0 <= w < spec_paths_from(g, tidx, i, stack).len() ==> {
                let p = #[trigger] spec_paths_from(g, tidx, i, stack)[w];
                &&& p.len() >= 1
                &&& p.first() == g.nodes[i].id
                &&& p.last() == g.nodes[tidx].id
                &&& is_chain(g, p)
                &&& distinct_ids(p)
                &&& path_avoids(g, stack, p)
            },
    decreases count_false(stack), 0int,
{
    if !(0 <= i < g.nodes.len()) || stack.len() != g.nodes.len() || stack[i] {
    } else if i == tidx {
        let p = seq![g.nodes[i].id];
        assert(has_node(g, p[0]));
        assert(is_chain(g, p));
        assert(path_avoids(g, stack, p));
    } else {
        let stack1 = stack.update(i, true);
        lemma_count_false_update(stack, i);
        lemma_count_false_bounds(stack1);
        lemma_spec_refs_members(g, tidx, i, stack1, g.nodes[i].references.len() as int);
        let refs_enum = spec_paths_refs(g, tidx, i, stack1, g.nodes[i].references.len() as int);
        let f = |q: Seq<Seq<char>>| seq![g.nodes[i].id] + q;
        assert forall|w: int| 0 <= w < spec_paths_from(g, tidx, i, stack).len() implies {
            let p = #[trigger] spec_paths_from(g, tidx, i, stack)[w];
            &&& p.len() >= 1
            &&& p.first() == g.nodes[i].id
            &&& p.last() == g.nodes[tidx].id
            &&& is_chain(g, p)
            &&& distinct_ids(p)
            &&& path_avoids(g, stack, p)
        } by {
            let q = refs_enum[w];
            let p = spec_paths_from(g, tidx, i, stack)[w];
            assert(p == f(q));
            assert(p == seq![g.nodes[i].id] + q);
            assert(q.len() >= 1 && is_chain(g, q) && distinct_ids(q) && path_avoids(g, stack1, q)
                && q.last() == g.nodes[tidx].id && g.nodes[i].references.contains(q.first()));
            assert(p.len() == 1 + q.len());
            assert(p[0] == g.nodes[i].id);
            assert(forall|x: int| 0 <= x < q.len() ==> p[x + 1] == q[x]);
            // Elements of the continuation never name this node again.
            assert forall|x: int| 0 <= x < q.len() implies q[x] != g.nodes[i].id by {
                assert(!stack1[index_of_id(g.nodes, q[x])]);
                if q[x] == g.nodes[i].id {
                    assert(index_of_id(g.nodes, q[x]) == i);
                }
            }
            assert(distinct_ids(p)) by {
                assert forall|a: int, b: int| 0 <= a < b < p.len() implies p[a] != p[b] by {
                    if a == 0 {
                        assert(p[b] == q[b - 1]);
                    } else {
                        assert(p[a] == q[a - 1] && p[b] == q[b - 1]);
                        assert(q[a - 1] != q[b - 1]);
                    }
                }
            }
            assert(is_chain(g, p)) by {
                assert(has_node(g, p[0]));
                assert forall|x: int| 0 <= x < p.len() implies has_node(g, #[trigger] p[x]) by {
                    if x > 0 {
                        assert(p[x] == q[x - 1]);
                        assert(has_node(g, q[x - 1]));
                    }
                }
                assert forall|x: int|
                    0 <= x < p.len() - 1 implies node_at(g, #[trigger] p[x]).references.contains(
                    p[x + 1],
                ) by {
                    if x == 0 {
                        assert(node_at(g, g.nodes[i].id) == g.nodes[i]);
                        assert(p[1] == q[0]);
                    } else {
                        assert(p[x] == q[x - 1] && p[x + 1] == q[x]);
                        assert(node_at(g, q[x - 1]).references.contains(q[x]));
                    }
                }
            }
            assert(path_avoids(g, stack, p)) by {
                assert forall|x: int|
                    0 <= x < p.len() implies has_node(g, #[trigger] p[x]) && !stack[index_of_id(
                    g.nodes,
                    p[x],
                )] by {
                    if x > 0 {
                        assert(p[x] == q[x - 1]);
                        assert(has_node(g, q[x - 1]) && !stack1[index_of_id(g.nodes, q[x - 1])]);
                        lemma_index_of_id(g.nodes, q[x - 1]);
                        assert(stack1[i]);
                        assert(index_of_id(g.nodes, q[x - 1]) != i);
                    } else {
                        assert(p[0] == g.nodes[i].id);
                        assert(index_of_id(g.nodes, p[0]) == i);
                        assert(has_node(g, p[0]));
                        assert(!stack[i]);
                    }
                }
            }
            assert(p.last() == q.last());
        }
    }
}

/// Soundness over a reference prefix: every chain enumerated through the
/// first `k` references starts at one of those references.
proof fn lemma_spec_refs_members(g: GraphView, tidx: int, i: int, stack: Seq<bool>, k: int)
    requires
        0 <= tidx < g.nodes.len(),
        index_of_id(g.nodes, g.nodes[tidx].id) == tidx,
        0 <= i < g.nodes.len(),
        k <= g.nodes[i].references.len(),
    ensures
        forall|w: int|
            0 <= w < spec_paths_refs(g, tidx, i, stack, k).len() ==> {
                let q = #[trigger] spec_paths_refs(g, tidx, i, stack, k)[w];
                &&& q.len() >= 1
                &&& q.last() == g.nodes[tidx].id
                &&& is_chain(g, q)
                &&& distinct_ids(q)
                &&& path_avoids(g, stack, q)
                &&& g.nodes[i].references.contains(q.first())
            },
    decreases count_false(stack), k,
{
    if k <= 0 {
    } else {
        lemma_spec_refs_members(g, tidx, i, stack, k - 1);
        let rid = g.nodes[i].references[k - 1];
        let prefix = spec_paths_refs(g, tidx, i, stack, k - 1);
        if has_node(g, rid) {
            lemma_index_of_id(g.nodes, rid);
            let j = index_of_id(g.nodes, rid);
            assert(g.nodes[j].id == rid);
            lemma_spec_paths_members(g, tidx, j, stack);
            let chunk = spec_paths_from(g, tidx, j, stack);
            assert forall|w: int| 0 <= w < spec_paths_refs(g, tidx, i, stack, k).len() implies {
                let q = #[trigger] spec_paths_refs(g, tidx, i, stack, k)[w];
                &&& q.len() >= 1
                &&& q.last() == g.nodes[tidx].id
                &&& is_chain(g, q)
                &&& distinct_ids(q)
                &&& path_avoids(g, stack, q)
                &&& g.nodes[i].references.contains(q.first())
            } by {
                if w < prefix.len() {
                    assert(spec_paths_refs(g, tidx, i, stack, k)[w] == prefix[w]);
                } else {
                    let q = chunk[w - prefix.len()];
                    assert(spec_paths_refs(g, tidx, i, stack, k)[w] == q);
                    assert(q.first() == g.nodes[j].id);
                    assert(g.nodes[i].references[k - 1] == q.first());
                }
            }
        } else {
            assert(spec_paths_refs(g, tidx, i, stack, k) =~= prefix);
        }
    }
}

/// Completeness of the enumeration: every simple dependency chain from node
/// `i`'s identifier to the target's, touching only unmarked nodes, appears.
proof fn lemma_spec_paths_complete(
    g: GraphView,
    tidx: int,
    i: int,
    stack: Seq<bool>,
    p: Seq<Seq<char>>,
)
    requires
        0 <= tidx < g.nodes.len(),
        index_of_id(g.nodes, g.nodes[tidx].id) == tidx,
        0 <= i < g.nodes.len(),
        index_of_id(g.nodes, g.nodes[i].id) == i,
        stack.len() == g.nodes.len(),
        p.len() >= 1,
        p.first() == g.nodes[i].id,
        p.last() == g.nodes[tidx].id,
        is_chain(g, p),
        distinct_ids(p),
        path_avoids(g, stack, p),
    ensures
        spec_paths_from(g, tidx, i, stack).contains(p),
    decreases p.len(),
{
    assert(!stack[i]) by {
        assert(!stack[index_of_id(g.nodes, p[0])]);
    }
    if p.len() == 1 {
        assert(g.nodes[i].id == g.nodes[tidx].id);
        assert(i == tidx);
        assert(p =~= seq![g.nodes[i].id]);
        assert(spec_paths_from(g, tidx, i, stack)[0] == p);
        assert(spec_paths_from(g, tidx, i, stack).contains(p));
    } else {
        assert(i != tidx) by {
            if i == tidx {
                assert(p[0] == p[p.len() - 1]);
            }
        }
        let stack1 = stack.update(i, true);
        let q = p.drop_first();
        assert(q.len() == p.len() - 1);
        assert(forall|x: int| 0 <= x < q.len() ==> q[x] == p[x + 1]);
        assert(node_at(g, p[0]).references.contains(p[1]));
        assert(node_at(g, p[0]) == g.nodes[i]);
        let w0 = choose|w0: int|
            0 <= w0 < g.nodes[i].references.len() && g.nodes[i].references[w0] == p[1];
        assert(has_node(g, p[1]));
        lemma_index_of_id(g.nodes, p[1]);
        let j = index_of_id(g.nodes, p[1]);
        assert(g.nodes[j].id == p[1]);
        assert(q.first() == g.nodes[j].id);
        assert(q.last() == p.last());
        assert(is_chain(g, q)) by {
            assert(forall|x: int| 0 <= x < q.len() ==> has_node(g, #[trigger] q[x]));
            assert forall|x: int|
                0 <= x < q.len() - 1 implies node_at(g, #[trigger] q[x]).references.contains(
                q[x + 1],
            ) by {
                assert(q[x] == p[x + 1] && q[x + 1] == p[x + 2]);
            }
        }
        assert(distinct_ids(q)) by {
            assert forall|a: int, b: int| 0 <= a < b < q.len() implies q[a] != q[b] by {
                assert(q[a] == p[a + 1] && q[b] == p[b + 1]);
            }
        }
        assert(path_avoids(g, stack1, q)) by {
            assert forall|x: int|
                0 <= x < q.len() implies has_node(g, #[trigger] q[x]) && !stack1[index_of_id(
                g.nodes,
                q[x],
            )] by {
                assert(q[x] == p[x + 1]);
                assert(has_node(g, p[x + 1]) && !stack[index_of_id(g.nodes, p[x + 1])]);
                assert(q[x] != p[0]);
                lemma_index_of_id(g.nodes, q[x]);
                assert(index_of_id(g.nodes, q[x]) != i) by {
                    if index_of_id(g.nodes, q[x]) == i {
                        assert(g.nodes[i].id == q[x]);
                        assert(p[0] == q[x]);
                    }
                }
            }
        }
        lemma_count_false_update(stack, i);
        lemma_count_false_bounds(stack1);
        lemma_spec_paths_complete(g, tidx, j, stack1, q);
        lemma_spec_refs_contains(g, tidx, i, stack1, w0, g.nodes[i].references.len() as int, q);
        let refs_enum = spec_paths_refs(g, tidx, i, stack1, g.nodes[i].references.len() as int);
        let z = choose|z: int| 0 <= z < refs_enum.len() && refs_enum[z] == q;
        assert(p =~= seq![g.nodes[i].id] + q);
        assert(spec_paths_from(g, tidx, i, stack)[z] == p);
        assert(spec_paths_from(g, tidx, i, stack).contains(p));
    }
}

/// A chain found through one reference stays in the enumeration of any
/// longer reference prefix.
proof fn lemma_spec_refs_contains(
    g: GraphView,
    tidx: int,
    i: int,
    stack: Seq<bool>,
    w0: int,
    k: int,
    q: Seq<Seq<char>>,
)
    requires
        0 <= i < g.nodes.len(),
        0 <= w0 < k <= g.nodes[i].references.len(),
        has_node(g, g.nodes[i].references[w0]),
        spec_paths_from(
            g,
            tidx,
            index_of_id(g.nodes, g.nodes[i].references[w0]),
            stack,
        ).contains(q),
    ensures
        spec_paths_refs(g, tidx, i, stack, k).contains(q),
    decreases k,
{
    let prefix = spec_paths_refs(g, tidx, i, stack, k - 1);
    if k - 1 == w0 {
        let chunk = spec_paths_from(g, tidx, index_of_id(g.nodes, g.nodes[i].references[w0]), stack);
        let z = choose|z: int| 0 <= z < chunk.len() && chunk[z] == q;
        assert(spec_paths_refs(g, tidx, i, stack, k)[prefix.len() + z] == q);
    } else {
        lemma_spec_refs_contains(g, tidx, i, stack, w0, k - 1, q);
        let z = choose|z: int| 0 <= z < prefix.len() && prefix[z] == q;
        assert(spec_paths_refs(g, tidx, i, stack, k)[z] == q);
    }
}

/// A chain found under one root stays in the concatenation over any longer
/// root prefix.
proof fn lemma_why_chunk_contains(g: GraphView, tidx: int, k: int, kk: int, p: Seq<Seq<char>>)
    requires
        0 <= k < kk <= g.roots.len(),
        has_node(g, g.roots[k]),
        spec_paths_from(
            g,
            tidx,
            index_of_id(g.nodes, g.roots[k]),
            no_marks(g.nodes.len() as int),
        ).contains(p),
    ensures
        spec_why_from_roots(g, tidx, kk).contains(p),
    decreases kk,
{
    let prefix = spec_why_from_roots(g, tidx, kk - 1);
    if kk - 1 == k {
        let chunk = spec_paths_from(
            g,
            tidx,
            index_of_id(g.nodes, g.roots[k]),
            no_marks(g.nodes.len() as int),
        );
        let z = choose|z: int| 0 <= z < chunk.len() && chunk[z] == p;
        assert(spec_why_from_roots(g, tidx, kk)[prefix.len() + z] == p);
    } else {
        lemma_why_chunk_contains(g, tidx, k, kk - 1, p);
        let z = choose|z: int| 0 <= z < prefix.len() && prefix[z] == p;
        assert(spec_why_from_roots(g, tidx, kk)[z] == p);
    }
}

/// Law: the search is complete. Every simple dependency chain from a
/// declared root to a target present in the store appears in the search's
/// enumeration; it appears in the capped result whenever the whole
/// enumeration fits under the 1000-chain cap.
pub proof fn lemma_why_depends_complete(g: GraphView, target: Seq<char>, p: Seq<Seq<char>>, k: int)
    requires
        has_node(g, target),
        0 <= k < g.roots.len(),
        p.len() >= 1,
        p.first() == g.roots[k],
        p.last() == target,
        is_chain(g, p),
        distinct_ids(p),
    ensures
        spec_why_all(g, target).contains(p),
        spec_why_all(g, target).len() <= 1000 ==> spec_why_depends(g, target).contains(p),
{
    lemma_index_of_id(g.nodes, target);
    let tidx = index_of_id(g.nodes, target);
    assert(has_node(g, p[0]));
    lemma_index_of_id(g.nodes, g.roots[k]);
    let ri = index_of_id(g.nodes, g.roots[k]);
    assert(g.nodes[ri].id == g.roots[k]);
    let n = g.nodes.len() as int;
    assert(no_marks(n).len() == g.nodes.len());
    assert(path_avoids(g, no_marks(n), p)) by {
        assert forall|w: int|
            0 <= w < p.len() implies has_node(g, #[trigger] p[w]) && !no_marks(n)[index_of_id(
            g.nodes,
            p[w],
        )] by {
            lemma_index_of_id(g.nodes, p[w]);
        }
    }
    assert(g.nodes[tidx].id == target);
    lemma_spec_paths_complete(g, tidx, ri, no_marks(n), p);
    lemma_why_chunk_contains(g, tidx, k, g.roots.len() as int, p);
    if spec_why_all(g, target).len() <= 1000 {
        assert(spec_why_depends(g, target) == spec_why_all(g, target));
    }
}

/// Law: a target that is itself a declared root, and that no other declared
/// root reaches, is explained by exactly its own one-element chain.
pub proof fn lemma_why_depends_root_only(g: GraphView, target: Seq<char>, k0: int)
    requires
        has_node(g, target),
        0 <= k0 < g.roots.len(),
        g.roots[k0] == target,
        forall|k: int|
            0 <= k < g.roots.len() && k != k0 ==> g.roots[k] != target && !reaches(
                g,
                #[trigger] g.roots[k],
                target,
                None,
            ),
    ensures
        spec_why_depends(g, target) == seq![seq![target]],
{
    lemma_index_of_id(g.nodes, target);
    let tidx = index_of_id(g.nodes, target);
    lemma_why_roots_only(g, target, tidx, k0, g.roots.len() as int);
    assert(spec_why_all(g, target) == seq![seq![target]]);
    assert(spec_why_all(g, target).len() == 1);
}

proof fn lemma_why_roots_only(g: GraphView, target: Seq<char>, tidx: int, k0: int, kk: int)
    requires
        has_node(g, target),
        index_of_id(g.nodes, target) == tidx,
        0 <= k0 < g.roots.len(),
        g.roots[k0] == target,
        0 <= kk <= g.roots.len(),
        forall|k: int|
            0 <= k < g.roots.len() && k != k0 ==> g.roots[k] != target && !reaches(
                g,
                #[trigger] g.roots[k],
                target,
                None,
            ),
    ensures
        kk <= k0 ==> spec_why_from_roots(g, tidx, kk) == Seq::<Seq<Seq<char>>>::empty(),
        kk > k0 ==> spec_why_from_roots(g, tidx, kk) == seq![seq![target]],
    decreases kk,
{
    lemma_index_of_id(g.nodes, target);
    assert(0 <= tidx < g.nodes.len() && g.nodes[tidx].id == target);
    if kk <= 0 {
        assert(spec_why_from_roots(g, tidx, kk) =~= Seq::<Seq<Seq<char>>>::empty());
    } else {
        lemma_why_roots_only(g, target, tidx, k0, kk - 1);
        let n = g.nodes.len() as int;
        if kk - 1 == k0 {
            assert(has_node(g, g.roots[k0]));
            assert(index_of_id(g.nodes, g.roots[k0]) == tidx);
            assert(!no_marks(n)[tidx]);
            assert(no_marks(n).len() == g.nodes.len());
            let chunk = spec_paths_from(g, tidx, tidx, no_marks(n));
            assert(chunk == seq![seq![target]]);
            assert(spec_why_from_roots(g, tidx, kk) =~= seq![seq![target]]);
        } else {
            let r = g.roots[kk - 1];
            if has_node(g, r) {
                lemma_index_of_id(g.nodes, r);
                let ri = index_of_id(g.nodes, r);
                let chunk = spec_paths_from(g, tidx, ri, no_marks(n));
                assert(chunk.len() == 0) by {
                    if chunk.len() > 0 {
                        lemma_spec_paths_members(g, tidx, ri, no_marks(n));
                        let p = chunk[0];
                        assert(is_chain(g, p) && p.first() == g.nodes[ri].id && p.last()
                            == g.nodes[tidx].id);
                        assert(chain_avoids(p, None));
                        assert(reaches(g, r, target, None));
                    }
                }
                assert(chunk =~= Seq::<Seq<Seq<char>>>::empty());
            }
            if kk - 1 < k0 {
                assert(spec_why_from_roots(g, tidx, kk) =~= Seq::<Seq<Seq<char>>>::empty());
            } else {
                assert(spec_why_from_roots(g, tidx, kk) =~= seq![seq![target]]);
            }
        }
    }
}

/// A root equal to the target contributes its one-element chain, so the
/// enumeration is never empty.
proof fn lemma_why_roots_nonempty(g: GraphView, tidx: int, k: int, kk: int)
    requires
        0 <= tidx < g.nodes.len(),
        index_of_id(g.nodes, g.nodes[tidx].id) == tidx,
        0 <= k < kk <= g.roots.len(),
        g.roots[k] == g.nodes[tidx].id,
    ensures
        spec_why_from_roots(g, tidx, kk).len() >= 1,
    decreases kk,
{
    if kk - 1 == k {
        assert(has_node(g, g.roots[k]));
        assert(index_of_id(g.nodes, g.roots[k]) == tidx);
        let n = g.nodes.len() as int;
        assert(!no_marks(n)[tidx]);
        assert(no_marks(n).len() == g.nodes.len());
        assert(spec_paths_from(g, tidx, tidx, no_marks(n)).len() == 1);
    } else {
        lemma_why_roots_nonempty(g, tidx, k, kk - 1);
    }
}

/// Every chain of the enumeration explains the target and is simple.
proof fn lemma_why_all_members(g: GraphView, target: Seq<char>, kk: int)
    requires
        has_node(g, target),
        0 <= kk <= g.roots.len(),
    ensures
        forall|w: int|
            0 <= w < spec_why_from_roots(g, index_of_id(g.nodes, target), kk).len() ==> {
                let p = #[trigger] spec_why_from_roots(g, index_of_id(g.nodes, target), kk)[w];
                why_path_ok(g, target, p) && distinct_ids(p)
            },
    decreases kk,
{
    lemma_index_of_id(g.nodes, target);
    let tidx = index_of_id(g.nodes, target);
    if kk <= 0 {
    } else {
        lemma_why_all_members(g, target, kk - 1);
        let prefix = spec_why_from_roots(g, tidx, kk - 1);
        let r = g.roots[kk - 1];
        if has_node(g, r) {
            lemma_index_of_id(g.nodes, r);
            let ri = index_of_id(g.nodes, r);
            assert(g.nodes[ri].id == r);
            let n = g.nodes.len() as int;
            lemma_spec_paths_members(g, tidx, ri, no_marks(n));
            let chunk = spec_paths_from(g, tidx, ri, no_marks(n));
            assert forall|w: int| 0 <= w < spec_why_from_roots(g, tidx, kk).len() implies {
                let p = #[trigger] spec_why_from_roots(g, tidx, kk)[w];
                why_path_ok(g, target, p) && distinct_ids(p)
            } by {
                if w < prefix.len() {
                    assert(spec_why_from_roots(g, tidx, kk)[w] == prefix[w]);
                } else {
                    let p = chunk[w - prefix.len()];
                    assert(spec_why_from_roots(g, tidx, kk)[w] == p);
                    assert(p.first() == r);
                    assert(g.roots.contains(p.first()));
                    assert(p.last() == g.nodes[tidx].id);
                }
            }
        } else {
            assert(spec_why_from_roots(g, tidx, kk) =~= prefix);
        }
    }
}

/// The search over references, depth first: the tree of all simple
/// dependency chains from node `node_idx` to the target, `None` exactly when
/// there is none that avoids the nodes currently marked on the traversal
/// stack. The stack marks are restored before returning.
fn build_treeish(
    graph: &StorePathGraph,
    target_idx: usize,
    node_idx: usize,
    visited: &mut Vec<bool>,
) -> (r: Option<Treeish>)
    requires
        old(visited)@.len() == graph@.nodes.len(),
        target_idx < graph@.nodes.len(),
        node_idx < graph@.nodes.len(),
        count_false(old(visited)@) >= 0,
    ensures
        final(visited)@ == old(visited)@,
        match r {
            Some(t) => tree_paths(t) == spec_paths_from(
                graph@,
                target_idx as int,
                node_idx as int,
                old(visited)@,
            ),
            None => spec_paths_from(graph@, target_idx as int, node_idx as int, old(visited)@)
                == Seq::<Seq<Seq<char>>>::empty(),
        },
    decreases count_false(old(visited)@),
{
    let ghost g = graph@;
    if visited[node_idx] {
        proof {
            assert(spec_paths_from(g, target_idx as int, node_idx as int, visited@)
                =~= Seq::<Seq<Seq<char>>>::empty());
        }
        return None;
    }
    if node_idx == target_idx {
        let t = Treeish::new(graph.paths[node_idx].path.clone());
        proof {
            assert(g.nodes[node_idx as int] == graph.paths@[node_idx as int]@);
            assert(tree_paths(t) =~= seq![seq![g.nodes[node_idx as int].id]]);
            assert(spec_paths_from(g, target_idx as int, node_idx as int, visited@)
                =~= seq![seq![g.nodes[node_idx as int].id]]);
        }
        return Some(t);
    }
    let ghost vis0 = visited@;
    visited[node_idx] = true;
    proof {
        lemma_count_false_update(vis0, node_idx as int);
        lemma_count_false_bounds(visited@);
        assert(g.nodes[node_idx as int] == graph.paths@[node_idx as int]@);
    }
    let nrefs = graph.paths[node_idx].references.len();
    let mut child_trees: Vec<Treeish> = Vec::new();
    let mut rr: usize = 0;
    proof {
        assert(forest_paths(child_trees@) =~= Seq::<Seq<Seq<char>>>::empty());
        assert(spec_paths_refs(g, target_idx as int, node_idx as int, visited@, 0)
            =~= Seq::<Seq<Seq<char>>>::empty());
    }
    while rr < nrefs
        invariant
            g == graph@,
            target_idx < g.nodes.len(),
            node_idx < g.nodes.len(),
            node_idx != target_idx,
            0 <= rr <= nrefs,
            nrefs == g.nodes[node_idx as int].references.len(),
            graph.paths@.len() == g.nodes.len(),
            visited@.len() == g.nodes.len(),
            vis0 == old(visited)@,
            vis0.len() == g.nodes.len(),
            visited@ == vis0.update(node_idx as int, true),
            count_false(visited@) == count_false(vis0) - 1,
            count_false(vis0) >= 1,
            forest_paths(child_trees@) == spec_paths_refs(
                g,
                target_idx as int,
                node_idx as int,
                visited@,
                rr as int,
            ),
        decreases nrefs - rr,
    {
        proof {
            assert(g.nodes[node_idx as int] == graph.paths@[node_idx as int]@);
            assert(g.nodes[node_idx as int].references[rr as int] == graph.paths@[node_idx as int].references@[rr as int]@);
        }
        let rid = &graph.paths[node_idx].references[rr];
        let ghost ridv = rid@;
        let ghost before = child_trees@;
        let ghost refs_prev = spec_paths_refs(
            g,
            target_idx as int,
            node_idx as int,
            visited@,
            rr as int,
        );
        match resolve_index(graph, rid.as_str()) {
            Some(j) => {
                proof {
                    lemma_index_of_id(g.nodes, ridv);
                    assert(g.nodes[j as int].id == ridv);
                    assert(has_node(g, ridv));
                }
                match build_treeish(graph, target_idx, j, visited) {
                    Some(tree) => {
                        let ghost tp = tree_paths(tree);
                        child_trees.push(tree);
                        proof {
                            assert(child_trees@.drop_last() =~= before);
                            assert(child_trees@.last() == child_trees@[child_trees@.len() - 1]);
                            assert(forest_paths(child_trees@) == forest_paths(before) + tp);
                            assert(tp == spec_paths_from(
                                g,
                                target_idx as int,
                                index_of_id(g.nodes, ridv),
                                visited@,
                            ));
                        }
                    },
                    None => {
                        proof {
                            assert(spec_paths_from(
                                g,
                                target_idx as int,
                                index_of_id(g.nodes, ridv),
                                visited@,
                            ) == Seq::<Seq<Seq<char>>>::empty());
                        }
                    },
                }
            },
            None => {
                proof {
                    assert(!has_node(g, ridv));
                }
            },
        }
        proof {
            let refs_next = spec_paths_refs(
                g,
                target_idx as int,
                node_idx as int,
                visited@,
                rr as int + 1,
            );
            assert(g.nodes[node_idx as int].references[rr as int] == ridv);
            if has_node(g, ridv) {
                assert(refs_next == refs_prev + spec_paths_from(
                    g,
                    target_idx as int,
                    index_of_id(g.nodes, ridv),
                    visited@,
                ));
            } else {
                assert(refs_next =~= refs_prev);
            }
            assert(forest_paths(child_trees@) =~= refs_next);
        }
        rr += 1;
    }
    let result: Option<Treeish> = if child_trees.len() == 0 {
        proof {
            assert(forest_paths(child_trees@) =~= Seq::<Seq<Seq<char>>>::empty());
            assert(spec_paths_from(g, target_idx as int, node_idx as int, vis0)
                =~= Seq::<Seq<Seq<char>>>::empty());
        }
        None
    } else {
        let t = Treeish::with_children(graph.paths[node_idx].path.clone(), child_trees);
        proof {
            assert(g.nodes[node_idx as int] == graph.paths@[node_idx as int]@);
            assert(t.node@ == g.nodes[node_idx as int].id);
            assert(t.children@.len() > 0);
            assert(tree_paths(t) == spec_paths_from(g, target_idx as int, node_idx as int, vis0));
        }
        Some(t)
    };
    visited[node_idx] = false;
    proof {
        assert(visited@ =~= vis0);
    }
    result
}

/// `p` explains why the target is present: a dependency chain from one of
/// the declared roots down to the target.
pub open spec fn why_path_ok(g: GraphView, target: Seq<char>, p: Seq<Seq<char>>) -> bool {
    is_chain(g, p) && p.last() == target && g.roots.contains(p.first())
}

/// Exactly the enumeration `spec_why_depends` describes: every simple
/// dependency chain from each declared root to `target`, roots in
/// declaration order, chains of one root in discovery order, capped at the
/// first 1000 chains. A target absent from the store has no chains; a target
/// that is itself a declared root always has at least one; when it is the
/// sole root, the result is exactly its one-element chain.
pub fn why_depends(graph: &StorePathGraph, target: &str) -> (r: Vec<Vec<String>>)
    ensures
        r.deep_view() == spec_why_depends(graph@, target@),
        r.deep_view().len() == r@.len(),
        r@.len() <= 1000,
        spec_why_all(graph@, target@).len() > 1000 ==> r@.len() == 1000,
        !has_node(graph@, target@) ==> r@.len() == 0,
        forall|k: int|
            0 <= k < r@.len() ==> why_path_ok(graph@, target@, #[trigger] r.deep_view()[k])
                && distinct_ids(r.deep_view()[k]),
        (has_node(graph@, target@) && graph@.roots == seq![target@]) ==> r.deep_view()
            == seq![seq![target@]],
        (has_node(graph@, target@) && graph@.roots.contains(target@)) ==> r@.len() >= 1,
{
    let ghost g = graph@;
    let n = graph.paths.len();
    let tidx = match resolve_index(graph, target) {
        Some(i) => i,
        None => {
            let out: Vec<Vec<String>> = Vec::new();
            proof {
                assert(out.deep_view() =~= Seq::<Seq<Seq<char>>>::empty());
                assert(spec_why_depends(g, target@) == Seq::<Seq<Seq<char>>>::empty());
            }
            return out;
        },
    };
    proof {
        lemma_index_of_id(g.nodes, target@);
        assert(g.nodes[tidx as int].id == target@);
    }
    let mut all_paths: Vec<Vec<String>> = Vec::new();
    proof {
        assert(all_paths.deep_view() =~= Seq::<Seq<Seq<char>>>::empty());
        assert(spec_why_from_roots(g, tidx as int, 0) =~= Seq::<Seq<Seq<char>>>::empty());
    }
    let mut ri: usize = 0;
    while ri < graph.roots.len()
        invariant
            g == graph@,
            n == g.nodes.len(),
            n == graph.paths@.len(),
            tidx < n,
            g.nodes[tidx as int].id == target@,
            index_of_id(g.nodes, target@) == tidx,
            has_node(g, target@),
            0 <= ri <= graph.roots@.len(),
            g.roots.len() == graph.roots@.len(),
            all_paths.deep_view().len() == all_paths@.len(),
            all_paths.deep_view() == spec_why_from_roots(g, tidx as int, ri as int),
        decreases graph.roots@.len() - ri,
    {
        proof {
            assert(g.roots[ri as int] == graph.roots@[ri as int]@);
        }
        let mut visited: Vec<bool> = Vec::new();
        let mut vi: usize = 0;
        while vi < n
            invariant
                0 <= vi <= n,
                visited@.len() == vi,
                forall|j: int| 0 <= j < vi ==> !visited@[j],
            decreases n - vi,
        {
            visited.push(false);
            vi += 1;
        }
        proof {
            lemma_count_false_bounds(visited@);
            assert(visited@ =~= no_marks(n as int));
        }
        let ghost chunk_before = all_paths.deep_view();
        match resolve_index(graph, graph.roots[ri].as_str()) {
            Some(idx) => {
                proof {
                    lemma_index_of_id(g.nodes, g.roots[ri as int]);
                    assert(index_of_id(g.nodes, g.roots[ri as int]) == idx);
                }
                match build_treeish(graph, tidx, idx, &mut visited) {
                    Some(tree) => {
                        let mut paths = tree.to_paths();
                        let ghost pathsd = paths.deep_view();
                        all_paths.append(&mut paths);
                        proof {
                            assert(all_paths.deep_view() =~= chunk_before + pathsd);
                            assert(pathsd == spec_paths_from(
                                g,
                                tidx as int,
                                idx as int,
                                no_marks(n as int),
                            ));
                        }
                    },
                    None => {
                        proof {
                            assert(spec_paths_from(g, tidx as int, idx as int, no_marks(n as int))
                                =~= Seq::<Seq<Seq<char>>>::empty());
                            assert(all_paths.deep_view() =~= chunk_before + spec_paths_from(
                                g,
                                tidx as int,
                                idx as int,
                                no_marks(n as int),
                            ));
                        }
                    },
                }
            },
            None => {
                proof {
                    assert(!has_node(g, g.roots[ri as int]));
                    assert(all_paths.deep_view() =~= chunk_before
                        + Seq::<Seq<Seq<char>>>::empty());
                }
            },
        }
        ri += 1;
    }
    proof {
        assert(all_paths.deep_view() == spec_why_all(g, target@));
    }
    let ghost full = spec_why_all(g, target@);
    let ghost pre_at = all_paths@;
    let ghost pre_deep = all_paths.deep_view();
    all_paths.truncate(1000);
    proof {
        if full.len() <= 1000 {
            assert(all_paths@ =~= pre_at);
            assert(all_paths.deep_view() =~= pre_deep);
        } else {
            assert(all_paths@ =~= pre_at.take(1000));
            assert forall|k: int| 0 <= k < 1000 implies all_paths.deep_view()[k] == full[k] by {
                assert(all_paths.deep_view()[k] == all_paths@[k].deep_view());
                assert(pre_deep[k] == pre_at[k].deep_view());
            }
            assert(all_paths.deep_view() =~= full.take(1000));
        }
        lemma_why_all_members(g, target@, g.roots.len() as int);
        assert forall|k: int| 0 <= k < all_paths@.len() implies why_path_ok(
            g,
            target@,
            #[trigger] all_paths.deep_view()[k],
        ) && distinct_ids(all_paths.deep_view()[k]) by {
            assert(all_paths.deep_view()[k] == full[k]);
        }
        if g.roots == seq![target@] {
            assert(g.roots.len() == 1 && g.roots[0] == target@);
            assert(forall|k: int|
                0 <= k < g.roots.len() && k != 0 ==> g.roots[k] != target@ && !reaches(
                    g,
                    #[trigger] g.roots[k],
                    target@,
                    None,
                ));
            lemma_why_depends_root_only(g, target@, 0);
        }
        if g.roots.contains(target@) {
            let k = choose|k: int| 0 <= k < g.roots.len() && g.roots[k] == target@;
            lemma_why_roots_nonempty(g, tidx as int, k, g.roots.len() as int);
        }
    }
    all_paths
}

/// Law: marginal size is context-sensitive. In a store holding exactly the
/// chain root, then `a`, then `b` (each node referencing the next, nothing
/// else), the marginal size of `a` in the context of the root alone is the
/// own size of `a` plus the own size of `b`: removing `a` would reclaim
/// exactly those bytes.
pub proof fn lemma_added_size_chain(g: GraphView)
    requires
        g.nodes.len() == 3,
        g.nodes[0].id != g.nodes[1].id,
        g.nodes[0].id != g.nodes[2].id,
        g.nodes[1].id != g.nodes[2].id,
        g.nodes[0].references == seq![g.nodes[1].id],
        g.nodes[1].references == seq![g.nodes[2].id],
        g.nodes[2].references.len() == 0,
        g.nodes[0].nar_size + g.nodes[1].nar_size + g.nodes[2].nar_size <= u64::MAX,
    ensures
        spec_added_size(g, seq![g.nodes[0].id], g.nodes[1].id) == g.nodes[1].nar_size
            + g.nodes[2].nar_size,
{
    let r = g.nodes[0].id;
    let a = g.nodes[1].id;
    let b = g.nodes[2].id;
    let ctx = seq![r];
    assert(has_node(g, r));
    assert(has_node(g, a));
    assert(has_node(g, b));
    lemma_index_of_id(g.nodes, r);
    lemma_index_of_id(g.nodes, a);
    lemma_index_of_id(g.nodes, b);
    assert(index_of_id(g.nodes, r) == 0);
    assert(index_of_id(g.nodes, a) == 1);
    assert(index_of_id(g.nodes, b) == 2);
    assert(node_at(g, r) == g.nodes[0]);
    assert(node_at(g, a) == g.nodes[1]);
    // Everything is reachable from the root without exclusion.
    let pr = seq![r];
    assert(is_chain(g, pr) && chain_avoids(pr, None) && pr.first() == r && pr.last() == r);
    assert(reaches(g, r, r, None));
    let pa = seq![r, a];
    assert(node_at(g, pa[0]).references.contains(a)) by {
        assert(g.nodes[0].references[0] == a);
    }
    assert(is_chain(g, pa) && chain_avoids(pa, None) && pa.first() == r && pa.last() == a);
    assert(reaches(g, r, a, None));
    let pb = seq![r, a, b];
    assert(node_at(g, pb[0]).references.contains(a)) by {
        assert(g.nodes[0].references[0] == a);
    }
    assert(node_at(g, pb[1]).references.contains(b)) by {
        assert(g.nodes[1].references[0] == b);
    }
    assert(is_chain(g, pb) && chain_avoids(pb, None) && pb.first() == r && pb.last() == b);
    assert(reaches(g, r, b, None));
    assert(in_closure(g, ctx, None, r)) by {
        assert(ctx[0] == r);
    }
    assert(in_closure(g, ctx, None, a)) by {
        assert(ctx[0] == r);
    }
    assert(in_closure(g, ctx, None, b)) by {
        assert(ctx[0] == r);
    }
    reveal_with_fuel(closure_sum, 4);
    assert(total_closure_size(g, ctx, None) == g.nodes[0].nar_size + g.nodes[1].nar_size
        + g.nodes[2].nar_size);
    // With `a` excluded, only the root itself remains reachable.
    let ex = Some(a);
    assert(avoids_one(r, ex));
    assert(is_chain(g, pr) && chain_avoids(pr, ex));
    assert(reaches(g, r, r, ex));
    assert(in_closure(g, ctx, ex, r)) by {
        assert(ctx[0] == r);
    }
    assert(!in_closure(g, ctx, ex, a)) by {
        if in_closure(g, ctx, ex, a) {
            let k = choose|k: int| 0 <= k < ctx.len() && reaches(g, #[trigger] ctx[k], a, ex);
            let p = choose|p: Seq<Seq<char>>|
                is_chain(g, p) && chain_avoids(p, ex) && p.first() == ctx[k] && p.last() == a;
            assert(avoids_one(p[p.len() - 1], ex));
            assert(false);
        }
    }
    assert(!in_closure(g, ctx, ex, b)) by {
        if in_closure(g, ctx, ex, b) {
            let k = choose|k: int| 0 <= k < ctx.len() && reaches(g, #[trigger] ctx[k], b, ex);
            assert(ctx[k] == r);
            let p = choose|p: Seq<Seq<char>>|
                is_chain(g, p) && chain_avoids(p, ex) && p.first() == r && p.last() == b;
            assert(p.len() >= 2) by {
                if p.len() == 1 {
                    assert(p[0] == r && p[0] == b);
                }
            }
            assert(node_at(g, p[0]).references.contains(p[1]));
            assert(p[1] == a) by {
                let w = choose|w: int|
                    0 <= w < g.nodes[0].references.len() && g.nodes[0].references[w] == p[1];
                assert(w == 0);
            }
            assert(avoids_one(p[1], ex));
            assert(false);
        }
    }
    assert(total_closure_size(g, ctx, ex) == g.nodes[0].nar_size);
}

} // verus!

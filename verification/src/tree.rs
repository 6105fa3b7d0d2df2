//! The mathematical model of the process tree: the parent-to-children edge
//! relation drawn from a snapshot, reachability along those edges, and the
//! facts about breadth-first discovery orders that the resolver's contract
//! rests on.

use vstd::prelude::*;
use vstd::seq_lib::*;
use vstd::set_lib::{lemma_int_range, set_int_range};

use crate::types::{ChildProcessIdMapFilter, ProcessInfo};

verus! {

/// The edge relation of a built child index: `p` is the recorded parent of `c`.
pub open spec fn index_edge(m: Map<u32, Vec<u32>>, p: u32, c: u32) -> bool {
    m.contains_key(p) && m[p]@.contains(c)
}

/// The edge relation a snapshot describes: some record names `c` as a child of
/// `p`, and the platform filter does not drop that record.
pub open spec fn snapshot_edge(
    records: Seq<ProcessInfo>,
    filter: ChildProcessIdMapFilter,
    p: u32,
    c: u32,
) -> bool {
    exists |i: int|
        0 <= i < records.len() && (#[trigger] records[i]).parent_process_id == p
            && records[i].process_id == c && !filter.excludes_spec(records[i])
}

/// A snapshot is well formed when no process id occurs twice; within one
/// snapshot instant, pids are unique.
pub open spec fn wf_snapshot(records: Seq<ProcessInfo>) -> bool {
    forall |i: int, j: int|
        0 <= i < records.len() && 0 <= j < records.len() && i != j
            ==> (#[trigger] records[i]).process_id != (#[trigger] records[j]).process_id
}

/// Every child has at most one parent in the index.
pub open spec fn parent_unique(m: Map<u32, Vec<u32>>) -> bool {
    forall |p1: u32, p2: u32, c: u32|
        #[trigger] index_edge(m, p1, c) && #[trigger] index_edge(m, p2, c) ==> p1 == p2
}

/// A nonempty sequence of pids each linked to the next by an index edge.
pub open spec fn is_edge_path(m: Map<u32, Vec<u32>>, path: Seq<u32>) -> bool {
    path.len() >= 1 && forall |k: int|
        0 <= k < path.len() - 1 ==> index_edge(m, #[trigger] path[k], path[k + 1])
}

/// `b` is reachable from `a` along index edges (reflexively).
pub open spec fn reaches(m: Map<u32, Vec<u32>>, a: u32, b: u32) -> bool {
    exists |path: Seq<u32>|
        #[trigger] is_edge_path(m, path) && path.first() == a && path.last() == b
}

/// No strict descendant of `root` lists `root` as its child: the tree below
/// `root` does not loop back to it. Real snapshots satisfy this, since a
/// process cannot be its own descendant.
pub open spec fn no_cycle_through_root(m: Map<u32, Vec<u32>>, root: u32) -> bool {
    forall |p: u32| #[trigger] reaches(m, root, p) ==> !index_edge(m, p, root)
}

/// Every element after the first was discovered from some earlier element.
pub open spec fn bfs_justified(m: Map<u32, Vec<u32>>, order: Seq<u32>) -> bool {
    forall |j: int|
        1 <= j < order.len() ==> exists |i: int|
            0 <= i < j && index_edge(m, order[i], #[trigger] order[j])
}

/// For every index edge between two plan members, the parent stands strictly
/// later than the child once the plan is executed back to front; stated over
/// the discovery order, the parent's position is strictly smaller.
pub open spec fn child_after_parent(m: Map<u32, Vec<u32>>, plan: Seq<u32>) -> bool {
    forall |i: int, j: int|
        0 <= i < plan.len() && 0 <= j < plan.len() && index_edge(
            m,
            #[trigger] plan[i],
            #[trigger] plan[j],
        ) ==> i < j
}

/// A sequence of pids closed under the edge relation: children of members are
/// members.
pub open spec fn edge_closed(m: Map<u32, Vec<u32>>, q: Seq<u32>) -> bool {
    forall |i: int, c: u32|
        0 <= i < q.len() && #[trigger] index_edge(m, q[i], c) ==> q.contains(c)
}

/// A nonempty sequence of pids each linked to the next by a snapshot edge.
pub open spec fn is_snapshot_path(
    records: Seq<ProcessInfo>,
    filter: ChildProcessIdMapFilter,
    path: Seq<u32>,
) -> bool {
    path.len() >= 1 && forall |k: int|
        0 <= k < path.len() - 1 ==> snapshot_edge(records, filter, #[trigger] path[k], path[k + 1])
}

/// `b` is reachable from `a` along the parent-child edges the snapshot
/// describes (reflexively).
pub open spec fn snapshot_reaches(
    records: Seq<ProcessInfo>,
    filter: ChildProcessIdMapFilter,
    a: u32,
    b: u32,
) -> bool {
    exists |path: Seq<u32>|
        #[trigger] is_snapshot_path(records, filter, path) && path.first() == a && path.last() == b
}

/// An index whose edges are exactly the snapshot's edges reaches exactly what
/// the snapshot reaches.
pub proof fn lemma_reaches_iff_snapshot(
    m: Map<u32, Vec<u32>>,
    records: Seq<ProcessInfo>,
    filter: ChildProcessIdMapFilter,
    a: u32,
    b: u32,
)
    requires
        forall |p: u32, c: u32|
            #[trigger] index_edge(m, p, c) <==> snapshot_edge(records, filter, p, c),
    ensures
        reaches(m, a, b) <==> snapshot_reaches(records, filter, a, b),
{
    if reaches(m, a, b) {
        let path = choose |path: Seq<u32>|
            #[trigger] is_edge_path(m, path) && path.first() == a && path.last() == b;
        assert(is_snapshot_path(records, filter, path)) by {
            assert forall |k: int| 0 <= k < path.len() - 1 implies snapshot_edge(
                records,
                filter,
                #[trigger] path[k],
                path[k + 1],
            ) by {
                assert(index_edge(m, path[k], path[k + 1]));
            }
        }
    }
    if snapshot_reaches(records, filter, a, b) {
        let path = choose |path: Seq<u32>|
            #[trigger] is_snapshot_path(records, filter, path) && path.first() == a && path.last()
                == b;
        assert(is_edge_path(m, path)) by {
            assert forall |k: int| 0 <= k < path.len() - 1 implies index_edge(
                m,
                #[trigger] path[k],
                path[k + 1],
            ) by {
                assert(snapshot_edge(records, filter, path[k], path[k + 1]));
            }
        }
    }
}

/// No strict descendant of `root` lists `root` as its child, stated over the
/// snapshot's own edges.
pub open spec fn snapshot_no_cycle_through_root(
    records: Seq<ProcessInfo>,
    filter: ChildProcessIdMapFilter,
    root: u32,
) -> bool {
    forall |p: u32|
        #[trigger] snapshot_reaches(records, filter, root, p) ==> !snapshot_edge(
            records,
            filter,
            p,
            root,
        )
}

/// In a well-formed snapshot every pid occurs once, so every child has at
/// most one parent in an index whose edges are exactly the snapshot's edges.
pub proof fn lemma_wf_snapshot_parent_unique(
    m: Map<u32, Vec<u32>>,
    records: Seq<ProcessInfo>,
    filter: ChildProcessIdMapFilter,
)
    requires
        wf_snapshot(records),
        forall |p: u32, c: u32|
            #[trigger] index_edge(m, p, c) <==> snapshot_edge(records, filter, p, c),
    ensures
        parent_unique(m),
{
    assert forall |p1: u32, p2: u32, c: u32|
        #[trigger] index_edge(m, p1, c) && #[trigger] index_edge(m, p2, c) implies p1 == p2 by {
        assert(snapshot_edge(records, filter, p1, c));
        assert(snapshot_edge(records, filter, p2, c));
        let i1 = choose |i: int|
            0 <= i < records.len() && (#[trigger] records[i]).parent_process_id == p1
                && records[i].process_id == c && !filter.excludes_spec(records[i]);
        let i2 = choose |i: int|
            0 <= i < records.len() && (#[trigger] records[i]).parent_process_id == p2
                && records[i].process_id == c && !filter.excludes_spec(records[i]);
        if i1 != i2 {
            assert(records[i1].process_id != records[i2].process_id);
        }
    }
}

/// An index whose edges are exactly the snapshot's edges loops back to the
/// root exactly when the snapshot does.
pub proof fn lemma_no_cycle_iff_snapshot(
    m: Map<u32, Vec<u32>>,
    records: Seq<ProcessInfo>,
    filter: ChildProcessIdMapFilter,
    root: u32,
)
    requires
        forall |p: u32, c: u32|
            #[trigger] index_edge(m, p, c) <==> snapshot_edge(records, filter, p, c),
    ensures
        no_cycle_through_root(m, root) <==> snapshot_no_cycle_through_root(records, filter, root),
{
    if no_cycle_through_root(m, root) {
        assert forall |p: u32|
            #[trigger] snapshot_reaches(records, filter, root, p) implies !snapshot_edge(
            records,
            filter,
            p,
            root,
        ) by {
            lemma_reaches_iff_snapshot(m, records, filter, root, p);
            assert(reaches(m, root, p));
        }
    }
    if snapshot_no_cycle_through_root(records, filter, root) {
        assert forall |p: u32| #[trigger] reaches(m, root, p) implies !index_edge(
            m,
            p,
            root,
        ) by {
            lemma_reaches_iff_snapshot(m, records, filter, root, p);
            assert(snapshot_reaches(records, filter, root, p));
        }
    }
}

/// When nothing is a child of `root`, nothing is reachable from `root` but
/// `root` itself.
pub proof fn lemma_no_edges_from_root(m: Map<u32, Vec<u32>>, root: u32, v: u32)
    requires
        forall |c: u32| !(#[trigger] index_edge(m, root, c)),
        reaches(m, root, v),
    ensures
        v == root,
{
    let path = choose |path: Seq<u32>|
        #[trigger] is_edge_path(m, path) && path.first() == root && path.last() == v;
    if path.len() >= 2 {
        assert(index_edge(m, path[0], path[1]));
    }
}

/// Everything reachable but the start itself has an incoming edge.
pub proof fn lemma_reachable_has_incoming(m: Map<u32, Vec<u32>>, a: u32, b: u32) -> (u: u32)
    requires
        reaches(m, a, b),
        a != b,
    ensures
        index_edge(m, u, b),
{
    let path = choose |path: Seq<u32>|
        #[trigger] is_edge_path(m, path) && path.first() == a && path.last() == b;
    assert(path.len() >= 2);
    assert(index_edge(m, path[path.len() - 2], path[path.len() - 1]));
    path[path.len() - 2]
}

/// The discovery queue after each of `children` in turn is enqueued unless
/// already present.
pub open spec fn push_new(queue: Seq<u32>, children: Seq<u32>) -> Seq<u32>
    decreases children.len(),
{
    if children.len() == 0 {
        queue
    } else {
        let next = if queue.contains(children[0]) {
            queue
        } else {
            queue.push(children[0])
        };
        push_new(next, children.drop_first())
    }
}

/// Enqueuing keeps the queue duplicate-free, preserves what is already
/// there and its order, and adds exactly the new children.
pub proof fn lemma_push_new_props(queue: Seq<u32>, children: Seq<u32>)
    requires
        queue.no_duplicates(),
    ensures
        push_new(queue, children).no_duplicates(),
        push_new(queue, children).len() >= queue.len(),
        forall |i: int| 0 <= i < queue.len() ==> push_new(queue, children)[i] == queue[i],
        forall |x: u32|
            push_new(queue, children).contains(x) <==> (queue.contains(x) || children.contains(
                x,
            )),
    decreases children.len(),
{
    if children.len() > 0 {
        let c = children[0];
        let next = if queue.contains(c) {
            queue
        } else {
            queue.push(c)
        };
        assert(next.no_duplicates()) by {
            if !queue.contains(c) {
                assert(forall |i: int| 0 <= i < queue.len() ==> #[trigger] next[i] == queue[i]);
                assert(next[next.len() - 1] == c);
            }
        }
        lemma_push_new_props(next, children.drop_first());
        assert forall |i: int| 0 <= i < queue.len() implies push_new(queue, children)[i]
            == queue[i] by {
            assert(push_new(queue, children) == push_new(next, children.drop_first()));
            assert(push_new(next, children.drop_first())[i] == next[i]);
            assert(next[i] == queue[i]);
        }
        assert forall |x: u32|
            push_new(queue, children).contains(x) <==> (queue.contains(x) || children.contains(
                x,
            )) by {
            assert(push_new(queue, children) == push_new(next, children.drop_first()));
            if children.contains(x) {
                let i = choose |i: int| 0 <= i < children.len() && children[i] == x;
                if i > 0 {
                    assert(children.drop_first()[i - 1] == x);
                }
            }
            if next.contains(x) && !queue.contains(x) {
                assert(x == c);
            }
            if children.drop_first().contains(x) {
                let i = choose |i: int|
                    0 <= i < children.drop_first().len() && children.drop_first()[i] == x;
                assert(children[i + 1] == x);
            }
            if queue.contains(x) {
                let i = choose |i: int| 0 <= i < queue.len() && queue[i] == x;
                assert(next[i] == x);
            }
            if x == c {
                if queue.contains(c) {
                } else {
                    assert(next[next.len() - 1] == c);
                }
                assert(next.contains(x));
            }
        }
    }
}

/// Enqueuing a concatenation enqueues the first part, then the second.
pub proof fn lemma_push_new_split(queue: Seq<u32>, a: Seq<u32>, b: Seq<u32>)
    ensures
        push_new(queue, a + b) == push_new(push_new(queue, a), b),
    decreases a.len(),
{
    if a.len() == 0 {
        assert(a + b =~= b);
        assert(push_new(queue, a) == queue);
    } else {
        let c = a[0];
        assert((a + b)[0] == c);
        let next = if queue.contains(c) {
            queue
        } else {
            queue.push(c)
        };
        assert((a + b).drop_first() =~= a.drop_first() + b);
        lemma_push_new_split(next, a.drop_first(), b);
    }
}

/// The discovery order grown from the queue by expanding each position in
/// turn: the children of the pid at the cursor are enqueued (skipping those
/// already seen, in the child list's order) and the cursor advances, until it
/// reaches the end of the queue.
pub open spec fn bfs_expand_from(m: Map<u32, Vec<u32>>, queue: Seq<u32>, head: int) -> Seq<u32>
    decreases 0x1_0000_0000 - head,
    when 0 <= head && queue.no_duplicates() && queue.len() <= 0x1_0000_0000
{
    if head >= queue.len() {
        queue
    } else {
        let expanded = if m.contains_key(queue[head]) {
            push_new(queue, m[queue[head]]@)
        } else {
            queue
        };
        bfs_expand_from(m, expanded, head + 1)
    }
}

/// The breadth-first discovery order of the tree under `root`: the root
/// first, then for each discovered pid in turn its children, already-seen
/// ones skipped.
pub open spec fn bfs_discovery_order(m: Map<u32, Vec<u32>>, root: u32) -> Seq<u32> {
    bfs_expand_from(m, seq![root], 0)
}

/// Reachability is reflexive.
pub proof fn lemma_reaches_refl(m: Map<u32, Vec<u32>>, a: u32)
    ensures
        reaches(m, a, a),
{
    let path: Seq<u32> = seq![a];
    assert(is_edge_path(m, path));
    assert(path.first() == a && path.last() == a);
}

/// Reachability extends along one more edge.
pub proof fn lemma_reaches_step(m: Map<u32, Vec<u32>>, a: u32, b: u32, c: u32)
    requires
        reaches(m, a, b),
        index_edge(m, b, c),
    ensures
        reaches(m, a, c),
{
    let path = choose |path: Seq<u32>|
        #[trigger] is_edge_path(m, path) && path.first() == a && path.last() == b;
    let longer = path.push(c);
    assert forall |k: int| 0 <= k < longer.len() - 1 implies index_edge(
        m,
        #[trigger] longer[k],
        longer[k + 1],
    ) by {
        if k < path.len() - 1 {
            assert(index_edge(m, path[k], path[k + 1]));
        } else {
            assert(longer[k] == path.last());
        }
    }
    assert(is_edge_path(m, longer));
    assert(longer.first() == a && longer.last() == c);
}

/// Walking an edge path from a member of an edge-closed sequence stays inside
/// the sequence.
proof fn lemma_path_stays_in_closed(m: Map<u32, Vec<u32>>, q: Seq<u32>, path: Seq<u32>)
    requires
        edge_closed(m, q),
        is_edge_path(m, path),
        q.contains(path.first()),
    ensures
        q.contains(path.last()),
    decreases path.len(),
{
    if path.len() == 1 {
    } else {
        let prefix = path.drop_last();
        assert(is_edge_path(m, prefix));
        assert(prefix.first() == path.first());
        lemma_path_stays_in_closed(m, q, prefix);
        let i = choose |i: int| 0 <= i < q.len() && q[i] == prefix.last();
        assert(index_edge(m, path[path.len() - 2], path[path.len() - 1]));
        assert(index_edge(m, q[i], path.last()));
    }
}

/// An edge-closed sequence containing `root` contains everything reachable
/// from `root`.
pub proof fn lemma_closed_contains_reachable(m: Map<u32, Vec<u32>>, q: Seq<u32>, root: u32, v: u32)
    requires
        edge_closed(m, q),
        q.contains(root),
        reaches(m, root, v),
    ensures
        q.contains(v),
{
    let path = choose |path: Seq<u32>|
        #[trigger] is_edge_path(m, path) && path.first() == root && path.last() == v;
    lemma_path_stays_in_closed(m, q, path);
}

/// In a duplicate-free, justified discovery order over an index where every
/// child has one parent and the root is on no cycle, every edge between two
/// members points forward: the child was discovered strictly after the parent.
pub proof fn lemma_bfs_child_after_parent(m: Map<u32, Vec<u32>>, root: u32, order: Seq<u32>)
    requires
        order.len() >= 1,
        order[0] == root,
        order.no_duplicates(),
        bfs_justified(m, order),
        forall |j: int| 0 <= j < order.len() ==> reaches(m, root, #[trigger] order[j]),
        parent_unique(m),
        no_cycle_through_root(m, root),
    ensures
        child_after_parent(m, order),
{
    assert forall |i: int, j: int|
        0 <= i < order.len() && 0 <= j < order.len() && index_edge(
            m,
            #[trigger] order[i],
            #[trigger] order[j],
        ) implies i < j by {
        if j == 0 {
            assert(reaches(m, root, order[i]));
            assert(!index_edge(m, order[i], root));
            assert(false);
        } else {
            let i0 = choose |i0: int| 0 <= i0 < j && index_edge(m, order[i0], order[j]);
            assert(index_edge(m, order[i0], order[j]));
            assert(order[i0] == order[i]);
            if i != i0 {
                assert(order[i] != order[i0]);
                assert(false);
            }
        }
    }
}

/// An edge-closed discovery order that starts at the root and stays within
/// the reachable set holds exactly the reachable pids.
pub proof fn lemma_order_membership(m: Map<u32, Vec<u32>>, root: u32, order: Seq<u32>)
    requires
        order.len() >= 1,
        order[0] == root,
        edge_closed(m, order),
        forall |j: int| 0 <= j < order.len() ==> reaches(m, root, #[trigger] order[j]),
    ensures
        forall |v: u32| #[trigger] order.contains(v) <==> reaches(m, root, v),
{
    assert(order.contains(root)) by {
        assert(order[0] == root);
    }
    assert forall |v: u32| #[trigger] order.contains(v) <==> reaches(m, root, v) by {
        if order.contains(v) {
            let j = choose |j: int| 0 <= j < order.len() && order[j] == v;
            assert(reaches(m, root, order[j]));
        }
        if reaches(m, root, v) {
            lemma_closed_contains_reachable(m, order, root, v);
        }
    }
}

/// Dropping the root from the front of a discovery order leaves a
/// duplicate-free plan of exactly the other reachable pids, still ordered
/// parents first.
pub proof fn lemma_plan_without_root(m: Map<u32, Vec<u32>>, root: u32, order: Seq<u32>)
    requires
        order.len() >= 1,
        order[0] == root,
        order.no_duplicates(),
        forall |v: u32| #[trigger] order.contains(v) <==> reaches(m, root, v),
        parent_unique(m) && no_cycle_through_root(m, root) ==> child_after_parent(m, order),
    ensures
        order.drop_first().no_duplicates(),
        forall |v: u32|
            #[trigger] order.drop_first().contains(v) <==> (reaches(m, root, v) && v != root),
        parent_unique(m) && no_cycle_through_root(m, root) ==> child_after_parent(
            m,
            order.drop_first(),
        ),
{
    let plan = order.drop_first();
    assert(plan.no_duplicates()) by {
        assert(forall |j: int| 0 <= j < plan.len() ==> #[trigger] plan[j] == order[j + 1]);
    }
    assert forall |v: u32| #[trigger] plan.contains(v) <==> (reaches(m, root, v) && v
        != root) by {
        if plan.contains(v) {
            let j = choose |j: int| 0 <= j < plan.len() && plan[j] == v;
            assert(order[j + 1] == v);
            assert(order.contains(v)) by {
                assert(order[j + 1] == v);
            }
            assert(v != order[0]);
        }
        if reaches(m, root, v) && v != root {
            assert(order.contains(v));
            let j = choose |j: int| 0 <= j < order.len() && order[j] == v;
            assert(j != 0);
            assert(plan[j - 1] == v);
            assert(plan.contains(v));
        }
    }
    if parent_unique(m) && no_cycle_through_root(m, root) {
        assert forall |a: int, b: int|
            0 <= a < plan.len() && 0 <= b < plan.len() && index_edge(
                m,
                #[trigger] plan[a],
                #[trigger] plan[b],
            ) implies a < b by {
            assert(plan[a] == order[a + 1] && plan[b] == order[b + 1]);
            assert(index_edge(m, order[a + 1], order[b + 1]));
        }
    }
}

/// A duplicate-free sequence of `u32` values cannot be longer than the number
/// of distinct `u32` values.
pub proof fn lemma_u32_seq_len_bound(s: Seq<u32>)
    requires
        s.no_duplicates(),
    ensures
        s.len() <= 0x1_0000_0000,
{
    let t = s.map_values(|x: u32| x as int);
    assert(t.no_duplicates()) by {
        assert forall |i: int, j: int|
            0 <= i < t.len() && 0 <= j < t.len() && i != j implies t[i] != t[j] by {
            assert(s[i] != s[j]);
        }
    }
    t.unique_seq_to_set();
    seq_to_set_is_finite(t);
    let r = set_int_range(0, 0x1_0000_0000);
    lemma_int_range(0, 0x1_0000_0000);
    assert(t.to_set().subset_of(r)) by {
        assert forall |x: int| t.to_set().contains(x) implies r.contains(x) by {
            let i = choose |i: int| 0 <= i < t.len() && t[i] == x;
            assert(0 <= s[i] < 0x1_0000_0000);
        }
    }
    vstd::set_lib::lemma_len_subset(t.to_set(), r);
}

} // verus!

//! What it means for one search tree to be the pruned copy of another.
//!
//! A pruned copy holds the root and, under every node it holds, those
//! children of the old tree that have been visited often enough, in their
//! old order. A child that is left out takes its whole subtree with it.
use crate::binary32::score_below;
use crate::instructions::{Instruction, Program};
use crate::tree::{
    depths_wf, greatest_at, lemma_path_len, linked_down, linked_up, listed, node_scored, path,
    scores_wf, siblings_differ, tree_wf, visits_bounded, visits_wf, vocabulary_respected,
    within_bound, NodeView,
};
use vstd::prelude::*;

verus! {

/// Those of the children that have been visited at least `k` times, in
/// their old order.
pub open spec fn retained(nodes: Seq<NodeView>, children: Seq<nat>, k: u64) -> Seq<nat>
    decreases children.len(),
{
    if children.len() == 0 {
        Seq::empty()
    } else {
        let front = retained(nodes, children.drop_last(), k);
        if nodes[children.last() as int].visits >= k {
            front.push(children.last())
        } else {
            front
        }
    }
}

/// Every retained child is one of the children and has been visited often
/// enough.
pub(crate) proof fn lemma_retained_member(nodes: Seq<NodeView>, children: Seq<nat>, k: u64, i: int)
    requires
        0 <= i < retained(nodes, children, k).len(),
    ensures
        nodes[retained(nodes, children, k)[i] as int].visits >= k,
        exists|a: int| 0 <= a < children.len() && #[trigger] children[a] == retained(nodes, children, k)[i],
    decreases children.len(),
{
    if children.len() > 0 {
        let front = retained(nodes, children.drop_last(), k);
        if i < front.len() {
            lemma_retained_member(nodes, children.drop_last(), k, i);
            let a = choose|a: int|
                0 <= a < children.drop_last().len() && #[trigger] children.drop_last()[a]
                    == front[i];
            assert(children[a] == front[i]);
        } else {
            assert(children[children.len() - 1] == retained(nodes, children, k)[i]);
        }
    }
}

/// The retained children stand in the order of the children.
pub(crate) proof fn lemma_retained_order(
    nodes: Seq<NodeView>,
    children: Seq<nat>,
    k: u64,
    i: int,
    j: int,
)
    requires
        0 <= i < j < retained(nodes, children, k).len(),
    ensures
        exists|a: int, b: int|
            0 <= a < b < children.len() && #[trigger] children[a] == retained(
                nodes,
                children,
                k,
            )[i] && #[trigger] children[b] == retained(nodes, children, k)[j],
    decreases children.len(),
{
    if children.len() > 0 {
        let short = children.drop_last();
        let front = retained(nodes, short, k);
        if j < front.len() {
            lemma_retained_order(nodes, short, k, i, j);
            let (a, b) = choose|a: int, b: int|
                0 <= a < b < short.len() && #[trigger] short[a] == front[i] && #[trigger] short[b]
                    == front[j];
            assert(children[a] == front[i] && children[b] == front[j]);
        } else {
            lemma_retained_member(nodes, short, k, i);
            let a = choose|a: int| 0 <= a < short.len() && #[trigger] short[a] == front[i];
            let b = children.len() - 1;
            assert(children[a] == front[i]);
            assert(children[b] == retained(nodes, children, k)[j]);
        }
    }
}

/// Every child that has been visited often enough is retained.
pub(crate) proof fn lemma_retained_has(nodes: Seq<NodeView>, children: Seq<nat>, k: u64, a: int)
    requires
        0 <= a < children.len(),
        nodes[children[a] as int].visits >= k,
    ensures
        exists|i: int|
            0 <= i < retained(nodes, children, k).len() && #[trigger] retained(
                nodes,
                children,
                k,
            )[i] == children[a],
    decreases children.len(),
{
    let short = children.drop_last();
    let front = retained(nodes, short, k);
    if a < short.len() {
        lemma_retained_has(nodes, short, k, a);
        let i = choose|i: int| 0 <= i < front.len() && #[trigger] front[i] == short[a];
        assert(retained(nodes, children, k)[i] == children[a]);
    } else {
        assert(retained(nodes, children, k)[front.len() as int] == children[a]);
    }
}

/// The nodes that survive under node `n`, in the order in which a copy
/// takes them: a node before its retained children, and the retained
/// children in their order, each followed by what survives under it.
pub open spec fn copy_order(nodes: Seq<NodeView>, n: nat, k: u64) -> Seq<nat>
    decreases nodes.len() - n, 1nat, 0nat,
{
    if n >= nodes.len() {
        Seq::empty()
    } else {
        seq![n] + copy_order_below(
            nodes,
            n,
            k,
            retained(nodes, nodes[n as int].children, k).len(),
        )
    }
}

/// The part of [`copy_order`] that covers the first `upto` retained
/// children of node `n`.
pub open spec fn copy_order_below(nodes: Seq<NodeView>, n: nat, k: u64, upto: nat) -> Seq<nat>
    decreases nodes.len() - n, 0nat, upto,
{
    if n >= nodes.len() || upto == 0 || upto > retained(
        nodes,
        nodes[n as int].children,
        k,
    ).len() {
        Seq::empty()
    } else {
        let c = retained(nodes, nodes[n as int].children, k)[upto - 1];
        let below = if n < c < nodes.len() {
            copy_order(nodes, c, k)
        } else {
            Seq::empty()
        };
        copy_order_below(nodes, n, k, (upto - 1) as nat) + below
    }
}

/// The `i`-th child of the copy `j` stands for the `i`-th retained child of
/// the node that `j` stands for, and names `j` as its parent.
pub open spec fn child_copied(
    before: Seq<NodeView>,
    after: Seq<NodeView>,
    source: Seq<nat>,
    k: u64,
    j: int,
    i: int,
) -> bool {
    let c = after[j].children[i];
    &&& j < c < after.len()
    &&& after[c as int].parent == Some(j as nat)
    &&& source[c as int] == retained(before, before[source[j] as int].children, k)[i]
}

/// The copy `j` holds what the node it stands for held, and has one child
/// for each retained child of that node.
pub open spec fn copied_node(
    before: Seq<NodeView>,
    after: Seq<NodeView>,
    source: Seq<nat>,
    k: u64,
    j: int,
) -> bool {
    let from = before[source[j] as int];
    &&& source[j] < before.len()
    &&& after[j].instruction == from.instruction
    &&& after[j].self_score == from.self_score
    &&& after[j].child_score == from.child_score
    &&& after[j].done == from.done
    &&& after[j].visits == from.visits
    &&& after[j].children.len() == retained(before, from.children, k).len()
    &&& forall|i: int|
        0 <= i < after[j].children.len() ==> #[trigger] child_copied(before, after, source, k, j, i)
}

/// The copy `j` hangs under the copy of its source's parent, and its
/// source has been visited often enough.
pub open spec fn parent_copied(
    before: Seq<NodeView>,
    after: Seq<NodeView>,
    source: Seq<nat>,
    k: u64,
    j: int,
) -> bool {
    &&& after[j].parent matches Some(q) && q < j && before[source[j] as int].parent == Some(
        source[q as int],
    )
    &&& 0 < source[j] < before.len()
    &&& before[source[j] as int].visits >= k
}

/// Whether `after` is a pruned copy of `before`, in which the node at
/// position `j` stands for the node that was at position `source[j]`.
pub open spec fn pruned_copy(
    before: Seq<NodeView>,
    after: Seq<NodeView>,
    source: Seq<nat>,
    k: u64,
) -> bool {
    &&& after.len() >= 1
    &&& source.len() == after.len()
    &&& source[0] == 0
    &&& after[0].parent is None
    &&& forall|j: int| 0 <= j < after.len() ==> #[trigger] copied_node(before, after, source, k, j)
    &&& forall|j: int| 0 < j < after.len() ==> #[trigger] parent_copied(before, after, source, k, j)
    &&& forall|j: int| 0 < j < after.len() ==> #[trigger] listed(after, j)
}

/// A node survives the pruning if it is the root or has been visited often
/// enough. (No node has been visited more often than its parent, so the
/// nodes above a survivor survive too.)
pub open spec fn survives(before: Seq<NodeView>, n: nat, k: u64) -> bool {
    n == 0 || before[n as int].visits >= k
}

/// A pruned copy of a well-formed tree is well formed.
pub proof fn lemma_copy_wf<E: Fn(&Program) -> Option<u32>>(
    before: Seq<NodeView>,
    after: Seq<NodeView>,
    source: Seq<nat>,
    k: u64,
    vocabulary: Seq<Instruction>,
    oracle: E,
)
    requires
        tree_wf(before),
        vocabulary_respected(before, vocabulary),
        visits_wf(before),
        scores_wf(before, oracle),
        pruned_copy(before, after, source, k),
    ensures
        tree_wf(after),
        vocabulary_respected(after, vocabulary),
        visits_wf(after),
        scores_wf(after, oracle),
{
    assert(copied_node(before, after, source, k, 0));
    assert forall|n: int| 0 < n < after.len() implies #[trigger] linked_up(after, n) by {
        assert(parent_copied(before, after, source, k, n));
    }
    assert forall|n: int, i: int|
        0 <= n < after.len() && 0 <= i < after[n].children.len() implies #[trigger] linked_down(
        after,
        n,
        i,
    ) by {
        assert(copied_node(before, after, source, k, n));
        assert(child_copied(before, after, source, k, n, i));
    }
    assert forall|n: int| 0 < n < after.len() implies vocabulary.contains(
        #[trigger] after[n].instruction,
    ) by {
        assert(copied_node(before, after, source, k, n));
        assert(parent_copied(before, after, source, k, n));
        assert(vocabulary.contains(before[source[n] as int].instruction));
    }
    assert forall|n: int, i: int, j: int|
        0 <= n < after.len() && 0 <= i < j < after[n].children.len() implies #[trigger] siblings_differ(
        after,
        n,
        i,
        j,
    ) by {
        assert(copied_node(before, after, source, k, n));
        assert(child_copied(before, after, source, k, n, i));
        assert(child_copied(before, after, source, k, n, j));
        let from = source[n] as int;
        lemma_retained_order(before, before[from].children, k, i, j);
        let kept = retained(before, before[from].children, k);
        let (a, b) = choose|a: int, b: int|
            0 <= a < b < before[from].children.len() && #[trigger] before[from].children[a]
                == kept[i] && #[trigger] before[from].children[b] == kept[j];
        assert(siblings_differ(before, from, a, b));
        assert(copied_node(before, after, source, k, after[n].children[i] as int));
        assert(copied_node(before, after, source, k, after[n].children[j] as int));
    }
    assert forall|n: int| 0 < n < after.len() implies #[trigger] visits_bounded(after, n) by {
        assert(parent_copied(before, after, source, k, n));
        assert(copied_node(before, after, source, k, n));
        let q = after[n].parent.unwrap() as int;
        assert(copied_node(before, after, source, k, q));
        assert(visits_bounded(before, source[n] as int));
    }
    assert forall|n: int| 0 < n < after.len() implies #[trigger] node_scored(after, oracle, n) by {
        lemma_copy_path(before, after, source, k, n);
        assert(copied_node(before, after, source, k, n));
        assert(parent_copied(before, after, source, k, n));
        assert(node_scored(before, oracle, source[n] as int));
    }
}

/// A copy stands for the same program as its source.
pub proof fn lemma_copy_path(
    before: Seq<NodeView>,
    after: Seq<NodeView>,
    source: Seq<nat>,
    k: u64,
    j: int,
)
    requires
        tree_wf(before),
        pruned_copy(before, after, source, k),
        0 <= j < after.len(),
    ensures
        path(after, j as nat) == path(before, source[j]),
    decreases j,
{
    if j > 0 {
        assert(parent_copied(before, after, source, k, j));
        assert(copied_node(before, after, source, k, j));
        let q = after[j].parent.unwrap() as int;
        lemma_copy_path(before, after, source, k, q);
        assert(linked_up(before, source[j] as int));
    }
}

/// Every node of the old tree that survives has a copy.
pub proof fn lemma_survivor_copied(
    before: Seq<NodeView>,
    after: Seq<NodeView>,
    source: Seq<nat>,
    k: u64,
    n: int,
)
    requires
        tree_wf(before),
        visits_wf(before),
        pruned_copy(before, after, source, k),
        0 <= n < before.len(),
        survives(before, n as nat, k),
    ensures
        exists|j: int| 0 <= j < after.len() && #[trigger] source[j] == n,
    decreases n,
{
    if n == 0 {
        assert(source[0] == 0);
    } else {
        assert(linked_up(before, n));
        assert(listed(before, n));
        assert(visits_bounded(before, n));
        let p = before[n].parent.unwrap() as int;
        lemma_survivor_copied(before, after, source, k, p);
        let jp = choose|j: int| 0 <= j < after.len() && #[trigger] source[j] == p;
        let a = choose|a: int| 0 <= a < before[p].children.len() && before[p].children[a] == n as nat;
        lemma_retained_has(before, before[p].children, k, a);
        let kept = retained(before, before[p].children, k);
        let i = choose|i: int| 0 <= i < kept.len() && #[trigger] kept[i] == before[p].children[a];
        assert(copied_node(before, after, source, k, jp));
        assert(child_copied(before, after, source, k, jp, i));
        let c = after[jp].children[i] as int;
        assert(source[c] == n);
    }
}

/// Every node of a pruned copy but the root has been visited often enough.
pub proof fn lemma_copy_visited(
    before: Seq<NodeView>,
    after: Seq<NodeView>,
    source: Seq<nat>,
    k: u64,
    j: int,
)
    requires
        pruned_copy(before, after, source, k),
        0 < j < after.len(),
    ensures
        after[j].visits >= k,
{
    assert(parent_copied(before, after, source, k, j));
    assert(copied_node(before, after, source, k, j));
}

/// The copy `j`, made while the copy `floor` was being filled, hangs under
/// `floor` or a later copy, and its parent lists it: among the first `limit`
/// children where the parent is `floor`, anywhere else.
pub open spec fn hooked(after: Seq<NodeView>, j: int, floor: int, limit: int) -> bool {
    after[j].parent matches Some(q) && floor <= q < j && exists|i: int|
        0 <= i < (if q == floor {
            limit
        } else {
            after[q as int].children.len() as int
        }) && #[trigger] after[q as int].children[i] == j as nat
}

/// The state of a copy in the making: the copy at `floor` holds the fields
/// of its source, its first `converted` children are copies, the rest of
/// its children still name nodes of the old tree, and everything made after
/// `floor` is complete.
pub open spec fn copying(
    before: Seq<NodeView>,
    after: Seq<NodeView>,
    source: Seq<nat>,
    k: u64,
    floor: int,
    converted: int,
) -> bool {
    let from = before[source[floor] as int];
    let kept = retained(before, from.children, k);
    &&& 0 <= floor < after.len() == source.len()
    &&& source[floor] < before.len()
    &&& after[floor].instruction == from.instruction
    &&& after[floor].self_score == from.self_score
    &&& after[floor].child_score == from.child_score
    &&& after[floor].done == from.done
    &&& after[floor].visits == from.visits
    &&& after[floor].children.len() == kept.len()
    &&& 0 <= converted <= kept.len()
    &&& forall|i: int|
        0 <= i < converted ==> #[trigger] child_copied(before, after, source, k, floor, i)
    &&& forall|i: int| converted <= i < kept.len() ==> #[trigger] after[floor].children[i] == kept[i]
    &&& forall|j: int|
        floor < j < after.len() ==> #[trigger] copied_node(before, after, source, k, j)
    &&& forall|j: int|
        floor < j < after.len() ==> #[trigger] parent_copied(before, after, source, k, j)
    &&& forall|j: int| floor < j < after.len() ==> #[trigger] hooked(after, j, floor, converted)
}

/// What the copy of one subtree adds to a copy in the making: the nodes
/// made earlier are untouched, and the new ones, from position
/// `earlier.len()` on, are complete.
pub open spec fn subtree_copied(
    before: Seq<NodeView>,
    earlier: Seq<NodeView>,
    earlier_source: Seq<nat>,
    after: Seq<NodeView>,
    source: Seq<nat>,
    k: u64,
) -> bool {
    let floor = earlier.len() as int;
    &&& after.len() > earlier.len()
    &&& earlier_source.len() == earlier.len()
    &&& forall|j: int| 0 <= j < earlier.len() ==> #[trigger] after[j] == earlier[j]
    &&& forall|j: int| 0 <= j < earlier.len() ==> #[trigger] source[j] == earlier_source[j]
    &&& copying(before, after, source, k, floor, after[floor].children.len() as int)
}

/// Once the copy of a child's subtree is in place and the child is written
/// into its parent's list, the copy in the making has one more converted
/// child.
pub(crate) proof fn lemma_child_converted(
    before: Seq<NodeView>,
    m: Seq<NodeView>,
    src: Seq<nat>,
    m2: Seq<NodeView>,
    src2: Seq<nat>,
    m3: Seq<NodeView>,
    k: u64,
    floor: int,
    i: int,
)
    requires
        tree_wf(before),
        copying(before, m, src, k, floor, i),
        i < m[floor].children.len(),
        subtree_copied(before, m, src, m2, src2, k),
        src2[m.len() as int] == m[floor].children[i],
        m2[m.len() as int].parent == Some(floor as nat),
        m3.len() == m2.len(),
        forall|j: int| 0 <= j < m2.len() && j != floor ==> #[trigger] m3[j] == m2[j],
        m3[floor] == (NodeView {
            children: m2[floor].children.update(i, m.len()),
            ..m2[floor]
        }),
    ensures
        copying(before, m3, src2, k, floor, i + 1),
{
    let fresh = m.len() as int;
    let from = before[src[floor] as int];
    let kept = retained(before, from.children, k);
    assert(m2[floor] == m[floor]);
    assert(src2[floor] == src[floor]);
    lemma_retained_member(before, from.children, k, i);
    let a = choose|a: int| 0 <= a < from.children.len() && #[trigger] from.children[a] == kept[i];
    assert(linked_down(before, src[floor] as int, a));
    assert(m[floor].children[i] == kept[i]);
    assert forall|j: int| fresh <= j < m2.len() implies #[trigger] copied_node(
        before,
        m2,
        src2,
        k,
        j,
    ) by {
        if j == fresh {
            assert forall|c: int| 0 <= c < m2[fresh].children.len() implies #[trigger] child_copied(
                before,
                m2,
                src2,
                k,
                fresh,
                c,
            ) by {}
        }
    }
    assert forall|x: int| 0 <= x < i + 1 implies #[trigger] child_copied(
        before,
        m3,
        src2,
        k,
        floor,
        x,
    ) by {
        if x < i {
            assert(child_copied(before, m, src, k, floor, x));
            let c = m[floor].children[x] as int;
            assert(m2[c] == m[c]);
            assert(src2[c] == src[c]);
        }
    }
    assert forall|x: int| i + 1 <= x < kept.len() implies #[trigger] m3[floor].children[x]
        == kept[x] by {
        assert(m[floor].children[x] == kept[x]);
    }
    assert forall|j: int| floor < j < m3.len() implies #[trigger] copied_node(
        before,
        m3,
        src2,
        k,
        j,
    ) by {
        if j < fresh {
            assert(copied_node(before, m, src, k, j));
            assert(m2[j] == m[j]);
            assert(src2[j] == src[j]);
            assert forall|x: int| 0 <= x < m3[j].children.len() implies #[trigger] child_copied(
                before,
                m3,
                src2,
                k,
                j,
                x,
            ) by {
                assert(child_copied(before, m, src, k, j, x));
                let c = m[j].children[x] as int;
                assert(m2[c] == m[c]);
                assert(src2[c] == src[c]);
            }
        } else {
            assert(copied_node(before, m2, src2, k, j));
            assert forall|x: int| 0 <= x < m3[j].children.len() implies #[trigger] child_copied(
                before,
                m3,
                src2,
                k,
                j,
                x,
            ) by {
                assert(child_copied(before, m2, src2, k, j, x));
            }
        }
    }
    assert forall|j: int| floor < j < m3.len() implies #[trigger] parent_copied(
        before,
        m3,
        src2,
        k,
        j,
    ) by {
        if j < fresh {
            assert(parent_copied(before, m, src, k, j));
            assert(m2[j] == m[j]);
            assert(src2[j] == src[j]);
            let q = m[j].parent.unwrap() as int;
            assert(src2[q] == src[q]);
        } else if j == fresh {
        } else {
            assert(parent_copied(before, m2, src2, k, j));
        }
    }
    assert forall|j: int| floor < j < m3.len() implies #[trigger] hooked(m3, j, floor, i + 1) by {
        if j < fresh {
            assert(hooked(m, j, floor, i));
            assert(m2[j] == m[j]);
            let q = m[j].parent.unwrap() as int;
            let w = choose|w: int|
                0 <= w < (if q == floor {
                    i
                } else {
                    m[q].children.len() as int
                }) && #[trigger] m[q].children[w] == j as nat;
            assert(m2[q] == m[q]);
            assert(m3[q].children[w] == j as nat);
        } else if j == fresh {
            assert(m3[floor].children[i] == j as nat);
        } else {
            assert(hooked(m2, j, fresh, m2[fresh].children.len() as int));
            let q = m2[j].parent.unwrap() as int;
            let w = choose|w: int|
                0 <= w < (if q == fresh {
                    m2[fresh].children.len() as int
                } else {
                    m2[q].children.len() as int
                }) && #[trigger] m2[q].children[w] == j as nat;
            assert(m3[q].children[w] == j as nat);
        }
    }
}

/// A copy whose root is complete is a pruned copy.
pub(crate) proof fn lemma_copy_complete(
    before: Seq<NodeView>,
    after: Seq<NodeView>,
    source: Seq<nat>,
    k: u64,
)
    requires
        copying(before, after, source, k, 0, after[0].children.len() as int),
        source[0] == 0,
        after[0].parent is None,
    ensures
        pruned_copy(before, after, source, k),
{
    assert forall|j: int| 0 <= j < after.len() implies #[trigger] copied_node(
        before,
        after,
        source,
        k,
        j,
    ) by {}
    assert forall|j: int| 0 < j < after.len() implies #[trigger] listed(after, j) by {
        assert(hooked(after, j, 0, after[0].children.len() as int));
    }
}

/// Whether every node of the old tree that survives has a copy.
pub open spec fn complete_copy(
    before: Seq<NodeView>,
    after: Seq<NodeView>,
    source: Seq<nat>,
    k: u64,
) -> bool {
    forall|n: int|
        0 <= n < before.len() && #[trigger] survives(before, n as nat, k) ==> exists|j: int|
            0 <= j < after.len() && #[trigger] source[j] == n
}

/// A pruned copy of a well-formed tree holds a copy of every survivor.
pub proof fn lemma_copy_is_complete(
    before: Seq<NodeView>,
    after: Seq<NodeView>,
    source: Seq<nat>,
    k: u64,
)
    requires
        tree_wf(before),
        visits_wf(before),
        pruned_copy(before, after, source, k),
    ensures
        complete_copy(before, after, source, k),
{
    assert forall|n: int|
        0 <= n < before.len() && #[trigger] survives(before, n as nat, k) implies exists|j: int|
        0 <= j < after.len() && #[trigger] source[j] == n by {
        lemma_survivor_copied(before, after, source, k, n);
    }
}

/// A copy lies as deep as its source, so that a pruned copy stays within
/// the bound that the old tree kept.
pub proof fn lemma_copy_depths(
    before: Seq<NodeView>,
    after: Seq<NodeView>,
    source: Seq<nat>,
    k: u64,
    bound: nat,
)
    requires
        tree_wf(before),
        depths_wf(before, bound),
        pruned_copy(before, after, source, k),
    ensures
        depths_wf(after, bound),
{
    assert forall|j: int| 0 <= j < after.len() implies #[trigger] within_bound(after, bound, j) by {
        lemma_copy_path(before, after, source, k, j);
        lemma_path_len(after, j as nat);
        lemma_path_len(before, source[j]);
        assert(copied_node(before, after, source, k, j));
        assert(within_bound(before, bound, source[j] as int));
    }
}

/// Where no node scored above the best node and the best node has a copy,
/// no copy scores above that copy.
pub proof fn lemma_copy_greatest(
    before: Seq<NodeView>,
    after: Seq<NodeView>,
    source: Seq<nat>,
    k: u64,
    best: nat,
    new_best: nat,
)
    requires
        pruned_copy(before, after, source, k),
        greatest_at(before, best),
        new_best < after.len(),
        source[new_best as int] == best,
    ensures
        greatest_at(after, new_best),
{
    assert(copied_node(before, after, source, k, new_best as int));
    assert forall|n: int| 0 <= n < after.len() implies !score_below(
        after[new_best as int].self_score,
        (#[trigger] after[n]).self_score,
    ) by {
        assert(copied_node(before, after, source, k, n));
        assert(!score_below(before[best as int].self_score, before[source[n] as int].self_score));
    }
}

} // verus!

//! Where a search tree can still grow.
//!
//! A search goes down from the root and grows one leaf at the first place
//! that takes one. Which place that is depends on the draws; whether there
//! is one does not, as long as every node with fewer children than the
//! vocabulary has instructions has a free entry left.
use crate::instructions::Instruction;
use crate::tree::{
    carried, depth, linked_down, on_chain, siblings_differ, tree_wf, vocabulary_respected,
    NodeView,
};
use vstd::prelude::*;

verus! {

/// Whether the vocabulary has an entry that no child of node `n` carries.
pub open spec fn free_entry(nodes: Seq<NodeView>, n: int, vocabulary: Seq<Instruction>) -> bool {
    exists|k: int| 0 <= k < vocabulary.len() && !carried(nodes, n, #[trigger] vocabulary[k])
}

/// Whether a search that comes to node `n` at depth `d` goes on there: the
/// depth is below the bound, the node is not done, it is not a node of the
/// last level with a child for every entry of the vocabulary, and it is the
/// root or has a score.
pub open spec fn open_node(
    nodes: Seq<NodeView>,
    vocabulary: Seq<Instruction>,
    bound: nat,
    n: nat,
    d: nat,
) -> bool {
    &&& n < nodes.len()
    &&& d < bound
    &&& !nodes[n as int].done
    &&& !(d + 1 == bound && nodes[n as int].children.len() == vocabulary.len())
    &&& (n == 0 || nodes[n as int].self_score is Some)
}

/// Whether some sequence of draws lets a search that comes to node `n` at
/// depth `d` grow a leaf at or below it.
pub open spec fn can_grow(
    nodes: Seq<NodeView>,
    vocabulary: Seq<Instruction>,
    bound: nat,
    n: nat,
    d: nat,
) -> bool
    decreases nodes.len() - n,
{
    open_node(nodes, vocabulary, bound, n, d) && (free_entry(nodes, n as int, vocabulary)
        || exists|i: int|
        0 <= i < nodes[n as int].children.len() && n < (#[trigger] nodes[n as int].children[i])
            < nodes.len() && can_grow(nodes, vocabulary, bound, nodes[n as int].children[i], d + 1))
}

/// Whether every sequence of draws lets a search that comes to node `n` at
/// depth `d` grow a leaf at or below it. A node with fewer children than
/// the vocabulary has entries may be asked for a new child before any of
/// its children is tried, so that there a free entry is needed.
pub open spec fn must_grow(
    nodes: Seq<NodeView>,
    vocabulary: Seq<Instruction>,
    bound: nat,
    n: nat,
    d: nat,
) -> bool
    decreases nodes.len() - n,
{
    open_node(nodes, vocabulary, bound, n, d) && (free_entry(nodes, n as int, vocabulary) || (
    nodes[n as int].children.len() >= vocabulary.len() && exists|i: int|
        0 <= i < nodes[n as int].children.len() && n < (#[trigger] nodes[n as int].children[i])
            < nodes.len() && must_grow(nodes, vocabulary, bound, nodes[n as int].children[i], d + 1)))
}

/// Where a search that was entered at `node`, at depth `level`, has hung
/// the new leaf, the tree's last node: under a node that was open, at or
/// below `node`. Every node on the way from `node` down to the leaf's
/// parent has been visited once more.
pub open spec fn leaf_hangs(
    before: Seq<NodeView>,
    after: Seq<NodeView>,
    vocabulary: Seq<Instruction>,
    bound: nat,
    node: nat,
    level: nat,
) -> bool {
    let p = after.last().parent.unwrap();
    &&& p < before.len()
    &&& open_node(before, vocabulary, bound, p, depth(before, p))
    &&& on_chain(before, p, node)
    &&& forall|m: int|
        0 <= m < before.len() && on_chain(before, p, m as nat) && depth(before, m as nat) >= level
            ==> (#[trigger] after[m]).visits == before[m].visits + 1
}

/// What a search does that comes to a node that is not open: it counts the
/// visit, marks the node done if it lies on the last level and has a child
/// for every entry of the vocabulary, and leaves everything else as it was.
pub open spec fn turned_back(
    before: Seq<NodeView>,
    after: Seq<NodeView>,
    vocabulary: Seq<Instruction>,
    bound: nat,
    node: nat,
    level: nat,
) -> bool {
    after == before.update(
        node as int,
        NodeView {
            visits: (before[node as int].visits + 1) as u64,
            done: before[node as int].done || (level + 1 == bound
                && before[node as int].children.len() == vocabulary.len()),
            ..before[node as int]
        },
    )
}

/// Whether the search has gone into node `c`: its visit count is up by
/// one.
pub open spec fn entered(before: Seq<NodeView>, after: Seq<NodeView>, c: nat) -> bool {
    after[c as int].visits == before[c as int].visits + 1
}

/// Whether the search has hung its new leaf at or below node `c`.
pub open spec fn leaf_under(
    before: Seq<NodeView>,
    after: Seq<NodeView>,
    grown: bool,
    c: nat,
) -> bool {
    grown && on_chain(before, after.last().parent.unwrap(), c)
}

/// Whether the search has gone into none of the children of node `at`.
pub open spec fn stayed(before: Seq<NodeView>, after: Seq<NodeView>, at: nat) -> bool {
    forall|j: int|
        0 <= j < before[at as int].children.len() ==> !entered(
            before,
            after,
            #[trigger] before[at as int].children[j],
        )
}

/// Whether the search has gone through the children of node `at` in its
/// order: the child at position `first` before all others, then the others
/// from the left, and no further once a child has taken the leaf. So the
/// first child has been entered, and another child exactly if neither the
/// first child nor a child to its left has the leaf under it.
pub open spec fn walked(
    before: Seq<NodeView>,
    after: Seq<NodeView>,
    grown: bool,
    at: nat,
    first: int,
) -> bool {
    let children = before[at as int].children;
    forall|j: int|
        0 <= j < children.len() ==> (entered(before, after, #[trigger] children[j]) <==> forall|
            k: int,
        |
            0 <= k < children.len() && j != first && k != j && (k == first || k < j) ==> !leaf_under(
                before,
                after,
                grown,
                #[trigger] children[k],
            ))
}

/// What a search that grows nothing may do to node `m` as far as later
/// searches are concerned: nothing, but for marking a node of the last
/// level done that has a child for every entry of the vocabulary.
pub open spec fn prospects_kept(
    before: Seq<NodeView>,
    after: Seq<NodeView>,
    vocabulary: Seq<Instruction>,
    bound: nat,
    m: int,
) -> bool {
    &&& after[m].children == before[m].children
    &&& after[m].instruction == before[m].instruction
    &&& after[m].self_score == before[m].self_score
    &&& after[m].parent == before[m].parent
    &&& after[m].done == before[m].done || (after[m].done && depth(before, m as nat) + 1 == bound
        && before[m].children.len() == vocabulary.len())
}

/// Whether the two trees offer later searches the same places to grow.
pub open spec fn same_prospects(
    before: Seq<NodeView>,
    after: Seq<NodeView>,
    vocabulary: Seq<Instruction>,
    bound: nat,
) -> bool {
    &&& before.len() == after.len()
    &&& forall|m: int|
        0 <= m < before.len() ==> #[trigger] prospects_kept(before, after, vocabulary, bound, m)
}

/// The depth of a node depends on the parent links alone.
proof fn lemma_depth_kept(
    before: Seq<NodeView>,
    after: Seq<NodeView>,
    vocabulary: Seq<Instruction>,
    bound: nat,
    n: nat,
)
    requires
        same_prospects(before, after, vocabulary, bound),
        n < before.len(),
    ensures
        depth(after, n) == depth(before, n),
    decreases n,
{
    assert(prospects_kept(before, after, vocabulary, bound, n as int));
    if n != 0 {
        match before[n as int].parent {
            Some(p) if p < n => {
                lemma_depth_kept(before, after, vocabulary, bound, p);
            },
            _ => {},
        }
    }
}

/// Keeping the prospects twice keeps them.
pub(crate) proof fn lemma_prospects_chain(
    before: Seq<NodeView>,
    mid: Seq<NodeView>,
    after: Seq<NodeView>,
    vocabulary: Seq<Instruction>,
    bound: nat,
)
    requires
        same_prospects(before, mid, vocabulary, bound),
        same_prospects(mid, after, vocabulary, bound),
    ensures
        same_prospects(before, after, vocabulary, bound),
{
    assert forall|m: int| 0 <= m < before.len() implies #[trigger] prospects_kept(
        before,
        after,
        vocabulary,
        bound,
        m,
    ) by {
        assert(prospects_kept(before, mid, vocabulary, bound, m));
        assert(prospects_kept(mid, after, vocabulary, bound, m));
        lemma_depth_kept(before, mid, vocabulary, bound, m as nat);
    }
}

/// The children of a node carry the same instructions in both trees.
proof fn lemma_carried_kept(
    before: Seq<NodeView>,
    after: Seq<NodeView>,
    vocabulary: Seq<Instruction>,
    bound: nat,
    n: int,
    inst: Instruction,
)
    requires
        tree_wf(before),
        same_prospects(before, after, vocabulary, bound),
        0 <= n < before.len(),
    ensures
        carried(after, n, inst) == carried(before, n, inst),
{
    assert(prospects_kept(before, after, vocabulary, bound, n));
    if carried(before, n, inst) {
        let i = choose|i: int|
            0 <= i < before[n].children.len() && (
            #[trigger] before[before[n].children[i] as int]).instruction == inst;
        assert(linked_down(before, n, i));
        let c = before[n].children[i] as int;
        assert(prospects_kept(before, after, vocabulary, bound, c));
        assert(after[after[n].children[i] as int].instruction == inst);
    }
    if carried(after, n, inst) {
        let i = choose|i: int|
            0 <= i < after[n].children.len() && (#[trigger] after[after[n].children[i] as int]).instruction
                == inst;
        assert(linked_down(before, n, i));
        let c = before[n].children[i] as int;
        assert(prospects_kept(before, after, vocabulary, bound, c));
        assert(before[before[n].children[i] as int].instruction == inst);
    }
}

/// A node has a free entry in both trees or in neither.
pub(crate) proof fn lemma_free_entry_kept(
    before: Seq<NodeView>,
    after: Seq<NodeView>,
    vocabulary: Seq<Instruction>,
    bound: nat,
    n: int,
)
    requires
        tree_wf(before),
        same_prospects(before, after, vocabulary, bound),
        0 <= n < before.len(),
    ensures
        free_entry(after, n, vocabulary) == free_entry(before, n, vocabulary),
{
    assert forall|k: int| 0 <= k < vocabulary.len() implies carried(
        after,
        n,
        #[trigger] vocabulary[k],
    ) == carried(before, n, vocabulary[k]) by {
        lemma_carried_kept(before, after, vocabulary, bound, n, vocabulary[k]);
    }
}

/// Trees with the same prospects can grow, and must grow, at the same
/// nodes.
pub proof fn lemma_prospects(
    before: Seq<NodeView>,
    after: Seq<NodeView>,
    vocabulary: Seq<Instruction>,
    bound: nat,
    n: nat,
    d: nat,
)
    requires
        tree_wf(before),
        same_prospects(before, after, vocabulary, bound),
        n < before.len(),
        d == depth(before, n),
    ensures
        can_grow(after, vocabulary, bound, n, d) == can_grow(before, vocabulary, bound, n, d),
        must_grow(after, vocabulary, bound, n, d) == must_grow(before, vocabulary, bound, n, d),
    decreases before.len() - n,
{
    assert(prospects_kept(before, after, vocabulary, bound, n as int));
    lemma_free_entry_kept(before, after, vocabulary, bound, n as int);
    assert(open_node(after, vocabulary, bound, n, d) == open_node(before, vocabulary, bound, n, d));
    let children = before[n as int].children;
    assert forall|i: int| 0 <= i < children.len() implies can_grow(
        after,
        vocabulary,
        bound,
        children[i],
        d + 1,
    ) == can_grow(before, vocabulary, bound, children[i], d + 1) && must_grow(
        after,
        vocabulary,
        bound,
        children[i],
        d + 1,
    ) == must_grow(before, vocabulary, bound, children[i], d + 1) by {
        assert(linked_down(before, n as int, i));
        lemma_prospects(before, after, vocabulary, bound, children[i], d + 1);
    }
}

/// Where a search is sure to grow the tree, it can grow it.
pub proof fn lemma_must_is_can(
    nodes: Seq<NodeView>,
    vocabulary: Seq<Instruction>,
    bound: nat,
    n: nat,
    d: nat,
)
    requires
        must_grow(nodes, vocabulary, bound, n, d),
    ensures
        can_grow(nodes, vocabulary, bound, n, d),
    decreases nodes.len() - n,
{
    if !free_entry(nodes, n as int, vocabulary) {
        let i = choose|i: int|
            0 <= i < nodes[n as int].children.len() && n < (#[trigger] nodes[n as int].children[i])
                < nodes.len() && must_grow(
                nodes,
                vocabulary,
                bound,
                nodes[n as int].children[i],
                d + 1,
            );
        lemma_must_is_can(nodes, vocabulary, bound, nodes[n as int].children[i], d + 1);
    }
}

/// The instructions that the children of node `n` carry, in the order of
/// the children.
pub open spec fn carried_instructions(nodes: Seq<NodeView>, n: int) -> Seq<Instruction> {
    Seq::new(nodes[n].children.len(), |i: int| nodes[nodes[n].children[i] as int].instruction)
}

/// Under a vocabulary that names no instruction twice, a node without a
/// free entry has at least as many children as the vocabulary has entries.
pub proof fn lemma_full_without_free_entry(
    nodes: Seq<NodeView>,
    vocabulary: Seq<Instruction>,
    n: int,
)
    requires
        vocabulary.no_duplicates(),
        !free_entry(nodes, n, vocabulary),
    ensures
        nodes[n].children.len() >= vocabulary.len(),
{
    let held = carried_instructions(nodes, n);
    assert forall|x: Instruction| vocabulary.to_set().contains(x) implies held.to_set().contains(
        x,
    ) by {
        let k = choose|k: int| 0 <= k < vocabulary.len() && vocabulary[k] == x;
        assert(carried(nodes, n, vocabulary[k]));
        let i = choose|i: int|
            0 <= i < nodes[n].children.len() && (#[trigger] nodes[nodes[n].children[i] as int]).instruction
                == x;
        assert(held[i] == x);
    }
    vocabulary.unique_seq_to_set();
    held.lemma_cardinality_of_set();
    vstd::seq_lib::seq_to_set_is_finite(held);
    vstd::set_lib::lemma_len_subset(vocabulary.to_set(), held.to_set());
}

/// Under a vocabulary that names no instruction twice the draws do not
/// decide whether a search grows the tree: where it can, it must.
pub proof fn lemma_distinct_vocabulary_decides(
    nodes: Seq<NodeView>,
    vocabulary: Seq<Instruction>,
    bound: nat,
    n: nat,
    d: nat,
)
    requires
        vocabulary.no_duplicates(),
        can_grow(nodes, vocabulary, bound, n, d),
    ensures
        must_grow(nodes, vocabulary, bound, n, d),
    decreases nodes.len() - n,
{
    if !free_entry(nodes, n as int, vocabulary) {
        lemma_full_without_free_entry(nodes, vocabulary, n as int);
        let i = choose|i: int|
            0 <= i < nodes[n as int].children.len() && n < (#[trigger] nodes[n as int].children[i])
                < nodes.len() && can_grow(
                nodes,
                vocabulary,
                bound,
                nodes[n as int].children[i],
                d + 1,
            );
        lemma_distinct_vocabulary_decides(
            nodes,
            vocabulary,
            bound,
            nodes[n as int].children[i],
            d + 1,
        );
    }
}

/// No node has more children than the vocabulary has entries.
pub proof fn lemma_children_bounded(nodes: Seq<NodeView>, vocabulary: Seq<Instruction>, n: int)
    requires
        tree_wf(nodes),
        vocabulary_respected(nodes, vocabulary),
        0 <= n < nodes.len(),
    ensures
        nodes[n].children.len() <= vocabulary.len(),
{
    let held = carried_instructions(nodes, n);
    assert forall|i: int, j: int| 0 <= i < j < held.len() implies held[i] != held[j] by {
        assert(siblings_differ(nodes, n, i, j));
    }
    assert forall|x: Instruction| held.to_set().contains(x) implies vocabulary.to_set().contains(
        x,
    ) by {
        let i = choose|i: int| 0 <= i < held.len() && held[i] == x;
        assert(linked_down(nodes, n, i));
        assert(vocabulary.contains(nodes[nodes[n].children[i] as int].instruction));
    }
    held.unique_seq_to_set();
    vocabulary.lemma_cardinality_of_set();
    vstd::seq_lib::seq_to_set_is_finite(vocabulary);
    vstd::set_lib::lemma_len_subset(held.to_set(), vocabulary.to_set());
}

/// Under a vocabulary that names no instruction twice, a tree in which a
/// search from the root was not sure to grow a leaf is exhausted, and stays
/// so through every search that grows nothing.
pub proof fn lemma_exhausted_stays(
    before: Seq<NodeView>,
    after: Seq<NodeView>,
    vocabulary: Seq<Instruction>,
    bound: nat,
)
    requires
        tree_wf(before),
        vocabulary.no_duplicates(),
        !must_grow(before, vocabulary, bound, 0, 0),
        same_prospects(before, after, vocabulary, bound),
    ensures
        !can_grow(before, vocabulary, bound, 0, 0),
        !can_grow(after, vocabulary, bound, 0, 0),
{
    lemma_prospects(before, after, vocabulary, bound, 0, 0);
    if can_grow(before, vocabulary, bound, 0, 0) {
        lemma_distinct_vocabulary_decides(before, vocabulary, bound, 0, 0);
    }
}

} // verus!

//! The search tree as a sequence of nodes that name each other by position.
//!
//! Every node but the root stands for the program spelled by the
//! instructions on the way down to it. The root is at position 0, and a node
//! always comes after its parent. What is said here is said of the plain
//! sequence; the engine holds such a sequence in its arena.
use crate::binary32::{finite_part, score_below};
use crate::instructions::{Instruction, Program};
use crate::scores::best_of;
use vstd::prelude::*;

verus! {

/// What a node holds, with the other nodes named by their positions.
pub ghost struct NodeView {
    pub instruction: Instruction,
    pub self_score: Option<u32>,
    pub child_score: Option<u32>,
    pub children: Seq<nat>,
    pub parent: Option<nat>,
    pub done: bool,
    pub visits: u64,
}

/// Node `n` names a parent that was allocated before it.
pub open spec fn linked_up(nodes: Seq<NodeView>, n: int) -> bool {
    nodes[n].parent matches Some(p) && p < n
}

/// The `i`-th child of node `n` was allocated after `n` and names `n` as its
/// parent.
pub open spec fn linked_down(nodes: Seq<NodeView>, n: int, i: int) -> bool {
    let c = nodes[n].children[i];
    n < c < nodes.len() && nodes[c as int].parent == Some(n as nat)
}

/// Node `n` is one of the children that its parent lists.
pub open spec fn listed(nodes: Seq<NodeView>, n: int) -> bool {
    nodes[n].parent matches Some(p) && nodes[p as int].children.contains(n as nat)
}

/// The `i`-th and the `j`-th child of node `n` carry different instructions.
pub open spec fn siblings_differ(nodes: Seq<NodeView>, n: int, i: int, j: int) -> bool {
    nodes[nodes[n].children[i] as int].instruction != nodes[nodes[n].children[j] as int].instruction
}

/// Node `n` has been visited no more often than its parent.
pub open spec fn visits_bounded(nodes: Seq<NodeView>, n: int) -> bool {
    nodes[n].parent matches Some(p) && nodes[n].visits <= nodes[p as int].visits
}

/// The nodes form a tree under the root at position 0: parents come before
/// their children, and the two directions of the links agree. The root has
/// no score.
pub open spec fn tree_wf(nodes: Seq<NodeView>) -> bool {
    &&& nodes.len() >= 1
    &&& nodes[0].parent is None
    &&& nodes[0].self_score is None
    &&& forall|n: int| 0 < n < nodes.len() ==> #[trigger] linked_up(nodes, n)
    &&& forall|n: int| 0 < n < nodes.len() ==> #[trigger] listed(nodes, n)
    &&& forall|n: int, i: int|
        0 <= n < nodes.len() && 0 <= i < nodes[n].children.len() ==> #[trigger] linked_down(
            nodes,
            n,
            i,
        )
}

/// Every node but the root carries an instruction of the vocabulary, and no
/// two children of one node carry the same.
pub open spec fn vocabulary_respected(nodes: Seq<NodeView>, vocabulary: Seq<Instruction>) -> bool {
    &&& forall|n: int| 0 < n < nodes.len() ==> vocabulary.contains(#[trigger] nodes[n].instruction)
    &&& forall|n: int, i: int, j: int|
        0 <= n < nodes.len() && 0 <= i < j < nodes[n].children.len() ==> #[trigger] siblings_differ(
            nodes,
            n,
            i,
            j,
        )
}

/// No node has been visited more often than its parent.
pub open spec fn visits_wf(nodes: Seq<NodeView>) -> bool {
    forall|n: int| 0 < n < nodes.len() ==> #[trigger] visits_bounded(nodes, n)
}

/// The instructions on the way from the root down to node `n`, the root's
/// own placeholder left out.
pub open spec fn path(nodes: Seq<NodeView>, n: nat) -> Seq<Instruction>
    decreases n,
{
    if n == 0 || n >= nodes.len() {
        Seq::empty()
    } else {
        match nodes[n as int].parent {
            Some(p) if p < n => path(nodes, p).push(nodes[n as int].instruction),
            _ => Seq::empty(),
        }
    }
}

/// The number of links between node `n` and the root.
pub open spec fn depth(nodes: Seq<NodeView>, n: nat) -> nat
    decreases n,
{
    if n == 0 || n >= nodes.len() {
        0
    } else {
        match nodes[n as int].parent {
            Some(p) if p < n => depth(nodes, p) + 1,
            _ => 0,
        }
    }
}

/// The program of a node has one instruction for each link up to the root.
pub proof fn lemma_path_len(nodes: Seq<NodeView>, n: nat)
    ensures
        path(nodes, n).len() == depth(nodes, n),
    decreases n,
{
    if n == 0 || n >= nodes.len() {
    } else {
        match nodes[n as int].parent {
            Some(p) if p < n => {
                lemma_path_len(nodes, p);
            },
            _ => {},
        }
    }
}

/// Node `n` lies no deeper than the bound.
pub open spec fn within_bound(nodes: Seq<NodeView>, bound: nat, n: int) -> bool {
    depth(nodes, n as nat) <= bound
}

/// No node lies deeper than the bound, so that no program is longer than
/// the bound.
pub open spec fn depths_wf(nodes: Seq<NodeView>, bound: nat) -> bool {
    forall|n: int| 0 <= n < nodes.len() ==> #[trigger] within_bound(nodes, bound, n)
}

/// Only the root lies at depth zero.
pub proof fn lemma_root_alone(nodes: Seq<NodeView>, n: nat)
    requires
        tree_wf(nodes),
        n < nodes.len(),
        depth(nodes, n) == 0,
    ensures
        n == 0,
{
    if n != 0 {
        assert(linked_up(nodes, n as int));
    }
}

/// No node scores above the node at position `best`.
pub open spec fn greatest_at(nodes: Seq<NodeView>, best: nat) -> bool {
    forall|n: int|
        0 <= n < nodes.len() ==> !score_below(
            nodes[best as int].self_score,
            (#[trigger] nodes[n]).self_score,
        )
}

/// Whether the first tree's nodes are still there in the second, each with
/// its instruction, its score and its parent.
pub open spec fn same_skeleton(before: Seq<NodeView>, after: Seq<NodeView>) -> bool {
    &&& before.len() <= after.len()
    &&& forall|n: int|
        0 <= n < before.len() ==> {
            &&& (#[trigger] after[n]).instruction == before[n].instruction
            &&& after[n].self_score == before[n].self_score
            &&& after[n].parent == before[n].parent
        }
}

/// A node's program and depth depend on the skeleton alone.
pub proof fn lemma_path_kept(before: Seq<NodeView>, after: Seq<NodeView>, n: nat)
    requires
        same_skeleton(before, after),
        n < before.len(),
    ensures
        path(after, n) == path(before, n),
        depth(after, n) == depth(before, n),
    decreases n,
{
    if n != 0 {
        assert(after[n as int].parent == before[n as int].parent);
        match before[n as int].parent {
            Some(p) if p < n => {
                lemma_path_kept(before, after, p);
            },
            _ => {},
        }
    }
}

/// Where the skeleton is the same and no node is new, the depths are within
/// the bound as before.
pub(crate) proof fn lemma_depths_kept(before: Seq<NodeView>, after: Seq<NodeView>, bound: nat)
    requires
        same_skeleton(before, after),
        before.len() == after.len(),
        depths_wf(before, bound),
    ensures
        depths_wf(after, bound),
{
    assert forall|n: int| 0 <= n < after.len() implies #[trigger] within_bound(after, bound, n) by {
        assert(within_bound(before, bound, n));
        lemma_path_kept(before, after, n as nat);
    }
}

/// Where the skeleton is the same and no node is new, the node that no
/// other scores above is still one.
pub(crate) proof fn lemma_greatest_kept(before: Seq<NodeView>, after: Seq<NodeView>, best: nat)
    requires
        same_skeleton(before, after),
        before.len() == after.len(),
        best < before.len(),
        greatest_at(before, best),
    ensures
        greatest_at(after, best),
{
    assert forall|n: int| 0 <= n < after.len() implies !score_below(
        after[best as int].self_score,
        (#[trigger] after[n]).self_score,
    ) by {
        assert(!score_below(before[best as int].self_score, before[n].self_score));
    }
}

/// After a new leaf the best node, which becomes the leaf if the leaf scores
/// above it, is still one that no node scores above.
pub(crate) proof fn lemma_greatest_after_growth(
    before: Seq<NodeView>,
    after: Seq<NodeView>,
    best: nat,
    new_best: nat,
)
    requires
        same_skeleton(before, after),
        after.len() == before.len() + 1,
        best < before.len(),
        greatest_at(before, best),
        new_best == if score_below(before[best as int].self_score, after.last().self_score) {
            before.len()
        } else {
            best
        },
    ensures
        greatest_at(after, new_best),
{
    assert forall|n: int| 0 <= n < after.len() implies !score_below(
        after[new_best as int].self_score,
        (#[trigger] after[n]).self_score,
    ) by {
        if n < before.len() {
            assert(!score_below(before[best as int].self_score, before[n].self_score));
            assert(after[n].self_score == before[n].self_score);
        }
        assert(after[best as int].self_score == before[best as int].self_score);
    }
}

/// Of the nodes above `p`, those that lie at least as deep as `c`, a node
/// above `p` itself, lie under `c`.
pub(crate) proof fn lemma_chain_between(nodes: Seq<NodeView>, p: nat, c: nat, m: nat)
    requires
        on_chain(nodes, p, c),
        on_chain(nodes, p, m),
        depth(nodes, m) >= depth(nodes, c),
    ensures
        on_chain(nodes, m, c),
    decreases p,
{
    if m != p {
        if c == p {
            lemma_chain_depth(nodes, p, m);
        } else {
            match nodes[p as int].parent {
                Some(q) if q < p => {
                    lemma_chain_between(nodes, q, c, m);
                },
                _ => {},
            }
        }
    }
}

/// Whether `score` is what the oracle gave for a program with these
/// instructions, with anything that is not finite counted as no score.
pub open spec fn scored_by<E: Fn(&Program) -> Option<u32>>(
    oracle: E,
    insts: Seq<Instruction>,
    score: Option<u32>,
) -> bool {
    exists|p: Program, raw: Option<u32>|
        p@ == insts && #[trigger] call_ensures(oracle, (&p,), raw) && score == finite_part(raw)
}

/// Node `n` carries the score that the oracle gave for the node's program.
pub open spec fn node_scored<E: Fn(&Program) -> Option<u32>>(
    nodes: Seq<NodeView>,
    oracle: E,
    n: int,
) -> bool {
    scored_by(oracle, path(nodes, n as nat), nodes[n].self_score)
}

/// Every node but the root carries the score that the oracle gave for the
/// node's program.
pub open spec fn scores_wf<E: Fn(&Program) -> Option<u32>>(
    nodes: Seq<NodeView>,
    oracle: E,
) -> bool {
    forall|n: int| 0 < n < nodes.len() ==> #[trigger] node_scored(nodes, oracle, n)
}

/// Whether the two trees have the same nodes with the same instructions,
/// scores and links; visits, done flags and child scores may differ.
pub open spec fn same_links(before: Seq<NodeView>, after: Seq<NodeView>) -> bool {
    &&& before.len() == after.len()
    &&& forall|n: int|
        0 <= n < before.len() ==> {
            &&& (#[trigger] after[n]).instruction == before[n].instruction
            &&& after[n].self_score == before[n].self_score
            &&& after[n].parent == before[n].parent
            &&& after[n].children == before[n].children
        }
}

/// The same links make the same skeleton.
pub(crate) proof fn lemma_links_skeleton(before: Seq<NodeView>, after: Seq<NodeView>)
    requires
        same_links(before, after),
    ensures
        same_skeleton(before, after),
{
}

/// A tree with the same links is as well formed as the one it came from.
pub(crate) proof fn lemma_links_kept<E: Fn(&Program) -> Option<u32>>(
    before: Seq<NodeView>,
    after: Seq<NodeView>,
    vocabulary: Seq<Instruction>,
    oracle: E,
)
    requires
        same_links(before, after),
        tree_wf(before),
        vocabulary_respected(before, vocabulary),
        scores_wf(before, oracle),
    ensures
        tree_wf(after),
        vocabulary_respected(after, vocabulary),
        scores_wf(after, oracle),
{
    assert forall|n: int| 0 < n < after.len() implies #[trigger] linked_up(after, n) by {
        assert(linked_up(before, n));
    }
    assert forall|n: int| 0 < n < after.len() implies #[trigger] listed(after, n) by {
        assert(listed(before, n));
        assert(linked_up(before, n));
        let up = before[n].parent.unwrap() as int;
        assert(after[up].children == before[up].children);
    }
    assert forall|n: int, i: int|
        0 <= n < after.len() && 0 <= i < after[n].children.len() implies #[trigger] linked_down(
        after,
        n,
        i,
    ) by {
        assert(linked_down(before, n, i));
    }
    assert forall|n: int| 0 < n < after.len() implies vocabulary.contains(
        #[trigger] after[n].instruction,
    ) by {
        assert(vocabulary.contains(before[n].instruction));
    }
    assert forall|n: int, i: int, j: int|
        0 <= n < after.len() && 0 <= i < j < after[n].children.len() implies #[trigger] siblings_differ(
        after,
        n,
        i,
        j,
    ) by {
        assert(siblings_differ(before, n, i, j));
        assert(linked_down(before, n, i));
        assert(linked_down(before, n, j));
    }
    assert forall|n: int| 0 < n < after.len() implies #[trigger] node_scored(after, oracle, n) by {
        assert(node_scored(before, oracle, n));
        lemma_path_kept(before, after, n as nat);
    }
}

/// Where the links and the visit counts are the same, the visit counts are
/// as well ordered as before.
pub(crate) proof fn lemma_visits_kept(before: Seq<NodeView>, after: Seq<NodeView>)
    requires
        same_links(before, after),
        visits_wf(before),
        tree_wf(before),
        forall|n: int| 0 <= n < before.len() ==> (#[trigger] after[n]).visits == before[n].visits,
    ensures
        visits_wf(after),
{
    assert forall|n: int| 0 < n < after.len() implies #[trigger] visits_bounded(after, n) by {
        assert(visits_bounded(before, n));
        assert(linked_up(before, n));
    }
}

/// The scores of the children of node `n`, in the order of the children.
pub open spec fn child_scores(nodes: Seq<NodeView>, n: int) -> Seq<Option<u32>> {
    Seq::new(nodes[n].children.len(), |i: int| nodes[nodes[n].children[i] as int].self_score)
}

/// How many of the first `upto` children of node `n` are done.
pub open spec fn done_children(nodes: Seq<NodeView>, n: int, upto: int) -> nat
    decreases upto,
{
    if upto <= 0 {
        0
    } else {
        done_children(nodes, n, upto - 1) + if nodes[nodes[n].children[upto - 1] as int].done {
            1nat
        } else {
            0nat
        }
    }
}

/// No more children are done than there are children.
pub proof fn lemma_done_children_bounded(nodes: Seq<NodeView>, n: int, upto: int)
    requires
        0 <= upto,
    ensures
        done_children(nodes, n, upto) <= upto,
    decreases upto,
{
    if upto > 0 {
        lemma_done_children_bounded(nodes, n, upto - 1);
    }
}

/// Whether node `m` is `node` itself or one of the nodes above it.
pub open spec fn on_chain(nodes: Seq<NodeView>, node: nat, m: nat) -> bool
    decreases node,
{
    m == node || (node != 0 && node < nodes.len() && match nodes[node as int].parent {
        Some(p) if p < node => on_chain(nodes, p, m),
        _ => false,
    })
}

/// Whether node `m` holds fresh aggregates: its child score is the best
/// score among its children, and it is done if it was so before or if as
/// many of its children are done as the vocabulary has instructions.
/// Everything else about the node is as before.
pub open spec fn refreshed(
    before: Seq<NodeView>,
    after: Seq<NodeView>,
    vocabulary_len: nat,
    m: int,
) -> bool {
    after[m] == (NodeView {
        child_score: best_of(child_scores(after, m)),
        done: before[m].done || done_children(after, m, after[m].children.len() as int)
            == vocabulary_len,
        ..before[m]
    })
}

/// The nodes above a node come before it in the arena.
pub(crate) proof fn lemma_chain_below(nodes: Seq<NodeView>, node: nat, m: nat)
    requires
        on_chain(nodes, node, m),
    ensures
        m <= node,
    decreases node,
{
    if m != node {
        match nodes[node as int].parent {
            Some(p) if p < node => {
                lemma_chain_below(nodes, p, m);
            },
            _ => {},
        }
    }
}

/// The chain above a node depends on the parent links alone.
pub(crate) proof fn lemma_chain_kept(before: Seq<NodeView>, after: Seq<NodeView>, node: nat, m: nat)
    requires
        before.len() == after.len(),
        forall|n: int| 0 <= n < before.len() ==> (#[trigger] after[n]).parent == before[n].parent,
    ensures
        on_chain(after, node, m) == on_chain(before, node, m),
    decreases node,
{
    if m != node && node != 0 && node < before.len() {
        assert(after[node as int].parent == before[node as int].parent);
        match before[node as int].parent {
            Some(p) if p < node => {
                lemma_chain_kept(before, after, p, m);
            },
            _ => {},
        }
    }
}

/// The count of done children depends on the children alone.
pub(crate) proof fn lemma_done_children_kept(
    before: Seq<NodeView>,
    after: Seq<NodeView>,
    n: int,
    upto: int,
)
    requires
        0 <= n < before.len() == after.len(),
        after[n].children == before[n].children,
        upto <= before[n].children.len(),
        forall|i: int|
            0 <= i < before[n].children.len() ==> 0 <= #[trigger] before[n].children[i]
                < before.len() && after[before[n].children[i] as int].done
                == before[before[n].children[i] as int].done,
    ensures
        done_children(after, n, upto) == done_children(before, n, upto),
    decreases upto,
{
    if upto > 0 {
        lemma_done_children_kept(before, after, n, upto - 1);
        assert(0 <= before[n].children[upto - 1] < before.len());
    }
}

/// Whether one of the children of node `n` carries the instruction.
pub open spec fn carried(nodes: Seq<NodeView>, n: int, inst: Instruction) -> bool {
    exists|i: int|
        0 <= i < nodes[n].children.len() && (#[trigger] nodes[nodes[n].children[i] as int]).instruction
            == inst
}

/// Whether entry `k` is the first of the vocabulary that no child of node
/// `n` carries.
pub open spec fn first_free(
    nodes: Seq<NodeView>,
    n: int,
    vocabulary: Seq<Instruction>,
    k: int,
) -> bool {
    &&& 0 <= k < vocabulary.len()
    &&& !carried(nodes, n, vocabulary[k])
    &&& forall|j: int| 0 <= j < k ==> carried(nodes, n, #[trigger] vocabulary[j])
}

/// The tree with one more leaf: a new last node under node `p`, listed last
/// among the children of `p`.
pub open spec fn with_child(
    before: Seq<NodeView>,
    p: int,
    inst: Instruction,
    score: Option<u32>,
) -> Seq<NodeView> {
    before.update(
        p,
        NodeView { children: before[p].children.push(before.len()), ..before[p] },
    ).push(
        NodeView {
            instruction: inst,
            self_score: score,
            child_score: None,
            children: Seq::empty(),
            parent: Some(p as nat),
            done: false,
            visits: 0,
        },
    )
}

/// What a search may do to node `n`: raise its visit count, mark it done,
/// refresh its child score and, if the tree has grown, list the new leaf as
/// its last child.
pub open spec fn kept(before: Seq<NodeView>, after: Seq<NodeView>, n: int, grown: bool) -> bool {
    &&& after[n].instruction == before[n].instruction
    &&& after[n].self_score == before[n].self_score
    &&& after[n].parent == before[n].parent
    &&& before[n].visits <= after[n].visits
    &&& before[n].done ==> after[n].done
    &&& after[n].children == before[n].children || (grown && after[n].children
        == before[n].children.push(before.len()) && after[before.len() as int].parent == Some(
        n as nat,
    ))
}

/// What a search may do to the tree: every node is kept, and the tree has
/// either the same nodes as before or one new leaf at the end.
pub open spec fn advanced(before: Seq<NodeView>, after: Seq<NodeView>, grown: bool) -> bool {
    &&& after.len() == before.len() + if grown {
        1int
    } else {
        0int
    }
    &&& forall|n: int| 0 <= n < before.len() ==> #[trigger] kept(before, after, n, grown)
    &&& grown ==> {
        let leaf = after[before.len() as int];
        &&& leaf.parent matches Some(p) && p < before.len() && after[p as int].children
            == before[p as int].children.push(before.len())
        &&& leaf.children.len() == 0
        &&& leaf.child_score is None
        &&& leaf.visits == 0
        &&& !leaf.done
    }
}

/// Steps that keep the nodes, followed by one that may add a leaf, make one
/// step of the second kind.
pub(crate) proof fn lemma_advanced_chain(
    before: Seq<NodeView>,
    mid: Seq<NodeView>,
    after: Seq<NodeView>,
    grown: bool,
)
    requires
        advanced(before, mid, false),
        advanced(mid, after, grown),
    ensures
        advanced(before, after, grown),
{
    assert forall|n: int| 0 <= n < before.len() implies #[trigger] kept(
        before,
        after,
        n,
        grown,
    ) by {
        assert(kept(before, mid, n, false));
        assert(kept(mid, after, n, grown));
    }
    if grown {
        let p = after[before.len() as int].parent.unwrap() as int;
        assert(kept(before, mid, p, false));
    }
}

/// A step that adds a leaf, followed by steps that keep the nodes, is a
/// step that adds a leaf.
pub(crate) proof fn lemma_advanced_after_growth(
    before: Seq<NodeView>,
    mid: Seq<NodeView>,
    after: Seq<NodeView>,
)
    requires
        advanced(before, mid, true),
        same_links(mid, after),
        forall|n: int|
            0 <= n < mid.len() ==> (#[trigger] after[n]).visits == mid[n].visits && (mid[n].done
                ==> after[n].done),
        after[before.len() as int].child_score is None,
        !after[before.len() as int].done,
    ensures
        advanced(before, after, true),
{
    assert forall|n: int| 0 <= n < before.len() implies #[trigger] kept(
        before,
        after,
        n,
        true,
    ) by {
        assert(kept(before, mid, n, true));
        assert(after[n].children == mid[n].children);
        assert(after[before.len() as int].parent == mid[before.len() as int].parent);
    }
    let leaf = after[before.len() as int];
    assert(leaf.children == mid[before.len() as int].children);
    let p = mid[before.len() as int].parent.unwrap() as int;
    assert(after[p].children == mid[p].children);
}

/// A search keeps the instructions, scores and parents of the nodes.
pub(crate) proof fn lemma_advanced_skeleton(before: Seq<NodeView>, after: Seq<NodeView>, grown: bool)
    requires
        advanced(before, after, grown),
    ensures
        same_skeleton(before, after),
{
    assert forall|n: int| 0 <= n < before.len() implies {
        &&& (#[trigger] after[n]).instruction == before[n].instruction
        &&& after[n].self_score == before[n].self_score
        &&& after[n].parent == before[n].parent
    } by {
        assert(kept(before, after, n, grown));
    }
}

/// A new leaf under a node that does not carry its instruction yet leaves
/// the tree well formed. The program of the leaf is the program of its
/// parent with the leaf's instruction at the end.
pub(crate) proof fn lemma_with_child_wf<E: Fn(&Program) -> Option<u32>>(
    before: Seq<NodeView>,
    p: int,
    inst: Instruction,
    score: Option<u32>,
    vocabulary: Seq<Instruction>,
    oracle: E,
)
    requires
        tree_wf(before),
        vocabulary_respected(before, vocabulary),
        visits_wf(before),
        scores_wf(before, oracle),
        0 <= p < before.len(),
        vocabulary.contains(inst),
        !carried(before, p, inst),
        scored_by(oracle, path(before, p as nat).push(inst), score),
    ensures
        tree_wf(with_child(before, p, inst, score)),
        vocabulary_respected(with_child(before, p, inst, score), vocabulary),
        visits_wf(with_child(before, p, inst, score)),
        scores_wf(with_child(before, p, inst, score), oracle),
        advanced(before, with_child(before, p, inst, score), true),
        path(with_child(before, p, inst, score), before.len()) == path(before, p as nat).push(inst),
{
    let after = with_child(before, p, inst, score);
    let leaf = before.len() as int;
    assert forall|n: int| 0 <= n < before.len() && n != p implies after[n] == before[n] by {}
    assert(after[p].children == before[p].children.push(before.len()));
    assert forall|n: int| 0 <= n < before.len() implies #[trigger] kept(before, after, n, true) by {}
    assert(advanced(before, after, true));
    lemma_advanced_skeleton(before, after, true);
    assert forall|n: int| 0 < n < after.len() implies #[trigger] linked_up(after, n) by {
        if n < leaf {
            assert(linked_up(before, n));
        }
    }
    assert forall|n: int| 0 < n < after.len() implies #[trigger] listed(after, n) by {
        if n < leaf {
            assert(listed(before, n));
            assert(linked_up(before, n));
            let up = before[n].parent.unwrap() as int;
            let i = choose|i: int|
                0 <= i < before[up].children.len() && before[up].children[i] == n as nat;
            assert(after[up].children[i] == n as nat);
        } else {
            assert(after[p].children[before[p].children.len() as int] == leaf as nat);
        }
    }
    assert forall|n: int, i: int|
        0 <= n < after.len() && 0 <= i < after[n].children.len() implies #[trigger] linked_down(
        after,
        n,
        i,
    ) by {
        if n < leaf {
            if n == p && i == before[p].children.len() {
            } else {
                assert(linked_down(before, n, i));
            }
        }
    }
    assert forall|n: int| 0 < n < after.len() implies vocabulary.contains(
        #[trigger] after[n].instruction,
    ) by {
        if n < leaf {
            assert(vocabulary.contains(before[n].instruction));
        }
    }
    assert forall|n: int, i: int, j: int|
        0 <= n < after.len() && 0 <= i < j < after[n].children.len() implies #[trigger] siblings_differ(
        after,
        n,
        i,
        j,
    ) by {
        if n < leaf {
            assert(linked_down(after, n, i));
            if n == p && j == before[p].children.len() {
                assert(linked_down(before, p, i));
                assert(before[before[p].children[i] as int].instruction != inst);
            } else {
                assert(linked_down(after, n, j));
                assert(linked_down(before, n, i));
                assert(linked_down(before, n, j));
                assert(siblings_differ(before, n, i, j));
            }
        }
    }
    assert forall|n: int| 0 < n < after.len() implies #[trigger] visits_bounded(after, n) by {
        if n < leaf {
            assert(visits_bounded(before, n));
            assert(linked_up(before, n));
        }
    }
    lemma_path_kept(before, after, p as nat);
    assert(path(after, leaf as nat) == path(before, p as nat).push(inst));
    assert forall|n: int| 0 < n < after.len() implies #[trigger] node_scored(after, oracle, n) by {
        if n < leaf {
            assert(node_scored(before, oracle, n));
            lemma_path_kept(before, after, n as nat);
        }
    }
}

/// A new leaf under a node that lies above the bound leaves every node
/// within the bound. The leaf lies one level below its parent.
pub(crate) proof fn lemma_with_child_depths(
    before: Seq<NodeView>,
    p: int,
    inst: Instruction,
    score: Option<u32>,
    bound: nat,
)
    requires
        0 <= p < before.len(),
        depths_wf(before, bound),
        depth(before, p as nat) < bound,
    ensures
        depths_wf(with_child(before, p, inst, score), bound),
        depth(with_child(before, p, inst, score), before.len()) == depth(before, p as nat) + 1,
{
    let after = with_child(before, p, inst, score);
    assert forall|n: int| 0 <= n < before.len() implies {
        &&& (#[trigger] after[n]).instruction == before[n].instruction
        &&& after[n].self_score == before[n].self_score
        &&& after[n].parent == before[n].parent
    } by {}
    lemma_path_kept(before, after, p as nat);
    assert forall|n: int| 0 <= n < after.len() implies #[trigger] within_bound(after, bound, n) by {
        if n < before.len() {
            assert(within_bound(before, bound, n));
            lemma_path_kept(before, after, n as nat);
        }
    }
}

/// What a recalculation from `node` upwards does to the tree: the nodes on
/// the chain from `node` to the root hold fresh aggregates, and all others
/// are as before.
pub open spec fn recalculated(
    before: Seq<NodeView>,
    after: Seq<NodeView>,
    node: nat,
    vocabulary_len: nat,
) -> bool {
    &&& same_links(before, after)
    &&& forall|m: int|
        0 <= m < before.len() ==> {
            &&& (#[trigger] after[m]).visits == before[m].visits
            &&& before[m].done ==> after[m].done
            &&& if on_chain(before, node, m as nat) {
                refreshed(before, after, vocabulary_len, m)
            } else {
                after[m] == before[m]
            }
        }
}

/// Whether the aggregates are fresh all the way up from node `from`: each
/// node on the chain from `from` to the root holds the best score of its
/// children as its child score, and is done if as many of its children are
/// done as the vocabulary has instructions.
pub open spec fn chain_refreshed(nodes: Seq<NodeView>, from: nat, vocabulary_len: nat) -> bool {
    forall|m: int|
        0 <= m < nodes.len() && #[trigger] on_chain(nodes, from, m as nat) ==> {
            &&& nodes[m].child_score == best_of(child_scores(nodes, m))
            &&& done_children(nodes, m, nodes[m].children.len() as int) == vocabulary_len
                ==> nodes[m].done
        }
}

/// After a recalculation the aggregates are fresh all the way up.
pub(crate) proof fn lemma_recalculated_fresh(
    before: Seq<NodeView>,
    after: Seq<NodeView>,
    node: nat,
    vocabulary_len: nat,
)
    requires
        recalculated(before, after, node, vocabulary_len),
    ensures
        chain_refreshed(after, node, vocabulary_len),
{
    assert forall|m: int| 0 <= m < after.len() && #[trigger] on_chain(after, node, m as nat) implies {
        &&& after[m].child_score == best_of(child_scores(after, m))
        &&& done_children(after, m, after[m].children.len() as int) == vocabulary_len
            ==> after[m].done
    } by {
        lemma_chain_kept(before, after, node, m as nat);
        assert(refreshed(before, after, vocabulary_len, m));
    }
}

/// Whether the tree's last node is a leaf with a score and node `m` lies on
/// the chain from that leaf's parent to the root.
pub open spec fn above_scored_leaf(nodes: Seq<NodeView>, m: int) -> bool {
    &&& nodes.last().self_score is Some
    &&& nodes.last().parent matches Some(p) && on_chain(nodes, p, m as nat)
}

/// What a search may do to the aggregates of node `m`. The child score
/// changes only above a new leaf that has a score. The node is newly done
/// only if it lies on the last level under the bound and has as many
/// children as the vocabulary has instructions, or if it lies above a new
/// leaf that has a score and as many of its children are done as the
/// vocabulary has instructions.
pub open spec fn aggregates_kept(
    before: Seq<NodeView>,
    after: Seq<NodeView>,
    vocabulary_len: nat,
    bound: nat,
    grown: bool,
    m: int,
) -> bool {
    let fresh = grown && above_scored_leaf(after, m);
    &&& !fresh ==> after[m].child_score == before[m].child_score
    &&& after[m].done && !before[m].done ==> (depth(before, m as nat) + 1 == bound
        && before[m].children.len() == vocabulary_len) || (fresh && done_children(
        after,
        m,
        after[m].children.len() as int,
    ) == vocabulary_len)
}

/// What a search may do to the aggregates of the tree.
pub open spec fn aggregates_follow(
    before: Seq<NodeView>,
    after: Seq<NodeView>,
    vocabulary_len: nat,
    bound: nat,
    grown: bool,
) -> bool {
    forall|m: int|
        0 <= m < before.len() ==> #[trigger] aggregates_kept(
            before,
            after,
            vocabulary_len,
            bound,
            grown,
            m,
        )
}

/// Steps that grow nothing, followed by one that may grow a leaf, do to the
/// aggregates what one step does.
pub(crate) proof fn lemma_aggregates_chain(
    before: Seq<NodeView>,
    mid: Seq<NodeView>,
    after: Seq<NodeView>,
    vocabulary_len: nat,
    bound: nat,
    grown: bool,
)
    requires
        advanced(before, mid, false),
        aggregates_follow(before, mid, vocabulary_len, bound, false),
        aggregates_follow(mid, after, vocabulary_len, bound, grown),
    ensures
        aggregates_follow(before, after, vocabulary_len, bound, grown),
{
    lemma_advanced_skeleton(before, mid, false);
    assert forall|m: int| 0 <= m < before.len() implies #[trigger] aggregates_kept(
        before,
        after,
        vocabulary_len,
        bound,
        grown,
        m,
    ) by {
        assert(aggregates_kept(before, mid, vocabulary_len, bound, false, m));
        assert(aggregates_kept(mid, after, vocabulary_len, bound, grown, m));
        assert(kept(before, mid, m, false));
        lemma_path_kept(before, mid, m as nat);
    }
}

/// A recalculation above a new leaf does to the aggregates what a search
/// may do.
pub(crate) proof fn lemma_aggregates_after_growth(
    before: Seq<NodeView>,
    p: int,
    inst: Instruction,
    score: Option<u32>,
    after: Seq<NodeView>,
    vocabulary_len: nat,
    bound: nat,
)
    requires
        0 <= p < before.len(),
        match score {
            Some(_) => recalculated(with_child(before, p, inst, score), after, p as nat, vocabulary_len),
            None => after == with_child(before, p, inst, score),
        },
    ensures
        aggregates_follow(before, after, vocabulary_len, bound, true),
{
    let grown = with_child(before, p, inst, score);
    assert forall|m: int| 0 <= m < before.len() implies #[trigger] aggregates_kept(
        before,
        after,
        vocabulary_len,
        bound,
        true,
        m,
    ) by {
        assert(grown[m].child_score == before[m].child_score);
        assert(grown[m].done == before[m].done);
        if score is Some {
            assert(after[grown.len() - 1].self_score == grown[grown.len() - 1].self_score);
            assert(after[grown.len() - 1].parent == grown[grown.len() - 1].parent);
            lemma_chain_kept(grown, after, p as nat, m as nat);
            if on_chain(grown, p as nat, m as nat) {
                assert(refreshed(grown, after, vocabulary_len, m));
            } else {
                assert(after[m] == grown[m]);
            }
        }
    }
}

/// Whether node `x` lies at or under one of the first `k` children of `a`.
pub open spec fn under_a_child(nodes: Seq<NodeView>, a: nat, k: int, x: int) -> bool {
    exists|i: int| 0 <= i < k && on_chain(nodes, x as nat, #[trigger] nodes[a as int].children[i])
}

/// A node under `a` that is not `a` lies at or under a child of `a`.
pub(crate) proof fn lemma_passes_child(nodes: Seq<NodeView>, a: nat, x: nat)
    requires
        tree_wf(nodes),
        x < nodes.len(),
        on_chain(nodes, x, a),
        x != a,
    ensures
        under_a_child(nodes, a, nodes[a as int].children.len() as int, x as int),
    decreases x,
{
    assert(linked_up(nodes, x as int));
    assert(listed(nodes, x as int));
    let q = nodes[x as int].parent.unwrap();
    if q == a {
        let i = choose|i: int|
            0 <= i < nodes[a as int].children.len() && nodes[a as int].children[i] == x;
        assert(on_chain(nodes, x, nodes[a as int].children[i]));
    } else {
        lemma_passes_child(nodes, a, q);
        let i = choose|i: int|
            0 <= i < nodes[a as int].children.len() && on_chain(
                nodes,
                q,
                #[trigger] nodes[a as int].children[i],
            );
        assert(on_chain(nodes, x, nodes[a as int].children[i]));
    }
}

/// What lies under a node lies under the nodes above that node.
pub(crate) proof fn lemma_chain_trans(nodes: Seq<NodeView>, x: nat, m: nat, c: nat)
    requires
        on_chain(nodes, x, m),
        on_chain(nodes, m, c),
    ensures
        on_chain(nodes, x, c),
    decreases x,
{
    if x != m {
        match nodes[x as int].parent {
            Some(p) if p < x => {
                lemma_chain_trans(nodes, p, m, c);
            },
            _ => {},
        }
    }
}

/// Whether no visit count has risen by more than one.
pub open spec fn visited_once(before: Seq<NodeView>, after: Seq<NodeView>) -> bool {
    forall|m: int| 0 <= m < before.len() ==> (#[trigger] after[m]).visits <= before[m].visits + 1
}

/// Whether the visit counts of `node` and of all nodes under it are the
/// same in both trees.
pub open spec fn subtree_untouched(before: Seq<NodeView>, after: Seq<NodeView>, node: nat) -> bool {
    forall|m: int|
        0 <= m < before.len() && on_chain(before, m as nat, node) ==> (#[trigger] after[m]).visits
            == before[m].visits
}

/// Whether the visit counts of all nodes but `node` and those under it are
/// the same in both trees.
pub open spec fn outside_untouched(before: Seq<NodeView>, after: Seq<NodeView>, node: nat) -> bool {
    forall|m: int|
        0 <= m < before.len() && !on_chain(before, m as nat, node) ==> (#[trigger] after[m]).visits
            == before[m].visits
}

/// A node on the chain above `m` lies no deeper than `m`, and as deep only
/// if it is `m`.
pub(crate) proof fn lemma_chain_depth(nodes: Seq<NodeView>, m: nat, x: nat)
    requires
        on_chain(nodes, m, x),
    ensures
        depth(nodes, x) <= depth(nodes, m),
        depth(nodes, x) == depth(nodes, m) ==> x == m,
    decreases m,
{
    if x != m {
        match nodes[m as int].parent {
            Some(p) if p < m => {
                lemma_chain_depth(nodes, p, x);
            },
            _ => {},
        }
    }
}

/// The chain above a node holds one node of each depth.
pub(crate) proof fn lemma_chain_single(nodes: Seq<NodeView>, m: nat, a: nat, b: nat)
    requires
        on_chain(nodes, m, a),
        on_chain(nodes, m, b),
        depth(nodes, a) == depth(nodes, b),
    ensures
        a == b,
    decreases m,
{
    if a == m {
        lemma_chain_depth(nodes, m, b);
    } else if b == m {
        lemma_chain_depth(nodes, m, a);
    } else {
        match nodes[m as int].parent {
            Some(p) if p < m => {
                lemma_chain_single(nodes, p, a, b);
            },
            _ => {},
        }
    }
}

/// With a node its parent lies on the chain above `m`.
pub(crate) proof fn lemma_chain_goes_on(nodes: Seq<NodeView>, m: nat, c: nat, up: nat)
    requires
        on_chain(nodes, m, c),
        0 < c < nodes.len(),
        nodes[c as int].parent == Some(up),
        up < c,
    ensures
        on_chain(nodes, m, up),
    decreases m,
{
    if c == m {
        assert(on_chain(nodes, up, up));
    } else {
        match nodes[m as int].parent {
            Some(p) if p < m => {
                lemma_chain_goes_on(nodes, p, c, up);
            },
            _ => {},
        }
    }
}

/// A search under a child leaves alone what lies outside the parent's
/// subtree and what lies under the other children, and counts no visit
/// twice.
pub(crate) proof fn lemma_subtree_call_frame(
    start: Seq<NodeView>,
    a: Seq<NodeView>,
    b: Seq<NodeView>,
    at: int,
    c: int,
)
    requires
        tree_wf(start),
        same_skeleton(start, a),
        start.len() == a.len(),
        0 <= at < c < start.len(),
        start[c].parent == Some(at as nat),
        visited_once(start, a),
        outside_untouched(start, a, at as nat),
        subtree_untouched(start, a, c as nat),
        visited_once(a, b),
        outside_untouched(a, b, c as nat),
    ensures
        visited_once(start, b),
        outside_untouched(start, b, at as nat),
        forall|other: nat|
            other < start.len() && other != c && depth(start, other) == depth(start, c as nat)
                && #[trigger] subtree_untouched(start, a, other) ==> subtree_untouched(
                start,
                b,
                other,
            ),
{
    assert forall|m: int| 0 <= m < start.len() implies (#[trigger] b[m]).visits <= start[m].visits
        + 1 by {
        lemma_chain_kept(start, a, m as nat, c as nat);
        assert(a[m].visits <= start[m].visits + 1);
        assert(b[m].visits <= a[m].visits + 1);
        if on_chain(start, m as nat, c as nat) {
            assert(a[m].visits == start[m].visits);
        } else {
            assert(b[m].visits == a[m].visits);
        }
    }
    assert forall|m: int| 0 <= m < start.len() && !on_chain(start, m as nat, at as nat) implies (
    #[trigger] b[m]).visits == start[m].visits by {
        lemma_chain_kept(start, a, m as nat, c as nat);
        if on_chain(start, m as nat, c as nat) {
            lemma_chain_goes_on(start, m as nat, c as nat, at as nat);
        }
        assert(a[m].visits == start[m].visits);
    }
    assert forall|other: nat|
        other < start.len() && other != c && depth(start, other) == depth(start, c as nat)
            && #[trigger] subtree_untouched(start, a, other) implies subtree_untouched(
        start,
        b,
        other,
    ) by {
        assert forall|m: int| 0 <= m < start.len() && on_chain(start, m as nat, other) implies (
        #[trigger] b[m]).visits == start[m].visits by {
            lemma_chain_kept(start, a, m as nat, c as nat);
            if on_chain(start, m as nat, c as nat) {
                lemma_chain_single(start, m as nat, other, c as nat);
            }
            assert(a[m].visits == start[m].visits);
        }
    }
}

/// Whether the longer sequence begins with the shorter one.
pub open spec fn begins_with(longer: Seq<Instruction>, shorter: Seq<Instruction>) -> bool {
    shorter.len() <= longer.len() && longer.take(shorter.len() as int) == shorter
}

/// A change to one node that keeps its links, and lowers neither its visit
/// count nor its done flag, keeps the tree.
pub(crate) proof fn lemma_touch(before: Seq<NodeView>, after: Seq<NodeView>, n: int)
    requires
        0 <= n < before.len() == after.len(),
        forall|m: int| 0 <= m < before.len() && m != n ==> #[trigger] after[m] == before[m],
        after[n].instruction == before[n].instruction,
        after[n].self_score == before[n].self_score,
        after[n].parent == before[n].parent,
        after[n].children == before[n].children,
        before[n].visits <= after[n].visits,
        before[n].done ==> after[n].done,
    ensures
        same_links(before, after),
        advanced(before, after, false),
{
    assert forall|m: int| 0 <= m < before.len() implies {
        &&& (#[trigger] after[m]).instruction == before[m].instruction
        &&& after[m].self_score == before[m].self_score
        &&& after[m].parent == before[m].parent
        &&& after[m].children == before[m].children
    } by {
        if m != n {
            assert(after[m] == before[m]);
        }
    }
    assert forall|m: int| 0 <= m < before.len() implies #[trigger] kept(
        before,
        after,
        m,
        false,
    ) by {
        if m != n {
            assert(after[m] == before[m]);
        }
    }
}

/// One more visit to a node that has been visited less often than its
/// parent keeps the visit counts in order.
pub(crate) proof fn lemma_visit_counted(before: Seq<NodeView>, after: Seq<NodeView>, n: int)
    requires
        tree_wf(before),
        visits_wf(before),
        same_links(before, after),
        0 <= n < before.len(),
        forall|m: int| 0 <= m < before.len() && m != n ==> (#[trigger] after[m]).visits == before[m].visits,
        after[n].visits == before[n].visits + 1,
        n != 0 ==> before[n].visits < before[before[n].parent.unwrap() as int].visits,
    ensures
        visits_wf(after),
{
    assert forall|m: int| 0 < m < after.len() implies #[trigger] visits_bounded(after, m) by {
        assert(visits_bounded(before, m));
        assert(linked_up(before, m));
    }
}

/// The children of a node lie one level below it.
pub proof fn lemma_child_depth(nodes: Seq<NodeView>, n: int, i: int)
    requires
        tree_wf(nodes),
        0 <= n < nodes.len(),
        0 <= i < nodes[n].children.len(),
    ensures
        depth(nodes, nodes[n].children[i]) == depth(nodes, n as nat) + 1,
        path(nodes, nodes[n].children[i]) == path(nodes, n as nat).push(
            nodes[nodes[n].children[i] as int].instruction,
        ),
        n < nodes[n].children[i] < nodes.len(),
{
    assert(linked_down(nodes, n, i));
}

/// Two different children of one node are different nodes.
pub proof fn lemma_children_distinct(
    nodes: Seq<NodeView>,
    vocabulary: Seq<Instruction>,
    n: int,
    i: int,
    j: int,
)
    requires
        vocabulary_respected(nodes, vocabulary),
        0 <= n < nodes.len(),
        0 <= i < nodes[n].children.len(),
        0 <= j < nodes[n].children.len(),
        i != j,
    ensures
        nodes[n].children[i] != nodes[n].children[j],
{
    if i < j {
        assert(siblings_differ(nodes, n, i, j));
    } else {
        assert(siblings_differ(nodes, n, j, i));
    }
}

/// The nodes of the subtree under `n` in the order of a walk that takes a
/// node before its children and the children from the last to the first.
pub open spec fn visit_order(nodes: Seq<NodeView>, n: nat) -> Seq<nat>
    decreases nodes.len() - n, 1nat, 0nat,
{
    if n >= nodes.len() {
        Seq::empty()
    } else {
        seq![n] + visit_children(nodes, n, nodes[n as int].children.len())
    }
}

/// The part of the walk that covers the first `upto` children of `n`, the
/// last of them first.
pub open spec fn visit_children(nodes: Seq<NodeView>, n: nat, upto: nat) -> Seq<nat>
    decreases nodes.len() - n, 0nat, upto,
{
    if n >= nodes.len() || upto == 0 || upto > nodes[n as int].children.len() {
        Seq::empty()
    } else {
        let c = nodes[n as int].children[upto - 1];
        let below = if n < c < nodes.len() {
            visit_order(nodes, c)
        } else {
            Seq::empty()
        };
        below + visit_children(nodes, n, (upto - 1) as nat)
    }
}

/// Two answers of the oracle for programs with the same instructions are the
/// same answer.
pub open spec fn same_answer<E: Fn(&Program) -> Option<u32>>(
    oracle: E,
    p: Program,
    q: Program,
    a: Option<u32>,
    b: Option<u32>,
) -> bool {
    p@ == q@ && call_ensures(oracle, (&p,), a) && call_ensures(oracle, (&q,), b) ==> a == b
}

/// Whether the oracle gives one answer for one sequence of instructions.
pub open spec fn single_valued<E: Fn(&Program) -> Option<u32>>(oracle: E) -> bool {
    forall|p: Program, q: Program, a: Option<u32>, b: Option<u32>| #[trigger]
        same_answer(oracle, p, q, a, b)
}

} // verus!

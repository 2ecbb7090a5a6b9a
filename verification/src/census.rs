//! How many nodes a search tree can hold.
//!
//! No node has more children than the vocabulary has entries, and none lies
//! deeper than the bound. So the tree holds at most as many nodes as the
//! full tree of that width and depth, and a search can grow it only so
//! often.
use crate::growth::lemma_children_bounded;
use crate::instructions::Instruction;
use crate::tree::{
    depth, depths_wf, lemma_chain_goes_on, lemma_passes_child, linked_down, linked_up, on_chain,
    tree_wf, under_a_child, vocabulary_respected, within_bound, NodeView,
};
use vstd::prelude::*;
use vstd::set_lib::{lemma_int_range, lemma_len_subset, lemma_len_union, set_int_range};

verus! {

/// The number of nodes of the full tree in which every node above the last
/// level has `branching` children and the last level lies `levels` below the
/// root.
pub open spec fn capacity(branching: nat, levels: nat) -> nat
    decreases levels,
{
    if levels == 0 {
        1
    } else {
        1 + branching * capacity(branching, (levels - 1) as nat)
    }
}

/// The positions of node `a` and of the nodes under it.
pub open spec fn under(nodes: Seq<NodeView>, a: nat) -> Set<int> {
    Set::new(|x: int| 0 <= x < nodes.len() && on_chain(nodes, x as nat, a))
}

/// The positions of node `a` and of the nodes at or under its first `k`
/// children.
pub open spec fn under_first(nodes: Seq<NodeView>, a: nat, k: int) -> Set<int> {
    Set::new(|x: int| 0 <= x < nodes.len() && (x == a || under_a_child(nodes, a, k, x)))
}

/// Every node lies under the root.
proof fn lemma_under_root(nodes: Seq<NodeView>, x: nat)
    requires
        tree_wf(nodes),
        x < nodes.len(),
    ensures
        on_chain(nodes, x, 0),
    decreases x,
{
    if x != 0 {
        assert(linked_up(nodes, x as int));
        lemma_under_root(nodes, nodes[x as int].parent.unwrap());
    }
}

/// The nodes at or under the first `k` children of `a` are no more than one
/// and `k` times what a subtree one level down can hold.
proof fn lemma_count_first(
    nodes: Seq<NodeView>,
    vocabulary: Seq<Instruction>,
    bound: nat,
    a: nat,
    k: int,
)
    requires
        tree_wf(nodes),
        vocabulary_respected(nodes, vocabulary),
        depths_wf(nodes, bound),
        a < nodes.len(),
        0 <= k <= nodes[a as int].children.len(),
        k > 0 ==> depth(nodes, a) < bound,
    ensures
        under_first(nodes, a, k).finite(),
        under_first(nodes, a, k).len() <= 1 + k * capacity(
            vocabulary.len(),
            (bound - depth(nodes, a) - 1) as nat,
        ),
    decreases nodes.len() - a, 0nat, k,
{
    lemma_int_range(0, nodes.len() as int);
    let all = set_int_range(0, nodes.len() as int);
    if k == 0 {
        assert(under_first(nodes, a, 0) =~= Set::<int>::empty().insert(a as int));
    } else {
        lemma_count_first(nodes, vocabulary, bound, a, k - 1);
        assert(linked_down(nodes, a as int, k - 1));
        let c = nodes[a as int].children[k - 1];
        lemma_count_under(nodes, vocabulary, bound, c);
        assert(under_first(nodes, a, k) =~= under_first(nodes, a, k - 1).union(under(nodes, c)))
            by {
            assert forall|x: int| under_first(nodes, a, k).contains(x) implies under_first(
                nodes,
                a,
                k - 1,
            ).union(under(nodes, c)).contains(x) by {
                if x != a {
                    let i = choose|i: int|
                        0 <= i < k && on_chain(
                            nodes,
                            x as nat,
                            #[trigger] nodes[a as int].children[i],
                        );
                    if i < k - 1 {
                        assert(under_a_child(nodes, a, k - 1, x));
                    }
                }
            }
            assert forall|x: int|
                under_first(nodes, a, k - 1).union(under(nodes, c)).contains(
                    x,
                ) implies under_first(nodes, a, k).contains(x) by {
                if under(nodes, c).contains(x) {
                    assert(on_chain(nodes, x as nat, nodes[a as int].children[k - 1]));
                } else if x != a {
                    let i = choose|i: int|
                        0 <= i < k - 1 && on_chain(
                            nodes,
                            x as nat,
                            #[trigger] nodes[a as int].children[i],
                        );
                    assert(under_a_child(nodes, a, k, x));
                }
            }
        }
        lemma_len_union(under_first(nodes, a, k - 1), under(nodes, c));
        lemma_len_subset(under_first(nodes, a, k), all);
        let room = capacity(vocabulary.len(), (bound - depth(nodes, a) - 1) as nat);
        assert(1 + (k - 1) * room + room == 1 + k * room) by (nonlinear_arith);
    }
}

/// A subtree holds no more nodes than the full tree of the depth that is
/// left under its root.
proof fn lemma_count_under(
    nodes: Seq<NodeView>,
    vocabulary: Seq<Instruction>,
    bound: nat,
    a: nat,
)
    requires
        tree_wf(nodes),
        vocabulary_respected(nodes, vocabulary),
        depths_wf(nodes, bound),
        a < nodes.len(),
    ensures
        under(nodes, a).finite(),
        under(nodes, a).len() <= capacity(vocabulary.len(), (bound - depth(nodes, a)) as nat),
    decreases nodes.len() - a, 1nat, 0int,
{
    let n = nodes[a as int].children.len() as int;
    assert(within_bound(nodes, bound, a as int));
    if n > 0 {
        assert(linked_down(nodes, a as int, 0));
        assert(within_bound(nodes, bound, nodes[a as int].children[0] as int));
    }
    lemma_count_first(nodes, vocabulary, bound, a, n);
    assert(under(nodes, a) =~= under_first(nodes, a, n)) by {
        assert forall|x: int| under(nodes, a).contains(x) implies under_first(
            nodes,
            a,
            n,
        ).contains(x) by {
            if x != a {
                lemma_passes_child(nodes, a, x as nat);
            }
        }
        assert forall|x: int| under_first(nodes, a, n).contains(x) implies under(
            nodes,
            a,
        ).contains(x) by {
            if x != a {
                let i = choose|i: int|
                    0 <= i < n && on_chain(nodes, x as nat, #[trigger] nodes[a as int].children[i]);
                assert(linked_down(nodes, a as int, i));
                lemma_chain_goes_on(nodes, x as nat, nodes[a as int].children[i], a);
            }
        }
    }
    lemma_children_bounded(nodes, vocabulary, a as int);
    let levels = (bound - depth(nodes, a)) as nat;
    if n > 0 {
        let room = capacity(vocabulary.len(), (levels - 1) as nat);
        assert(1 + n * room <= 1 + vocabulary.len() * room) by (nonlinear_arith)
            requires
                0 <= n <= vocabulary.len(),
                0 <= room,
        ;
    }
}

/// A tree within the bound holds no more nodes than the full tree of the
/// vocabulary's width and the bound's depth.
pub proof fn lemma_node_count_bounded(
    nodes: Seq<NodeView>,
    vocabulary: Seq<Instruction>,
    bound: nat,
)
    requires
        tree_wf(nodes),
        vocabulary_respected(nodes, vocabulary),
        depths_wf(nodes, bound),
    ensures
        nodes.len() <= capacity(vocabulary.len(), bound),
{
    lemma_count_under(nodes, vocabulary, bound, 0);
    lemma_int_range(0, nodes.len() as int);
    assert(under(nodes, 0) =~= set_int_range(0, nodes.len() as int)) by {
        assert forall|x: int| 0 <= x < nodes.len() implies under(nodes, 0).contains(x) by {
            lemma_under_root(nodes, x as nat);
        }
    }
}

} // verus!

//! How a search walks the tree, and what the draws have to do with it.
//!
//! At every open node that it enters the search either grows a child at
//! once or goes on into the children, and both the decision and the child it
//! enters first are fixed by draws of the source.
use crate::binary32::below;
use crate::growth::{
    entered, leaf_under, open_node, prospects_kept, same_prospects, stayed, walked,
};
use crate::instructions::{computes, Instruction, Operation};
use crate::scores::softmax_choice;
use crate::tree::{
    child_scores, depth, lemma_chain_below, lemma_chain_kept, lemma_chain_trans,
    lemma_passes_child, lemma_path_kept, linked_down, on_chain, same_skeleton, subtree_untouched,
    tree_wf, NodeView,
};
use vstd::prelude::*;

verus! {

/// Whether the source has given a draw that lies below the exploration
/// chance (`heads`), or one that does not.
pub open spec fn coin_fell<R: Fn() -> u32>(source: R, chance: u32, heads: bool) -> bool {
    exists|draw: u32| #[trigger] call_ensures(source, (), draw) && below(draw, chance) == heads
}

/// Whether `first` is the child of `node` that a draw of the source falls
/// to, by the softmax of the children's scores.
pub open spec fn first_choice<A: Fn(Operation) -> u32, R: Fn() -> u32>(
    source: R,
    unit: A,
    nodes: Seq<NodeView>,
    node: nat,
    draw: u32,
    first: int,
) -> bool {
    &&& call_ensures(source, (), draw)
    &&& 0 <= first < nodes[node as int].children.len()
    &&& forall|model: spec_fn(Operation) -> u32| #[trigger]
        computes(&unit, model) ==> softmax_choice(
            model,
            child_scores(nodes, node as int),
            draw,
            first,
        )
}

/// Whether the step at the open node `node` has gone the way the draws
/// point. Either the node has fewer children than the vocabulary has
/// entries, and has none at all or a draw has fallen below the exploration
/// chance: then no child is entered, and a new leaf under the node hangs on
/// the node itself. Or a draw has picked a first child by the softmax of
/// the scores, and the children have been walked from that one on.
pub open spec fn followed_draws<A: Fn(Operation) -> u32, R: Fn() -> u32>(
    source: R,
    unit: A,
    chance: u32,
    vocabulary_len: nat,
    before: Seq<NodeView>,
    after: Seq<NodeView>,
    node: nat,
    grown: bool,
) -> bool {
    let n = before[node as int].children.len();
    ||| {
        &&& n < vocabulary_len
        &&& n == 0 || coin_fell(source, chance, true)
        &&& stayed(before, after, node)
        &&& leaf_under(before, after, grown, node) ==> after.last().parent == Some(node)
    }
    ||| {
        &&& n > 0
        &&& n >= vocabulary_len || coin_fell(source, chance, false)
        &&& exists|draw: u32, first: int| #[trigger]
            first_choice(source, unit, before, node, draw, first) && walked(
                before,
                after,
                grown,
                node,
                first,
            )
    }
}

/// Whether the search has gone the way the draws point at every open node
/// that it has entered at or under `node`.
pub open spec fn walk_followed<A: Fn(Operation) -> u32, R: Fn() -> u32>(
    source: R,
    unit: A,
    chance: u32,
    vocabulary: Seq<Instruction>,
    bound: nat,
    before: Seq<NodeView>,
    after: Seq<NodeView>,
    node: nat,
    grown: bool,
) -> bool {
    forall|m: int|
        0 <= m < before.len() && on_chain(before, m as nat, node) && entered(
            before,
            after,
            m as nat,
        ) && open_node(before, vocabulary, bound, m as nat, depth(before, m as nat))
            ==> #[trigger] followed_draws(
            source,
            unit,
            chance,
            vocabulary.len(),
            before,
            after,
            m as nat,
            grown,
        )
}

/// What is known of the step at a node carries over to other states of the
/// tree in which the node has the same children with the same scores, and in
/// which the same children have been entered and have the leaf under them.
pub(crate) proof fn lemma_draws_carry<A: Fn(Operation) -> u32, R: Fn() -> u32>(
    source: R,
    unit: A,
    chance: u32,
    vocabulary_len: nat,
    before1: Seq<NodeView>,
    after1: Seq<NodeView>,
    grown1: bool,
    before2: Seq<NodeView>,
    after2: Seq<NodeView>,
    grown2: bool,
    m: nat,
)
    requires
        followed_draws(source, unit, chance, vocabulary_len, before1, after1, m, grown1),
        before2[m as int].children == before1[m as int].children,
        child_scores(before2, m as int) == child_scores(before1, m as int),
        forall|j: int|
            0 <= j < before1[m as int].children.len() ==> entered(
                before2,
                after2,
                #[trigger] before1[m as int].children[j],
            ) == entered(before1, after1, before1[m as int].children[j]),
        forall|j: int|
            0 <= j < before1[m as int].children.len() ==> leaf_under(
                before2,
                after2,
                grown2,
                #[trigger] before1[m as int].children[j],
            ) == leaf_under(before1, after1, grown1, before1[m as int].children[j]),
        leaf_under(before2, after2, grown2, m) ==> leaf_under(before1, after1, grown1, m)
            && after2.last().parent == after1.last().parent,
    ensures
        followed_draws(source, unit, chance, vocabulary_len, before2, after2, m, grown2),
{
    let children = before1[m as int].children;
    let n = children.len();
    if n < vocabulary_len && (n == 0 || coin_fell(source, chance, true)) && stayed(
        before1,
        after1,
        m,
    ) && (leaf_under(before1, after1, grown1, m) ==> after1.last().parent == Some(m)) {
        assert forall|j: int| 0 <= j < before2[m as int].children.len() implies !entered(
            before2,
            after2,
            #[trigger] before2[m as int].children[j],
        ) by {
            assert(!entered(before1, after1, children[j]));
        }
    } else {
        let (draw, first) = choose|draw: u32, first: int| #[trigger]
            first_choice(source, unit, before1, m, draw, first) && walked(
                before1,
                after1,
                grown1,
                m,
                first,
            );
        assert(first_choice(source, unit, before2, m, draw, first));
        assert forall|j: int| 0 <= j < children.len() implies (entered(
            before2,
            after2,
            #[trigger] children[j],
        ) <==> forall|k: int|
            0 <= k < children.len() && j != first && k != j && (k == first || k < j)
                ==> !leaf_under(before2, after2, grown2, #[trigger] children[k])) by {
            let rule1 = forall|k: int|
                0 <= k < children.len() && j != first && k != j && (k == first || k < j)
                    ==> !leaf_under(before1, after1, grown1, #[trigger] children[k]);
            let rule2 = forall|k: int|
                0 <= k < children.len() && j != first && k != j && (k == first || k < j)
                    ==> !leaf_under(before2, after2, grown2, #[trigger] children[k]);
            assert(entered(before1, after1, children[j]) <==> rule1);
            assert(rule1 <==> rule2) by {
                assert forall|k: int| 0 <= k < children.len() implies leaf_under(
                    before2,
                    after2,
                    grown2,
                    #[trigger] children[k],
                ) == leaf_under(before1, after1, grown1, children[k]) by {}
            }
        }
        assert(walked(before2, after2, grown2, m, first));
    }
}

/// What is known of the walk under a node carries over to other states of
/// the tree in which the prospects are the same and, under the node, the
/// same nodes have been entered and have the leaf under them.
pub(crate) proof fn lemma_walk_carry<A: Fn(Operation) -> u32, R: Fn() -> u32>(
    source: R,
    unit: A,
    chance: u32,
    vocabulary: Seq<Instruction>,
    bound: nat,
    before1: Seq<NodeView>,
    after1: Seq<NodeView>,
    grown1: bool,
    before2: Seq<NodeView>,
    after2: Seq<NodeView>,
    grown2: bool,
    c: nat,
)
    requires
        tree_wf(before2),
        same_prospects(before2, before1, vocabulary, bound),
        walk_followed(source, unit, chance, vocabulary, bound, before1, after1, c, grown1),
        forall|m: int|
            0 <= m < before2.len() && on_chain(before2, m as nat, c) ==> (
            #[trigger] before1[m]).visits == before2[m].visits,
        forall|m: int|
            0 <= m < before2.len() && on_chain(before2, m as nat, c) ==> (
            #[trigger] after1[m]).visits == after2[m].visits,
        forall|m: int|
            0 <= m < before2.len() && on_chain(before2, m as nat, c) ==> #[trigger] leaf_under(
                before2,
                after2,
                grown2,
                m as nat,
            ) == leaf_under(before1, after1, grown1, m as nat),
        leaf_under(before2, after2, grown2, c) ==> after2.last().parent == after1.last().parent,
    ensures
        walk_followed(source, unit, chance, vocabulary, bound, before2, after2, c, grown2),
{
    assert(same_skeleton(before2, before1)) by {
        assert forall|n: int| 0 <= n < before2.len() implies {
            &&& (#[trigger] before1[n]).instruction == before2[n].instruction
            &&& before1[n].self_score == before2[n].self_score
            &&& before1[n].parent == before2[n].parent
        } by {
            assert(prospects_kept(before2, before1, vocabulary, bound, n));
        }
    }
    assert forall|m: int|
        0 <= m < before2.len() && on_chain(before2, m as nat, c) && entered(
            before2,
            after2,
            m as nat,
        ) && open_node(
            before2,
            vocabulary,
            bound,
            m as nat,
            depth(before2, m as nat),
        ) implies #[trigger] followed_draws(
        source,
        unit,
        chance,
        vocabulary.len(),
        before2,
        after2,
        m as nat,
        grown2,
    ) by {
        assert(prospects_kept(before2, before1, vocabulary, bound, m));
        lemma_path_kept(before2, before1, m as nat);
        lemma_chain_kept(before2, before1, m as nat, c);
        assert(before1[m].visits == before2[m].visits);
        assert(after1[m].visits == after2[m].visits);
        assert(entered(before1, after1, m as nat));
        assert(open_node(before1, vocabulary, bound, m as nat, depth(before1, m as nat)));
        assert(followed_draws(
            source,
            unit,
            chance,
            vocabulary.len(),
            before1,
            after1,
            m as nat,
            grown1,
        ));
        let children = before1[m].children;
        assert forall|j: int| 0 <= j < children.len() implies 0 <= #[trigger] children[j]
            < before2.len() && on_chain(before2, children[j], c) by {
            assert(linked_down(before2, m, j));
        }
        assert(child_scores(before2, m) =~= child_scores(before1, m)) by {
            assert forall|j: int| 0 <= j < children.len() implies before2[children[j] as int].self_score
                == before1[children[j] as int].self_score by {
                assert(0 <= children[j] < before2.len());
                assert(prospects_kept(before2, before1, vocabulary, bound, children[j] as int));
            }
        }
        assert forall|j: int| 0 <= j < children.len() implies entered(
            before2,
            after2,
            #[trigger] children[j],
        ) == entered(before1, after1, children[j]) by {
            let x = children[j] as int;
            assert(0 <= children[j] < before2.len() && on_chain(before2, children[j], c));
            assert(before1[x].visits == before2[x].visits);
            assert(after1[x].visits == after2[x].visits);
        }
        assert forall|j: int| 0 <= j < children.len() implies leaf_under(
            before2,
            after2,
            grown2,
            #[trigger] children[j],
        ) == leaf_under(before1, after1, grown1, children[j]) by {
            assert(0 <= children[j] < before2.len() && on_chain(before2, children[j], c));
            let x = children[j] as int;
            assert(leaf_under(before2, after2, grown2, x as nat) == leaf_under(
                before1,
                after1,
                grown1,
                x as nat,
            ));
        }
        if leaf_under(before2, after2, grown2, m as nat) {
            lemma_chain_trans(before2, after2.last().parent.unwrap(), m as nat, c);
        }
        lemma_draws_carry(
            source,
            unit,
            chance,
            vocabulary.len(),
            before1,
            after1,
            grown1,
            before2,
            after2,
            grown2,
            m as nat,
        );
    }
}

/// Nothing is to be said of the walk under a node that no search has
/// entered.
pub(crate) proof fn lemma_walk_idle<A: Fn(Operation) -> u32, R: Fn() -> u32>(
    source: R,
    unit: A,
    chance: u32,
    vocabulary: Seq<Instruction>,
    bound: nat,
    before: Seq<NodeView>,
    after: Seq<NodeView>,
    c: nat,
    grown: bool,
)
    requires
        forall|m: int|
            0 <= m < before.len() && on_chain(before, m as nat, c) ==> (#[trigger] after[m]).visits
                == before[m].visits,
    ensures
        walk_followed(source, unit, chance, vocabulary, bound, before, after, c, grown),
{
    assert forall|m: int|
        0 <= m < before.len() && on_chain(before, m as nat, c) && entered(
            before,
            after,
            m as nat,
        ) && open_node(
            before,
            vocabulary,
            bound,
            m as nat,
            depth(before, m as nat),
        ) implies #[trigger] followed_draws(
        source,
        unit,
        chance,
        vocabulary.len(),
        before,
        after,
        m as nat,
        grown,
    ) by {
        assert(after[m].visits == before[m].visits);
    }
}

/// The walk under a node is the step at the node and the walks under its
/// children.
pub(crate) proof fn lemma_walk_assemble<A: Fn(Operation) -> u32, R: Fn() -> u32>(
    source: R,
    unit: A,
    chance: u32,
    vocabulary: Seq<Instruction>,
    bound: nat,
    before: Seq<NodeView>,
    after: Seq<NodeView>,
    at: nat,
    grown: bool,
)
    requires
        tree_wf(before),
        at < before.len(),
        entered(before, after, at) && open_node(
            before,
            vocabulary,
            bound,
            at,
            depth(before, at),
        ) ==> followed_draws(
            source,
            unit,
            chance,
            vocabulary.len(),
            before,
            after,
            at,
            grown,
        ),
        forall|j: int|
            0 <= j < before[at as int].children.len() ==> walk_followed(
                source,
                unit,
                chance,
                vocabulary,
                bound,
                before,
                after,
                #[trigger] before[at as int].children[j],
                grown,
            ),
    ensures
        walk_followed(source, unit, chance, vocabulary, bound, before, after, at, grown),
{
    assert forall|m: int|
        0 <= m < before.len() && on_chain(before, m as nat, at) && entered(
            before,
            after,
            m as nat,
        ) && open_node(
            before,
            vocabulary,
            bound,
            m as nat,
            depth(before, m as nat),
        ) implies #[trigger] followed_draws(
        source,
        unit,
        chance,
        vocabulary.len(),
        before,
        after,
        m as nat,
        grown,
    ) by {
        if m != at {
            lemma_passes_child(before, at, m as nat);
            let i = choose|i: int|
                0 <= i < before[at as int].children.len() && on_chain(
                    before,
                    m as nat,
                    #[trigger] before[at as int].children[i],
                );
            assert(walk_followed(
                source,
                unit,
                chance,
                vocabulary,
                bound,
                before,
                after,
                before[at as int].children[i],
                grown,
            ));
        }
    }
}

/// The walk of a search that has entered no node under `at`: what is known
/// of the step at `at` is all there is to know.
pub(crate) proof fn lemma_walk_here<A: Fn(Operation) -> u32, R: Fn() -> u32>(
    source: R,
    unit: A,
    chance: u32,
    vocabulary: Seq<Instruction>,
    bound: nat,
    before: Seq<NodeView>,
    after: Seq<NodeView>,
    at: nat,
    grown: bool,
)
    requires
        tree_wf(before),
        at < before.len(),
        open_node(before, vocabulary, bound, at, depth(before, at)) ==> followed_draws(
            source,
            unit,
            chance,
            vocabulary.len(),
            before,
            after,
            at,
            grown,
        ),
        forall|m: int|
            0 <= m < before.len() && m != at ==> (#[trigger] after[m]).visits == before[m].visits,
    ensures
        walk_followed(source, unit, chance, vocabulary, bound, before, after, at, grown),
{
    assert forall|j: int| 0 <= j < before[at as int].children.len() implies walk_followed(
        source,
        unit,
        chance,
        vocabulary,
        bound,
        before,
        after,
        #[trigger] before[at as int].children[j],
        grown,
    ) by {
        let c = before[at as int].children[j];
        assert(linked_down(before, at as int, j));
        assert forall|m: int| 0 <= m < before.len() && on_chain(before, m as nat, c) implies (
        #[trigger] after[m]).visits == before[m].visits by {
            lemma_chain_below(before, m as nat, c);
        }
        lemma_walk_idle(source, unit, chance, vocabulary, bound, before, after, c, grown);
    }
    lemma_walk_assemble(source, unit, chance, vocabulary, bound, before, after, at, grown);
}

/// The walk under a child that the search has just come back from, seen
/// from the state in which the step at its parent began.
pub(crate) proof fn lemma_walk_entered<A: Fn(Operation) -> u32, R: Fn() -> u32>(
    source: R,
    unit: A,
    chance: u32,
    vocabulary: Seq<Instruction>,
    bound: nat,
    start: Seq<NodeView>,
    a: Seq<NodeView>,
    b: Seq<NodeView>,
    grown: bool,
    c: nat,
)
    requires
        tree_wf(start),
        same_prospects(start, a, vocabulary, bound),
        walk_followed(source, unit, chance, vocabulary, bound, a, b, c, grown),
        subtree_untouched(start, a, c),
    ensures
        walk_followed(source, unit, chance, vocabulary, bound, start, b, c, grown),
{
    assert forall|m: int| 0 <= m < start.len() && on_chain(start, m as nat, c) implies #[trigger] leaf_under(
        start,
        b,
        grown,
        m as nat,
    ) == leaf_under(a, b, grown, m as nat) by {
        assert forall|n: int| 0 <= n < start.len() implies (#[trigger] a[n]).parent
            == start[n].parent by {
            assert(prospects_kept(start, a, vocabulary, bound, n));
        }
        lemma_chain_kept(start, a, b.last().parent.unwrap(), m as nat);
    }
    lemma_walk_carry(
        source,
        unit,
        chance,
        vocabulary,
        bound,
        a,
        b,
        grown,
        start,
        b,
        grown,
        c,
    );
}

/// The walk under a child stays what it was while the search is busy
/// elsewhere and hangs no leaf under that child.
pub(crate) proof fn lemma_walk_elsewhere<A: Fn(Operation) -> u32, R: Fn() -> u32>(
    source: R,
    unit: A,
    chance: u32,
    vocabulary: Seq<Instruction>,
    bound: nat,
    start: Seq<NodeView>,
    a: Seq<NodeView>,
    b: Seq<NodeView>,
    grown: bool,
    c: nat,
)
    requires
        tree_wf(start),
        walk_followed(source, unit, chance, vocabulary, bound, start, a, c, false),
        c < start.len(),
        forall|m: int|
            0 <= m < start.len() && on_chain(start, m as nat, c) ==> (#[trigger] a[m]).visits
                == b[m].visits,
        grown ==> !on_chain(start, b.last().parent.unwrap(), c),
    ensures
        walk_followed(source, unit, chance, vocabulary, bound, start, b, c, grown),
{
    assert forall|n: int| 0 <= n < start.len() implies #[trigger] prospects_kept(
        start,
        start,
        vocabulary,
        bound,
        n,
    ) by {}
    assert forall|m: int| 0 <= m < start.len() && on_chain(start, m as nat, c) implies #[trigger] leaf_under(
        start,
        b,
        grown,
        m as nat,
    ) == leaf_under(start, a, false, m as nat) by {
        let up = b.last().parent.unwrap();
        if grown && on_chain(start, up, m as nat) {
            lemma_chain_trans(start, up, m as nat, c);
        }
    }
    lemma_walk_carry(
        source,
        unit,
        chance,
        vocabulary,
        bound,
        start,
        a,
        false,
        start,
        b,
        grown,
        c,
    );
}

} // verus!

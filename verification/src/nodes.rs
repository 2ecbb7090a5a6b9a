//! The engine that grows the search tree.
//!
//! The nodes live in one arena and name each other by handle. A search goes
//! down from the root, grows one leaf, has the oracle score the program that
//! ends in it, and brings the aggregates above the leaf up to date.
use crate::arena::{Ap, Arena};
use crate::binary32::{
    below, finite_part, is_below, is_score_below, keep_finite, lemma_not_below_transitive,
    score_at_least, score_below,
};
use crate::census::{capacity, lemma_node_count_bounded};
use crate::growth::{
    can_grow, entered, free_entry, leaf_hangs, leaf_under, lemma_free_entry_kept, lemma_prospects,
    lemma_prospects_chain, must_grow, open_node, prospects_kept, same_prospects, turned_back,
    walked,
};
use crate::instructions::{total, Instruction, Operation, Program};
use crate::pruning::{
    complete_copy, copied_node, copy_order, copy_order_below, copying, lemma_child_converted,
    lemma_copy_complete, lemma_copy_depths, lemma_copy_greatest, lemma_copy_is_complete,
    lemma_copy_path, lemma_copy_visited, lemma_copy_wf, lemma_retained_member,
    lemma_survivor_copied, parent_copied, pruned_copy, retained, subtree_copied, survives,
};
use crate::scores::{best_of, choose_position, later_score};
use crate::tree::{
    advanced, aggregates_follow, aggregates_kept, begins_with, carried, chain_refreshed,
    child_scores, depth, depths_wf, done_children, first_free, greatest_at, kept,
    lemma_advanced_after_growth, lemma_advanced_chain, lemma_advanced_skeleton,
    lemma_aggregates_after_growth, lemma_aggregates_chain, lemma_chain_below, lemma_chain_between,
    lemma_chain_depth, lemma_chain_goes_on, lemma_chain_kept, lemma_chain_single,
    lemma_child_depth, lemma_children_distinct, lemma_depths_kept, lemma_done_children_kept,
    lemma_greatest_after_growth, lemma_greatest_kept, lemma_links_kept, lemma_links_skeleton,
    lemma_path_kept, lemma_path_len, lemma_recalculated_fresh, lemma_subtree_call_frame,
    lemma_touch, lemma_visit_counted, lemma_visits_kept, lemma_with_child_depths,
    lemma_with_child_wf, linked_down, linked_up, listed, node_scored, on_chain, outside_untouched,
    path, recalculated, refreshed, same_answer, same_links, scored_by, scores_wf, single_valued,
    subtree_untouched, tree_wf, visit_children, visit_order, visited_once, visits_bounded,
    visits_wf, vocabulary_respected, with_child, within_bound, NodeView,
};
use crate::walk::{
    coin_fell, first_choice, followed_draws, lemma_walk_assemble, lemma_walk_elsewhere,
    lemma_walk_entered, lemma_walk_here, lemma_walk_idle, walk_followed,
};
use vstd::prelude::*;
use vstd::slice::slice_to_vec;

verus! {

/// One node of the search tree.
pub struct ProgramNode {
    instruction: Instruction,
    /// The score of the program that ends in this node, where it has one.
    self_score: Option<u32>,
    /// The best score among the children, as of the last recalculation.
    child_score: Option<u32>,
    children: Vec<Ap<ProgramNode>>,
    parent: Option<Ap<ProgramNode>>,
    done: bool,
    /// How often a search has come through this node.
    visits: u64,
}

impl View for ProgramNode {
    type V = NodeView;

    closed spec fn view(&self) -> NodeView {
        NodeView {
            instruction: self.instruction,
            self_score: self.self_score,
            child_score: self.child_score,
            children: Seq::new(self.children@.len(), |i: int| self.children@[i].index()),
            parent: match self.parent {
                Some(p) => Some(p.index()),
                None => None,
            },
            done: self.done,
            visits: self.visits,
        }
    }
}

impl ProgramNode {
    /// A node without parent or children that no search has visited yet.
    pub fn new(inst: Instruction, score: Option<u32>) -> (r: Self)
        ensures
            r@ == (NodeView {
                instruction: inst,
                self_score: score,
                child_score: None,
                children: Seq::empty(),
                parent: None,
                done: false,
                visits: 0,
            }),
    {
        let r = Self {
            instruction: inst,
            self_score: score,
            child_score: None,
            children: Vec::new(),
            parent: None,
            done: false,
            visits: 0,
        };
        assert(r@.children =~= Seq::empty());
        r
    }
}

/// The views of the nodes of an arena, in the arena's order.
pub open spec fn views(arena: Seq<ProgramNode>) -> Seq<NodeView> {
    Seq::new(arena.len(), |i: int| arena[i]@)
}

/// Brings the aggregates of a node up to date, then those of its parent, and
/// so on up to the root.
fn recalculate_score_recursive(
    arena: &mut Arena<ProgramNode>,
    vocabulary_len: usize,
    node: &Ap<ProgramNode>,
)
    requires
        tree_wf(views(old(arena)@)),
        node.index() < old(arena)@.len(),
    ensures
        same_links(views(old(arena)@), views(final(arena)@)),
        forall|m: int|
            0 <= m < old(arena)@.len() ==> {
                &&& (#[trigger] views(final(arena)@)[m]).visits == views(old(arena)@)[m].visits
                &&& views(old(arena)@)[m].done ==> views(final(arena)@)[m].done
                &&& if on_chain(views(old(arena)@), node.index(), m as nat) {
                    refreshed(views(old(arena)@), views(final(arena)@), vocabulary_len as nat, m)
                } else {
                    views(final(arena)@)[m] == views(old(arena)@)[m]
                }
            },
    decreases node.index(),
{
    let ghost before = views(arena@);
    let ghost at = node.index() as int;
    let n_children = node.get(arena).children.len();
    let mut best: Option<u32> = None;
    let mut done: usize = 0;
    let mut i: usize = 0;
    assert(child_scores(before, at).take(0) =~= Seq::<Option<u32>>::empty());
    while i < n_children
        invariant
            before == views(arena@),
            at == node.index(),
            0 <= at < before.len(),
            tree_wf(before),
            n_children == before[at].children.len(),
            i <= n_children,
            done <= i,
            done == done_children(before, at, i as int),
            best == best_of(child_scores(before, at).take(i as int)),
        decreases n_children - i,
    {
        assert(linked_down(before, at, i as int));
        let c = node.get(arena).children[i];
        let child = c.get(arena);
        assert(child_scores(before, at).take(i + 1).drop_last() =~= child_scores(before, at).take(
            i as int,
        ));
        best = later_score(best, child.self_score);
        if child.done {
            done = done + 1;
        }
        i = i + 1;
    }
    assert(child_scores(before, at).take(n_children as int) =~= child_scores(before, at));
    let target = node.get_mut(arena);
    target.child_score = best;
    if done == vocabulary_len {
        target.done = true;
    }
    let ghost mid = views(arena@);
    proof {
        assert(same_links(before, mid)) by {
            assert forall|n: int| 0 <= n < before.len() implies {
                &&& (#[trigger] mid[n]).instruction == before[n].instruction
                &&& mid[n].self_score == before[n].self_score
                &&& mid[n].parent == before[n].parent
                &&& mid[n].children == before[n].children
            } by {
                if n != at {
                    assert(mid[n] == before[n]);
                }
            }
        }
        assert forall|n: int| 0 <= n < before.len() && n != at implies mid[n] == before[n] by {}
        assert forall|k: int| 0 < k < mid.len() implies #[trigger] linked_up(mid, k) by {
            assert(linked_up(before, k));
        }
        assert forall|k: int| 0 < k < mid.len() implies #[trigger] listed(mid, k) by {
            assert(listed(before, k));
            assert(linked_up(before, k));
            let up = before[k].parent.unwrap() as int;
            assert(mid[up].children == before[up].children);
        }
        assert forall|k: int, j: int|
            0 <= k < mid.len() && 0 <= j < mid[k].children.len() implies #[trigger] linked_down(
            mid,
            k,
            j,
        ) by {
            assert(linked_down(before, k, j));
        }
        assert(child_scores(mid, at) =~= child_scores(before, at)) by {
            assert forall|j: int| 0 <= j < before[at].children.len() implies mid[before[at].children[j] as int].self_score
                == before[before[at].children[j] as int].self_score by {
                assert(linked_down(before, at, j));
            }
        }
        assert(done_children(mid, at, n_children as int) == done_children(
            before,
            at,
            n_children as int,
        )) by {
            assert forall|j: int| 0 <= j < before[at].children.len() implies 0
                <= #[trigger] before[at].children[j] < before.len()
                && mid[before[at].children[j] as int].done
                == before[before[at].children[j] as int].done by {
                assert(linked_down(before, at, j));
            }
            lemma_done_children_kept(before, mid, at, n_children as int);
        }
        assert(refreshed(before, mid, vocabulary_len as nat, at));
    }
    let parent = node.get(arena).parent;
    match parent {
        Some(parent) => {
            assert(linked_up(before, at));
            recalculate_score_recursive(arena, vocabulary_len, &parent);
            let ghost after = views(arena@);
            proof {
                let up = parent.index();
                assert forall|m: int| 0 <= m < before.len() implies {
                    &&& (#[trigger] after[m]).visits == before[m].visits
                    &&& before[m].done ==> after[m].done
                    &&& if on_chain(before, at as nat, m as nat) {
                        refreshed(before, after, vocabulary_len as nat, m)
                    } else {
                        after[m] == before[m]
                    }
                } by {
                    assert(after[m].visits == mid[m].visits);
                    lemma_chain_kept(before, mid, up, m as nat);
                    if on_chain(mid, up, m as nat) {
                        lemma_chain_below(mid, up, m as nat);
                        assert(m != at);
                        assert(mid[m] == before[m]);
                        assert(refreshed(mid, after, vocabulary_len as nat, m));
                    } else {
                        assert(after[m] == mid[m]);
                        if m == at {
                            assert(child_scores(after, at) =~= child_scores(mid, at)) by {
                                assert forall|j: int|
                                    0 <= j < mid[at].children.len() implies after[mid[at].children[j] as int].self_score
                                    == mid[mid[at].children[j] as int].self_score by {
                                    assert(linked_down(mid, at, j));
                                }
                            }
                            assert forall|j: int|
                                0 <= j < mid[at].children.len() implies 0
                                <= #[trigger] mid[at].children[j] < mid.len()
                                && after[mid[at].children[j] as int].done
                                == mid[mid[at].children[j] as int].done by {
                                assert(linked_down(mid, at, j));
                                let c = mid[at].children[j];
                                if on_chain(mid, up, c) {
                                    lemma_chain_below(mid, up, c);
                                }
                                assert(after[c as int] == mid[c as int]);
                            }
                            lemma_done_children_kept(mid, after, at, n_children as int);
                        }
                    }
                }
            }
        },
        None => {
            proof {
                assert forall|m: int| 0 <= m < before.len() implies (#[trigger] on_chain(
                    before,
                    at as nat,
                    m as nat,
                ) <==> m == at) by {}
            }
        },
    }
}

/// Draws one instruction of the vocabulary at random, by a call of
/// `fastrand::choice` on the thread's generator. That function returns
/// `None` for an empty iterator and otherwise the item at an index below the
/// iterator's length; nothing more is claimed here.
#[verifier::external_body]
fn random_instruction(vocabulary: &Vec<Instruction>) -> (r: Option<Instruction>)
    ensures
        vocabulary@.len() == 0 ==> r is None,
        vocabulary@.len() > 0 ==> r is Some && vocabulary@.contains(r.unwrap()),
{
    fastrand::choice(vocabulary.iter()).copied()
}

/// Whether one of the children of the node carries the instruction.
fn carries(arena: &Arena<ProgramNode>, node: &Ap<ProgramNode>, inst: Instruction) -> (r: bool)
    requires
        tree_wf(views(arena@)),
        node.index() < arena@.len(),
    ensures
        r == carried(views(arena@), node.index() as int, inst),
{
    let ghost nodes = views(arena@);
    let ghost at = node.index() as int;
    let children = &node.get(arena).children;
    let mut i: usize = 0;
    while i < children.len()
        invariant
            nodes == views(arena@),
            at == node.index(),
            0 <= at < nodes.len(),
            tree_wf(nodes),
            children@.len() == nodes[at].children.len(),
            forall|j: int| 0 <= j < children@.len() ==> children@[j].index() == nodes[at].children[j],
            i <= children@.len(),
            forall|j: int|
                0 <= j < i ==> (#[trigger] nodes[nodes[at].children[j] as int]).instruction != inst,
        decreases children@.len() - i,
    {
        assert(linked_down(nodes, at, i as int));
        let c = children[i];
        if c.get(arena).instruction == inst {
            return true;
        }
        i = i + 1;
    }
    false
}

/// The first instruction of the vocabulary that no child of the node
/// carries.
fn first_unused(
    arena: &Arena<ProgramNode>,
    vocabulary: &Vec<Instruction>,
    node: &Ap<ProgramNode>,
) -> (r: Option<Instruction>)
    requires
        tree_wf(views(arena@)),
        node.index() < arena@.len(),
    ensures
        match r {
            Some(inst) => exists|k: int|
                first_free(views(arena@), node.index() as int, vocabulary@, k) && vocabulary@[k]
                    == inst,
            None => forall|k: int|
                0 <= k < vocabulary@.len() ==> carried(
                    views(arena@),
                    node.index() as int,
                    #[trigger] vocabulary@[k],
                ),
        },
{
    let mut k: usize = 0;
    while k < vocabulary.len()
        invariant
            tree_wf(views(arena@)),
            node.index() < arena@.len(),
            k <= vocabulary@.len(),
            forall|j: int|
                0 <= j < k ==> carried(views(arena@), node.index() as int, #[trigger] vocabulary@[j]),
        decreases vocabulary@.len() - k,
    {
        let inst = vocabulary[k];
        if !carries(arena, node, inst) {
            assert(first_free(views(arena@), node.index() as int, vocabulary@, k as int));
            return Some(inst);
        }
        k = k + 1;
    }
    None
}

/// The positions that a list of handles names.
pub open spec fn positions(handles: Seq<Ap<ProgramNode>>) -> Seq<nat> {
    Seq::new(handles.len(), |i: int| handles[i].index())
}

/// Whether the handle of the best node's copy is up to date: it names a
/// copy of the best node, or is still absent because no copy of the best
/// node has been made.
pub open spec fn best_tracked(
    best: Option<Ap<ProgramNode>>,
    source: Seq<nat>,
    old_best: nat,
) -> bool {
    match best {
        Some(b) => b.index() < source.len() && source[b.index() as int] == old_best,
        None => forall|j: int| 0 <= j < source.len() ==> #[trigger] source[j] != old_best,
    }
}

/// Copies a node and, under it, the subtrees of those of its children that
/// have been visited often enough, into the new arena: the node first, then
/// each kept child's subtree in turn. `source` names, for each node of the
/// new arena, the node of the old one that it stands for.
fn convert_node(
    old_arena: &Arena<ProgramNode>,
    new_arena: &mut Arena<ProgramNode>,
    old_node: Ap<ProgramNode>,
    new_parent: Option<Ap<ProgramNode>>,
    old_best_node: Ap<ProgramNode>,
    new_best_node: &mut Option<Ap<ProgramNode>>,
    minimum_visits: u64,
    Ghost(source): Ghost<Seq<nat>>,
) -> (r: (Ap<ProgramNode>, Ghost<Seq<nat>>))
    requires
        tree_wf(views(old_arena@)),
        old_node.index() < old_arena@.len(),
        source.len() == old(new_arena)@.len(),
        new_parent matches Some(q) ==> q.index() < old(new_arena)@.len(),
        best_tracked(*old(new_best_node), source, old_best_node.index()),
    ensures
        r.0.index() == old(new_arena)@.len(),
        subtree_copied(
            views(old_arena@),
            views(old(new_arena)@),
            source,
            views(final(new_arena)@),
            r.1@,
            minimum_visits,
        ),
        r.1@ == source + copy_order(views(old_arena@), old_node.index(), minimum_visits),
        views(final(new_arena)@)[r.0.index() as int].parent == match new_parent {
            Some(q) => Some(q.index()),
            None => views(old_arena@)[old_node.index() as int].parent,
        },
        best_tracked(*final(new_best_node), r.1@, old_best_node.index()),
    decreases old_arena@.len() - old_node.index(),
{
    let ghost before = views(old_arena@);
    let ghost earlier = views(new_arena@);
    let ghost from = old_node.index() as int;
    let ghost floor = earlier.len() as int;
    let ghost listed_children = before[from].children;
    let old_inst = old_node.get(old_arena);
    let mut kept: Vec<Ap<ProgramNode>> = Vec::new();
    let mut a: usize = 0;
    assert(listed_children.take(0) =~= Seq::<nat>::empty());
    assert(positions(kept@) =~= Seq::<nat>::empty());
    while a < old_inst.children.len()
        invariant
            before == views(old_arena@),
            tree_wf(before),
            0 <= from < before.len(),
            listed_children == before[from].children,
            old_inst.children@.len() == listed_children.len(),
            forall|j: int|
                0 <= j < listed_children.len() ==> old_inst.children@[j].index()
                    == listed_children[j],
            a <= listed_children.len(),
            positions(kept@) == retained(before, listed_children.take(a as int), minimum_visits),
        decreases listed_children.len() - a,
    {
        let c = old_inst.children[a];
        assert(linked_down(before, from, a as int));
        assert(listed_children.take(a + 1).drop_last() =~= listed_children.take(a as int));
        let ghost so_far = positions(kept@);
        if c.get(old_arena).visits >= minimum_visits {
            kept.push(c);
            assert(positions(kept@) =~= so_far.push(c.index()));
        }
        a = a + 1;
    }
    assert(listed_children.take(listed_children.len() as int) =~= listed_children);
    let ghost kept_positions = positions(kept@);
    let child_count = kept.len();
    let parent = match new_parent {
        Some(p) => Some(p),
        None => old_inst.parent,
    };
    let new_inst = ProgramNode {
        instruction: old_inst.instruction,
        self_score: old_inst.self_score,
        child_score: old_inst.child_score,
        children: kept,
        parent,
        done: old_inst.done,
        visits: old_inst.visits,
    };
    assert(new_inst@.children =~= kept_positions);
    let new_node = new_arena.allocate(new_inst);
    let ghost mut src = source.push(old_node.index());
    if old_node == old_best_node {
        *new_best_node = Some(new_node);
    }
    proof {
        let m = views(new_arena@);
        assert(m[floor].children == kept_positions);
        assert forall|j: int| 0 <= j < earlier.len() implies #[trigger] m[j] == earlier[j] by {}
        assert(copying(before, m, src, minimum_visits, floor, 0));
        assert(src =~= source + seq![from as nat] + copy_order_below(
            before,
            from as nat,
            minimum_visits,
            0,
        ));
    }
    let mut i: usize = 0;
    while i < child_count
        invariant
            before == views(old_arena@),
            tree_wf(before),
            0 <= from < before.len(),
            from == old_node.index(),
            floor == earlier.len(),
            new_node.index() == floor,
            source.len() == earlier.len(),
            src.len() == new_arena@.len(),
            forall|j: int| 0 <= j < earlier.len() ==> #[trigger] views(new_arena@)[j] == earlier[j],
            forall|j: int| 0 <= j < earlier.len() ==> #[trigger] src[j] == source[j],
            copying(before, views(new_arena@), src, minimum_visits, floor, i as int),
            child_count == views(new_arena@)[floor].children.len(),
            src[floor] == from,
            src == source + seq![from as nat] + copy_order_below(
                before,
                from as nat,
                minimum_visits,
                i as nat,
            ),
            views(new_arena@)[floor].parent == match new_parent {
                Some(q) => Some(q.index()),
                None => before[from].parent,
            },
            best_tracked(*new_best_node, src, old_best_node.index()),
            i <= child_count,
        decreases child_count - i,
    {
        let ghost m = views(new_arena@);
        let child = new_node.get(new_arena).children[i];
        proof {
            let kept_here = retained(before, before[from].children, minimum_visits);
            assert(m[floor].children[i as int] == kept_here[i as int]);
            lemma_retained_member(before, before[from].children, minimum_visits, i as int);
            let a = choose|a: int|
                0 <= a < before[from].children.len() && #[trigger] before[from].children[a]
                    == kept_here[i as int];
            assert(linked_down(before, from, a));
        }
        let (new_child, Ghost(src2)) = convert_node(
            old_arena,
            new_arena,
            child,
            Some(new_node),
            old_best_node,
            new_best_node,
            minimum_visits,
            Ghost(src),
        );
        let ghost m2 = views(new_arena@);
        let target = new_node.get_mut(new_arena);
        target.children[i] = new_child;
        proof {
            let m3 = views(new_arena@);
            assert(m2[floor] == m[floor]);
            assert(m3[floor].children =~= m2[floor].children.update(i as int, m.len()));
            assert forall|j: int| 0 <= j < m2.len() && j != floor implies #[trigger] m3[j]
                == m2[j] by {}
            lemma_child_converted(before, m, src, m2, src2, m3, minimum_visits, floor, i as int);
            assert forall|j: int| 0 <= j < earlier.len() implies #[trigger] m3[j] == earlier[j] by {
                assert(m2[j] == m[j]);
            }
            assert forall|j: int| 0 <= j < earlier.len() implies #[trigger] src2[j] == source[j] by {
                assert(src2[j] == src[j]);
            }
            assert(src2[floor] == src[floor]);
            assert(src2 =~= source + seq![from as nat] + copy_order_below(
                before,
                from as nat,
                minimum_visits,
                (i + 1) as nat,
            ));
            src = src2;
        }
        i = i + 1;
    }
    proof {
        assert(src =~= source + copy_order(before, from as nat, minimum_visits));
    }
    (new_node, Ghost(src))
}

/// What a node holds, in plain values, together with the node's program.
pub struct NodeRecord {
    /// The position of the node in the arena.
    pub index: usize,
    /// The position of the node's parent; the root has none.
    pub parent: Option<usize>,
    pub instruction: Instruction,
    pub self_score: Option<u32>,
    pub child_score: Option<u32>,
    pub done: bool,
    pub visits: u64,
    /// The instructions on the way from the root down to the node.
    pub program: Program,
}

/// Whether the record says what the tree holds at the record's position.
pub open spec fn describes(record: NodeRecord, nodes: Seq<NodeView>) -> bool {
    let n = record.index as int;
    &&& 0 <= n < nodes.len()
    &&& match record.parent {
        Some(p) => nodes[n].parent == Some(p as nat),
        None => nodes[n].parent is None,
    }
    &&& record.instruction == nodes[n].instruction
    &&& record.self_score == nodes[n].self_score
    &&& record.child_score == nodes[n].child_score
    &&& record.done == nodes[n].done
    &&& record.visits == nodes[n].visits
    &&& record.program@ == path(nodes, n as nat)
}

/// The positions of the records, in the order of the records.
pub open spec fn recorded_positions(records: Seq<NodeRecord>) -> Seq<nat> {
    Seq::new(records.len(), |i: int| records[i].index as nat)
}

/// The search engine: the vocabulary, the tree, and the three functions that
/// the caller hands in.
///
/// `E` is the oracle, which scores a program. `A` is the arithmetic unit,
/// which the choice among children asks for sums, quotients and
/// exponentials. `R` draws a number from the unit interval, zero included and
/// one left out, and hands back its bit pattern.
pub struct MCTS<E, A, R> where
    E: Fn(&Program) -> Option<u32>,
    A: Fn(Operation) -> u32,
    R: Fn() -> u32,
 {
    iset: Vec<Instruction>,
    root_node: Ap<ProgramNode>,
    /// The chance of growing a new child where an old one could be followed,
    /// as the bit pattern of a number between zero and one.
    pub exploration_chance: u32,
    pub max_program_length: usize,
    arena: Arena<ProgramNode>,
    evaluation_func: E,
    arithmetic: A,
    draw: R,
    pub best_node: Ap<ProgramNode>,
    current_program: Program,
}

/// The bit pattern of 0.05, the exploration chance of a new engine.
pub const DEFAULT_EXPLORATION_CHANCE: u32 = 0x3D4C_CCCD;

/// The longest program that an engine made by [`MCTS::new`] builds.
pub const DEFAULT_MAX_PROGRAM_LENGTH: usize = 64;

impl<E, A, R> MCTS<E, A, R> where
    E: Fn(&Program) -> Option<u32>,
    A: Fn(Operation) -> u32,
    R: Fn() -> u32,
 {
    /// The tree, the root first.
    pub closed spec fn nodes(&self) -> Seq<NodeView> {
        views(self.arena@)
    }

    pub closed spec fn vocabulary(&self) -> Seq<Instruction> {
        self.iset@
    }

    /// The position of the root.
    pub closed spec fn root(&self) -> nat {
        self.root_node.index()
    }

    /// The position of the node with the best score found so far.
    pub closed spec fn best(&self) -> nat {
        self.best_node.index()
    }

    pub closed spec fn oracle(&self) -> E {
        self.evaluation_func
    }

    pub closed spec fn unit(&self) -> A {
        self.arithmetic
    }

    pub closed spec fn source(&self) -> R {
        self.draw
    }

    pub closed spec fn chance(&self) -> u32 {
        self.exploration_chance
    }

    pub closed spec fn length_bound(&self) -> usize {
        self.max_program_length
    }

    /// The program under construction during a search.
    pub closed spec fn scratch(&self) -> Seq<Instruction> {
        self.current_program@
    }

    /// Whether each of the three functions handed in accepts every input.
    pub open spec fn callbacks_total(&self) -> bool {
        &&& forall|p: Program| #[trigger] call_requires(self.oracle(), (&p,))
        &&& total(&self.unit())
        &&& call_requires(self.source(), ())
    }

    /// The engine's invariant.
    pub open spec fn wf(&self) -> bool {
        &&& tree_wf(self.nodes())
        &&& self.root() == 0
        &&& self.best() < self.nodes().len()
        &&& self.vocabulary().len() > 0
        &&& vocabulary_respected(self.nodes(), self.vocabulary())
        &&& visits_wf(self.nodes())
        &&& scores_wf(self.nodes(), self.oracle())
        &&& depths_wf(self.nodes(), self.length_bound() as nat)
        &&& self.callbacks_total()
    }

    /// Whether no node scores above the best node. It holds of a new
    /// engine and through every search. Collecting garbage keeps it where
    /// the best node survives; where the best node is pruned, the best
    /// node's handle falls back to the root, which has no score.
    pub open spec fn best_is_greatest(&self) -> bool {
        greatest_at(self.nodes(), self.best())
    }

    /// The best score found so far.
    pub open spec fn best_score(&self) -> Option<u32> {
        self.nodes()[self.best() as int].self_score
    }

    /// An engine for programs of up to 64 instructions.
    pub fn new(instruction_set: &[Instruction], evaluate: E, arithmetic: A, draw: R) -> (r: Self)
        requires
            instruction_set@.len() > 0,
            instruction_set@.len() * DEFAULT_MAX_PROGRAM_LENGTH <= usize::MAX,
            forall|p: Program| #[trigger] call_requires(evaluate, (&p,)),
            total(&arithmetic),
            call_requires(draw, ()),
        ensures
            r.wf(),
            r.nodes().len() == 1,
            r.nodes()[0].instruction == instruction_set@[0],
            r.nodes()[0].children.len() == 0,
            r.nodes()[0].visits == 0,
            !r.nodes()[0].done,
            r.nodes()[0].child_score is None,
            r.best() == 0,
            r.best_is_greatest(),
            r.scratch().len() == 0,
            r.vocabulary() == instruction_set@,
            r.length_bound() == DEFAULT_MAX_PROGRAM_LENGTH,
            r.chance() == DEFAULT_EXPLORATION_CHANCE,
            r.oracle() == evaluate,
            r.unit() == arithmetic,
            r.source() == draw,
    {
        Self::with_max_program_length(
            instruction_set,
            DEFAULT_MAX_PROGRAM_LENGTH,
            evaluate,
            arithmetic,
            draw,
        )
    }

    /// An engine whose tree is the root alone. The root carries the first
    /// instruction of the vocabulary as a placeholder, and no score.
    pub fn with_max_program_length(
        instruction_set: &[Instruction],
        capacity: usize,
        evaluate: E,
        arithmetic: A,
        draw: R,
    ) -> (r: Self)
        requires
            instruction_set@.len() > 0,
            instruction_set@.len() * capacity <= usize::MAX,
            forall|p: Program| #[trigger] call_requires(evaluate, (&p,)),
            total(&arithmetic),
            call_requires(draw, ()),
        ensures
            r.wf(),
            r.nodes().len() == 1,
            r.nodes()[0].instruction == instruction_set@[0],
            r.nodes()[0].children.len() == 0,
            r.nodes()[0].visits == 0,
            !r.nodes()[0].done,
            r.nodes()[0].child_score is None,
            r.best() == 0,
            r.best_is_greatest(),
            r.scratch().len() == 0,
            r.vocabulary() == instruction_set@,
            r.length_bound() == capacity,
            r.chance() == DEFAULT_EXPLORATION_CHANCE,
            r.oracle() == evaluate,
            r.unit() == arithmetic,
            r.source() == draw,
    {
        let mut arena = Arena::with_capacity(instruction_set.len() * capacity);
        let root_node = arena.allocate(ProgramNode::new(instruction_set[0], None));
        let r = Self {
            current_program: Program::new(),
            iset: slice_to_vec(instruction_set),
            root_node,
            exploration_chance: DEFAULT_EXPLORATION_CHANCE,
            max_program_length: capacity,
            arena,
            evaluation_func: evaluate,
            arithmetic,
            draw,
            best_node: root_node,
        };
        proof {
            assert forall|n: int| 0 <= n < r.nodes().len() implies #[trigger] within_bound(
                r.nodes(),
                capacity as nat,
                n,
            ) by {}
        }
        r
    }

    /// The number of nodes, the root left out.
    pub fn node_count(&self) -> (r: usize)
        requires
            self.wf(),
        ensures
            r == self.nodes().len() - 1,
    {
        self.arena.len() - 1
    }

    /// How often a search has started at the root.
    pub fn root_visits(&self) -> (r: u64)
        requires
            self.wf(),
        ensures
            r == self.nodes()[0].visits,
    {
        self.root_node.get(&self.arena).visits
    }

    /// The number of instructions in the vocabulary.
    pub fn vocabulary_len(&self) -> (r: usize)
        ensures
            r == self.vocabulary().len(),
    {
        self.iset.len()
    }

    /// The best score found so far; `None` while no program has been scored.
    pub fn high_score(&self) -> (r: Option<u32>)
        requires
            self.wf(),
        ensures
            r == self.best_score(),
    {
        self.best_node.get(&self.arena).self_score
    }

    /// The program that earned the best score.
    pub fn make_best_program(&self) -> (r: Program)
        requires
            self.wf(),
        ensures
            r@ == path(self.nodes(), self.best()),
            r@.len() == depth(self.nodes(), self.best()),
            r@.len() <= self.length_bound(),
            self.best() != 0 ==> scored_by(self.oracle(), r@, self.best_score()),
    {
        assert(self.best() != 0 ==> node_scored(self.nodes(), self.oracle(), self.best() as int));
        self.make_program(&self.best_node)
    }

    /// The program of a node: the instructions on the way from the root down
    /// to it, one for each link, and so no more than the bound allows.
    pub fn make_program(&self, node: &Ap<ProgramNode>) -> (r: Program)
        requires
            self.wf(),
            node.index() < self.nodes().len(),
        ensures
            r@ == path(self.nodes(), node.index()),
            r@.len() == depth(self.nodes(), node.index()),
            r@.len() <= self.length_bound(),
    {
        assert(within_bound(self.nodes(), self.length_bound() as nat, node.index() as int));
        let ghost nodes = self.nodes();
        let ghost whole = path(nodes, node.index());
        let mut collected: Vec<Instruction> = Vec::new();
        let mut current = *node;
        while !(current == self.root_node)
            invariant
                self.wf(),
                nodes == self.nodes(),
                whole == path(nodes, node.index()),
                current.index() < nodes.len(),
                collected@.len() + path(nodes, current.index()).len() == whole.len(),
                path(nodes, current.index()) == whole.take(
                    path(nodes, current.index()).len() as int,
                ),
                forall|k: int|
                    0 <= k < collected@.len() ==> collected@[k] == whole[whole.len() - 1 - k],
            ensures
                current.index() == 0,
            decreases current.index(),
        {
            let n = current.get(&self.arena);
            assert(linked_up(nodes, current.index() as int));
            let ghost here = path(nodes, current.index());
            collected.push(n.instruction);
            match n.parent {
                Some(parent) => {
                    assert(path(nodes, parent.index()) =~= here.drop_last());
                    assert(here.last() == n.instruction);
                    assert(path(nodes, parent.index()) =~= whole.take(
                        path(nodes, parent.index()).len() as int,
                    ));
                    current = parent;
                },
                None => {
                    break ;
                },
            }
        }
        assert(current.index() == 0);
        assert(path(nodes, 0) =~= Seq::<Instruction>::empty());
        let total_len = collected.len();
        let mut instructions: Vec<Instruction> = Vec::new();
        let mut k: usize = 0;
        while k < total_len
            invariant
                total_len == collected@.len(),
                total_len == whole.len(),
                k <= total_len,
                instructions@.len() == k,
                forall|j: int| 0 <= j < collected@.len() ==> collected@[j] == whole[whole.len() - 1 - j],
                forall|j: int| 0 <= j < k ==> instructions@[j] == whole[j],
            decreases total_len - k,
        {
            instructions.push(collected[total_len - 1 - k]);
            k = k + 1;
        }
        assert(instructions@ =~= whole);
        proof {
            lemma_path_len(nodes, node.index());
        }
        Program::create(instructions.as_slice())
    }

    /// Whether the other engine has the same vocabulary, the same three
    /// functions and the same parameters as this one.
    pub open spec fn same_setup(&self, other: &Self) -> bool {
        &&& other.vocabulary() == self.vocabulary()
        &&& other.oracle() == self.oracle()
        &&& other.unit() == self.unit()
        &&& other.source() == self.source()
        &&& other.chance() == self.chance()
        &&& other.length_bound() == self.length_bound()
        &&& other.root() == self.root()
    }

    /// Grows one new child under the node: a leaf with an instruction that
    /// no child of the node carries yet, scored by the oracle on the program
    /// that ends in it. The instruction is drawn at random from the
    /// vocabulary; where a child carries the one drawn, the first free entry
    /// of the vocabulary is taken. Fails, and changes nothing, where every
    /// entry of the vocabulary is carried already.
    fn create_new_child(&mut self, node: &Ap<ProgramNode>) -> (r: bool)
        requires
            old(self).wf(),
            node.index() < old(self).nodes().len(),
            old(self).scratch() == path(old(self).nodes(), node.index()),
            depth(old(self).nodes(), node.index()) < old(self).length_bound(),
        ensures
            final(self).wf(),
            old(self).best_is_greatest() ==> final(self).best_is_greatest(),
            old(self).same_setup(final(self)),
            forall|m: int|
                0 <= m < old(self).nodes().len() ==> (#[trigger] final(self).nodes()[m]).visits == old(
                    self,
                ).nodes()[m].visits,
            r == free_entry(old(self).nodes(), node.index() as int, old(self).vocabulary()),
            !r ==> final(self).nodes() == old(self).nodes() && final(self).best() == old(
                self,
            ).best() && final(self).scratch() == old(self).scratch(),
            r ==> {
                let leaf = final(self).nodes().last();
                let grown = with_child(
                    old(self).nodes(),
                    node.index() as int,
                    leaf.instruction,
                    leaf.self_score,
                );
                &&& final(self).nodes().len() == old(self).nodes().len() + 1
                &&& old(self).vocabulary().contains(leaf.instruction)
                &&& !carried(old(self).nodes(), node.index() as int, leaf.instruction)
                &&& final(self).scratch() == old(self).scratch().push(leaf.instruction)
                &&& if leaf.self_score is Some {
                    recalculated(
                        grown,
                        final(self).nodes(),
                        node.index(),
                        old(self).vocabulary().len(),
                    )
                } else {
                    final(self).nodes() == grown
                }
                &&& final(self).best() == if score_below(old(self).best_score(), leaf.self_score) {
                    old(self).nodes().len()
                } else {
                    old(self).best()
                }
                &&& advanced(old(self).nodes(), final(self).nodes(), true)
                &&& leaf.parent == Some(node.index())
                &&& aggregates_follow(
                    old(self).nodes(),
                    final(self).nodes(),
                    old(self).vocabulary().len(),
                    old(self).length_bound() as nat,
                    true,
                )
                &&& final(self).scratch() == path(final(self).nodes(), old(self).nodes().len())
                &&& leaf.self_score is Some ==> chain_refreshed(
                    final(self).nodes(),
                    node.index(),
                    old(self).vocabulary().len(),
                )
            },
    {
        let ghost before = self.nodes();
        let ghost at = node.index() as int;
        let picked = match random_instruction(&self.iset) {
            Some(inst) => inst,
            None => {
                return false;
            },
        };
        let mut new_inst = picked;
        if carries(&self.arena, node, new_inst) {
            match first_unused(&self.arena, &self.iset, node) {
                Some(inst) => {
                    new_inst = inst;
                },
                None => {
                    return false;
                },
            }
        }
        assert(self.vocabulary().contains(new_inst));
        assert(!carried(before, at, new_inst));
        let ghost k = choose|k: int| 0 <= k < self.vocabulary().len() && self.vocabulary()[k] == new_inst;
        assert(!carried(before, at, self.vocabulary()[k]));
        self.current_program.push_inst(new_inst);
        let raw = (self.evaluation_func)(&self.current_program);
        let score = keep_finite(raw);
        assert(scored_by(self.oracle(), path(before, at as nat).push(new_inst), score));
        let old_high = self.best_node.get(&self.arena).self_score;
        let mut new_node = ProgramNode::new(new_inst, score);
        new_node.parent = Some(*node);
        let new_node_ap = self.arena.allocate(new_node);
        let target = node.get_mut(&mut self.arena);
        target.children.push(new_node_ap);
        let ghost grown = with_child(before, at, new_inst, score);
        proof {
            let now = self.nodes();
            assert(now.len() == grown.len());
            assert forall|n: int| 0 <= n < now.len() implies now[n] == grown[n] by {
                if n == at {
                    assert(now[n].children =~= before[at].children.push(before.len()));
                } else if n == before.len() {
                    assert(now[n].children =~= Seq::<nat>::empty());
                } else {
                    assert(now[n] == before[n]);
                }
            }
            assert(now =~= grown);
            lemma_with_child_wf(before, at, new_inst, score, self.vocabulary(), self.oracle());
            lemma_with_child_depths(before, at, new_inst, score, self.length_bound() as nat);
        }
        let ghost old_best = self.best();
        if is_score_below(old_high, score) {
            self.best_node = new_node_ap;
        }
        proof {
            lemma_advanced_skeleton(before, grown, true);
            if greatest_at(before, old_best) {
                lemma_greatest_after_growth(before, grown, old_best, self.best());
            }
        }
        proof {
            if score is None {
                lemma_aggregates_after_growth(
                    before,
                    at,
                    new_inst,
                    score,
                    self.nodes(),
                    self.vocabulary().len(),
                    self.length_bound() as nat,
                );
            }
        }
        if score.is_some() {
            recalculate_score_recursive(&mut self.arena, self.iset.len(), node);
            proof {
                let now = self.nodes();
                lemma_links_kept(grown, now, self.vocabulary(), self.oracle());
                lemma_visits_kept(grown, now);
                lemma_links_skeleton(grown, now);
                lemma_depths_kept(grown, now, self.length_bound() as nat);
                if greatest_at(grown, self.best()) {
                    lemma_greatest_kept(grown, now, self.best());
                }
                assert(on_chain(grown, at as nat, before.len()) ==> false) by {
                    if on_chain(grown, at as nat, before.len()) {
                        lemma_chain_below(grown, at as nat, before.len());
                    }
                }
                lemma_advanced_after_growth(before, grown, now);
                lemma_recalculated_fresh(grown, now, at as nat, self.vocabulary().len());
                lemma_advanced_skeleton(before, now, true);
                lemma_path_kept(grown, now, before.len());
                lemma_aggregates_after_growth(
                    before,
                    at,
                    new_inst,
                    score,
                    now,
                    self.vocabulary().len(),
                    self.length_bound() as nat,
                );
            }
        }
        true
    }

    /// Whether a search may enter the node at this depth: the node lies at
    /// that depth, the depth is within the bound, the program under
    /// construction is that of the node's parent, and the node has been
    /// visited less often than its parent.
    pub open spec fn may_enter(&self, current_depth: usize, node: nat) -> bool {
        &&& self.wf()
        &&& node < self.nodes().len()
        &&& current_depth <= self.length_bound()
        &&& current_depth == depth(self.nodes(), node)
        &&& if node == 0 {
            self.scratch().len() == 0 && self.nodes()[0].visits < u64::MAX
        } else {
            let p = self.nodes()[node as int].parent.unwrap();
            self.scratch() == path(self.nodes(), p) && self.nodes()[node as int].visits
                < self.nodes()[p as int].visits
        }
    }

    /// What one search, entered at `node`, has done to the engine.
    pub open spec fn searched(&self, later: &Self, current_depth: usize, node: nat, grown: bool) -> bool {
        &&& later.wf()
        &&& self.same_setup(later)
        &&& advanced(self.nodes(), later.nodes(), grown)
        &&& begins_with(later.scratch(), self.scratch())
        &&& later.nodes()[node as int].visits == self.nodes()[node as int].visits + 1
        &&& visited_once(self.nodes(), later.nodes())
        &&& outside_untouched(self.nodes(), later.nodes(), node)
        &&& later.best() == if grown && score_below(
            self.best_score(),
            later.nodes().last().self_score,
        ) {
            self.nodes().len()
        } else {
            self.best()
        }
        &&& !grown ==> same_prospects(
            self.nodes(),
            later.nodes(),
            self.vocabulary(),
            self.length_bound() as nat,
        )
        &&& grown ==> can_grow(
            self.nodes(),
            self.vocabulary(),
            self.length_bound() as nat,
            node,
            current_depth as nat,
        )
        &&& must_grow(
            self.nodes(),
            self.vocabulary(),
            self.length_bound() as nat,
            node,
            current_depth as nat,
        ) ==> grown
        &&& grown && later.nodes().last().self_score is Some ==> chain_refreshed(
            later.nodes(),
            later.nodes().last().parent.unwrap(),
            self.vocabulary().len(),
        )
        &&& grown ==> later.scratch() == path(later.nodes(), self.nodes().len())
        &&& self.best_is_greatest() ==> later.best_is_greatest()
        &&& grown ==> leaf_hangs(
            self.nodes(),
            later.nodes(),
            self.vocabulary(),
            self.length_bound() as nat,
            node,
            current_depth as nat,
        )
        &&& walk_followed(
            self.source(),
            self.unit(),
            self.chance(),
            self.vocabulary(),
            self.length_bound() as nat,
            self.nodes(),
            later.nodes(),
            node,
            grown,
        )
        &&& !open_node(
            self.nodes(),
            self.vocabulary(),
            self.length_bound() as nat,
            node,
            current_depth as nat,
        ) ==> later.scratch() == self.scratch() && turned_back(
            self.nodes(),
            later.nodes(),
            self.vocabulary(),
            self.length_bound() as nat,
            node,
            current_depth as nat,
        )
        &&& aggregates_follow(
            self.nodes(),
            later.nodes(),
            self.vocabulary().len(),
            self.length_bound() as nat,
            grown,
        )
    }

    /// The scores of the children of a node, in the order of the children.
    fn scores_of_children(&self, node: &Ap<ProgramNode>) -> (r: Vec<Option<u32>>)
        requires
            self.wf(),
            node.index() < self.nodes().len(),
        ensures
            r@ == child_scores(self.nodes(), node.index() as int),
    {
        let ghost nodes = self.nodes();
        let ghost at = node.index() as int;
        let children = &node.get(&self.arena).children;
        let mut scores: Vec<Option<u32>> = Vec::new();
        let mut i: usize = 0;
        while i < children.len()
            invariant
                nodes == self.nodes(),
                at == node.index(),
                0 <= at < nodes.len(),
                tree_wf(nodes),
                children@.len() == nodes[at].children.len(),
                forall|j: int| 0 <= j < children@.len() ==> children@[j].index() == nodes[at].children[j],
                i <= children@.len(),
                scores@.len() == i,
                forall|j: int| 0 <= j < i ==> scores@[j] == child_scores(nodes, at)[j],
            decreases children@.len() - i,
        {
            assert(linked_down(nodes, at, i as int));
            let c = children[i];
            scores.push(c.get(&self.arena).self_score);
            i = i + 1;
        }
        assert(scores@ =~= child_scores(nodes, at));
        scores
    }

    /// One step of a search: visits the node, and either grows a child
    /// under it or goes on into one of its children. Gives `true` if the
    /// tree has grown.
    #[verifier::rlimit(50)]
    fn search_step(&mut self, current_depth: usize, node: &Ap<ProgramNode>) -> (r: bool)
        requires
            old(self).may_enter(current_depth, node.index()),
        ensures
            old(self).searched(final(self), current_depth, node.index(), r),
        decreases old(self).length_bound() - current_depth,
    {
        let ghost origin = *self;
        let ghost start = self.nodes();
        let ghost at = node.index() as int;
        let ghost level = current_depth as nat;
        let ghost vocabulary = self.vocabulary();
        let ghost bound = self.length_bound() as nat;
        let ghost source = self.source();
        let ghost unit = self.unit();
        let ghost chance = self.chance();
        proof {
            if at != 0 {
                assert(linked_up(start, at));
                assert(visits_bounded(start, at));
            }
        }
        // Count the visit.
        let target = node.get_mut(&mut self.arena);
        target.visits = target.visits + 1;
        let ghost bumped = self.nodes();
        proof {
            assert forall|m: int| 0 <= m < start.len() && m != at implies #[trigger] bumped[m]
                == start[m] by {}
            lemma_touch(start, bumped, at);
            lemma_links_kept(start, bumped, self.vocabulary(), self.oracle());
            lemma_visit_counted(start, bumped, at);
            lemma_advanced_skeleton(start, bumped, false);
            lemma_path_kept(start, bumped, at as nat);
            lemma_depths_kept(start, bumped, bound);
            if greatest_at(start, origin.best()) {
                lemma_greatest_kept(start, bumped, origin.best());
            }
            assert(bumped =~= start.update(
                at,
                NodeView { visits: (start[at].visits + 1) as u64, ..start[at] },
            ));
            assert(begins_with(self.scratch(), origin.scratch())) by {
                assert(self.scratch().take(self.scratch().len() as int) =~= self.scratch());
            }
            assert forall|m: int| 0 <= m < start.len() implies #[trigger] prospects_kept(
                start,
                bumped,
                vocabulary,
                bound,
                m,
            ) by {
                if m != at {
                    assert(bumped[m] == start[m]);
                }
            }
            assert forall|m: int| 0 <= m < start.len() implies #[trigger] aggregates_kept(
                start,
                bumped,
                vocabulary.len(),
                bound,
                false,
                m,
            ) by {
                if m != at {
                    assert(bumped[m] == start[m]);
                }
            }
            assert forall|m: int| 0 <= m < start.len() implies (#[trigger] bumped[m]).visits
                <= start[m].visits + 1 by {
                if m != at {
                    assert(bumped[m] == start[m]);
                }
            }
            assert forall|m: int|
                0 <= m < start.len() && !on_chain(start, m as nat, at as nat) implies (
            #[trigger] bumped[m]).visits == start[m].visits by {
                assert(bumped[m] == start[m]);
            }
        }
        // A node at the bound takes no children.
        if current_depth == self.max_program_length {
            proof {
                lemma_walk_here(source, unit, chance, vocabulary, bound, start, bumped, at as nat, false);
            }
            return false;
        }
        // Nothing is left to do under a node that is done.
        if node.get(&self.arena).done {
            proof {
                lemma_walk_here(source, unit, chance, vocabulary, bound, start, bumped, at as nat, false);
            }
            return false;
        }
        // A node of the last level with all its children is done.
        if current_depth == self.max_program_length - 1 {
            if node.get(&self.arena).children.len() == self.iset.len() {
                let target = node.get_mut(&mut self.arena);
                target.done = true;
                proof {
                    let marked = self.nodes();
                    assert forall|m: int|
                        0 <= m < bumped.len() && m != at implies #[trigger] marked[m]
                        == bumped[m] by {}
                    lemma_touch(bumped, marked, at);
                    lemma_links_kept(bumped, marked, self.vocabulary(), self.oracle());
                    lemma_visits_kept(bumped, marked);
                    lemma_advanced_chain(start, bumped, marked, false);
                    lemma_links_skeleton(bumped, marked);
                    lemma_depths_kept(bumped, marked, bound);
                    if greatest_at(bumped, origin.best()) {
                        lemma_greatest_kept(bumped, marked, origin.best());
                    }
                    assert(marked =~= start.update(
                        at,
                        NodeView {
                            visits: (start[at].visits + 1) as u64,
                            done: true,
                            ..start[at]
                        },
                    ));
                    assert forall|m: int| 0 <= m < start.len() implies #[trigger] prospects_kept(
                        start,
                        marked,
                        vocabulary,
                        bound,
                        m,
                    ) by {
                        assert(prospects_kept(start, bumped, vocabulary, bound, m));
                        if m != at {
                            assert(marked[m] == bumped[m]);
                        }
                    }
                    assert forall|m: int| 0 <= m < start.len() implies #[trigger] aggregates_kept(
                        start,
                        marked,
                        vocabulary.len(),
                        bound,
                        false,
                        m,
                    ) by {
                        assert(aggregates_kept(start, bumped, vocabulary.len(), bound, false, m));
                        if m != at {
                            assert(marked[m] == bumped[m]);
                        }
                    }
                    assert forall|m: int| 0 <= m < start.len() implies (#[trigger] marked[m]).visits
                        == bumped[m].visits by {
                        if m != at {
                            assert(marked[m] == bumped[m]);
                        }
                    }
                    lemma_walk_here(source, unit, chance, vocabulary, bound, start, marked, at as nat, false);
                }
                return false;
            }
        }
        // The program under construction now ends in this node.
        if !(*node == self.root_node) {
            // A program without a score is never extended.
            if node.get(&self.arena).self_score.is_none() {
                proof {
                    lemma_walk_here(source, unit, chance, vocabulary, bound, start, bumped, at as nat, false);
                }
                return false;
            }
            self.current_program.push_inst(node.get(&self.arena).instruction);
            proof {
                assert(self.scratch() == path(start, at as nat));
                assert(self.scratch().take(origin.scratch().len() as int) =~= origin.scratch());
            }
        } else {
            assert(self.scratch() =~= path(start, 0));
        }
        assert(self.scratch() == path(bumped, at as nat));
        assert(open_node(start, vocabulary, bound, at as nat, level));
        let n_children = node.get(&self.arena).children.len();
        // Grow a child: always where there is none yet, else by chance.
        let expand_here = if n_children == 0 {
            true
        } else {
            let coin = (self.draw)();
            is_below(coin, self.exploration_chance)
        };
        assert(n_children == 0 || coin_fell(source, chance, expand_here));
        if expand_here && n_children < self.iset.len() {
            let ghost entering = *self;
            let r = self.create_new_child(node);
            proof {
                let after = self.nodes();
                assert(begins_with(self.scratch(), origin.scratch())) by {
                    if r {
                        assert(self.scratch().take(origin.scratch().len() as int)
                            =~= entering.scratch().take(origin.scratch().len() as int));
                    }
                }
                lemma_free_entry_kept(start, bumped, vocabulary, bound, at);
                assert forall|j: int| 0 <= j < start[at].children.len() implies !entered(
                    start,
                    after,
                    #[trigger] start[at].children[j],
                ) by {
                    assert(linked_down(start, at, j));
                    let c = start[at].children[j] as int;
                    assert(bumped[c] == start[c]);
                    assert(after[c].visits == bumped[c].visits);
                }
                assert(followed_draws(
                    source,
                    unit,
                    chance,
                    vocabulary.len(),
                    start,
                    after,
                    at as nat,
                    r,
                ));
                assert forall|m: int| 0 <= m < start.len() && m != at implies (
                #[trigger] after[m]).visits == start[m].visits by {
                    assert(bumped[m] == start[m]);
                    assert(after[m].visits == bumped[m].visits);
                }
                lemma_walk_here(source, unit, chance, vocabulary, bound, start, after, at as nat, r);
                if r {
                    lemma_advanced_chain(start, bumped, after, true);
                    lemma_aggregates_chain(start, bumped, after, vocabulary.len(), bound, true);
                    assert forall|m: int|
                        0 <= m < start.len() && on_chain(start, at as nat, m as nat) && depth(
                            start,
                            m as nat,
                        ) >= level implies (#[trigger] after[m]).visits == start[m].visits + 1 by {
                        lemma_chain_depth(start, at as nat, m as nat);
                    }
                }
            }
            return r;
        }
        // Go on into one of the children.
        let scores = self.scores_of_children(node);
        let random = (self.draw)();
        let chosen_index = choose_position(&scores, random, &self.arithmetic);
        let current_program_length = self.current_program.len();
        let total_node_count = n_children;
        let ghost way = path(start, at as nat);
        let ghost spine = start[at].children;
        let mut tried_chosen: bool = false;
        let mut i: usize = 0;
        proof {
            assert(self.scratch().take(way.len() as int) =~= way);
            assert(way.take(origin.scratch().len() as int) =~= origin.scratch());
            assert(child_scores(bumped, at) =~= child_scores(start, at)) by {
                assert forall|j: int| 0 <= j < spine.len() implies bumped[spine[j] as int].self_score
                    == start[spine[j] as int].self_score by {
                    assert(linked_down(start, at, j));
                }
            }
            assert(first_choice(source, unit, start, at as nat, random, chosen_index as int));
            assert forall|j: int| 0 <= j < total_node_count implies #[trigger] subtree_untouched(
                start,
                bumped,
                spine[j],
            ) by {
                assert(linked_down(start, at, j));
                assert forall|m: int|
                    0 <= m < start.len() && on_chain(start, m as nat, spine[j]) implies (
                #[trigger] bumped[m]).visits == start[m].visits by {
                    if m == at {
                        lemma_chain_below(start, m as nat, spine[j]);
                    }
                    assert(bumped[m] == start[m]);
                }
            }
        }
        while i < total_node_count
            invariant
                self.wf(),
                origin == *old(self),
                origin.same_setup(self),
                origin.wf(),
                start == origin.nodes(),
                at == node.index(),
                0 <= at < start.len(),
                level == current_depth,
                current_depth < self.length_bound(),
                depth(start, at as nat) == level,
                advanced(start, self.nodes(), false),
                self.best() == origin.best(),
                spine == start[at].children,
                total_node_count == spine.len(),
                chosen_index < total_node_count,
                i <= total_node_count,
                !tried_chosen ==> i == 0,
                way == path(start, at as nat),
                current_program_length == way.len(),
                begins_with(self.scratch(), way),
                begins_with(way, origin.scratch()),
                self.nodes()[at].visits == start[at].visits + 1,
                start[at].visits < u64::MAX,
                vocabulary == origin.vocabulary(),
                bound == origin.length_bound(),
                same_prospects(start, self.nodes(), vocabulary, bound),
                aggregates_follow(start, self.nodes(), vocabulary.len(), bound, false),
                visited_once(start, self.nodes()),
                source == origin.source(),
                unit == origin.unit(),
                chance == origin.chance(),
                first_choice(source, unit, start, at as nat, random, chosen_index as int),
                total_node_count >= vocabulary.len() || coin_fell(source, chance, false),
                forall|j: int|
                    0 <= j < total_node_count && (j < i || (tried_chosen && j == chosen_index))
                        ==> #[trigger] walk_followed(
                        source,
                        unit,
                        chance,
                        vocabulary,
                        bound,
                        start,
                        self.nodes(),
                        spine[j],
                        false,
                    ),
                forall|j: int|
                    0 <= j < total_node_count && (j < i || (tried_chosen && j == chosen_index))
                        ==> entered(start, self.nodes(), #[trigger] spine[j]),
                greatest_at(start, origin.best()) ==> greatest_at(self.nodes(), self.best()),
                outside_untouched(start, self.nodes(), at as nat),
                forall|j: int|
                    0 <= j < total_node_count && (j >= i && (tried_chosen ==> j != chosen_index))
                        ==> #[trigger] subtree_untouched(start, self.nodes(), spine[j]),
                open_node(start, vocabulary, bound, at as nat, level),
                forall|j: int|
                    0 <= j < total_node_count && (j < i || (tried_chosen && j == chosen_index))
                        ==> !must_grow(start, vocabulary, bound, #[trigger] spine[j], level + 1),
            decreases
                    total_node_count - i + if tried_chosen {
                        0int
                    } else {
                        1int
                    },
        {
            // The child that the draw fell to is tried first, the others
            // after it in their order.
            let index = if tried_chosen {
                i
            } else {
                chosen_index
            };
            if !tried_chosen || i != chosen_index {
                let ghost a = self.nodes();
                let ghost entering = *self;
                self.current_program.truncate_to_len(current_program_length);
                assert(self.nodes() == a);
                proof {
                    assert(kept(start, a, at, false));
                    assert(a[at].children == spine);
                    assert(self.length_bound() == origin.length_bound());
                }
                let child = node.get(&self.arena).children[index];
                proof {
                    lemma_advanced_skeleton(start, a, false);
                    lemma_path_kept(start, a, at as nat);
                    lemma_child_depth(a, at, index as int);
                    lemma_child_depth(start, at, index as int);
                    assert(child.index() == spine[index as int]);
                    assert(linked_down(start, at, index as int));
                    assert(visits_bounded(start, child.index() as int));
                    assert(subtree_untouched(start, a, spine[index as int]));
                    assert(on_chain(start, child.index(), child.index()));
                    assert(a[child.index() as int].visits == start[child.index() as int].visits);
                    assert(linked_down(a, at, index as int));
                    assert(self.scratch() =~= way);
                }
                let grown = self.search_step(current_depth + 1, &child);
                proof {
                    let b = self.nodes();
                    let c = child.index() as int;
                    assert(!on_chain(a, at as nat, c as nat)) by {
                        if on_chain(a, at as nat, c as nat) {
                            lemma_chain_below(a, at as nat, c as nat);
                        }
                    }
                    assert(b[at].visits == a[at].visits);
                    assert(subtree_untouched(start, a, spine[index as int]));
                    lemma_subtree_call_frame(start, a, b, at, c);
                    assert forall|j: int|
                        0 <= j < total_node_count && j != index && subtree_untouched(
                            start,
                            a,
                            spine[j],
                        ) implies #[trigger] subtree_untouched(start, b, spine[j]) by {
                        lemma_children_distinct(start, self.vocabulary(), at, j, index as int);
                        lemma_child_depth(start, at, j);
                    }
                    lemma_advanced_chain(start, a, b, grown);
                    lemma_aggregates_chain(start, a, b, vocabulary.len(), bound, grown);
                    assert(begins_with(self.scratch(), way)) by {
                        assert(self.scratch().take(way.len() as int) =~= way);
                    }
                    assert(begins_with(self.scratch(), origin.scratch())) by {
                        assert(self.scratch().take(origin.scratch().len() as int)
                            =~= origin.scratch());
                    }
                    assert(entering.best_score() == origin.best_score()) by {
                        assert(kept(start, a, origin.best() as int, false));
                    }
                    lemma_prospects(start, a, vocabulary, bound, c as nat, level + 1);
                    assert forall|j: int|
                        0 <= j < total_node_count && j != index && entered(
                            start,
                            a,
                            spine[j],
                        ) implies entered(start, b, #[trigger] spine[j]) by {
                        lemma_children_distinct(start, self.vocabulary(), at, j, index as int);
                        lemma_child_depth(start, at, j);
                        lemma_chain_kept(start, a, spine[j], c as nat);
                        if on_chain(start, spine[j], c as nat) {
                            lemma_chain_depth(start, spine[j], c as nat);
                        }
                        assert(b[spine[j] as int].visits == a[spine[j] as int].visits);
                    }
                    assert(entered(start, b, spine[index as int]));
                    lemma_walk_entered(
                        source,
                        unit,
                        chance,
                        vocabulary,
                        bound,
                        start,
                        a,
                        b,
                        grown,
                        c as nat,
                    );
                    assert forall|j: int|
                        0 <= j < total_node_count && j != index && (j < i || (tried_chosen && j
                            == chosen_index)) implies #[trigger] walk_followed(
                        source,
                        unit,
                        chance,
                        vocabulary,
                        bound,
                        start,
                        b,
                        spine[j],
                        grown,
                    ) by {
                        lemma_children_distinct(start, self.vocabulary(), at, j, index as int);
                        lemma_child_depth(start, at, j);
                        assert forall|m: int|
                            0 <= m < start.len() && on_chain(start, m as nat, spine[j]) implies (
                        #[trigger] a[m]).visits == b[m].visits by {
                            lemma_chain_kept(start, a, m as nat, c as nat);
                            if on_chain(start, m as nat, c as nat) {
                                lemma_chain_single(start, m as nat, spine[j], c as nat);
                            }
                            assert(b[m].visits == a[m].visits);
                        }
                        if grown {
                            let up = b.last().parent.unwrap();
                            lemma_chain_kept(start, a, up, c as nat);
                            if on_chain(start, up, spine[j]) {
                                lemma_chain_single(start, up, spine[j], c as nat);
                            }
                        }
                        lemma_walk_elsewhere(
                            source,
                            unit,
                            chance,
                            vocabulary,
                            bound,
                            start,
                            a,
                            b,
                            grown,
                            spine[j],
                        );
                    }
                    if grown {
                        assert(start[at].children[index as int] == c);
                        assert(can_grow(start, vocabulary, bound, at as nat, level));
                        let up = b.last().parent.unwrap();
                        assert(kept(start, a, up as int, false));
                        lemma_path_kept(start, a, up);
                        lemma_chain_kept(start, a, up, c as nat);
                        lemma_chain_goes_on(start, up, c as nat, at as nat);
                        assert forall|m: int|
                            0 <= m < start.len() && on_chain(start, up, m as nat) && depth(
                                start,
                                m as nat,
                            ) >= level implies (#[trigger] b[m]).visits == start[m].visits + 1 by {
                            lemma_chain_kept(start, a, up, m as nat);
                            lemma_path_kept(start, a, m as nat);
                            if depth(start, m as nat) == level {
                                lemma_chain_single(start, up, m as nat, at as nat);
                            } else {
                                lemma_chain_between(start, up, c as nat, m as nat);
                                assert(a[m].visits == start[m].visits);
                            }
                        }
                        assert forall|k: int| 0 <= k < spine.len() implies (leaf_under(
                            start,
                            b,
                            true,
                            #[trigger] spine[k],
                        ) <==> k == index) by {
                            if k != index && on_chain(start, up, spine[k]) {
                                lemma_child_depth(start, at, k);
                                lemma_chain_single(start, up, spine[k], c as nat);
                                lemma_children_distinct(start, self.vocabulary(), at, k, index as int);
                            }
                        }
                        assert forall|j: int| 0 <= j < spine.len() implies (entered(
                            start,
                            b,
                            #[trigger] spine[j],
                        ) <==> forall|k: int|
                            0 <= k < spine.len() && j != chosen_index && k != j && (k
                                == chosen_index || k < j) ==> !leaf_under(
                                start,
                                b,
                                true,
                                #[trigger] spine[k],
                            )) by {
                            if j != index {
                                if j < i || (tried_chosen && j == chosen_index) {
                                    assert(entered(start, a, spine[j]));
                                } else {
                                    assert(linked_down(start, at, j));
                                    assert(subtree_untouched(start, a, spine[j]));
                                    assert(subtree_untouched(start, b, spine[j]));
                                    assert(on_chain(start, spine[j], spine[j]));
                                    assert(b[spine[j] as int].visits == start[spine[j] as int].visits);
                                    assert(leaf_under(start, b, true, spine[index as int]));
                                }
                            }
                        }
                        assert(walked(start, b, true, at as nat, chosen_index as int));
                        assert(followed_draws(
                            source,
                            unit,
                            chance,
                            vocabulary.len(),
                            start,
                            b,
                            at as nat,
                            true,
                        ));
                        assert forall|j: int| 0 <= j < spine.len() implies walk_followed(
                            source,
                            unit,
                            chance,
                            vocabulary,
                            bound,
                            start,
                            b,
                            #[trigger] start[at].children[j],
                            true,
                        ) by {
                            if j != index && !(j < i || (tried_chosen && j == chosen_index)) {
                                assert(subtree_untouched(start, a, spine[j]));
                                assert(subtree_untouched(start, b, spine[j]));
                                lemma_walk_idle(
                                    source,
                                    unit,
                                    chance,
                                    vocabulary,
                                    bound,
                                    start,
                                    b,
                                    spine[j],
                                    true,
                                );
                            }
                        }
                        lemma_walk_assemble(
                            source,
                            unit,
                            chance,
                            vocabulary,
                            bound,
                            start,
                            b,
                            at as nat,
                            true,
                        );
                    } else {
                        lemma_prospects_chain(start, a, b, vocabulary, bound);
                    }
                }
                if grown {
                    return true;
                }
            }
            if tried_chosen {
                i = i + 1;
            } else {
                tried_chosen = true;
            }
        }
        // No child took a leaf: try to grow one here.
        self.current_program.truncate_to_len(current_program_length);
        proof {
            let a = self.nodes();
            lemma_advanced_skeleton(start, a, false);
            lemma_path_kept(start, a, at as nat);
            assert(self.scratch() =~= way);
        }
        let ghost entering = *self;
        let r = self.create_new_child(node);
        proof {
            let a = entering.nodes();
            let after = self.nodes();
            assert(begins_with(self.scratch(), origin.scratch())) by {
                assert(self.scratch().take(origin.scratch().len() as int) =~= origin.scratch());
            }
            lemma_free_entry_kept(start, a, vocabulary, bound, at);
            assert forall|k: int| 0 <= k < spine.len() implies !leaf_under(
                start,
                after,
                r,
                #[trigger] spine[k],
            ) by {
                assert(linked_down(start, at, k));
                if r && on_chain(start, at as nat, spine[k]) {
                    lemma_chain_below(start, at as nat, spine[k]);
                }
            }
            assert forall|j: int| 0 <= j < spine.len() implies entered(
                start,
                after,
                #[trigger] spine[j],
            ) by {
                assert(entered(start, a, spine[j]));
                assert(linked_down(start, at, j));
                assert(after[spine[j] as int].visits == a[spine[j] as int].visits);
            }
            assert(walked(start, after, r, at as nat, chosen_index as int));
            assert(followed_draws(
                source,
                unit,
                chance,
                vocabulary.len(),
                start,
                after,
                at as nat,
                r,
            ));
            assert forall|j: int| 0 <= j < spine.len() implies walk_followed(
                source,
                unit,
                chance,
                vocabulary,
                bound,
                start,
                after,
                #[trigger] start[at].children[j],
                r,
            ) by {
                assert(linked_down(start, at, j));
                assert forall|m: int|
                    0 <= m < start.len() && on_chain(start, m as nat, spine[j]) implies (
                #[trigger] a[m]).visits == after[m].visits by {
                    assert(after[m].visits == a[m].visits);
                }
                if r && on_chain(start, at as nat, spine[j]) {
                    lemma_chain_below(start, at as nat, spine[j]);
                }
                lemma_walk_elsewhere(
                    source,
                    unit,
                    chance,
                    vocabulary,
                    bound,
                    start,
                    a,
                    after,
                    r,
                    spine[j],
                );
            }
            lemma_walk_assemble(
                source,
                unit,
                chance,
                vocabulary,
                bound,
                start,
                after,
                at as nat,
                r,
            );
            if r {
                lemma_advanced_chain(start, a, after, true);
                lemma_aggregates_chain(start, a, after, vocabulary.len(), bound, true);
                assert(entering.best_score() == origin.best_score()) by {
                    assert(kept(start, a, origin.best() as int, false));
                }
                assert forall|m: int|
                    0 <= m < start.len() && on_chain(start, at as nat, m as nat) && depth(
                        start,
                        m as nat,
                    ) >= level implies (#[trigger] after[m]).visits == start[m].visits + 1 by {
                    lemma_chain_depth(start, at as nat, m as nat);
                    assert(after[m].visits == a[m].visits);
                }
            } else {
                assert(!must_grow(start, vocabulary, bound, at as nat, level)) by {
                    assert forall|j: int|
                        0 <= j < start[at].children.len() implies !must_grow(
                        start,
                        vocabulary,
                        bound,
                        #[trigger] start[at].children[j],
                        level + 1,
                    ) by {
                        assert(!must_grow(start, vocabulary, bound, spine[j], level + 1));
                    }
                }
            }
            assert forall|m: int| 0 <= m < start.len() implies (#[trigger] after[m]).visits
                == a[m].visits by {}
        }
        r
    }

    /// One search from the root down: clears the program under
    /// construction, visits the root, and either grows one new leaf
    /// somewhere in the tree or grows nothing. Gives `true` if the tree has
    /// grown. It grows only where [`can_grow`] allows it, and is sure to grow
    /// where [`must_grow`] holds. The leaf hangs under a node that was open,
    /// and every node on the way down to it has been visited once more; at
    /// every open node that it enters the search goes the way the draws
    /// point ([`walk_followed`]). A root that is not open only has its visit
    /// counted. The new leaf
    /// becomes the best node if its score beats the best score so far, so
    /// that the best score never gets worse and no node comes to score above
    /// the best node. Above a new leaf with a score the aggregates are
    /// brought up to date.
    pub fn search_one(&mut self) -> (r: bool)
        requires
            old(self).wf(),
            old(self).nodes()[0].visits < u64::MAX,
        ensures
            final(self).wf(),
            old(self).same_setup(final(self)),
            advanced(old(self).nodes(), final(self).nodes(), r),
            final(self).nodes()[0].visits == old(self).nodes()[0].visits + 1,
            visited_once(old(self).nodes(), final(self).nodes()),
            final(self).best() == if r && score_below(
                old(self).best_score(),
                final(self).nodes().last().self_score,
            ) {
                old(self).nodes().len()
            } else {
                old(self).best()
            },
            score_at_least(final(self).best_score(), old(self).best_score()),
            r ==> can_grow(
                old(self).nodes(),
                old(self).vocabulary(),
                old(self).length_bound() as nat,
                0,
                0,
            ),
            must_grow(
                old(self).nodes(),
                old(self).vocabulary(),
                old(self).length_bound() as nat,
                0,
                0,
            ) ==> r,
            !r ==> same_prospects(
                old(self).nodes(),
                final(self).nodes(),
                old(self).vocabulary(),
                old(self).length_bound() as nat,
            ),
            r && final(self).nodes().last().self_score is Some ==> chain_refreshed(
                final(self).nodes(),
                final(self).nodes().last().parent.unwrap(),
                old(self).vocabulary().len(),
            ),
            r ==> final(self).scratch() == path(final(self).nodes(), old(self).nodes().len()),
            old(self).best_is_greatest() ==> final(self).best_is_greatest(),
            r ==> leaf_hangs(
                old(self).nodes(),
                final(self).nodes(),
                old(self).vocabulary(),
                old(self).length_bound() as nat,
                0,
                0,
            ),
            walk_followed(
                old(self).source(),
                old(self).unit(),
                old(self).chance(),
                old(self).vocabulary(),
                old(self).length_bound() as nat,
                old(self).nodes(),
                final(self).nodes(),
                0,
                r,
            ),
            !open_node(
                old(self).nodes(),
                old(self).vocabulary(),
                old(self).length_bound() as nat,
                0,
                0,
            ) ==> final(self).scratch().len() == 0 && turned_back(
                old(self).nodes(),
                final(self).nodes(),
                old(self).vocabulary(),
                old(self).length_bound() as nat,
                0,
                0,
            ),
            aggregates_follow(
                old(self).nodes(),
                final(self).nodes(),
                old(self).vocabulary().len(),
                old(self).length_bound() as nat,
                r,
            ),
    {
        let ghost origin = *self;
        let current_node = self.root_node;
        self.current_program.clear();
        let ghost entering = *self;
        let r = self.search_step(0, &current_node);
        proof {
            assert(kept(entering.nodes(), self.nodes(), entering.best() as int, r));
            if entering.best() != 0 {
                assert(node_scored(entering.nodes(), entering.oracle(), entering.best() as int));
            }
        }
        r
    }

    /// Replaces the tree by its pruned copy: the root stays, and under every
    /// node that stays those of its children stay that have been visited at
    /// least `minimum_visits` times. The best node's handle follows the best
    /// node into the copy, or falls back to the root where the best node has
    /// been pruned. Handles into the old tree lose their meaning.
    pub fn garbage_collect(&mut self, minimum_visits: u64)
        requires
            old(self).wf(),
        ensures
            final(self).wf(),
            old(self).same_setup(final(self)),
            final(self).scratch() == old(self).scratch(),
            pruned_copy(
                old(self).nodes(),
                final(self).nodes(),
                copy_order(old(self).nodes(), 0, minimum_visits),
                minimum_visits,
            ),
            complete_copy(
                old(self).nodes(),
                final(self).nodes(),
                copy_order(old(self).nodes(), 0, minimum_visits),
                minimum_visits,
            ),
            copy_order(old(self).nodes(), 0, minimum_visits)[final(self).best() as int] == if survives(
                old(self).nodes(),
                old(self).best(),
                minimum_visits,
            ) {
                old(self).best()
            } else {
                0
            },
            forall|j: int|
                0 < j < final(self).nodes().len() ==> (#[trigger] final(self).nodes()[j]).visits
                    >= minimum_visits,
            survives(old(self).nodes(), old(self).best(), minimum_visits) ==> {
                &&& path(final(self).nodes(), final(self).best()) == path(
                    old(self).nodes(),
                    old(self).best(),
                )
                &&& final(self).best_score() == old(self).best_score()
            },
            !survives(old(self).nodes(), old(self).best(), minimum_visits) ==> final(self).best()
                == 0,
            old(self).best_is_greatest() && survives(
                old(self).nodes(),
                old(self).best(),
                minimum_visits,
            ) ==> final(self).best_is_greatest(),
    {
        let ghost before = self.nodes();
        let ghost old_best = self.best() as int;
        let mut new_arena = Arena::with_capacity(self.arena.len());
        let old_best_node = self.best_node;
        let mut new_best_node: Option<Ap<ProgramNode>> = None;
        let (new_root, Ghost(source)) = convert_node(
            &self.arena,
            &mut new_arena,
            self.root_node,
            None,
            old_best_node,
            &mut new_best_node,
            minimum_visits,
            Ghost(Seq::empty()),
        );
        let ghost after = views(new_arena@);
        proof {
            assert(source =~= copy_order(before, 0, minimum_visits));
            lemma_copy_complete(before, after, source, minimum_visits);
            lemma_copy_wf(before, after, source, minimum_visits, self.vocabulary(), self.oracle());
            lemma_copy_is_complete(before, after, source, minimum_visits);
            lemma_copy_depths(before, after, source, minimum_visits, self.length_bound() as nat);
            if survives(before, old_best as nat, minimum_visits) {
                lemma_survivor_copied(before, after, source, minimum_visits, old_best);
                let b = new_best_node.unwrap().index() as int;
                lemma_copy_path(before, after, source, minimum_visits, b);
                assert(copied_node(before, after, source, minimum_visits, b));
                if greatest_at(before, old_best as nat) {
                    lemma_copy_greatest(
                        before,
                        after,
                        source,
                        minimum_visits,
                        old_best as nat,
                        b as nat,
                    );
                }
            } else {
                if new_best_node is Some {
                    let b = new_best_node.unwrap().index() as int;
                    if b > 0 {
                        assert(parent_copied(before, after, source, minimum_visits, b));
                    }
                }
            }
            assert forall|j: int| 0 < j < after.len() implies (#[trigger] after[j]).visits
                >= minimum_visits by {
                lemma_copy_visited(before, after, source, minimum_visits, j);
            }
        }
        self.root_node = new_root;
        self.best_node = match new_best_node {
            Some(b) => b,
            None => self.root_node,
        };
        self.arena = new_arena;
    }

    /// Appends the records of the subtree under the node, in the order of
    /// [`visit_order`].
    fn collect_records(&self, node: &Ap<ProgramNode>, out: &mut Vec<NodeRecord>)
        requires
            self.wf(),
            node.index() < self.nodes().len(),
            forall|i: int| 0 <= i < old(out)@.len() ==> describes(#[trigger] old(out)@[i], self.nodes()),
        ensures
            recorded_positions(final(out)@) == recorded_positions(old(out)@) + visit_order(
                self.nodes(),
                node.index(),
            ),
            forall|i: int|
                0 <= i < final(out)@.len() ==> describes(#[trigger] final(out)@[i], self.nodes()),
        decreases self.nodes().len() - node.index(),
    {
        let ghost nodes = self.nodes();
        let ghost at = node.index();
        let ghost start = recorded_positions(out@);
        let held = node.get(&self.arena);
        let record = NodeRecord {
            index: node.internal_index(),
            parent: match held.parent {
                Some(p) => Some(p.internal_index()),
                None => None,
            },
            instruction: held.instruction,
            self_score: held.self_score,
            child_score: held.child_score,
            done: held.done,
            visits: held.visits,
            program: self.make_program(node),
        };
        out.push(record);
        let count = held.children.len();
        let mut i: usize = count;
        proof {
            assert(recorded_positions(out@) =~= start + seq![at]);
            assert(recorded_positions(out@) + visit_children(nodes, at, count as nat) =~= start
                + visit_order(nodes, at));
        }
        while i > 0
            invariant
                self.wf(),
                nodes == self.nodes(),
                at == node.index(),
                at < nodes.len(),
                held == self.arena@[at as int],
                count == nodes[at as int].children.len(),
                i <= count,
                recorded_positions(out@) + visit_children(nodes, at, i as nat) == start
                    + visit_order(nodes, at),
                forall|j: int| 0 <= j < out@.len() ==> describes(#[trigger] out@[j], nodes),
            decreases i,
        {
            let ghost so_far = recorded_positions(out@);
            i = i - 1;
            let child = held.children[i];
            assert(linked_down(nodes, at as int, i as int));
            self.collect_records(&child, out);
            proof {
                let below = visit_order(nodes, child.index());
                assert(visit_children(nodes, at, (i + 1) as nat) == below + visit_children(
                    nodes,
                    at,
                    i as nat,
                ));
                assert(recorded_positions(out@) + visit_children(nodes, at, i as nat) =~= so_far
                    + visit_children(nodes, at, (i + 1) as nat));
            }
        }
        proof {
            assert(visit_children(nodes, at, 0) =~= Seq::<nat>::empty());
            assert(recorded_positions(out@) =~= recorded_positions(out@) + visit_children(
                nodes,
                at,
                0,
            ));
        }
    }

    /// One record for each node of the tree: the root first, and every node
    /// before its children, the children from the last to the first.
    pub fn records(&self) -> (r: Vec<NodeRecord>)
        requires
            self.wf(),
        ensures
            recorded_positions(r@) == visit_order(self.nodes(), 0),
            forall|i: int| 0 <= i < r@.len() ==> describes(#[trigger] r@[i], self.nodes()),
    {
        let mut out: Vec<NodeRecord> = Vec::new();
        assert(recorded_positions(out@) =~= Seq::<nat>::empty());
        self.collect_records(&self.root_node, &mut out);
        assert(recorded_positions(out@) =~= visit_order(self.nodes(), 0));
        out
    }

    /// The score that a node holds is the score of its program: where the
    /// oracle gives one answer for one sequence of instructions, scoring the
    /// program of a node again gives what the node holds, a result that is
    /// not finite counting as no score.
    pub proof fn lemma_score_reproduced(&self, n: int, program: Program, raw: Option<u32>)
        requires
            self.wf(),
            0 < n < self.nodes().len(),
            single_valued(self.oracle()),
            program@ == path(self.nodes(), n as nat),
            call_ensures(self.oracle(), (&program,), raw),
        ensures
            finite_part(raw) == self.nodes()[n].self_score,
    {
        assert(node_scored(self.nodes(), self.oracle(), n));
        let (p, r) = choose|p: Program, r: Option<u32>|
            p@ == path(self.nodes(), n as nat) && #[trigger] call_ensures(self.oracle(), (&p,), r)
                && self.nodes()[n].self_score == finite_part(r);
        assert(same_answer(self.oracle(), p, program, r, raw));
    }

    /// The best score never falls: where it is no worse after each of two
    /// steps than before that step, it is no worse after both than before
    /// the first.
    pub proof fn lemma_best_score_never_falls(&self, later: &Self, last: &Self)
        requires
            self.wf(),
            later.wf(),
            last.wf(),
            score_at_least(later.best_score(), self.best_score()),
            score_at_least(last.best_score(), later.best_score()),
        ensures
            score_at_least(last.best_score(), self.best_score()),
    {
        self.lemma_best_score_finite();
        later.lemma_best_score_finite();
        last.lemma_best_score_finite();
        lemma_not_below_transitive(self.best_score(), later.best_score(), last.best_score());
    }

    /// The tree holds no more nodes than the full tree of the vocabulary's
    /// width and the bound's depth, so that only so many searches can grow
    /// it.
    pub proof fn lemma_tree_fits(&self)
        requires
            self.wf(),
        ensures
            self.nodes().len() <= capacity(self.vocabulary().len(), self.length_bound() as nat),
    {
        lemma_node_count_bounded(self.nodes(), self.vocabulary(), self.length_bound() as nat);
    }

    /// The best score is a finite number or absent.
    pub proof fn lemma_best_score_finite(&self)
        requires
            self.wf(),
        ensures
            finite_part(self.best_score()) == self.best_score(),
    {
        if self.best() != 0 {
            assert(node_scored(self.nodes(), self.oracle(), self.best() as int));
        }
    }
}

} // verus!

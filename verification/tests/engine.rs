use evofunc::instructions::{Instruction, Operation, Program};
use evofunc::nodes::{NodeRecord, DEFAULT_EXPLORATION_CHANCE, MCTS};

fn float_unit(op: Operation) -> u32 {
    let b = f32::from_bits;
    match op {
        Operation::Add(x, y) => (b(x) + b(y)).to_bits(),
        Operation::Sub(x, y) => (b(x) - b(y)).to_bits(),
        Operation::Mul(x, y) => (b(x) * b(y)).to_bits(),
        Operation::Div(x, y) => (b(x) / b(y)).to_bits(),
        Operation::Exp(x) => b(x).exp().to_bits(),
        Operation::Ln(x) => b(x).ln().to_bits(),
    }
}

fn unit_draw() -> u32 {
    fastrand::f32().to_bits()
}

fn table(values: &[f32]) -> Vec<u32> {
    values.iter().map(|v| v.to_bits()).collect()
}

/// The value that a program leaves on top of its stack.
fn top_value(consts: &[f32]) -> impl Fn(&Program) -> Option<u32> {
    let consts = table(consts);
    move |program: &Program| program.evaluate_to_result(&consts, &[], &float_unit)
}

fn score_of<E, A, R>(mcts: &MCTS<E, A, R>) -> Option<f32>
where
    E: Fn(&Program) -> Option<u32>,
    A: Fn(Operation) -> u32,
    R: Fn() -> u32,
{
    mcts.high_score().map(f32::from_bits)
}

/// Searches until the engine reports that nothing can be grown any more,
/// and hands back the number of searches that grew the tree.
fn exhaust<E, A, R>(mcts: &mut MCTS<E, A, R>, limit: usize) -> usize
where
    E: Fn(&Program) -> Option<u32>,
    A: Fn(Operation) -> u32,
    R: Fn() -> u32,
{
    let mut grown = 0;
    for _ in 0..limit {
        let before = mcts.node_count();
        let best = score_of(mcts);
        let more = mcts.search_one();
        assert_eq!(mcts.node_count(), before + usize::from(more));
        let now = score_of(mcts);
        assert!(!(now < best), "the best score fell from {best:?} to {now:?}");
        if !more {
            return grown;
        }
        grown += 1;
    }
    panic!("the search did not come to an end within {limit} rounds");
}

fn depth_of(records: &[NodeRecord], record: &NodeRecord) -> usize {
    let mut depth = 0;
    let mut at = record;
    while let Some(parent) = at.parent {
        at = records.iter().find(|r| r.index == parent).expect("the parent has a record");
        depth += 1;
    }
    depth
}

fn check_tree<E, A, R>(mcts: &MCTS<E, A, R>, vocabulary: &[Instruction], oracle: &E)
where
    E: Fn(&Program) -> Option<u32>,
    A: Fn(Operation) -> u32,
    R: Fn() -> u32,
{
    let records = mcts.records();
    assert_eq!(records.len(), mcts.node_count() + 1);
    assert_eq!(records[0].index, 0);
    assert_eq!(records[0].parent, None);
    assert_eq!(records[0].self_score, None);
    assert_eq!(records[0].program.len(), 0);
    for record in &records[1..] {
        let parent = record.parent.expect("only the root has no parent");
        assert!(parent < record.index);
        let above = records.iter().find(|r| r.index == parent).unwrap();
        assert!(record.visits <= above.visits);
        assert!(vocabulary.contains(&record.instruction));
        assert_eq!(record.program.len(), depth_of(&records, record));
        assert_eq!(record.program.instructions.last(), Some(&record.instruction));
        assert_eq!(
            record.program.instructions[..record.program.len() - 1],
            above.program.instructions[..]
        );
        let again = oracle(&record.program).filter(|s| f32::from_bits(*s).is_finite());
        assert_eq!(again, record.self_score);
        for other in &records[1..] {
            if other.parent == record.parent && other.index != record.index {
                assert_ne!(other.instruction, record.instruction);
            }
        }
    }
}

#[test]
fn a_new_engine_holds_the_root_alone() {
    let vocabulary = [Instruction::Const(0), Instruction::Add];
    let mcts = MCTS::new(&vocabulary, top_value(&[1.0]), float_unit, unit_draw);
    assert_eq!(mcts.node_count(), 0);
    assert_eq!(mcts.high_score(), None);
    assert_eq!(mcts.make_best_program().len(), 0);
    assert_eq!(mcts.max_program_length, 64);
    assert_eq!(mcts.exploration_chance, 0.05f32.to_bits());
    assert_eq!(mcts.exploration_chance, DEFAULT_EXPLORATION_CHANCE);
    assert_eq!(mcts.vocabulary_len(), 2);
    let records = mcts.records();
    assert_eq!(records.len(), 1);
    assert_eq!(records[0].instruction, Instruction::Const(0));
    assert_eq!(records[0].visits, 0);
    assert!(!records[0].done);
}

#[test]
fn finds_one_plus_one() {
    let vocabulary = [Instruction::Const(0), Instruction::Const(1), Instruction::Add];
    let consts = [0.0, 1.0];
    let mut mcts =
        MCTS::with_max_program_length(&vocabulary, 3, top_value(&consts), float_unit, unit_draw);
    let grown = exhaust(&mut mcts, 100);
    assert!(grown <= 39);
    assert_eq!(mcts.node_count(), grown);
    assert_eq!(score_of(&mcts), Some(2.0));
    assert_eq!(
        mcts.make_best_program().instructions,
        vec![Instruction::Const(1), Instruction::Const(1), Instruction::Add]
    );
    check_tree(&mcts, &vocabulary, &top_value(&consts));
    assert!(!mcts.search_one());
}

#[test]
fn finds_one_plus_one_whatever_the_exploration_chance() {
    let vocabulary = [Instruction::Const(0), Instruction::Const(1), Instruction::Add];
    let consts = [0.0, 1.0];
    for chance in [0.0f32, 0.5, 1.0] {
        let mut mcts = MCTS::with_max_program_length(
            &vocabulary,
            3,
            top_value(&consts),
            float_unit,
            unit_draw,
        );
        mcts.exploration_chance = chance.to_bits();
        exhaust(&mut mcts, 100);
        assert_eq!(score_of(&mcts), Some(2.0));
        check_tree(&mcts, &vocabulary, &top_value(&consts));
    }
}

#[test]
fn a_division_by_zero_is_a_candidate_like_any_other() {
    let vocabulary = [Instruction::Const(0), Instruction::Div];
    let consts = table(&[0.0]);
    let forced = Program::create(&[Instruction::Const(0), Instruction::Const(0), Instruction::Div]);
    assert_eq!(
        forced.evaluate_to_result(&consts, &[], &float_unit),
        Some(1.0f32.to_bits())
    );
    let nearness = move |program: &Program| {
        program
            .evaluate_to_result(&consts, &[], &float_unit)
            .map(|v| (-(f32::from_bits(v) - 1.0).abs()).to_bits())
    };
    let mut mcts =
        MCTS::with_max_program_length(&vocabulary, 3, nearness.clone(), float_unit, unit_draw);
    exhaust(&mut mcts, 100);
    assert_eq!(score_of(&mcts), Some(0.0));
    assert_eq!(mcts.make_best_program().instructions, forced.instructions);
    let records = mcts.records();
    let node = records
        .iter()
        .find(|r| r.program.instructions == forced.instructions)
        .expect("the program has a node");
    assert_eq!(node.self_score.map(f32::from_bits), Some(0.0));
    check_tree(&mcts, &vocabulary, &nearness);
}

#[test]
fn a_bound_of_one_ends_the_search_after_one_level() {
    let vocabulary = [Instruction::Const(0), Instruction::Const(1), Instruction::Add];
    let mut mcts =
        MCTS::with_max_program_length(&vocabulary, 1, top_value(&[0.0, 1.0]), float_unit, unit_draw);
    assert!(mcts.search_one());
    assert!(mcts.search_one());
    assert!(mcts.search_one());
    assert_eq!(mcts.node_count(), 3);
    assert!(!mcts.search_one());
    assert!(!mcts.search_one());
    assert_eq!(mcts.node_count(), 3);
    assert_eq!(score_of(&mcts), Some(1.0));
    assert_eq!(mcts.make_best_program().instructions, vec![Instruction::Const(1)]);
    let records = mcts.records();
    assert!(records[0].done);
    assert_eq!(records[0].visits, 5);
    for record in &records[1..] {
        assert_eq!(record.parent, Some(0));
        assert_eq!(record.program.len(), 1);
    }
}

#[test]
fn every_search_visits_the_root_once() {
    let vocabulary = [Instruction::Const(0), Instruction::Const(1), Instruction::Add];
    let mut mcts =
        MCTS::with_max_program_length(&vocabulary, 3, top_value(&[0.0, 1.0]), float_unit, unit_draw);
    assert_eq!(mcts.root_visits(), 0);
    for round in 1..=60u64 {
        mcts.search_one();
        assert_eq!(mcts.root_visits(), round);
    }
}

#[test]
fn the_program_of_a_node_is_the_way_down_to_it() {
    let vocabulary = [Instruction::Const(0), Instruction::Const(1), Instruction::Add];
    let mut mcts =
        MCTS::with_max_program_length(&vocabulary, 3, top_value(&[0.0, 1.0]), float_unit, unit_draw);
    exhaust(&mut mcts, 100);
    let best = mcts.best_node;
    assert_eq!(
        mcts.make_program(&best).instructions,
        mcts.make_best_program().instructions
    );
    let record = mcts
        .records()
        .into_iter()
        .find(|r| r.index == best.internal_index())
        .unwrap();
    assert_eq!(record.program.instructions, mcts.make_program(&best).instructions);
    assert_eq!(record.self_score, mcts.high_score());
}

#[test]
fn a_bound_of_zero_grows_nothing() {
    let vocabulary = [Instruction::Const(0)];
    let mut mcts =
        MCTS::with_max_program_length(&vocabulary, 0, top_value(&[1.0]), float_unit, unit_draw);
    assert!(!mcts.search_one());
    assert_eq!(mcts.node_count(), 0);
    assert_eq!(mcts.high_score(), None);
}

#[test]
fn programs_without_a_score_are_dead_ends() {
    let vocabulary = [Instruction::Const(0), Instruction::Add];
    let silent = |_: &Program| -> Option<u32> { None };
    let mut mcts = MCTS::with_max_program_length(&vocabulary, 5, silent, float_unit, unit_draw);
    let grown = exhaust(&mut mcts, 20);
    assert_eq!(grown, 2);
    assert_eq!(mcts.high_score(), None);
    assert_eq!(mcts.make_best_program().len(), 0);
    for record in &mcts.records()[1..] {
        assert_eq!(record.parent, Some(0));
        assert_eq!(record.self_score, None);
    }
}

#[test]
fn scores_that_are_not_finite_count_as_none() {
    let vocabulary = [Instruction::Const(0), Instruction::Const(1)];
    let wild = |program: &Program| -> Option<u32> {
        match program.instructions.last() {
            Some(Instruction::Const(0)) => Some(f32::INFINITY.to_bits()),
            _ => Some(f32::NAN.to_bits()),
        }
    };
    let mut mcts = MCTS::with_max_program_length(&vocabulary, 4, wild, float_unit, unit_draw);
    let grown = exhaust(&mut mcts, 20);
    assert_eq!(grown, 2);
    assert_eq!(mcts.high_score(), None);
}

#[test]
fn the_first_better_score_becomes_the_best() {
    let vocabulary = [Instruction::Const(0), Instruction::Const(1), Instruction::Const(2)];
    let consts = [5.0, 5.0, -1.0];
    let mut mcts =
        MCTS::with_max_program_length(&vocabulary, 1, top_value(&consts), float_unit, unit_draw);
    exhaust(&mut mcts, 10);
    assert_eq!(score_of(&mcts), Some(5.0));
    // Of two programs with the same score the one found first stays the best.
    let records = mcts.records();
    let first_five = records[1..]
        .iter()
        .filter(|r| r.self_score == Some(5.0f32.to_bits()))
        .map(|r| r.index)
        .min()
        .unwrap();
    assert_eq!(mcts.best_node.internal_index(), first_five);
    assert_eq!(records[0].child_score.map(f32::from_bits), Some(5.0));
}

#[test]
fn aggregates_follow_the_children() {
    let vocabulary = [Instruction::Const(0), Instruction::Const(1), Instruction::Add];
    let consts = [0.0, 1.0];
    let mut mcts =
        MCTS::with_max_program_length(&vocabulary, 3, top_value(&consts), float_unit, unit_draw);
    exhaust(&mut mcts, 100);
    let records = mcts.records();
    for record in &records {
        let best_child = records
            .iter()
            .filter(|r| r.parent == Some(record.index))
            .filter_map(|r| r.self_score)
            .map(f32::from_bits)
            .max_by(f32::total_cmp);
        assert_eq!(record.child_score.map(f32::from_bits), best_child);
    }
}

#[test]
fn collecting_garbage_keeps_the_visited_nodes() {
    let vocabulary = [Instruction::Const(0), Instruction::Const(1), Instruction::Add];
    let consts = [0.0, 1.0];
    for minimum in [0u64, 1, 2, 3, 5, 8, 1000] {
        let mut mcts = MCTS::with_max_program_length(
            &vocabulary,
            3,
            top_value(&consts),
            float_unit,
            unit_draw,
        );
        exhaust(&mut mcts, 100);
        let before = mcts.records();
        let best_before = mcts.make_best_program();
        let best_record = before
            .iter()
            .find(|r| r.index == mcts.best_node.internal_index())
            .unwrap();
        let best_survives = best_record.visits >= minimum;
        let score_before = mcts.high_score();

        mcts.garbage_collect(minimum);

        let after = mcts.records();
        check_tree(&mcts, &vocabulary, &top_value(&consts));
        for record in &after[1..] {
            assert!(record.visits >= minimum);
        }
        let survivors: Vec<&NodeRecord> = before
            .iter()
            .filter(|r| r.index == 0 || r.visits >= minimum)
            .collect();
        assert_eq!(after.len(), survivors.len());
        for old in survivors {
            let new = after
                .iter()
                .find(|r| r.program.instructions == old.program.instructions)
                .expect("a node that was visited often enough stays");
            assert_eq!(new.instruction, old.instruction);
            assert_eq!(new.self_score, old.self_score);
            assert_eq!(new.child_score, old.child_score);
            assert_eq!(new.done, old.done);
            assert_eq!(new.visits, old.visits);
        }
        if best_survives {
            assert_eq!(mcts.high_score(), score_before);
            assert_eq!(mcts.make_best_program().instructions, best_before.instructions);
        } else {
            assert_eq!(mcts.high_score(), None);
            assert_eq!(mcts.make_best_program().len(), 0);
            assert_eq!(mcts.best_node.internal_index(), 0);
        }
    }
}

#[test]
fn collecting_garbage_renumbers_the_nodes_in_walking_order() {
    let vocabulary = [Instruction::Const(0), Instruction::Const(1), Instruction::Add];
    let consts = [0.0, 1.0];
    let mut mcts =
        MCTS::with_max_program_length(&vocabulary, 3, top_value(&consts), float_unit, unit_draw);
    exhaust(&mut mcts, 100);
    mcts.garbage_collect(1);
    let records = mcts.records();
    let mut indices: Vec<usize> = records.iter().map(|r| r.index).collect();
    indices.sort();
    assert_eq!(indices, (0..records.len()).collect::<Vec<_>>());
    for record in &records[1..] {
        assert!(record.parent.unwrap() < record.index);
    }
    // A walk that takes a node before its children, and the children in
    // their order, meets the nodes in the order of their numbers.
    let mut walk = Vec::new();
    let mut pending = vec![0usize];
    while let Some(index) = pending.pop() {
        walk.push(index);
        let mut children: Vec<usize> = records
            .iter()
            .filter(|r| r.parent == Some(index))
            .map(|r| r.index)
            .collect();
        children.sort();
        children.reverse();
        pending.extend(children);
    }
    assert_eq!(walk, (0..records.len()).collect::<Vec<_>>());
}

#[test]
fn the_search_goes_on_after_collecting_garbage() {
    let vocabulary = [Instruction::Const(0), Instruction::Const(1), Instruction::Add];
    let consts = [0.0, 1.0];
    let mut mcts =
        MCTS::with_max_program_length(&vocabulary, 3, top_value(&consts), float_unit, unit_draw);
    for _ in 0..10 {
        mcts.search_one();
    }
    mcts.garbage_collect(u64::MAX);
    assert_eq!(mcts.node_count(), 0);
    assert_eq!(mcts.high_score(), None);
    exhaust(&mut mcts, 100);
    assert_eq!(score_of(&mcts), Some(2.0));
    check_tree(&mcts, &vocabulary, &top_value(&consts));
}

#[test]
fn records_come_in_walking_order() {
    let vocabulary = [Instruction::Const(0), Instruction::Const(1)];
    let mut mcts =
        MCTS::with_max_program_length(&vocabulary, 2, top_value(&[0.0, 1.0]), float_unit, unit_draw);
    exhaust(&mut mcts, 100);
    let records = mcts.records();
    assert_eq!(records.len(), 7);
    // A node comes before its children, and the child made last comes first.
    let mut expected = Vec::new();
    let mut pending = vec![0usize];
    while let Some(index) = pending.pop() {
        expected.push(index);
        let mut children: Vec<usize> = records
            .iter()
            .filter(|r| r.parent == Some(index))
            .map(|r| r.index)
            .collect();
        children.sort();
        pending.extend(children);
    }
    assert_eq!(records.iter().map(|r| r.index).collect::<Vec<_>>(), expected);
}

#[test]
fn a_deeper_search_finds_a_larger_sum() {
    let vocabulary = [Instruction::Const(0), Instruction::Add];
    let consts = [1.0];
    let mut mcts =
        MCTS::with_max_program_length(&vocabulary, 5, top_value(&consts), float_unit, unit_draw);
    exhaust(&mut mcts, 1000);
    assert_eq!(score_of(&mcts), Some(3.0));
    let best = mcts.make_best_program();
    assert_eq!(best.len(), 5);
    assert_eq!(
        best.evaluate_to_result_and_remaining_stack(&table(&consts), &[], &float_unit),
        Some((3.0f32.to_bits(), 0))
    );
    check_tree(&mcts, &vocabulary, &top_value(&consts));
}

fn parents<E, A, R>(mcts: &MCTS<E, A, R>) -> Vec<Option<usize>>
where
    E: Fn(&Program) -> Option<u32>,
    A: Fn(Operation) -> u32,
    R: Fn() -> u32,
{
    let mut records = mcts.records();
    records.sort_by_key(|r| r.index);
    records.iter().map(|r| r.parent).collect()
}

#[test]
fn without_exploration_the_search_goes_down_before_it_goes_wide() {
    let vocabulary = [Instruction::Const(0), Instruction::Const(1)];
    let even = |_: &Program| -> Option<u32> { Some(1.0f32.to_bits()) };
    let lowest = || 0.0f32.to_bits();
    let mut mcts = MCTS::with_max_program_length(&vocabulary, 2, even, float_unit, lowest);
    mcts.exploration_chance = 0.0f32.to_bits();
    // The root grows its first child; then the search goes into that child
    // until it is full and done, and only then back to the root.
    for _ in 0..4 {
        assert!(mcts.search_one());
    }
    assert_eq!(parents(&mcts), vec![None, Some(0), Some(1), Some(1), Some(0)]);
    assert!(mcts.search_one());
    assert!(mcts.search_one());
    assert_eq!(
        parents(&mcts),
        vec![None, Some(0), Some(1), Some(1), Some(0), Some(4), Some(4)]
    );
    assert!(!mcts.search_one());
    let mut records = mcts.records();
    records.sort_by_key(|r| r.index);
    let visits: Vec<u64> = records.iter().map(|r| r.visits).collect();
    assert_eq!(visits, vec![7, 6, 1, 0, 3, 1, 0]);
}

#[test]
fn with_full_exploration_a_node_is_filled_before_the_search_goes_down() {
    let vocabulary = [Instruction::Const(0), Instruction::Const(1)];
    let even = |_: &Program| -> Option<u32> { Some(1.0f32.to_bits()) };
    let lowest = || 0.0f32.to_bits();
    let mut mcts = MCTS::with_max_program_length(&vocabulary, 2, even, float_unit, lowest);
    mcts.exploration_chance = 1.0f32.to_bits();
    for _ in 0..4 {
        assert!(mcts.search_one());
    }
    assert_eq!(parents(&mcts), vec![None, Some(0), Some(0), Some(1), Some(1)]);
}

#[test]
fn the_draw_picks_the_child_that_is_entered_first() {
    let vocabulary = [Instruction::Const(0), Instruction::Const(1)];
    let even = |_: &Program| -> Option<u32> { Some(1.0f32.to_bits()) };
    // Two children with equal scores share the unit interval evenly, so a
    // draw of 0.75 falls to the second of them.
    let high = || 0.75f32.to_bits();
    let mut mcts = MCTS::with_max_program_length(&vocabulary, 2, even, float_unit, high);
    mcts.exploration_chance = 0.8f32.to_bits();
    for _ in 0..3 {
        assert!(mcts.search_one());
    }
    assert_eq!(parents(&mcts), vec![None, Some(0), Some(0), Some(2)]);
}

#[test]
fn no_node_scores_above_the_best_node() {
    let vocabulary = [Instruction::Const(0), Instruction::Const(1), Instruction::Add];
    let consts = [0.0, 1.0];
    let mut mcts =
        MCTS::with_max_program_length(&vocabulary, 3, top_value(&consts), float_unit, unit_draw);
    loop {
        let more = mcts.search_one();
        let best = score_of(&mcts);
        for record in mcts.records() {
            let score = record.self_score.map(f32::from_bits);
            assert!(!(best < score), "{score:?} is above the best score {best:?}");
            assert!(record.program.len() <= 3);
        }
        if !more {
            break;
        }
    }
}

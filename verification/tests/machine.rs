use evofunc::arena::Arena;
use evofunc::instructions::{Instruction, Operation, Program, Stack, STACKSIZE};
use evofunc::text::Expression;

fn float_unit(op: Operation) -> u32 {
    let b = f32::from_bits;
    match op {
        Operation::Add(x, y) => (b(x) + b(y)).to_bits(),
        Operation::Sub(x, y) => (b(x) - b(y)).to_bits(),
        Operation::Mul(x, y) => (b(x) * b(y)).to_bits(),
        Operation::Div(x, y) => (b(x) / b(y)).to_bits(),
        Operation::Exp(x) => b(x).exp().to_bits(),
        Operation::Ln(x) => b(x).ln().to_bits(),
    }
}

fn table(values: &[f32]) -> Vec<u32> {
    values.iter().map(|v| v.to_bits()).collect()
}

fn evaluate(insts: &[Instruction], consts: &[f32], vars: &[f32]) -> Option<f32> {
    Program::create(insts)
        .evaluate_to_result(&table(consts), &table(vars), &float_unit)
        .map(f32::from_bits)
}

#[test]
fn handles_count_up_from_zero() {
    let mut arena: Arena<u64> = Arena::new();
    assert_eq!(arena.len(), 0);
    let a = arena.allocate(10);
    let b = arena.allocate(20);
    let c = arena.allocate(30);
    assert_eq!(a.internal_index(), 0);
    assert_eq!(b.internal_index(), 1);
    assert_eq!(c.internal_index(), 2);
    assert_eq!(arena.len(), 3);
    assert_eq!(*arena.get(&b), 20);
    assert_eq!(*c.get(&arena), 30);
    assert!(a == a.clone());
    assert!(a != b);
}

#[test]
fn items_can_be_changed_in_place() {
    let mut arena: Arena<u64> = Arena::with_capacity(4);
    let a = arena.allocate(1);
    let b = arena.allocate(2);
    *arena.get_mut(&a) = 7;
    *b.get_mut(&mut arena) += 40;
    assert_eq!(*arena.get(&a), 7);
    assert_eq!(*arena.get(&b), 42);
    assert_eq!(arena.len(), 2);
}

#[test]
fn stack_gives_back_the_value_pushed_last() {
    let mut stack = Stack::new();
    assert_eq!(stack.len(), 0);
    assert_eq!(stack.pop(), None);
    stack.push(1);
    stack.push(2);
    assert_eq!(stack.len(), 2);
    assert_eq!(stack.pop(), Some(2));
    assert_eq!(stack.pop(), Some(1));
    assert_eq!(stack.pop(), None);
    assert_eq!(stack.len(), 0);
}

#[test]
fn a_full_stack_loses_what_is_pushed() {
    let mut stack = Stack::new();
    for value in 0..200u32 {
        stack.push(value);
    }
    assert_eq!(stack.len(), STACKSIZE - 1);
    assert_eq!(stack.pop(), Some(126));
    assert_eq!(stack.len(), STACKSIZE - 2);
    stack.push(500);
    assert_eq!(stack.pop(), Some(500));
}

#[test]
fn programs_are_edited_at_the_end() {
    let mut program = Program::new();
    assert_eq!(program.len(), 0);
    program.remove_last_inst();
    assert_eq!(program.len(), 0);
    program.push_inst(Instruction::Const(0));
    program.push_inst(Instruction::Const(1));
    program.push_inst(Instruction::Add);
    program.push_inst(Instruction::Exp);
    assert_eq!(program.len(), 4);
    program.remove_last_inst();
    assert_eq!(
        program.instructions,
        vec![Instruction::Const(0), Instruction::Const(1), Instruction::Add]
    );
    program.truncate_to_len(7);
    assert_eq!(program.len(), 3);
    program.truncate_to_len(1);
    assert_eq!(program.instructions, vec![Instruction::Const(0)]);
    let copy = program.clone();
    program.clear();
    assert_eq!(program.len(), 0);
    assert_eq!(copy.instructions, vec![Instruction::Const(0)]);
}

#[test]
fn sum_of_two_constants() {
    let result = evaluate(
        &[Instruction::Const(0), Instruction::Const(1), Instruction::Add],
        &[1.0, 2.0],
        &[],
    );
    assert_eq!(result, Some(3.0));
}

#[test]
fn the_value_pushed_last_is_the_right_hand_operand() {
    let consts = [6.0, 2.0];
    let load = [Instruction::Const(0), Instruction::Const(1)];
    let with = |op: Instruction| {
        let mut insts = load.to_vec();
        insts.push(op);
        evaluate(&insts, &consts, &[])
    };
    assert_eq!(with(Instruction::Sub), Some(4.0));
    assert_eq!(with(Instruction::Div), Some(3.0));
    assert_eq!(with(Instruction::Mul), Some(12.0));
    assert_eq!(with(Instruction::Add), Some(8.0));
}

#[test]
fn variables_come_from_their_own_table() {
    let result = evaluate(
        &[Instruction::Var(1), Instruction::Const(0), Instruction::Mul],
        &[10.0],
        &[0.5, 4.0],
    );
    assert_eq!(result, Some(40.0));
}

#[test]
fn division_by_zero_gives_one() {
    for dividend in [0.0f32, 1.0, -3.5, f32::MAX, f32::INFINITY] {
        for divisor in [0.0f32, -0.0] {
            let result = evaluate(
                &[Instruction::Const(0), Instruction::Const(1), Instruction::Div],
                &[dividend, divisor],
                &[],
            );
            assert_eq!(result, Some(1.0), "{dividend} / {divisor}");
        }
    }
}

#[test]
fn logarithm_of_a_non_positive_number_is_finite() {
    let floor = f32::MIN_POSITIVE.ln();
    for operand in [0.0f32, -0.0, -1.0, -1.0e30, f32::NEG_INFINITY, 1.0e-40] {
        let result = evaluate(&[Instruction::Const(0), Instruction::Log], &[operand], &[]);
        let value = result.expect("one value is left");
        assert!(value.is_finite(), "ln of {operand} gave {value}");
        assert_eq!(value, floor);
    }
    let plain = evaluate(&[Instruction::Const(0), Instruction::Log], &[1.0], &[]);
    assert_eq!(plain, Some(0.0));
}

#[test]
fn exponential_and_logarithm() {
    let e = evaluate(&[Instruction::Const(0), Instruction::Exp], &[1.0], &[]).unwrap();
    assert!((e - std::f32::consts::E).abs() < 1.0e-6);
    let back = evaluate(
        &[Instruction::Const(0), Instruction::Exp, Instruction::Log],
        &[2.0],
        &[],
    )
    .unwrap();
    assert!((back - 2.0).abs() < 1.0e-6);
}

#[test]
fn an_operator_without_operands_ends_the_run() {
    assert_eq!(evaluate(&[Instruction::Add], &[], &[]), None);
    assert_eq!(evaluate(&[Instruction::Exp], &[], &[]), None);
    assert_eq!(evaluate(&[Instruction::Const(0), Instruction::Sub], &[1.0], &[]), None);
    assert_eq!(
        evaluate(
            &[Instruction::Const(0), Instruction::Mul, Instruction::Const(0)],
            &[1.0],
            &[]
        ),
        None
    );
    // Nothing after the failure is looked at, not even a table index.
    assert_eq!(evaluate(&[Instruction::Div, Instruction::Const(200)], &[], &[]), None);
    assert_eq!(evaluate(&[], &[], &[]), None);
}

#[test]
fn the_rest_of_the_stack_is_counted() {
    let program = Program::create(&[
        Instruction::Const(0),
        Instruction::Const(1),
        Instruction::Const(1),
        Instruction::Add,
    ]);
    let consts = table(&[1.0, 2.0]);
    let result = program.evaluate_to_result_and_remaining_stack(&consts, &[], &float_unit);
    assert_eq!(result, Some((4.0f32.to_bits(), 1)));
    let mut stack = program.run(&consts, &[], &float_unit).expect("no underflow");
    assert_eq!(stack.len(), 2);
    assert_eq!(stack.pop(), Some(4.0f32.to_bits()));
    assert_eq!(stack.pop(), Some(1.0f32.to_bits()));
    let empty = Program::new();
    assert_eq!(
        empty.evaluate_to_result_and_remaining_stack(&consts, &[], &float_unit),
        None
    );
    assert_eq!(empty.run(&consts, &[], &float_unit).map(|s| s.len()), Some(0));
}

#[test]
fn evaluation_is_repeatable() {
    let program = Program::create(&[
        Instruction::Const(2),
        Instruction::Var(0),
        Instruction::Exp,
        Instruction::Const(1),
        Instruction::Div,
        Instruction::Log,
        Instruction::Sub,
    ]);
    let consts = table(&[0.0, 1.5, 2.0]);
    let vars = table(&[0.25]);
    let first = program.evaluate_to_result(&consts, &vars, &float_unit);
    assert!(first.is_some());
    for _ in 0..10 {
        assert_eq!(program.evaluate_to_result(&consts, &vars, &float_unit), first);
    }
}

#[test]
fn a_run_that_overflows_keeps_the_first_values() {
    let mut insts = vec![Instruction::Const(0); 126];
    insts.extend(vec![Instruction::Const(1); 50]);
    let program = Program::create(&insts);
    let consts = table(&[1.0, 2.0]);
    let result = program.evaluate_to_result_and_remaining_stack(&consts, &[], &float_unit);
    assert_eq!(result, Some((2.0f32.to_bits(), 126)));
}

#[test]
fn table_sizes_are_checked_as_far_as_a_run_gets() {
    let program = Program::create(&[Instruction::Const(2), Instruction::Var(0)]);
    assert!(program.fits_tables(3, 1));
    assert!(!program.fits_tables(2, 1));
    assert!(!program.fits_tables(3, 0));
    let failing = Program::create(&[Instruction::Add, Instruction::Const(9)]);
    assert!(failing.fits_tables(0, 0));
    assert!(Program::new().fits_tables(0, 0));
}

#[test]
fn instructions_are_rendered_by_name() {
    let program = Program::create(&[
        Instruction::Const(0),
        Instruction::Var(12),
        Instruction::Add,
        Instruction::Const(255),
        Instruction::Sub,
        Instruction::Mul,
        Instruction::Div,
        Instruction::Exp,
        Instruction::Log,
    ]);
    assert_eq!(
        program.render(),
        "Const(0) Var(12) Add Const(255) Sub Mul Div Exp Log"
    );
    assert_eq!(Program::new().render(), "");
    assert_eq!(Program::create(&[Instruction::Var(100)]).render(), "Var(100)");
    for inst in [
        Instruction::Add,
        Instruction::Const(7),
        Instruction::Const(70),
        Instruction::Var(200),
    ] {
        assert_eq!(Program::create(&[inst]).render(), format!("{:?}", inst));
    }
}

#[test]
fn expressions_are_rendered_in_infix_form() {
    let consts = vec!["1".to_string(), "2.5".to_string()];
    let sum = Program::create(&[Instruction::Const(0), Instruction::Const(1), Instruction::Add]);
    assert_eq!(sum.render_pretty(&consts), Some("(1 + 2.5)".to_string()));
    let difference =
        Program::create(&[Instruction::Const(0), Instruction::Const(1), Instruction::Sub]);
    assert_eq!(difference.render_pretty(&consts), Some("(1 - 2.5)".to_string()));
    let plain = vec!["1".to_string(), "2".to_string()];
    assert_eq!(difference.render_pretty(&plain), Some("(1 - 2)".to_string()));
    let quotient =
        Program::create(&[Instruction::Const(0), Instruction::Const(1), Instruction::Div]);
    assert_eq!(quotient.render_pretty(&consts), Some("(1 / 2.5)".to_string()));
    let nested = Program::create(&[
        Instruction::Var(3),
        Instruction::Exp,
        Instruction::Const(0),
        Instruction::Log,
        Instruction::Div,
        Instruction::Const(1),
        Instruction::Mul,
        Instruction::Var(0),
        Instruction::Sub,
    ]);
    assert_eq!(
        nested.render_pretty(&consts),
        Some("((((e**v_3) / (ln(1))) * 2.5) - v_0)".to_string())
    );
    assert_eq!(Program::create(&[Instruction::Add]).render_pretty(&consts), None);
    assert_eq!(Program::new().render_pretty(&consts), None);
    // Only the expression on top is rendered.
    let two = Program::create(&[Instruction::Const(9), Instruction::Const(0)]);
    assert_eq!(two.render_pretty(&consts), Some("1".to_string()));
}

#[test]
fn an_expression_knows_which_tables_fit() {
    let program = Program::create(&[
        Instruction::Const(4),
        Instruction::Var(9),
        Instruction::Mul,
        Instruction::Exp,
    ]);
    let expression = program.expression().expect("one expression is left");
    assert!(expression.fits_table(5));
    assert!(!expression.fits_table(4));
    let consts: Vec<String> = ["a", "b", "c", "d", "e"].iter().map(|s| s.to_string()).collect();
    assert_eq!(expression.render(&consts), "(e**(e * v_9))");
    match expression {
        Expression::Unary(Instruction::Exp, inner) => match *inner {
            Expression::Binary(Instruction::Mul, first, second) => {
                assert!(matches!(*first, Expression::Leaf(Instruction::Const(4))));
                assert!(matches!(*second, Expression::Leaf(Instruction::Var(9))));
            }
            _ => panic!("a product was expected"),
        },
        _ => panic!("an exponential was expected"),
    }
    assert!(Program::create(&[Instruction::Log]).expression().is_none());
    assert!(Program::new().expression().is_none());
}

//! The instruction set, programs, and the stack machine that runs them.
use crate::binary32::{
    finite, is_zero, nan, negative, raise_to_min_positive, raised_to_min_positive, zero,
    MIN_POSITIVE, ONE,
};
use vstd::prelude::*;
use vstd::slice::slice_to_vec;

verus! {

/// One step of a stack-machine program.
#[derive(Debug, Copy, Clone, PartialEq, Eq, Structural)]
pub enum Instruction {
    Add,
    Sub,
    Mul,
    Div,
    Exp,
    Log,
    Const(u8),
    Var(u8),
}

/// The number of slots of a [`Stack`].
pub const STACKSIZE: usize = 128;

/// One request to the arithmetic unit: an operation on bit patterns of
/// single-precision numbers. In the binary forms the left operand is first.
#[derive(Debug, Copy, Clone, PartialEq, Eq, Structural)]
pub enum Operation {
    Add(u32, u32),
    Sub(u32, u32),
    Mul(u32, u32),
    Div(u32, u32),
    /// The natural exponential.
    Exp(u32),
    /// The natural logarithm.
    Ln(u32),
}

/// Whether the arithmetic unit answers every request.
pub open spec fn total<A: Fn(Operation) -> u32>(unit: &A) -> bool {
    forall|op: Operation| #[trigger] call_requires(*unit, (op,))
}

/// Whether `model` says what the arithmetic unit answers to each request.
pub open spec fn computes<A: Fn(Operation) -> u32>(
    unit: &A,
    model: spec_fn(Operation) -> u32,
) -> bool {
    forall|op: Operation, r: u32| #[trigger] call_ensures(*unit, (op,), r) ==> r == model(op)
}

/// A fixed number of slots and a pointer to the first free one.
pub struct Stack {
    values: [u32; STACKSIZE],
    sp: usize,
}

impl View for Stack {
    type V = Seq<u32>;

    /// The values that a run of pops would give, the next one last.
    closed spec fn view(&self) -> Seq<u32> {
        self.values@.take(self.sp as int)
    }
}

/// The values after a push: the new value on top while a slot below the last
/// one is free, and the old values alone once the pointer is at its ceiling.
pub open spec fn pushed(values: Seq<u32>, value: u32) -> Seq<u32> {
    if values.len() < STACKSIZE - 1 {
        values.push(value)
    } else {
        values
    }
}

impl Stack {
    #[verifier::type_invariant]
    spec fn bounded(&self) -> bool {
        self.sp <= STACKSIZE - 1
    }

    pub fn new() -> (r: Self)
        ensures
            r@ == Seq::<u32>::empty(),
    {
        Stack { values: [0u32; STACKSIZE], sp: 0 }
    }

    pub fn len(&self) -> (r: usize)
        ensures
            r == self@.len(),
            r < STACKSIZE,
    {
        proof {
            use_type_invariant(self);
        }
        self.sp
    }

    /// Writes the value into the slot under the pointer and moves the pointer
    /// up, but never onto the last slot: a value pushed while the pointer is
    /// at its ceiling is lost.
    pub fn push(&mut self, value: u32)
        ensures
            final(self)@ == pushed(old(self)@, value),
            final(self)@.len() < STACKSIZE,
    {
        proof {
            use_type_invariant(&*self);
        }
        self.values[self.sp] = value;
        if self.sp + 1 < STACKSIZE - 1 {
            self.sp = self.sp + 1;
        } else {
            self.sp = STACKSIZE - 1;
        }
        assert(self@ =~= pushed(old(self)@, value));
    }

    /// Takes the top value off, or reports that there is none.
    pub fn pop(&mut self) -> (r: Option<u32>)
        ensures
            old(self)@.len() == 0 ==> r is None && final(self)@ == old(self)@,
            old(self)@.len() > 0 ==> r == Some(old(self)@.last()) && final(self)@ == old(
                self,
            )@.drop_last(),
            old(self)@.len() < STACKSIZE,
    {
        proof {
            use_type_invariant(&*self);
        }
        if self.sp == 0 {
            None
        } else {
            self.sp = self.sp - 1;
            assert(self@ =~= old(self)@.drop_last());
            Some(self.values[self.sp])
        }
    }
}

/// An ordered sequence of instructions.
pub struct Program {
    pub instructions: Vec<Instruction>,
}

impl View for Program {
    type V = Seq<Instruction>;

    open spec fn view(&self) -> Seq<Instruction> {
        self.instructions@
    }
}

impl Clone for Program {
    fn clone(&self) -> (r: Self)
        ensures
            r@ == self@,
    {
        Program { instructions: slice_to_vec(self.instructions.as_slice()) }
    }
}

/// The stack after one instruction, or `None` where the instruction finds
/// too few values. The value pushed last is the right-hand operand.
pub open spec fn step(
    model: spec_fn(Operation) -> u32,
    inst: Instruction,
    consts: Seq<u32>,
    vars: Seq<u32>,
    stack: Seq<u32>,
) -> Option<Seq<u32>> {
    let n = stack.len() as int;
    match inst {
        Instruction::Const(i) => Some(pushed(stack, consts[i as int])),
        Instruction::Var(i) => Some(pushed(stack, vars[i as int])),
        Instruction::Exp => if n < 1 {
            None
        } else {
            Some(stack.take(n - 1).push(model(Operation::Exp(stack[n - 1]))))
        },
        Instruction::Log => if n < 1 {
            None
        } else {
            Some(
                stack.take(n - 1).push(
                    model(Operation::Ln(raised_to_min_positive(stack[n - 1]))),
                ),
            )
        },
        Instruction::Add => if n < 2 {
            None
        } else {
            Some(stack.take(n - 2).push(model(Operation::Add(stack[n - 2], stack[n - 1]))))
        },
        Instruction::Sub => if n < 2 {
            None
        } else {
            Some(stack.take(n - 2).push(model(Operation::Sub(stack[n - 2], stack[n - 1]))))
        },
        Instruction::Mul => if n < 2 {
            None
        } else {
            Some(stack.take(n - 2).push(model(Operation::Mul(stack[n - 2], stack[n - 1]))))
        },
        Instruction::Div => if n < 2 {
            None
        } else if zero(stack[n - 1]) {
            Some(stack.take(n - 2).push(ONE))
        } else {
            Some(stack.take(n - 2).push(model(Operation::Div(stack[n - 2], stack[n - 1]))))
        },
    }
}

/// The stack after the whole program, started on an empty stack; `None` once
/// any instruction has found too few values.
pub open spec fn stack_after(
    model: spec_fn(Operation) -> u32,
    insts: Seq<Instruction>,
    consts: Seq<u32>,
    vars: Seq<u32>,
) -> Option<Seq<u32>>
    decreases insts.len(),
{
    if insts.len() == 0 {
        Some(Seq::empty())
    } else {
        match stack_after(model, insts.drop_last(), consts, vars) {
            None => None,
            Some(stack) => step(model, insts.last(), consts, vars, stack),
        }
    }
}

/// The number of values on the stack after one instruction.
pub open spec fn depth_step(inst: Instruction, depth: nat) -> Option<nat> {
    match inst {
        Instruction::Const(_) | Instruction::Var(_) => if depth < STACKSIZE - 1 {
            Some(depth + 1)
        } else {
            Some(depth)
        },
        Instruction::Exp | Instruction::Log => if depth < 1 {
            None
        } else {
            Some(depth)
        },
        _ => if depth < 2 {
            None
        } else {
            Some((depth - 1) as nat)
        },
    }
}

/// The number of values on the stack after the whole program; `None` once
/// any instruction has found too few. It does not depend on the numbers.
pub open spec fn depth_after(insts: Seq<Instruction>) -> Option<nat>
    decreases insts.len(),
{
    if insts.len() == 0 {
        Some(0)
    } else {
        match depth_after(insts.drop_last()) {
            None => None,
            Some(depth) => depth_step(insts.last(), depth),
        }
    }
}

/// Whether every table index that the run reaches lies inside its table.
pub open spec fn tables_suffice(insts: Seq<Instruction>, n_consts: nat, n_vars: nat) -> bool {
    forall|i: int|
        0 <= i < insts.len() && depth_after(insts.take(i)) is Some ==> match #[trigger] insts[i] {
            Instruction::Const(k) => k < n_consts,
            Instruction::Var(k) => k < n_vars,
            _ => true,
        }
}

/// The top of a final stack, if the run got there and left anything.
pub open spec fn top(stack: Option<Seq<u32>>) -> Option<u32> {
    match stack {
        Some(s) if s.len() > 0 => Some(s.last()),
        _ => None,
    }
}

/// The top of a final stack together with the number of values beneath it.
pub open spec fn top_and_rest(stack: Option<Seq<u32>>) -> Option<(u32, usize)> {
    match stack {
        Some(s) if s.len() > 0 => Some((s.last(), (s.len() - 1) as usize)),
        _ => None,
    }
}

/// Once a run has failed, no further instruction brings it back.
pub proof fn lemma_failure_stays(
    model: spec_fn(Operation) -> u32,
    insts: Seq<Instruction>,
    consts: Seq<u32>,
    vars: Seq<u32>,
    k: int,
)
    requires
        0 <= k <= insts.len(),
        stack_after(model, insts.take(k), consts, vars) is None,
    ensures
        stack_after(model, insts, consts, vars) is None,
    decreases insts.len() - k,
{
    if k < insts.len() {
        assert(insts.take(k + 1).drop_last() =~= insts.take(k));
        lemma_failure_stays(model, insts, consts, vars, k + 1);
    } else {
        assert(insts.take(k) =~= insts);
    }
}

impl Program {
    pub fn new() -> (r: Self)
        ensures
            r@ == Seq::<Instruction>::empty(),
    {
        Self { instructions: Vec::new() }
    }

    pub fn push_inst(&mut self, inst: Instruction)
        ensures
            final(self)@ == old(self)@.push(inst),
    {
        self.instructions.push(inst);
    }

    /// Drops the last instruction, if there is one.
    pub fn remove_last_inst(&mut self)
        ensures
            old(self)@.len() > 0 ==> final(self)@ == old(self)@.drop_last(),
            old(self)@.len() == 0 ==> final(self)@ == old(self)@,
    {
        self.instructions.pop();
    }

    pub fn len(&self) -> (r: usize)
        ensures
            r == self@.len(),
    {
        self.instructions.len()
    }

    /// Keeps the first `len` instructions; a program that is no longer than
    /// that stays as it is.
    pub fn truncate_to_len(&mut self, len: usize)
        ensures
            len <= old(self)@.len() ==> final(self)@ == old(self)@.take(len as int),
            len > old(self)@.len() ==> final(self)@ == old(self)@,
    {
        self.instructions.truncate(len);
    }

    pub fn clear(&mut self)
        ensures
            final(self)@ == Seq::<Instruction>::empty(),
    {
        self.instructions.clear();
    }

    pub fn create(insts: &[Instruction]) -> (r: Self)
        ensures
            r@ == insts@,
    {
        Self { instructions: slice_to_vec(insts) }
    }

    /// Runs the program on an empty stack and hands back the stack it leaves,
    /// or `None` if an instruction found too few values on it. Whether it
    /// does is a matter of the instructions alone. The values are those of
    /// [`stack_after`] under every model that says what the arithmetic unit
    /// computes, so that the run is a function of the program and the two
    /// tables wherever the unit is a function of its request.
    pub fn run<A: Fn(Operation) -> u32>(&self, consts: &[u32], vars: &[u32], unit: &A) -> (r:
        Option<Stack>)
        requires
            total(unit),
            tables_suffice(self@, consts@.len(), vars@.len()),
        ensures
            match r {
                Some(stack) => depth_after(self@) == Some(stack@.len()),
                None => depth_after(self@) is None,
            },
            forall|model: spec_fn(Operation) -> u32| #[trigger]
                computes(unit, model) ==> stack_after(model, self@, consts@, vars@) == match r {
                    Some(stack) => Some(stack@),
                    None => None,
                },
    {
        let mut stack = Stack::new();
        let n = self.instructions.len();
        let mut i: usize = 0;
        assert(self@.take(0) =~= Seq::<Instruction>::empty());
        while i < n
            invariant
                n == self@.len(),
                i <= n,
                total(unit),
                tables_suffice(self@, consts@.len(), vars@.len()),
                depth_after(self@.take(i as int)) == Some(stack@.len()),
                stack@.len() < STACKSIZE,
                forall|model: spec_fn(Operation) -> u32| #[trigger]
                    computes(unit, model) ==> stack_after(
                        model,
                        self@.take(i as int),
                        consts@,
                        vars@,
                    ) == Some(stack@),
            decreases n - i,
        {
            let inst = self.instructions[i];
            let ghost before = stack@;
            let ghost prefix = self@.take(i as int);
            let ghost next = self@.take(i + 1);
            assert(next.drop_last() =~= prefix);
            assert(next.last() == inst);
            assert(self@[i as int] == inst);
            let outcome: Option<u32> = match inst {
                Instruction::Add => {
                    match stack.pop() {
                        None => None,
                        Some(b) => match stack.pop() {
                            None => None,
                            Some(a) => Some(unit(Operation::Add(a, b))),
                        },
                    }
                },
                Instruction::Sub => {
                    match stack.pop() {
                        None => None,
                        Some(b) => match stack.pop() {
                            None => None,
                            Some(a) => Some(unit(Operation::Sub(a, b))),
                        },
                    }
                },
                Instruction::Mul => {
                    match stack.pop() {
                        None => None,
                        Some(b) => match stack.pop() {
                            None => None,
                            Some(a) => Some(unit(Operation::Mul(a, b))),
                        },
                    }
                },
                Instruction::Div => {
                    match stack.pop() {
                        None => None,
                        Some(b) => match stack.pop() {
                            None => None,
                            Some(a) => if is_zero(b) {
                                Some(ONE)
                            } else {
                                Some(unit(Operation::Div(a, b)))
                            },
                        },
                    }
                },
                Instruction::Exp => {
                    match stack.pop() {
                        None => None,
                        Some(v) => Some(unit(Operation::Exp(v))),
                    }
                },
                Instruction::Log => {
                    match stack.pop() {
                        None => None,
                        Some(v) => Some(unit(Operation::Ln(raise_to_min_positive(v)))),
                    }
                },
                Instruction::Const(idx) => Some(consts[idx as usize]),
                Instruction::Var(idx) => Some(vars[idx as usize]),
            };
            match outcome {
                None => {
                    proof {
                        assert(depth_after(next) is None);
                        assert forall|model: spec_fn(Operation) -> u32| #[trigger]
                            computes(unit, model) implies stack_after(
                            model,
                            self@,
                            consts@,
                            vars@,
                        ) is None by {
                            lemma_failure_stays(model, self@, consts@, vars@, i + 1);
                        }
                        lemma_depth_failure_stays(self@, i + 1);
                    }
                    return None;
                },
                Some(value) => {
                    stack.push(value);
                    proof {
                        assert forall|model: spec_fn(Operation) -> u32| #[trigger]
                            computes(unit, model) implies stack_after(
                            model,
                            next,
                            consts@,
                            vars@,
                        ) == Some(stack@) by {
                            assert(stack_after(model, prefix, consts@, vars@) == Some(before));
                            assert(step(model, inst, consts@, vars@, before) =~= Some(stack@));
                        }
                    }
                },
            }
            i = i + 1;
        }
        assert(self@.take(n as int) =~= self@);
        Some(stack)
    }

    /// Runs the program and hands back the value on top of the stack it
    /// leaves: `None` if the run failed or left nothing.
    pub fn evaluate_to_result<A: Fn(Operation) -> u32>(
        &self,
        consts: &[u32],
        vars: &[u32],
        unit: &A,
    ) -> (r: Option<u32>)
        requires
            total(unit),
            tables_suffice(self@, consts@.len(), vars@.len()),
        ensures
            r is Some <==> (depth_after(self@) matches Some(d) && d > 0),
            forall|model: spec_fn(Operation) -> u32| #[trigger]
                computes(unit, model) ==> r == top(stack_after(model, self@, consts@, vars@)),
    {
        match self.run(consts, vars, unit) {
            None => None,
            Some(stack) => {
                let mut stack = stack;
                stack.pop()
            },
        }
    }

    /// Runs the program and hands back the value on top of the stack it
    /// leaves, with the number of values left beneath it.
    pub fn evaluate_to_result_and_remaining_stack<A: Fn(Operation) -> u32>(
        &self,
        consts: &[u32],
        vars: &[u32],
        unit: &A,
    ) -> (r: Option<(u32, usize)>)
        requires
            total(unit),
            tables_suffice(self@, consts@.len(), vars@.len()),
        ensures
            r is Some <==> (depth_after(self@) matches Some(d) && d > 0),
            r matches Some(pair) ==> depth_after(self@) == Some((pair.1 + 1) as nat),
            forall|model: spec_fn(Operation) -> u32| #[trigger]
                computes(unit, model) ==> r == top_and_rest(
                    stack_after(model, self@, consts@, vars@),
                ),
    {
        match self.run(consts, vars, unit) {
            None => None,
            Some(stack) => {
                let mut stack = stack;
                match stack.pop() {
                    None => None,
                    Some(value) => Some((value, stack.len())),
                }
            },
        }
    }

    /// Whether every table index that a run reaches lies inside a table of
    /// `n_consts` constants or `n_vars` variables.
    pub fn fits_tables(&self, n_consts: usize, n_vars: usize) -> (r: bool)
        ensures
            r == tables_suffice(self@, n_consts as nat, n_vars as nat),
    {
        let n = self.instructions.len();
        let mut depth: usize = 0;
        let mut i: usize = 0;
        assert(self@.take(0) =~= Seq::<Instruction>::empty());
        while i < n
            invariant
                n == self@.len(),
                i <= n,
                depth < STACKSIZE,
                depth_after(self@.take(i as int)) == Some(depth as nat),
                forall|j: int|
                    0 <= j < i && depth_after(self@.take(j)) is Some ==> match #[trigger] self@[j] {
                        Instruction::Const(k) => k < n_consts,
                        Instruction::Var(k) => k < n_vars,
                        _ => true,
                    },
            decreases n - i,
        {
            let inst = self.instructions[i];
            assert(self@.take(i + 1).drop_last() =~= self@.take(i as int));
            assert(self@.take(i + 1).last() == inst);
            match inst {
                Instruction::Const(k) => {
                    if k as usize >= n_consts {
                        return false;
                    }
                    if depth + 1 < STACKSIZE {
                        depth = depth + 1;
                    }
                },
                Instruction::Var(k) => {
                    if k as usize >= n_vars {
                        return false;
                    }
                    if depth + 1 < STACKSIZE {
                        depth = depth + 1;
                    }
                },
                Instruction::Exp | Instruction::Log => {
                    if depth < 1 {
                        proof {
                            lemma_no_index_after_failure(self@, i + 1);
                        }
                        return true;
                    }
                },
                _ => {
                    if depth < 2 {
                        proof {
                            lemma_no_index_after_failure(self@, i + 1);
                        }
                        return true;
                    }
                    depth = depth - 1;
                },
            }
            i = i + 1;
        }
        true
    }
}

/// After a failure no prefix of the program has a depth any more.
pub proof fn lemma_no_index_after_failure(insts: Seq<Instruction>, k: int)
    requires
        0 <= k <= insts.len(),
        depth_after(insts.take(k)) is None,
    ensures
        forall|j: int| k <= j <= insts.len() ==> depth_after(#[trigger] insts.take(j)) is None,
{
    assert forall|j: int| k <= j <= insts.len() implies depth_after(
        #[trigger] insts.take(j),
    ) is None by {
        assert(insts.take(j).take(k) =~= insts.take(k));
        lemma_depth_failure_stays(insts.take(j), k);
    }
}

/// Division by a zero of either sign gives one, whatever the dividend and
/// whatever the arithmetic unit would have answered.
pub proof fn lemma_division_by_zero(
    model: spec_fn(Operation) -> u32,
    consts: Seq<u32>,
    vars: Seq<u32>,
    stack: Seq<u32>,
)
    requires
        stack.len() >= 2,
        zero(stack.last()),
    ensures
        step(model, Instruction::Div, consts, vars, stack) == Some(
            stack.take(stack.len() - 2).push(ONE),
        ),
        finite(ONE),
        !zero(ONE),
{
}

/// A program that loads two constants, the second of them a zero, and
/// divides, leaves exactly one.
pub proof fn lemma_constant_over_zero(
    model: spec_fn(Operation) -> u32,
    consts: Seq<u32>,
    vars: Seq<u32>,
    a: u8,
    z: u8,
)
    requires
        a < consts.len(),
        z < consts.len(),
        zero(consts[z as int]),
    ensures
        stack_after(
            model,
            seq![Instruction::Const(a), Instruction::Const(z), Instruction::Div],
            consts,
            vars,
        ) == Some(seq![ONE]),
{
    let p3 = seq![Instruction::Const(a), Instruction::Const(z), Instruction::Div];
    let p2 = seq![Instruction::Const(a), Instruction::Const(z)];
    let p1 = seq![Instruction::Const(a)];
    let p0 = Seq::<Instruction>::empty();
    assert(p3.drop_last() =~= p2);
    assert(p2.drop_last() =~= p1);
    assert(p1.drop_last() =~= p0);
    assert(stack_after(model, p0, consts, vars) == Some(Seq::<u32>::empty()));
    assert(stack_after(model, p1, consts, vars) == Some(seq![consts[a as int]])) by {
        assert(pushed(Seq::<u32>::empty(), consts[a as int]) =~= seq![consts[a as int]]);
    }
    assert(stack_after(model, p2, consts, vars) == Some(seq![consts[a as int], consts[z as int]]))
        by {
        assert(pushed(seq![consts[a as int]], consts[z as int]) =~= seq![
            consts[a as int],
            consts[z as int],
        ]);
    }
    assert(seq![consts[a as int], consts[z as int]].take(0).push(ONE) =~= seq![ONE]);
}

/// The logarithm never sees an operand below the smallest positive normal
/// number: for a negative operand, a zero or a NaN the unit is asked for the
/// logarithm of that number instead, so that the result is finite wherever
/// the logarithm of that one number is.
pub proof fn lemma_logarithm_raises_operand(
    model: spec_fn(Operation) -> u32,
    consts: Seq<u32>,
    vars: Seq<u32>,
    stack: Seq<u32>,
)
    requires
        stack.len() >= 1,
        negative(stack.last()) || zero(stack.last()) || nan(stack.last()),
    ensures
        step(model, Instruction::Log, consts, vars, stack) == Some(
            stack.drop_last().push(model(Operation::Ln(MIN_POSITIVE))),
        ),
        finite(model(Operation::Ln(MIN_POSITIVE))) ==> finite(
            step(model, Instruction::Log, consts, vars, stack).unwrap().last(),
        ),
{
    assert(stack.take(stack.len() - 1) =~= stack.drop_last());
}

/// Once the instructions have run out of values, the depth stays undefined.
pub proof fn lemma_depth_failure_stays(insts: Seq<Instruction>, k: int)
    requires
        0 <= k <= insts.len(),
        depth_after(insts.take(k)) is None,
    ensures
        depth_after(insts) is None,
    decreases insts.len() - k,
{
    if k < insts.len() {
        assert(insts.take(k + 1).drop_last() =~= insts.take(k));
        lemma_depth_failure_stays(insts, k + 1);
    } else {
        assert(insts.take(k) =~= insts);
    }
}

} // verus!

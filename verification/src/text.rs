//! Programs as text: the plain list of instructions, and the expression
//! that a program computes in infix form.
use crate::instructions::{Instruction, Program};
use vstd::prelude::*;
use vstd::string::StringExecFns;

verus! {

/// The text of one decimal digit.
pub open spec fn digit(d: nat) -> Seq<char> {
    if d == 0 {
        "0"@
    } else if d == 1 {
        "1"@
    } else if d == 2 {
        "2"@
    } else if d == 3 {
        "3"@
    } else if d == 4 {
        "4"@
    } else if d == 5 {
        "5"@
    } else if d == 6 {
        "6"@
    } else if d == 7 {
        "7"@
    } else if d == 8 {
        "8"@
    } else {
        "9"@
    }
}

/// The decimal text of a number, without leading zeros.
pub open spec fn decimal(n: nat) -> Seq<char>
    decreases n,
{
    if n < 10 {
        digit(n)
    } else {
        decimal(n / 10) + digit(n % 10)
    }
}

/// The text of one instruction: its name, and for a table entry the index
/// in brackets.
pub open spec fn mnemonic(inst: Instruction) -> Seq<char> {
    match inst {
        Instruction::Add => "Add"@,
        Instruction::Sub => "Sub"@,
        Instruction::Mul => "Mul"@,
        Instruction::Div => "Div"@,
        Instruction::Exp => "Exp"@,
        Instruction::Log => "Log"@,
        Instruction::Const(i) => "Const("@ + decimal(i as nat) + ")"@,
        Instruction::Var(i) => "Var("@ + decimal(i as nat) + ")"@,
    }
}

/// The texts of the instructions in order, with one space between
/// neighbours.
pub open spec fn rendered(insts: Seq<Instruction>) -> Seq<char>
    decreases insts.len(),
{
    if insts.len() == 0 {
        Seq::empty()
    } else if insts.len() == 1 {
        mnemonic(insts[0])
    } else {
        rendered(insts.drop_last()) + " "@ + mnemonic(insts.last())
    }
}

fn digit_text(d: u8) -> (r: &'static str)
    requires
        d < 10,
    ensures
        r@ == digit(d as nat),
{
    if d == 0 {
        "0"
    } else if d == 1 {
        "1"
    } else if d == 2 {
        "2"
    } else if d == 3 {
        "3"
    } else if d == 4 {
        "4"
    } else if d == 5 {
        "5"
    } else if d == 6 {
        "6"
    } else if d == 7 {
        "7"
    } else if d == 8 {
        "8"
    } else {
        "9"
    }
}

fn append_decimal(out: &mut String, n: u8)
    ensures
        final(out)@ == old(out)@ + decimal(n as nat),
{
    let ghost start = out@;
    if n >= 100 {
        out.append(digit_text(n / 100));
    }
    if n >= 10 {
        out.append(digit_text((n / 10) % 10));
    }
    out.append(digit_text(n % 10));
    proof {
        let v = n as nat;
        if v >= 100 {
            assert(decimal(v / 100) == digit(v / 100));
            assert(decimal(v / 10) == decimal(v / 10 / 10) + digit((v / 10) % 10));
            assert(v / 10 / 10 == v / 100);
            assert(out@ =~= start + decimal(v));
        } else if v >= 10 {
            assert(decimal(v / 10) == digit(v / 10));
            assert((v / 10) % 10 == v / 10);
            assert(out@ =~= start + decimal(v));
        } else {
            assert(out@ =~= start + decimal(v));
        }
    }
}

fn append_mnemonic(out: &mut String, inst: Instruction)
    ensures
        final(out)@ == old(out)@ + mnemonic(inst),
{
    let ghost start = out@;
    match inst {
        Instruction::Add => out.append("Add"),
        Instruction::Sub => out.append("Sub"),
        Instruction::Mul => out.append("Mul"),
        Instruction::Div => out.append("Div"),
        Instruction::Exp => out.append("Exp"),
        Instruction::Log => out.append("Log"),
        Instruction::Const(i) => {
            out.append("Const(");
            append_decimal(out, i);
            out.append(")");
            assert(out@ =~= start + mnemonic(inst));
        },
        Instruction::Var(i) => {
            out.append("Var(");
            append_decimal(out, i);
            out.append(")");
            assert(out@ =~= start + mnemonic(inst));
        },
    }
}

impl Program {
    /// The instructions as text, one after the other with a space between
    /// them.
    pub fn render(&self) -> (r: String)
        ensures
            r@ == rendered(self@),
    {
        let mut out = String::new();
        let n = self.instructions.len();
        let mut i: usize = 0;
        assert(self@.take(0) =~= Seq::<Instruction>::empty());
        while i < n
            invariant
                n == self@.len(),
                i <= n,
                out@ == rendered(self@.take(i as int)),
            decreases n - i,
        {
            let ghost so_far = out@;
            assert(self@.take(i + 1).drop_last() =~= self@.take(i as int));
            if i > 0 {
                out.append(" ");
            }
            append_mnemonic(&mut out, self.instructions[i]);
            proof {
                if i == 0 {
                    assert(out@ =~= mnemonic(self@[0]));
                } else {
                    assert(out@ =~= so_far + " "@ + mnemonic(self@[i as int]));
                }
            }
            i = i + 1;
        }
        assert(self@.take(n as int) =~= self@);
        out
    }
}

/// An expression in the making: a table entry, or an operator with the
/// expressions it was applied to, the left-hand operand first.
pub enum Expression {
    Leaf(Instruction),
    Unary(Instruction, Box<Expression>),
    Binary(Instruction, Box<Expression>, Box<Expression>),
}

/// The sign of a binary operator, with a space on either side.
pub open spec fn sign(inst: Instruction) -> Seq<char> {
    match inst {
        Instruction::Add => " + "@,
        Instruction::Sub => " - "@,
        Instruction::Mul => " * "@,
        _ => " / "@,
    }
}

/// The infix text of an expression. A constant is written as the text that
/// the table gives for it, a variable as `v_` and its index.
pub open spec fn text_of(e: Expression, consts: Seq<Seq<char>>) -> Seq<char>
    decreases e,
{
    match e {
        Expression::Leaf(inst) => match inst {
            Instruction::Const(i) => consts[i as int],
            Instruction::Var(i) => "v_"@ + decimal(i as nat),
            _ => mnemonic(inst),
        },
        Expression::Unary(inst, inner) => match inst {
            Instruction::Exp => "(e**"@ + text_of(*inner, consts) + ")"@,
            _ => "(ln("@ + text_of(*inner, consts) + "))"@,
        },
        Expression::Binary(inst, left, right) => "("@ + text_of(*left, consts) + sign(inst)
            + text_of(*right, consts) + ")"@,
    }
}

/// Whether every constant that the expression names has a text in a table
/// of `n` entries.
pub open spec fn constants_in_range(e: Expression, n: nat) -> bool
    decreases e,
{
    match e {
        Expression::Leaf(inst) => match inst {
            Instruction::Const(i) => i < n,
            _ => true,
        },
        Expression::Unary(_, inner) => constants_in_range(*inner, n),
        Expression::Binary(_, left, right) => constants_in_range(*left, n)
            && constants_in_range(*right, n),
    }
}

/// The stack of expressions after one instruction, or `None` where an
/// operator finds too few expressions. Of the two operands of a binary
/// operator the one on top of the stack is the right-hand one, as it is
/// when the program runs.
pub open spec fn expression_step(inst: Instruction, stack: Seq<Expression>) -> Option<
    Seq<Expression>,
> {
    let n = stack.len() as int;
    match inst {
        Instruction::Const(_) | Instruction::Var(_) => Some(stack.push(Expression::Leaf(inst))),
        Instruction::Exp | Instruction::Log => if n < 1 {
            None
        } else {
            Some(stack.take(n - 1).push(Expression::Unary(inst, Box::new(stack[n - 1]))))
        },
        _ => if n < 2 {
            None
        } else {
            Some(
                stack.take(n - 2).push(
                    Expression::Binary(inst, Box::new(stack[n - 2]), Box::new(stack[n - 1])),
                ),
            )
        },
    }
}

/// The stack of expressions after the whole program.
pub open spec fn expressions_after(insts: Seq<Instruction>) -> Option<Seq<Expression>>
    decreases insts.len(),
{
    if insts.len() == 0 {
        Some(Seq::empty())
    } else {
        match expressions_after(insts.drop_last()) {
            None => None,
            Some(stack) => expression_step(insts.last(), stack),
        }
    }
}

/// The expression that the program leaves on top, if it leaves one.
pub open spec fn top_expression(insts: Seq<Instruction>) -> Option<Expression> {
    match expressions_after(insts) {
        Some(stack) if stack.len() > 0 => Some(stack.last()),
        _ => None,
    }
}

/// The views of the texts of a table.
pub open spec fn texts(consts: Seq<String>) -> Seq<Seq<char>> {
    Seq::new(consts.len(), |i: int| consts[i]@)
}

/// Once the instructions have run out of expressions, there is no stack
/// any more.
pub proof fn lemma_expressions_failure_stays(insts: Seq<Instruction>, k: int)
    requires
        0 <= k <= insts.len(),
        expressions_after(insts.take(k)) is None,
    ensures
        expressions_after(insts) is None,
    decreases insts.len() - k,
{
    if k < insts.len() {
        assert(insts.take(k + 1).drop_last() =~= insts.take(k));
        lemma_expressions_failure_stays(insts, k + 1);
    } else {
        assert(insts.take(k) =~= insts);
    }
}

fn append_sign(out: &mut String, inst: Instruction)
    ensures
        final(out)@ == old(out)@ + sign(inst),
{
    match inst {
        Instruction::Add => out.append(" + "),
        Instruction::Sub => out.append(" - "),
        Instruction::Mul => out.append(" * "),
        _ => out.append(" / "),
    }
}

fn append_expression(out: &mut String, e: &Expression, consts: &[String])
    requires
        constants_in_range(*e, consts@.len()),
    ensures
        final(out)@ == old(out)@ + text_of(*e, texts(consts@)),
    decreases *e,
{
    let ghost start = out@;
    let ghost table = texts(consts@);
    match e {
        Expression::Leaf(inst) => match inst {
            Instruction::Const(i) => {
                out.append(consts[*i as usize].as_str());
            },
            Instruction::Var(i) => {
                out.append("v_");
                append_decimal(out, *i);
                assert(out@ =~= start + text_of(*e, table));
            },
            _ => {
                append_mnemonic(out, *inst);
            },
        },
        Expression::Unary(inst, inner) => match inst {
            Instruction::Exp => {
                out.append("(e**");
                append_expression(out, inner, consts);
                out.append(")");
                assert(out@ =~= start + text_of(*e, table));
            },
            _ => {
                out.append("(ln(");
                append_expression(out, inner, consts);
                out.append("))");
                assert(out@ =~= start + text_of(*e, table));
            },
        },
        Expression::Binary(inst, left, right) => {
            out.append("(");
            append_expression(out, left, consts);
            append_sign(out, *inst);
            append_expression(out, right, consts);
            out.append(")");
            assert(out@ =~= start + text_of(*e, table));
        },
    }
}

impl Expression {
    /// Whether a table of `n_consts` texts has one for every constant that
    /// the expression names.
    pub fn fits_table(&self, n_consts: usize) -> (r: bool)
        ensures
            r == constants_in_range(*self, n_consts as nat),
        decreases *self,
    {
        match self {
            Expression::Leaf(inst) => match inst {
                Instruction::Const(i) => (*i as usize) < n_consts,
                _ => true,
            },
            Expression::Unary(_, inner) => inner.fits_table(n_consts),
            Expression::Binary(_, left, right) => left.fits_table(n_consts) && right.fits_table(
                n_consts,
            ),
        }
    }

    /// The expression in infix form, fully bracketed.
    pub fn render(&self, consts: &[String]) -> (r: String)
        requires
            constants_in_range(*self, consts@.len()),
        ensures
            r@ == text_of(*self, texts(consts@)),
    {
        let mut out = String::new();
        append_expression(&mut out, self, consts);
        assert(out@ =~= text_of(*self, texts(consts@)));
        out
    }
}

impl Program {
    /// The expression that the program leaves on top of the stack; `None`
    /// where an operator finds too few operands or the program leaves
    /// nothing.
    pub fn expression(&self) -> (r: Option<Expression>)
        ensures
            r == top_expression(self@),
    {
        let mut stack: Vec<Expression> = Vec::new();
        let n = self.instructions.len();
        let mut i: usize = 0;
        assert(self@.take(0) =~= Seq::<Instruction>::empty());
        while i < n
            invariant
                n == self@.len(),
                i <= n,
                expressions_after(self@.take(i as int)) == Some(stack@),
            decreases n - i,
        {
            let inst = self.instructions[i];
            let ghost before = stack@;
            assert(self@.take(i + 1).drop_last() =~= self@.take(i as int));
            match inst {
                Instruction::Const(_) | Instruction::Var(_) => {
                    stack.push(Expression::Leaf(inst));
                },
                Instruction::Exp | Instruction::Log => {
                    match stack.pop() {
                        Some(a) => {
                            stack.push(Expression::Unary(inst, Box::new(a)));
                            assert(stack@ =~= before.take(before.len() - 1).push(
                                Expression::Unary(inst, Box::new(a)),
                            ));
                        },
                        None => {
                            proof {
                                lemma_expressions_failure_stays(self@, i + 1);
                            }
                            return None;
                        },
                    }
                },
                _ => {
                    let right = match stack.pop() {
                        Some(right) => right,
                        None => {
                            proof {
                                lemma_expressions_failure_stays(self@, i + 1);
                            }
                            return None;
                        },
                    };
                    let left = match stack.pop() {
                        Some(left) => left,
                        None => {
                            proof {
                                lemma_expressions_failure_stays(self@, i + 1);
                            }
                            return None;
                        },
                    };
                    let node = Expression::Binary(inst, Box::new(left), Box::new(right));
                    stack.push(node);
                    assert(stack@ =~= before.take(before.len() - 2).push(node));
                },
            }
            i = i + 1;
        }
        assert(self@.take(n as int) =~= self@);
        stack.pop()
    }

    /// The expression that the program leaves on top of the stack, in infix
    /// form and fully bracketed; `None` where an operator finds too few
    /// operands or the program leaves nothing. Of the two operands of a
    /// binary operator the one pushed last is written on the right, so that
    /// the text denotes what a run of the program computes. `consts` holds
    /// the text of each constant.
    pub fn render_pretty(&self, consts: &[String]) -> (r: Option<String>)
        requires
            top_expression(self@) matches Some(e) ==> constants_in_range(e, consts@.len()),
        ensures
            match top_expression(self@) {
                Some(e) => r matches Some(text) && text@ == text_of(e, texts(consts@)),
                None => r is None,
            },
    {
        match self.expression() {
            Some(e) => Some(e.render(consts)),
            None => None,
        }
    }
}

} // verus!

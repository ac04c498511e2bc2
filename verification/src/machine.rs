use vstd::prelude::*;

use crate::compiler::{binary_code, literal_code, unary_code};
use crate::opcode::{Byte, OpCode};
use crate::token::TokenType;

verus! {

/// A value on the stack of the bytecode machine, as the operators see it:
/// numbers are taken as integers here.
pub enum StackVal {
    Number(int),
    Boolean(bool),
    Nil,
}

/// Whether a value counts as false: `nil` and `false` do, all else not.
pub open spec fn falsey(v: StackVal) -> bool {
    match v {
        StackVal::Nil => true,
        StackVal::Boolean(b) => !b,
        StackVal::Number(_) => false,
    }
}

/// What one instruction that computes on values does to the stack, its top
/// last: literals push, `Not` and `Negate` replace the top, the binary
/// operators replace the top two (left operand below) by their result.
/// Nothing for an instruction that is not of these, for too few operands,
/// for arithmetic on what is not a number, and for a division that does
/// not come out whole.
pub open spec fn step_op(op: OpCode, st: Seq<StackVal>) -> Option<Seq<StackVal>> {
    let n = st.len();
    match op {
        OpCode::True => Some(st.push(StackVal::Boolean(true))),
        OpCode::False => Some(st.push(StackVal::Boolean(false))),
        OpCode::Nil => Some(st.push(StackVal::Nil)),
        OpCode::Not => if n >= 1 {
            Some(st.drop_last().push(StackVal::Boolean(falsey(st.last()))))
        } else {
            None
        },
        OpCode::Negate => if n >= 1 {
            match st.last() {
                StackVal::Number(x) => Some(st.drop_last().push(StackVal::Number(-x))),
                _ => None,
            }
        } else {
            None
        },
        OpCode::Equal => if n >= 2 {
            Some(st.subrange(0, n - 2).push(StackVal::Boolean(st[n - 2] == st[n - 1])))
        } else {
            None
        },
        OpCode::Greater | OpCode::Less | OpCode::Add | OpCode::Subtract | OpCode::Multiply | OpCode::Divide => {
            if n >= 2 {
                match (st[n - 2], st[n - 1]) {
                    (StackVal::Number(x), StackVal::Number(y)) => {
                        let rest = st.subrange(0, n - 2);
                        match op {
                            OpCode::Greater => Some(rest.push(StackVal::Boolean(x > y))),
                            OpCode::Less => Some(rest.push(StackVal::Boolean(x < y))),
                            OpCode::Add => Some(rest.push(StackVal::Number(x + y))),
                            OpCode::Subtract => Some(rest.push(StackVal::Number(x - y))),
                            OpCode::Multiply => Some(rest.push(StackVal::Number(x * y))),
                            _ => if y != 0 && x % y == 0 {
                                Some(rest.push(StackVal::Number(x / y)))
                            } else {
                                None
                            },
                        }
                    },
                    _ => None,
                }
            } else {
                None
            }
        },
        _ => None,
    }
}

/// The stack after running the instructions in order; nothing when one of
/// them does not apply or an operand byte stands among them.
pub open spec fn run_ops(code: Seq<Byte>, st: Seq<StackVal>) -> Option<Seq<StackVal>>
    decreases code.len(),
{
    if code.len() == 0 {
        Some(st)
    } else {
        match code[0] {
            Byte::Named(op) => match step_op(op, st) {
                Some(next) => run_ops(code.drop_first(), next),
                None => None,
            },
            Byte::Raw(_) => None,
        }
    }
}

/// The code of each binary operator, run on two numbers `x` and `y`, leaves
/// the operator's mathematical result in their place: the comparisons
/// `<`, `<=`, `>`, `>=`, `==`, `!=` as booleans, and `+`, `-`, `*`, `/`
/// (where the division comes out whole) as numbers. Equality also holds
/// of two booleans.
pub proof fn law_binary_operators(x: int, y: int, a: bool, b: bool)
    ensures
        run_ops(binary_code(TokenType::Less), seq![StackVal::Number(x), StackVal::Number(y)]) == Some(
            seq![StackVal::Boolean(x < y)],
        ),
        run_ops(binary_code(TokenType::LessEqual), seq![StackVal::Number(x), StackVal::Number(y)]) == Some(
            seq![StackVal::Boolean(x <= y)],
        ),
        run_ops(binary_code(TokenType::Greater), seq![StackVal::Number(x), StackVal::Number(y)]) == Some(
            seq![StackVal::Boolean(x > y)],
        ),
        run_ops(binary_code(TokenType::GreaterEqual), seq![StackVal::Number(x), StackVal::Number(y)])
            == Some(seq![StackVal::Boolean(x >= y)]),
        run_ops(binary_code(TokenType::EqualEqual), seq![StackVal::Number(x), StackVal::Number(y)])
            == Some(seq![StackVal::Boolean(x == y)]),
        run_ops(binary_code(TokenType::BangEqual), seq![StackVal::Number(x), StackVal::Number(y)])
            == Some(seq![StackVal::Boolean(x != y)]),
        run_ops(binary_code(TokenType::EqualEqual), seq![StackVal::Boolean(a), StackVal::Boolean(b)])
            == Some(seq![StackVal::Boolean(a == b)]),
        run_ops(binary_code(TokenType::BangEqual), seq![StackVal::Boolean(a), StackVal::Boolean(b)])
            == Some(seq![StackVal::Boolean(a != b)]),
        run_ops(binary_code(TokenType::Plus), seq![StackVal::Number(x), StackVal::Number(y)]) == Some(
            seq![StackVal::Number(x + y)],
        ),
        run_ops(binary_code(TokenType::Minus), seq![StackVal::Number(x), StackVal::Number(y)]) == Some(
            seq![StackVal::Number(x - y)],
        ),
        run_ops(binary_code(TokenType::Star), seq![StackVal::Number(x), StackVal::Number(y)]) == Some(
            seq![StackVal::Number(x * y)],
        ),
        y != 0 && x % y == 0 ==> run_ops(
            binary_code(TokenType::Slash),
            seq![StackVal::Number(x), StackVal::Number(y)],
        ) == Some(seq![StackVal::Number(x / y)]),
{
    reveal_with_fuel(run_ops, 3);
    let nums = seq![StackVal::Number(x), StackVal::Number(y)];
    let bools = seq![StackVal::Boolean(a), StackVal::Boolean(b)];
    assert(nums.subrange(0, 0) =~= Seq::<StackVal>::empty());
    assert(bools.subrange(0, 0) =~= Seq::<StackVal>::empty());
    assert(seq![StackVal::Boolean(x > y)].drop_last() =~= Seq::<StackVal>::empty());
    assert(seq![StackVal::Boolean(x < y)].drop_last() =~= Seq::<StackVal>::empty());
    assert(seq![StackVal::Boolean(x == y)].drop_last() =~= Seq::<StackVal>::empty());
    assert(seq![StackVal::Boolean(a == b)].drop_last() =~= Seq::<StackVal>::empty());
}

/// The code of each prefix operator, run on its operand, leaves the
/// operator's result: `-` negates a number, `!` gives whether the operand
/// counts as false.
pub proof fn law_unary_operators(x: int, v: StackVal)
    ensures
        run_ops(unary_code(TokenType::Minus), seq![StackVal::Number(x)]) == Some(seq![StackVal::Number(-x)]),
        run_ops(unary_code(TokenType::Bang), seq![v]) == Some(
            seq![StackVal::Boolean(
                match v {
                    StackVal::Nil => true,
                    StackVal::Boolean(b) => !b,
                    StackVal::Number(_) => false,
                },
            )],
        ),
{
    reveal_with_fuel(run_ops, 2);
    assert(seq![StackVal::Number(x)].drop_last() =~= Seq::<StackVal>::empty());
    assert(seq![v].drop_last() =~= Seq::<StackVal>::empty());
}

/// The code of each literal pushes the value that the literal names.
pub proof fn law_literals()
    ensures
        run_ops(literal_code(TokenType::True), Seq::empty()) == Some(seq![StackVal::Boolean(true)]),
        run_ops(literal_code(TokenType::False), Seq::empty()) == Some(seq![StackVal::Boolean(false)]),
        run_ops(literal_code(TokenType::Nil), Seq::empty()) == Some(seq![StackVal::Nil]),
{
    reveal_with_fuel(run_ops, 2);
    assert(Seq::<StackVal>::empty().push(StackVal::Boolean(true)) =~= seq![StackVal::Boolean(true)]);
    assert(Seq::<StackVal>::empty().push(StackVal::Boolean(false)) =~= seq![StackVal::Boolean(false)]);
    assert(Seq::<StackVal>::empty().push(StackVal::Nil) =~= seq![StackVal::Nil]);
}

} // verus!

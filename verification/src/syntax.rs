use vstd::prelude::*;

use crate::lexer::lex_step;
use crate::opcode::{Byte, OpCode};
use crate::parser::{adv, is_eof, next_good, place_measure, Place};
use crate::value::ValueView;
use crate::precedence::{prec_rank, spec_rule_for, ParseFn, Precedence};
use crate::token::{TokenType, TokenView};

verus! {

/// Whether place `a` lies strictly nearer the end of the input than `b`.
pub open spec fn nearer(s: Seq<char>, a: Place, b: Place) -> bool {
    0 <= place_measure(s, a) < place_measure(s, b)
}

/// How tightly a token binds as an infix operator.
pub open spec fn infix_rank(t: TokenView) -> nat {
    prec_rank(spec_rule_for(t.typ).precedence)
}

/// Where an expression ends whose operators bind with at least rank `r`,
/// when its first token is current at `at`: the place of the first token
/// after it; nothing when the tokens do not form one. Assignment is allowed
/// only at the loosest rank.
pub open spec fn expr_end(s: Seq<char>, at: Place, r: nat) -> Option<Place>
    decreases place_measure(s, at), 0nat,
{
    match spec_rule_for(at.0.typ).prefix {
        Some(f) => {
            let q = adv(s, at);
            if nearer(s, q, at) {
                match routine_end(s, f, at.0, q, r <= 1) {
                    Some(e) => if nearer(s, e, at) {
                        infix_end(s, e, r)
                    } else {
                        None
                    },
                    None => None,
                }
            } else {
                None
            }
        },
        None => None,
    }
}

/// Where an expression of rank `r` ends whose prefix part ended at `e`:
/// each following operator that binds with at least rank `r` takes its
/// right part; an `=` left over where assignment is allowed is refused.
pub open spec fn infix_end(s: Seq<char>, e: Place, r: nat) -> Option<Place>
    decreases place_measure(s, e), 4nat,
{
    if r <= infix_rank(e.0) {
        match spec_rule_for(e.0.typ).infix {
            Some(g) => {
                let q = adv(s, e);
                if nearer(s, q, e) {
                    match routine_end(s, g, e.0, q, r <= 1) {
                        Some(e2) => if nearer(s, e2, e) {
                            infix_end(s, e2, r)
                        } else {
                            None
                        },
                        None => None,
                    }
                } else {
                    None
                }
            },
            None => None,
        }
    } else if r <= 1 && e.0.typ == TokenType::Equal@ {
        None
    } else {
        Some(e)
    }
}

/// Where the part of an expression ends that the routine `f` reads after
/// the token `op` that chose it, from `q` on (`ca`: assignment allowed).
pub open spec fn routine_end(s: Seq<char>, f: ParseFn, op: TokenView, q: Place, ca: bool) -> Option<Place>
    decreases place_measure(s, q), 3nat,
{
    match f {
        ParseFn::Number | ParseFn::String | ParseFn::Literal | ParseFn::This => Some(q),
        ParseFn::Grouping => match expr_end(s, q, 1) {
            Some(e) => if e.0.typ == TokenType::RightParen@ {
                Some(adv(s, e))
            } else {
                None
            },
            None => None,
        },
        ParseFn::Unary => expr_end(s, q, prec_rank(Precedence::Unary)),
        ParseFn::Binary => expr_end(s, q, infix_rank(op) + 1),
        ParseFn::And => expr_end(s, q, prec_rank(Precedence::And)),
        ParseFn::Or => expr_end(s, q, prec_rank(Precedence::Or)),
        ParseFn::VarReference => var_end(s, q, ca),
        ParseFn::FunctionCall => args_end(s, q),
        ParseFn::Dot => if q.0.typ is Identifier {
            let n = adv(s, q);
            if ca && n.0.typ == TokenType::Equal@ {
                let v = adv(s, n);
                if nearer(s, v, q) {
                    expr_end(s, v, 1)
                } else {
                    None
                }
            } else if n.0.typ == TokenType::LeftParen@ {
                let v = adv(s, n);
                if nearer(s, v, q) {
                    args_end(s, v)
                } else {
                    None
                }
            } else {
                Some(n)
            }
        } else {
            None
        },
        ParseFn::Super => if q.0.typ == TokenType::Dot@ {
            let m = adv(s, q);
            if m.0.typ is Identifier {
                let n = adv(s, m);
                if n.0.typ == TokenType::LeftParen@ {
                    let v = adv(s, n);
                    if nearer(s, v, q) {
                        args_end(s, v)
                    } else {
                        None
                    }
                } else {
                    Some(n)
                }
            } else {
                None
            }
        } else {
            None
        },
    }
}

/// Where a variable's use ends from `q`, just after its name: an
/// assignment's value where assignment is allowed and `=` follows.
pub open spec fn var_end(s: Seq<char>, q: Place, ca: bool) -> Option<Place>
    decreases place_measure(s, q), 2nat,
{
    if ca && q.0.typ == TokenType::Equal@ {
        let v = adv(s, q);
        if nearer(s, v, q) {
            expr_end(s, v, 1)
        } else {
            None
        }
    } else {
        Some(q)
    }
}

/// Where the arguments of a call end, from just after its left
/// parenthesis: the place after the right parenthesis.
pub open spec fn args_end(s: Seq<char>, q: Place) -> Option<Place>
    decreases place_measure(s, q), 2nat,
{
    if q.0.typ == TokenType::RightParen@ {
        Some(adv(s, q))
    } else {
        arg_list_end(s, q)
    }
}

/// Where a non-empty argument list ends: expressions separated by commas,
/// then the right parenthesis.
pub open spec fn arg_list_end(s: Seq<char>, q: Place) -> Option<Place>
    decreases place_measure(s, q), 1nat,
{
    match expr_end(s, q, 1) {
        Some(e) => if e.0.typ == TokenType::Comma@ {
            let n = adv(s, e);
            if nearer(s, n, q) {
                arg_list_end(s, n)
            } else {
                None
            }
        } else if e.0.typ == TokenType::RightParen@ {
            Some(adv(s, e))
        } else {
            None
        },
        None => None,
    }
}

/// The place after a `;` that is current at `e`; nothing when another
/// token is.
pub open spec fn semi_end(s: Seq<char>, e: Place) -> Option<Place> {
    if e.0.typ == TokenType::Semicolon@ {
        Some(adv(s, e))
    } else {
        None
    }
}

/// Where an expression statement ends: the expression, then `;`.
pub open spec fn expr_stmt_end(s: Seq<char>, at: Place) -> Option<Place> {
    match expr_end(s, at, 1) {
        Some(e) => semi_end(s, e),
        None => None,
    }
}

/// Where a variable declaration ends, from just after `var`: a name, an
/// optional `=` and value, then `;`.
pub open spec fn var_decl_end(s: Seq<char>, at: Place) -> Option<Place> {
    if at.0.typ is Identifier {
        let n = adv(s, at);
        if n.0.typ == TokenType::Equal@ {
            match expr_end(s, adv(s, n), 1) {
                Some(e) => semi_end(s, e),
                None => None,
            }
        } else {
            semi_end(s, n)
        }
    } else {
        None
    }
}

/// Where the condition clause of a `for` loop starts, when the loop's `(`
/// is current at `at`: after an empty initializer, a variable declaration
/// or an expression statement.
pub open spec fn for_cond_start(s: Seq<char>, at: Place) -> Option<Place> {
    let a0 = adv(s, at);
    if a0.0.typ == TokenType::Semicolon@ {
        Some(adv(s, a0))
    } else if a0.0.typ == TokenType::Var@ {
        var_decl_end(s, adv(s, a0))
    } else {
        expr_stmt_end(s, a0)
    }
}

/// Whether a `for` loop whose `(` is current at `at` has a condition.
pub open spec fn for_has_condition(s: Seq<char>, at: Place) -> bool {
    match for_cond_start(s, at) {
        Some(c) => c.0.typ != TokenType::Semicolon@,
        None => false,
    }
}

/// Where the condition clause of a `for` loop that starts at `c` ends: after
/// its `;`, with an expression before it or none.
pub open spec fn cond_clause_end(s: Seq<char>, c: Place) -> Option<Place> {
    if c.0.typ == TokenType::Semicolon@ {
        Some(adv(s, c))
    } else {
        expr_stmt_end(s, c)
    }
}

/// Whether a `for` loop whose `(` is current at `at` has an increment
/// clause: a token other than `)` after the condition clause.
pub open spec fn for_has_increment(s: Seq<char>, at: Place) -> bool {
    match for_cond_start(s, at) {
        Some(c) => match cond_clause_end(s, c) {
            Some(i) => i.0.typ != TokenType::RightParen@,
            None => false,
        },
        None => false,
    }
}

/// Whether the lexer reads the token after `at` without reporting an
/// error.
pub open spec fn reads_cleanly(s: Seq<char>, at: Place) -> bool {
    is_eof(at.0) || (lex_step(s, at.1).0 is Ok)
}

/// Where the parser stands once it has read the first token of `s`.
pub open spec fn start_place(s: Seq<char>) -> Place {
    next_good(s, (0int, 0int, 0int, 0int, 1int))
}

/// Whether a statement `print N;` starts at `at`, `N` a number literal,
/// its tokens read without error.
pub open spec fn number_print_at(s: Seq<char>, at: Place) -> bool {
    let a1 = adv(s, at);
    let a2 = adv(s, a1);
    &&& at.0.typ == TokenType::Print@
    &&& a1.0.typ is Number
    &&& a2.0.typ == TokenType::Semicolon@
    &&& reads_cleanly(s, at)
    &&& reads_cleanly(s, a1)
    &&& reads_cleanly(s, a2)
}

/// The place after a statement `print N;` that starts at `at`.
pub open spec fn after_number_print(s: Seq<char>, at: Place) -> Place {
    adv(s, adv(s, adv(s, at)))
}

/// The text of the number that a statement `print N;` at `at` prints.
pub open spec fn number_print_text(s: Seq<char>, at: Place) -> Seq<char> {
    match adv(s, at).0.typ {
        crate::token::TypeView::Number(t) => t,
        _ => Seq::empty(),
    }
}

/// Whether from `at` on the input holds only statements `print N;`, then
/// its end.
pub open spec fn number_prints(s: Seq<char>, at: Place) -> bool
    decreases place_measure(s, at),
{
    if is_eof(at.0) {
        true
    } else {
        let n = after_number_print(s, at);
        number_print_at(s, at) && nearer(s, n, at) && number_prints(s, n)
    }
}

/// How many statements `print N;` follow from `at`.
pub open spec fn number_prints_count(s: Seq<char>, at: Place) -> nat
    decreases place_measure(s, at),
{
    let n = after_number_print(s, at);
    if !is_eof(at.0) && nearer(s, n, at) {
        1 + number_prints_count(s, n)
    } else {
        0
    }
}

/// The code of the statements `print N;` from `at` on, their constants
/// numbered from `base`: load each constant, then print it.
pub open spec fn number_prints_code(s: Seq<char>, at: Place, base: nat) -> Seq<Byte>
    decreases place_measure(s, at),
{
    let n = after_number_print(s, at);
    if !is_eof(at.0) && nearer(s, n, at) {
        seq![Byte::Named(OpCode::Constant), Byte::Raw(base as u8), Byte::Named(OpCode::Print)]
            + number_prints_code(s, n, base + 1)
    } else {
        Seq::empty()
    }
}

/// The constants of the statements `print N;` from `at` on: their numbers,
/// in order.
pub open spec fn number_prints_consts(s: Seq<char>, at: Place) -> Seq<ValueView>
    decreases place_measure(s, at),
{
    let n = after_number_print(s, at);
    if !is_eof(at.0) && nearer(s, n, at) {
        seq![ValueView::Double(number_print_text(s, at))] + number_prints_consts(s, n)
    } else {
        Seq::empty()
    }
}

/// The constants of statements `print N;` are all numbers.
pub proof fn lemma_number_consts(s: Seq<char>, at: Place)
    ensures
        forall|i: int| 0 <= i < number_prints_consts(s, at).len() ==> #[trigger] number_prints_consts(s, at)[i] is Double,
    decreases place_measure(s, at),
{
    let n = after_number_print(s, at);
    if !is_eof(at.0) && nearer(s, n, at) {
        lemma_number_consts(s, n);
        let all = number_prints_consts(s, at);
        let rest = number_prints_consts(s, n);
        assert forall|i: int| 0 <= i < all.len() implies #[trigger] all[i] is Double by {
            if i > 0 {
                assert(all[i] == rest[i - 1]);
            }
        }
    }
}

/// Whether `s` is a program of statements `print N;` only, all its tokens
/// read without error.
pub open spec fn number_program(s: Seq<char>) -> bool {
    &&& lex_step(s, (0int, 0int, 0int, 0int, 1int)).0 is Ok
    &&& number_prints(s, start_place(s))
}

} // verus!

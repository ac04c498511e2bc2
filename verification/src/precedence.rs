use vstd::prelude::*;

use crate::token::{TokenType, TypeView};

verus! {

/// How tightly an operator binds, loosest first.
#[derive(Clone, Copy, Debug, PartialEq, Eq, Structural)]
pub enum Precedence {
    Bupkis,
    Assignment,
    Or,
    And,
    Equality,
    Comparison,
    Term,
    Factor,
    Unary,
    Call,
    Primary,
}

/// The rank of a precedence level, loosest first.
pub open spec fn prec_rank(p: Precedence) -> nat {
    match p {
        Precedence::Bupkis => 0,
        Precedence::Assignment => 1,
        Precedence::Or => 2,
        Precedence::And => 3,
        Precedence::Equality => 4,
        Precedence::Comparison => 5,
        Precedence::Term => 6,
        Precedence::Factor => 7,
        Precedence::Unary => 8,
        Precedence::Call => 9,
        Precedence::Primary => 10,
    }
}

impl Precedence {
    /// The rank of this level.
    pub fn rank(self) -> (res: u8)
        ensures
            res == prec_rank(self),
    {
        match self {
            Precedence::Bupkis => 0,
            Precedence::Assignment => 1,
            Precedence::Or => 2,
            Precedence::And => 3,
            Precedence::Equality => 4,
            Precedence::Comparison => 5,
            Precedence::Term => 6,
            Precedence::Factor => 7,
            Precedence::Unary => 8,
            Precedence::Call => 9,
            Precedence::Primary => 10,
        }
    }

    /// Whether this level binds no tighter than `other` (the `<=` of levels).
    pub fn at_most(self, other: Precedence) -> (res: bool)
        ensures
            res == (prec_rank(self) <= prec_rank(other)),
    {
        self.rank() <= other.rank()
    }

    /// The level one step tighter. The tightest level has none.
    pub fn next(self) -> (res: Precedence)
        requires
            self != Precedence::Primary,
        ensures
            prec_rank(res) == prec_rank(self) + 1,
    {
        match self {
            Precedence::Bupkis => Precedence::Assignment,
            Precedence::Assignment => Precedence::Or,
            Precedence::Or => Precedence::And,
            Precedence::And => Precedence::Equality,
            Precedence::Equality => Precedence::Comparison,
            Precedence::Comparison => Precedence::Term,
            Precedence::Term => Precedence::Factor,
            Precedence::Factor => Precedence::Unary,
            Precedence::Unary => Precedence::Call,
            Precedence::Call => Precedence::Primary,
            Precedence::Primary => Precedence::Primary,
        }
    }
}

/// Two levels of the same rank are the same level.
pub proof fn lemma_rank_injective(a: Precedence, b: Precedence)
    ensures
        prec_rank(a) == prec_rank(b) ==> a == b,
{
}

/// The parsing routines that a token can start or continue an expression with.
#[derive(Clone, Copy, Debug, PartialEq, Eq, Structural)]
pub enum ParseFn {
    And,
    Binary,
    Dot,
    FunctionCall,
    Grouping,
    Literal,
    Number,
    Or,
    String,
    Super,
    This,
    Unary,
    VarReference,
}

/// What a token does in an expression: the routine when it starts one, the
/// routine when it follows one, and how tightly it binds then.
#[derive(Clone, Copy, Debug, PartialEq, Eq, Structural)]
pub struct ParseRule {
    pub prefix: Option<ParseFn>,
    pub infix: Option<ParseFn>,
    pub precedence: Precedence,
}

/// The rule of each token kind, by the kind's number.
pub open spec fn spec_rule_for(t: TypeView) -> ParseRule {
    match t {
        TypeView::Number(_) => ParseRule {
            prefix: Some(ParseFn::Number),
            infix: None,
            precedence: Precedence::Bupkis,
        },
        TypeView::LoxString(_) => ParseRule {
            prefix: Some(ParseFn::String),
            infix: None,
            precedence: Precedence::Bupkis,
        },
        TypeView::Identifier(_) => ParseRule {
            prefix: Some(ParseFn::VarReference),
            infix: None,
            precedence: Precedence::Bupkis,
        },
        TypeView::Unit(n) => if n == 5 {
            ParseRule { prefix: None, infix: Some(ParseFn::Dot), precedence: Precedence::Call }
        } else if n == 18 {
            ParseRule {
                prefix: Some(ParseFn::Grouping),
                infix: Some(ParseFn::FunctionCall),
                precedence: Precedence::Call,
            }
        } else if n == 32 || n == 33 {
            ParseRule { prefix: None, infix: Some(ParseFn::Binary), precedence: Precedence::Factor }
        } else if n == 22 {
            ParseRule {
                prefix: Some(ParseFn::Unary),
                infix: Some(ParseFn::Binary),
                precedence: Precedence::Term,
            }
        } else if n == 26 {
            ParseRule { prefix: None, infix: Some(ParseFn::Binary), precedence: Precedence::Term }
        } else if n == 13 || n == 14 || n == 19 || n == 20 {
            ParseRule {
                prefix: None,
                infix: Some(ParseFn::Binary),
                precedence: Precedence::Comparison,
            }
        } else if n == 2 || n == 9 {
            ParseRule {
                prefix: None,
                infix: Some(ParseFn::Binary),
                precedence: Precedence::Equality,
            }
        } else if n == 0 {
            ParseRule { prefix: None, infix: Some(ParseFn::And), precedence: Precedence::And }
        } else if n == 25 {
            ParseRule { prefix: None, infix: Some(ParseFn::Or), precedence: Precedence::Or }
        } else if n == 1 {
            ParseRule { prefix: Some(ParseFn::Unary), infix: None, precedence: Precedence::Bupkis }
        } else if n == 10 || n == 23 || n == 36 {
            ParseRule {
                prefix: Some(ParseFn::Literal),
                infix: None,
                precedence: Precedence::Bupkis,
            }
        } else if n == 35 {
            ParseRule { prefix: Some(ParseFn::This), infix: None, precedence: Precedence::Bupkis }
        } else if n == 34 {
            ParseRule { prefix: Some(ParseFn::Super), infix: None, precedence: Precedence::Bupkis }
        } else {
            ParseRule { prefix: None, infix: None, precedence: Precedence::Bupkis }
        },
    }
}

/// How tightly a token binds as an infix operator.
pub open spec fn binds(t: TokenType) -> nat {
    prec_rank(spec_rule_for(t@).precedence)
}

/// How tightly the infix operators bind, loosest first: `or`, then `and`,
/// then `==` and `!=`, then `<`, `<=`, `>` and `>=`, then `+` and `-`,
/// then `*` and `/`, then calls and `.`; operators of one group bind
/// alike, and all bind tighter than assignment. Arithmetic and comparison
/// are compiled as binary operators, `and` and `or` by their own routines.
pub proof fn law_operator_binding()
    ensures
        prec_rank(Precedence::Assignment) < binds(TokenType::Or),
        binds(TokenType::Or) < binds(TokenType::And),
        binds(TokenType::And) < binds(TokenType::EqualEqual),
        binds(TokenType::EqualEqual) == binds(TokenType::BangEqual),
        binds(TokenType::EqualEqual) < binds(TokenType::Less),
        binds(TokenType::Less) == binds(TokenType::LessEqual),
        binds(TokenType::Less) == binds(TokenType::Greater),
        binds(TokenType::Less) == binds(TokenType::GreaterEqual),
        binds(TokenType::Less) < binds(TokenType::Plus),
        binds(TokenType::Plus) == binds(TokenType::Minus),
        binds(TokenType::Plus) < binds(TokenType::Star),
        binds(TokenType::Star) == binds(TokenType::Slash),
        binds(TokenType::Star) < prec_rank(Precedence::Unary),
        prec_rank(Precedence::Unary) < binds(TokenType::LeftParen),
        binds(TokenType::LeftParen) == binds(TokenType::Dot),
        spec_rule_for(TokenType::Or@).infix == Some(ParseFn::Or),
        spec_rule_for(TokenType::And@).infix == Some(ParseFn::And),
        spec_rule_for(TokenType::EqualEqual@).infix == Some(ParseFn::Binary),
        spec_rule_for(TokenType::BangEqual@).infix == Some(ParseFn::Binary),
        spec_rule_for(TokenType::Less@).infix == Some(ParseFn::Binary),
        spec_rule_for(TokenType::LessEqual@).infix == Some(ParseFn::Binary),
        spec_rule_for(TokenType::Greater@).infix == Some(ParseFn::Binary),
        spec_rule_for(TokenType::GreaterEqual@).infix == Some(ParseFn::Binary),
        spec_rule_for(TokenType::Plus@).infix == Some(ParseFn::Binary),
        spec_rule_for(TokenType::Minus@).infix == Some(ParseFn::Binary),
        spec_rule_for(TokenType::Star@).infix == Some(ParseFn::Binary),
        spec_rule_for(TokenType::Slash@).infix == Some(ParseFn::Binary),
{
}

/// No token binds at the tightest level.
pub proof fn lemma_rule_not_primary(t: TypeView)
    ensures
        spec_rule_for(t).precedence != Precedence::Primary,
        spec_rule_for(t).infix is Some ==> prec_rank(spec_rule_for(t).precedence) >= 2,
        spec_rule_for(t).infix is None ==> spec_rule_for(t).precedence == Precedence::Bupkis,
{
}

/// The rule of a token kind.
pub fn rule_for(typ: &TokenType) -> (res: ParseRule)
    ensures
        res == spec_rule_for(typ@),
{
    match typ {
        TokenType::Dot => ParseRule {
            prefix: None,
            infix: Some(ParseFn::Dot),
            precedence: Precedence::Call,
        },
        TokenType::LeftParen => ParseRule {
            prefix: Some(ParseFn::Grouping),
            infix: Some(ParseFn::FunctionCall),
            precedence: Precedence::Call,
        },
        TokenType::Slash | TokenType::Star => ParseRule {
            prefix: None,
            infix: Some(ParseFn::Binary),
            precedence: Precedence::Factor,
        },
        TokenType::Minus => ParseRule {
            prefix: Some(ParseFn::Unary),
            infix: Some(ParseFn::Binary),
            precedence: Precedence::Term,
        },
        TokenType::Plus => ParseRule {
            prefix: None,
            infix: Some(ParseFn::Binary),
            precedence: Precedence::Term,
        },
        TokenType::Greater | TokenType::GreaterEqual | TokenType::Less | TokenType::LessEqual =>
            ParseRule { prefix: None, infix: Some(ParseFn::Binary), precedence: Precedence::Comparison },
        TokenType::BangEqual | TokenType::EqualEqual => ParseRule {
            prefix: None,
            infix: Some(ParseFn::Binary),
            precedence: Precedence::Equality,
        },
        TokenType::And => ParseRule {
            prefix: None,
            infix: Some(ParseFn::And),
            precedence: Precedence::And,
        },
        TokenType::Or => ParseRule {
            prefix: None,
            infix: Some(ParseFn::Or),
            precedence: Precedence::Or,
        },
        TokenType::Number(_) => ParseRule {
            prefix: Some(ParseFn::Number),
            infix: None,
            precedence: Precedence::Bupkis,
        },
        TokenType::LoxString(_) => ParseRule {
            prefix: Some(ParseFn::String),
            infix: None,
            precedence: Precedence::Bupkis,
        },
        TokenType::Bang => ParseRule {
            prefix: Some(ParseFn::Unary),
            infix: None,
            precedence: Precedence::Bupkis,
        },
        TokenType::False | TokenType::Nil | TokenType::True => ParseRule {
            prefix: Some(ParseFn::Literal),
            infix: None,
            precedence: Precedence::Bupkis,
        },
        TokenType::Identifier(_) => ParseRule {
            prefix: Some(ParseFn::VarReference),
            infix: None,
            precedence: Precedence::Bupkis,
        },
        TokenType::This => ParseRule {
            prefix: Some(ParseFn::This),
            infix: None,
            precedence: Precedence::Bupkis,
        },
        TokenType::Super => ParseRule {
            prefix: Some(ParseFn::Super),
            infix: None,
            precedence: Precedence::Bupkis,
        },
        _ => ParseRule { prefix: None, infix: None, precedence: Precedence::Bupkis },
    }
}

/// A token that binds tighter than assignment continues an expression: its
/// rule has an infix routine.
pub proof fn lemma_binding_tokens_have_infix(t: TypeView)
    requires
        prec_rank(spec_rule_for(t).precedence) >= 1,
    ensures
        spec_rule_for(t).infix is Some,
{
}

} // verus!

use vstd::prelude::*;

use crate::source_loc::SourceLoc;
use crate::text::{chars_eq, copy_chars};

verus! {

/// What went wrong while cutting the source into tokens.
#[derive(Clone, Copy, Debug, PartialEq, Eq, Structural)]
pub enum LexerError {
    UnexpectedToken,
    UnterminatedString,
}

/// The kinds of token of Lox. A number keeps the text of its literal.
#[derive(Clone, Debug)]
pub enum TokenType {
    And,
    Bang,
    BangEqual,
    Class,
    Comma,
    Dot,
    Else,
    Eof,
    Equal,
    EqualEqual,
    False,
    For,
    Fun,
    Greater,
    GreaterEqual,
    Identifier(Vec<char>),
    If,
    LeftBrace,
    LeftParen,
    Less,
    LessEqual,
    LoxString(Vec<char>),
    Minus,
    Nil,
    Number(Vec<char>),
    Or,
    Plus,
    Print,
    Return,
    RightBrace,
    RightParen,
    Semicolon,
    Slash,
    Star,
    Super,
    This,
    True,
    Var,
    While,
}

/// A token: its kind and where it sits in the source.
#[derive(Clone, Debug)]
pub struct Token {
    pub loc: SourceLoc,
    pub typ: TokenType,
}

/// The kind of a token with its payload taken by its view.
pub enum TypeView {
    Unit(nat),
    Identifier(Seq<char>),
    LoxString(Seq<char>),
    Number(Seq<char>),
}

/// The number of a payload-free token kind (its place in the declaration).
pub open spec fn unit_tag(t: TokenType) -> nat {
    match t {
        TokenType::And => 0,
        TokenType::Bang => 1,
        TokenType::BangEqual => 2,
        TokenType::Class => 3,
        TokenType::Comma => 4,
        TokenType::Dot => 5,
        TokenType::Else => 6,
        TokenType::Eof => 7,
        TokenType::Equal => 8,
        TokenType::EqualEqual => 9,
        TokenType::False => 10,
        TokenType::For => 11,
        TokenType::Fun => 12,
        TokenType::Greater => 13,
        TokenType::GreaterEqual => 14,
        TokenType::Identifier(_) => 15,
        TokenType::If => 16,
        TokenType::LeftBrace => 17,
        TokenType::LeftParen => 18,
        TokenType::Less => 19,
        TokenType::LessEqual => 20,
        TokenType::LoxString(_) => 21,
        TokenType::Minus => 22,
        TokenType::Nil => 23,
        TokenType::Number(_) => 24,
        TokenType::Or => 25,
        TokenType::Plus => 26,
        TokenType::Print => 27,
        TokenType::Return => 28,
        TokenType::RightBrace => 29,
        TokenType::RightParen => 30,
        TokenType::Semicolon => 31,
        TokenType::Slash => 32,
        TokenType::Star => 33,
        TokenType::Super => 34,
        TokenType::This => 35,
        TokenType::True => 36,
        TokenType::Var => 37,
        TokenType::While => 38,
    }
}

impl View for TokenType {
    type V = TypeView;

    open spec fn view(&self) -> TypeView {
        match self {
            TokenType::Identifier(s) => TypeView::Identifier(s@),
            TokenType::LoxString(s) => TypeView::LoxString(s@),
            TokenType::Number(s) => TypeView::Number(s@),
            _ => TypeView::Unit(unit_tag(*self)),
        }
    }
}

impl TokenType {
    /// Whether two token kinds are the same kind with the same payload
    /// (the `==` of token kinds).
    pub fn same_as(&self, other: &TokenType) -> (res: bool)
        ensures
            res == (self@ == other@),
    {
        match (self, other) {
            (TokenType::Identifier(a), TokenType::Identifier(b)) => chars_eq(a, b),
            (TokenType::LoxString(a), TokenType::LoxString(b)) => chars_eq(a, b),
            (TokenType::Number(a), TokenType::Number(b)) => chars_eq(a, b),
            (TokenType::Identifier(_), _) | (TokenType::LoxString(_), _) | (
                TokenType::Number(_),
                _,
            ) => false,
            (_, TokenType::Identifier(_)) | (_, TokenType::LoxString(_)) | (
                _,
                TokenType::Number(_),
            ) => false,
            _ => self.tag() == other.tag(),
        }
    }

    /// The number of this token kind.
    pub fn tag(&self) -> (res: u8)
        ensures
            res == unit_tag(*self),
    {
        match self {
            TokenType::And => 0,
            TokenType::Bang => 1,
            TokenType::BangEqual => 2,
            TokenType::Class => 3,
            TokenType::Comma => 4,
            TokenType::Dot => 5,
            TokenType::Else => 6,
            TokenType::Eof => 7,
            TokenType::Equal => 8,
            TokenType::EqualEqual => 9,
            TokenType::False => 10,
            TokenType::For => 11,
            TokenType::Fun => 12,
            TokenType::Greater => 13,
            TokenType::GreaterEqual => 14,
            TokenType::Identifier(_) => 15,
            TokenType::If => 16,
            TokenType::LeftBrace => 17,
            TokenType::LeftParen => 18,
            TokenType::Less => 19,
            TokenType::LessEqual => 20,
            TokenType::LoxString(_) => 21,
            TokenType::Minus => 22,
            TokenType::Nil => 23,
            TokenType::Number(_) => 24,
            TokenType::Or => 25,
            TokenType::Plus => 26,
            TokenType::Print => 27,
            TokenType::Return => 28,
            TokenType::RightBrace => 29,
            TokenType::RightParen => 30,
            TokenType::Semicolon => 31,
            TokenType::Slash => 32,
            TokenType::Star => 33,
            TokenType::Super => 34,
            TokenType::This => 35,
            TokenType::True => 36,
            TokenType::Var => 37,
            TokenType::While => 38,
        }
    }

    /// A copy of this token kind.
    pub fn duplicate(&self) -> (res: TokenType)
        ensures
            res@ == self@,
    {
        match self {
            TokenType::Identifier(s) => TokenType::Identifier(copy_chars(s)),
            TokenType::LoxString(s) => TokenType::LoxString(copy_chars(s)),
            TokenType::Number(s) => TokenType::Number(copy_chars(s)),
            TokenType::And => TokenType::And,
            TokenType::Bang => TokenType::Bang,
            TokenType::BangEqual => TokenType::BangEqual,
            TokenType::Class => TokenType::Class,
            TokenType::Comma => TokenType::Comma,
            TokenType::Dot => TokenType::Dot,
            TokenType::Else => TokenType::Else,
            TokenType::Eof => TokenType::Eof,
            TokenType::Equal => TokenType::Equal,
            TokenType::EqualEqual => TokenType::EqualEqual,
            TokenType::False => TokenType::False,
            TokenType::For => TokenType::For,
            TokenType::Fun => TokenType::Fun,
            TokenType::Greater => TokenType::Greater,
            TokenType::GreaterEqual => TokenType::GreaterEqual,
            TokenType::If => TokenType::If,
            TokenType::LeftBrace => TokenType::LeftBrace,
            TokenType::LeftParen => TokenType::LeftParen,
            TokenType::Less => TokenType::Less,
            TokenType::LessEqual => TokenType::LessEqual,
            TokenType::Minus => TokenType::Minus,
            TokenType::Nil => TokenType::Nil,
            TokenType::Or => TokenType::Or,
            TokenType::Plus => TokenType::Plus,
            TokenType::Print => TokenType::Print,
            TokenType::Return => TokenType::Return,
            TokenType::RightBrace => TokenType::RightBrace,
            TokenType::RightParen => TokenType::RightParen,
            TokenType::Semicolon => TokenType::Semicolon,
            TokenType::Slash => TokenType::Slash,
            TokenType::Star => TokenType::Star,
            TokenType::Super => TokenType::Super,
            TokenType::This => TokenType::This,
            TokenType::True => TokenType::True,
            TokenType::Var => TokenType::Var,
            TokenType::While => TokenType::While,
        }
    }
}

/// A token taken by its view.
pub struct TokenView {
    pub loc: SourceLoc,
    pub typ: TypeView,
}

impl View for Token {
    type V = TokenView;

    open spec fn view(&self) -> TokenView {
        TokenView { loc: self.loc, typ: self.typ@ }
    }
}

impl Token {
    /// A copy of this token.
    pub fn duplicate(&self) -> (res: Token)
        ensures
            res@ == self@,
    {
        Token { loc: self.loc, typ: self.typ.duplicate() }
    }
}

} // verus!

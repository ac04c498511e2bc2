use vstd::prelude::*;

use crate::source_loc::SourceLoc;
use crate::text::chars_eq;
use crate::token::LexerError::{self, UnexpectedToken, UnterminatedString};
use crate::token::{Token, TokenType, TokenView, TypeView};

verus! {

// ---------------------------------------------------------------------------
// The lexical grammar, over the sequence of characters of the source.
// ---------------------------------------------------------------------------

/// Letters and the underscore start a name.
pub open spec fn spec_is_alphabetical(c: char) -> bool {
    ('a' <= c && c <= 'z') || ('A' <= c && c <= 'Z') || c == '_'
}

/// The decimal digits.
pub open spec fn spec_is_digit(c: char) -> bool {
    '0' <= c && c <= '9'
}

/// The first index from `i` on that holds no letter and no digit.
pub open spec fn alnum_end(s: Seq<char>, i: int) -> int
    decreases s.len() - i,
{
    if i >= s.len() || !(spec_is_alphabetical(s[i]) || spec_is_digit(s[i])) {
        i
    } else {
        alnum_end(s, i + 1)
    }
}

/// The first index from `i` on that holds no digit.
pub open spec fn digits_end(s: Seq<char>, i: int) -> int
    decreases s.len() - i,
{
    if i >= s.len() || !spec_is_digit(s[i]) {
        i
    } else {
        digits_end(s, i + 1)
    }
}

/// The first index from `i` on that holds a newline (or the end).
pub open spec fn newline_end(s: Seq<char>, i: int) -> int
    decreases s.len() - i,
{
    if i >= s.len() || s[i] == '\n' {
        i
    } else {
        newline_end(s, i + 1)
    }
}

/// The first index from `i` on that holds a double quote (or the end).
pub open spec fn quote_end(s: Seq<char>, i: int) -> int
    decreases s.len() - i,
{
    if i >= s.len() || s[i] == '"' {
        i
    } else {
        quote_end(s, i + 1)
    }
}

pub proof fn lemma_newline_end_ge(s: Seq<char>, i: int)
    ensures
        newline_end(s, i) >= i,
    decreases s.len() - i,
{
    if !(i >= s.len() || s[i] == '\n') {
        lemma_newline_end_ge(s, i + 1);
    }
}

/// The first index from `i` on that starts neither white space nor a `//`
/// comment.
pub open spec fn trivia_end(s: Seq<char>, i: int) -> int
    decreases s.len() - i,
    via trivia_end_decreases
{
    if i >= s.len() {
        i
    } else if s[i] == ' ' || s[i] == '\r' || s[i] == '\t' || s[i] == '\n' {
        trivia_end(s, i + 1)
    } else if s[i] == '/' && i + 1 < s.len() && s[i + 1] == '/' {
        trivia_end(s, newline_end(s, i + 2))
    } else {
        i
    }
}

#[via_fn]
proof fn trivia_end_decreases(s: Seq<char>, i: int) {
    if i < s.len() && !(s[i] == ' ' || s[i] == '\r' || s[i] == '\t' || s[i] == '\n') && s[i]
        == '/' && i + 1 < s.len() && s[i + 1] == '/' {
        lemma_newline_end_ge(s, i + 2);
        lemma_newline_end_le(s, i + 2);
    }
}

/// The number of newlines in `s[i..j]`.
pub open spec fn count_nl(s: Seq<char>, i: int, j: int) -> int
    decreases j - i,
{
    if j <= i {
        0
    } else {
        count_nl(s, i, j - 1) + if s[j - 1] == '\n' {
            1int
        } else {
            0int
        }
    }
}

/// The index of the last newline in `s[i..j]`, or `d` when there is none.
pub open spec fn last_nl(s: Seq<char>, i: int, j: int, d: int) -> int
    decreases j - i,
{
    if j <= i {
        d
    } else if s[j - 1] == '\n' {
        j - 1
    } else {
        last_nl(s, i, j - 1, d)
    }
}

/// The end of a number literal that starts at `t`: digits, then a fraction
/// only when a digit follows the dot.
pub open spec fn number_end(s: Seq<char>, t: int) -> int {
    let e0 = digits_end(s, t + 1);
    if e0 + 1 < s.len() && s[e0] == '.' && spec_is_digit(s[e0 + 1]) {
        digits_end(s, e0 + 1)
    } else {
        e0
    }
}

/// The keyword that a name spells, or an identifier.
pub open spec fn keyword_or_identifier(w: Seq<char>) -> TypeView {
    if w == seq!['a', 'n', 'd'] {
        TokenType::And@
    } else if w == seq!['c', 'l', 'a', 's', 's'] {
        TokenType::Class@
    } else if w == seq!['e', 'l', 's', 'e'] {
        TokenType::Else@
    } else if w == seq!['f', 'a', 'l', 's', 'e'] {
        TokenType::False@
    } else if w == seq!['f', 'o', 'r'] {
        TokenType::For@
    } else if w == seq!['f', 'u', 'n'] {
        TokenType::Fun@
    } else if w == seq!['i', 'f'] {
        TokenType::If@
    } else if w == seq!['n', 'i', 'l'] {
        TokenType::Nil@
    } else if w == seq!['o', 'r'] {
        TokenType::Or@
    } else if w == seq!['p', 'r', 'i', 'n', 't'] {
        TokenType::Print@
    } else if w == seq!['r', 'e', 't', 'u', 'r', 'n'] {
        TokenType::Return@
    } else if w == seq!['s', 'u', 'p', 'e', 'r'] {
        TokenType::Super@
    } else if w == seq!['t', 'h', 'i', 's'] {
        TokenType::This@
    } else if w == seq!['t', 'r', 'u', 'e'] {
        TokenType::True@
    } else if w == seq!['v', 'a', 'r'] {
        TokenType::Var@
    } else if w == seq!['w', 'h', 'i', 'l', 'e'] {
        TokenType::While@
    } else {
        TypeView::Identifier(w)
    }
}

/// An operator of one character, or of two when `=` follows it.
pub open spec fn with_equal(s: Seq<char>, t: int, one: TokenType, two: TokenType) -> (Result<
    TypeView,
    LexerError,
>, int) {
    if t + 1 < s.len() && s[t + 1] == '=' {
        (Ok(two@), t + 2)
    } else {
        (Ok(one@), t + 1)
    }
}

/// The token that starts at index `t` (which holds no trivia) and the index
/// where it ends.
pub open spec fn scan_token(s: Seq<char>, t: int) -> (Result<TypeView, LexerError>, int) {
    let c = s[t];
    if spec_is_alphabetical(c) {
        let e = alnum_end(s, t + 1);
        (Ok(keyword_or_identifier(s.subrange(t, e))), e)
    } else if spec_is_digit(c) {
        let e = number_end(s, t);
        (Ok(TypeView::Number(s.subrange(t, e))), e)
    } else if c == '(' {
        (Ok(TokenType::LeftParen@), t + 1)
    } else if c == ')' {
        (Ok(TokenType::RightParen@), t + 1)
    } else if c == '{' {
        (Ok(TokenType::LeftBrace@), t + 1)
    } else if c == '}' {
        (Ok(TokenType::RightBrace@), t + 1)
    } else if c == ';' {
        (Ok(TokenType::Semicolon@), t + 1)
    } else if c == ',' {
        (Ok(TokenType::Comma@), t + 1)
    } else if c == '.' {
        (Ok(TokenType::Dot@), t + 1)
    } else if c == '-' {
        (Ok(TokenType::Minus@), t + 1)
    } else if c == '+' {
        (Ok(TokenType::Plus@), t + 1)
    } else if c == '/' {
        (Ok(TokenType::Slash@), t + 1)
    } else if c == '*' {
        (Ok(TokenType::Star@), t + 1)
    } else if c == '!' {
        with_equal(s, t, TokenType::Bang, TokenType::BangEqual)
    } else if c == '=' {
        with_equal(s, t, TokenType::Equal, TokenType::EqualEqual)
    } else if c == '<' {
        with_equal(s, t, TokenType::Less, TokenType::LessEqual)
    } else if c == '>' {
        with_equal(s, t, TokenType::Greater, TokenType::GreaterEqual)
    } else if c == '"' {
        let q = quote_end(s, t + 1);
        if q >= s.len() {
            (Err(UnterminatedString), s.len() as int)
        } else {
            (Ok(TypeView::LoxString(s.subrange(t + 1, q))), q + 1)
        }
    } else {
        (Err(UnexpectedToken), t + 1)
    }
}

/// The column of a token: its start less the last newline's position, plus
/// one, wrapped to 32 bits (a string that spans lines starts before its last
/// newline).
pub open spec fn column_of(start: int, last_newline: int) -> u32 {
    if start + 1 >= last_newline {
        (start + 1 - last_newline) as u32
    } else {
        (start + 1 - last_newline + 0x1_0000_0000) as u32
    }
}

/// The state of the lexer: index of the next character, position (which
/// also counts reads past the end), start of the pending token, position of
/// the last newline, and line number.
pub type LexState = (int, int, int, int, int);

/// One step of the lexer: skip trivia, then read one token (or fail), and
/// the state afterwards.
pub open spec fn lex_step(s: Seq<char>, st: LexState) -> (Result<TokenView, LexerError>, LexState) {
    let (idx, pos, pp, lnp, line) = st;
    let t = trivia_end(s, idx);
    let pos1 = if t > idx {
        t
    } else {
        pos
    };
    let pp1 = if t > idx {
        t
    } else {
        pp
    };
    let line1 = line + count_nl(s, idx, t);
    let lnp1 = last_nl(s, idx, t, lnp);
    if t >= s.len() {
        let pos2 = pos1 + 1;
        let loc = SourceLoc {
            start_index: pp1 as u32,
            line_num: line1 as u32,
            column: column_of(pp1, lnp1),
            length: (pos2 - pp1) as u32,
        };
        (Ok(TokenView { loc, typ: TokenType::Eof@ }), (t, pos2, pos2, lnp1, line1))
    } else {
        let (r, e) = scan_token(s, t);
        let line2 = line1 + count_nl(s, t, e);
        let lnp2 = last_nl(s, t, e, lnp1);
        match r {
            Ok(tv) => {
                let loc = SourceLoc {
                    start_index: pp1 as u32,
                    line_num: line2 as u32,
                    column: column_of(pp1, lnp2),
                    length: (e - pp1) as u32,
                };
                (Ok(TokenView { loc, typ: tv }), (e, e, e, lnp2, line2))
            },
            Err(err) => (Err(err), (e, e, pp1, lnp2, line2)),
        }
    }
}

// ---------------------------------------------------------------------------
// Lemmas on the scanning functions.
// ---------------------------------------------------------------------------

pub proof fn lemma_alnum_end_bounds(s: Seq<char>, i: int)
    requires
        0 <= i <= s.len(),
    ensures
        i <= alnum_end(s, i) <= s.len(),
    decreases s.len() - i,
{
    if !(i >= s.len() || !(spec_is_alphabetical(s[i]) || spec_is_digit(s[i]))) {
        lemma_alnum_end_bounds(s, i + 1);
    }
}

pub proof fn lemma_digits_end_bounds(s: Seq<char>, i: int)
    requires
        0 <= i <= s.len(),
    ensures
        i <= digits_end(s, i) <= s.len(),
    decreases s.len() - i,
{
    if !(i >= s.len() || !spec_is_digit(s[i])) {
        lemma_digits_end_bounds(s, i + 1);
    }
}

pub proof fn lemma_quote_end_bounds(s: Seq<char>, i: int)
    requires
        0 <= i <= s.len(),
    ensures
        i <= quote_end(s, i) <= s.len(),
    decreases s.len() - i,
{
    if !(i >= s.len() || s[i] == '"') {
        lemma_quote_end_bounds(s, i + 1);
    }
}

pub proof fn lemma_trivia_end_bounds(s: Seq<char>, i: int)
    requires
        0 <= i <= s.len(),
    ensures
        i <= trivia_end(s, i) <= s.len(),
    decreases s.len() - i,
{
    if i >= s.len() {
    } else if s[i] == ' ' || s[i] == '\r' || s[i] == '\t' || s[i] == '\n' {
        lemma_trivia_end_bounds(s, i + 1);
    } else if s[i] == '/' && i + 1 < s.len() && s[i + 1] == '/' {
        lemma_newline_end_ge(s, i + 2);
        lemma_newline_end_le(s, i + 2);
        lemma_trivia_end_bounds(s, newline_end(s, i + 2));
    }
}

pub proof fn lemma_newline_end_le(s: Seq<char>, i: int)
    requires
        i <= s.len(),
    ensures
        newline_end(s, i) <= s.len(),
    decreases s.len() - i,
{
    if !(i >= s.len() || s[i] == '\n') {
        lemma_newline_end_le(s, i + 1);
    }
}

pub proof fn lemma_count_nl_bound(s: Seq<char>, i: int, j: int)
    requires
        i <= j,
    ensures
        0 <= count_nl(s, i, j) <= j - i,
    decreases j - i,
{
    if j > i {
        lemma_count_nl_bound(s, i, j - 1);
    }
}

pub proof fn lemma_count_nl_split(s: Seq<char>, i: int, k: int, j: int)
    requires
        i <= k <= j,
    ensures
        count_nl(s, i, j) == count_nl(s, i, k) + count_nl(s, k, j),
        last_nl(s, i, j, 0) == last_nl(s, k, j, last_nl(s, i, k, 0)),
    decreases j - k,
{
    if j > k {
        lemma_count_nl_split(s, i, k, j - 1);
    }
}

pub proof fn lemma_last_nl_split(s: Seq<char>, i: int, k: int, j: int, d: int)
    requires
        i <= k <= j,
    ensures
        last_nl(s, i, j, d) == last_nl(s, k, j, last_nl(s, i, k, d)),
    decreases j - k,
{
    if j > k {
        lemma_last_nl_split(s, i, k, j - 1, d);
    }
}

pub proof fn lemma_last_nl_bound(s: Seq<char>, i: int, j: int, d: int)
    requires
        0 <= i <= j,
    ensures
        last_nl(s, i, j, d) == d || i <= last_nl(s, i, j, d) < j,
    decreases j - i,
{
    if j > i && s[j - 1] != '\n' {
        lemma_last_nl_bound(s, i, j - 1, d);
    }
}

/// A stretch without newlines adds no line and keeps the last newline.
pub proof fn lemma_no_newline(s: Seq<char>, i: int, j: int, d: int)
    requires
        i <= j,
        forall|k: int| i <= k < j ==> s[k] != '\n',
    ensures
        count_nl(s, i, j) == 0,
        last_nl(s, i, j, d) == d,
    decreases j - i,
{
    if j > i {
        lemma_no_newline(s, i, j - 1, d);
    }
}

/// Trivia never ends on a newline.
pub proof fn lemma_trivia_end_not_newline(s: Seq<char>, i: int)
    requires
        0 <= i <= s.len(),
    ensures
        trivia_end(s, i) < s.len() ==> s[trivia_end(s, i)] != '\n',
    decreases s.len() - i,
{
    if i >= s.len() {
    } else if s[i] == ' ' || s[i] == '\r' || s[i] == '\t' || s[i] == '\n' {
        lemma_trivia_end_not_newline(s, i + 1);
    } else if s[i] == '/' && i + 1 < s.len() && s[i + 1] == '/' {
        lemma_newline_end_ge(s, i + 2);
        lemma_newline_end_le(s, i + 2);
        lemma_trivia_end_not_newline(s, newline_end(s, i + 2));
    }
}

/// A token read at a non-trivia character ends past it, within the source,
/// and is never the end-of-input token.
pub proof fn lemma_scan_token_advances(s: Seq<char>, t: int)
    requires
        0 <= t < s.len(),
    ensures
        t < scan_token(s, t).1 <= s.len(),
        scan_token(s, t).0 matches Ok(tv) ==> tv != TokenType::Eof@,
{
    lemma_alnum_end_bounds(s, t + 1);
    lemma_digits_end_bounds(s, t + 1);
    let e0 = digits_end(s, t + 1);
    if e0 + 1 < s.len() {
        lemma_digits_end_bounds(s, e0 + 1);
    }
    lemma_quote_end_bounds(s, t + 1);
}

/// Each step of the lexer reads at least one character unless it reports the
/// end of the input, which it does only at the end, one read past it.
pub proof fn lemma_lex_step_progress(s: Seq<char>, st: LexState)
    requires
        0 <= st.0 <= s.len(),
        st.1 == st.0,
    ensures
        ({
            let (r, st2) = lex_step(s, st);
            &&& st.0 <= st2.0 <= s.len()
            &&& (r matches Ok(tv) && tv.typ == TokenType::Eof@) ==> st2.0 == s.len() && st2.1
                == s.len() + 1
            &&& !(r matches Ok(tv) && tv.typ == TokenType::Eof@) ==> st2.0 > st.0 && st2.1 == st2.0
        }),
{
    lemma_trivia_end_bounds(s, st.0);
    let t = trivia_end(s, st.0);
    if t < s.len() {
        lemma_scan_token_advances(s, t);
    }
}

// ---------------------------------------------------------------------------
// The lexer.
// ---------------------------------------------------------------------------

/// Reads the characters of a source, one token at a time.
pub struct Lexer {
    chars: Vec<char>,
    index: usize,
    pos: u32,
    pos_prior: u32,
    last_newline_pos: u32,
    line_num: u32,
}

/// Letters and the underscore start a name.
pub fn is_alphabetical(c: char) -> (res: bool)
    ensures
        res == spec_is_alphabetical(c),
{
    (c >= 'a' && c <= 'z') || (c >= 'A' && c <= 'Z') || (c == '_')
}

/// The decimal digits.
pub fn is_digit(c: char) -> (res: bool)
    ensures
        res == spec_is_digit(c),
{
    c >= '0' && c <= '9'
}

/// The kind of token that a name spells: a keyword or an identifier.
fn keyword_type(name: Vec<char>) -> (res: TokenType)
    ensures
        res@ == keyword_or_identifier(name@),
{
    if chars_eq(&name, &vec!['a', 'n', 'd']) {
        TokenType::And
    } else if chars_eq(&name, &vec!['c', 'l', 'a', 's', 's']) {
        TokenType::Class
    } else if chars_eq(&name, &vec!['e', 'l', 's', 'e']) {
        TokenType::Else
    } else if chars_eq(&name, &vec!['f', 'a', 'l', 's', 'e']) {
        TokenType::False
    } else if chars_eq(&name, &vec!['f', 'o', 'r']) {
        TokenType::For
    } else if chars_eq(&name, &vec!['f', 'u', 'n']) {
        TokenType::Fun
    } else if chars_eq(&name, &vec!['i', 'f']) {
        TokenType::If
    } else if chars_eq(&name, &vec!['n', 'i', 'l']) {
        TokenType::Nil
    } else if chars_eq(&name, &vec!['o', 'r']) {
        TokenType::Or
    } else if chars_eq(&name, &vec!['p', 'r', 'i', 'n', 't']) {
        TokenType::Print
    } else if chars_eq(&name, &vec!['r', 'e', 't', 'u', 'r', 'n']) {
        TokenType::Return
    } else if chars_eq(&name, &vec!['s', 'u', 'p', 'e', 'r']) {
        TokenType::Super
    } else if chars_eq(&name, &vec!['t', 'h', 'i', 's']) {
        TokenType::This
    } else if chars_eq(&name, &vec!['t', 'r', 'u', 'e']) {
        TokenType::True
    } else if chars_eq(&name, &vec!['v', 'a', 'r']) {
        TokenType::Var
    } else if chars_eq(&name, &vec!['w', 'h', 'i', 'l', 'e']) {
        TokenType::While
    } else {
        TokenType::Identifier(name)
    }
}

impl Lexer {
    /// The source characters.
    pub closed spec fn source(&self) -> Seq<char> {
        self.chars@
    }

    /// The lexer's state as a tuple of integers.
    pub closed spec fn state(&self) -> LexState {
        (
            self.index as int,
            self.pos as int,
            self.pos_prior as int,
            self.last_newline_pos as int,
            self.line_num as int,
        )
    }

    /// The lexer's invariant: its line number and last newline agree with
    /// the characters read so far, and every counter fits in 32 bits.
    pub closed spec fn wf(&self) -> bool {
        &&& self.chars.len() + 4 <= u32::MAX
        &&& self.index <= self.chars.len()
        &&& self.pos >= self.index
        &&& (self.index < self.chars.len() ==> self.pos == self.index)
        &&& self.pos_prior <= self.pos
        &&& self.line_num == 1 + count_nl(self.chars@, 0, self.index as int)
        &&& self.last_newline_pos == last_nl(self.chars@, 0, self.index as int, 0)
    }

    /// How far the lexer may still read: the position must leave room for one
    /// more read past the end.
    pub open spec fn can_step(&self) -> bool {
        self.wf() && self.state().1 + 2 <= u32::MAX
    }

    /// What the invariant says of the lexer's state.
    pub proof fn lemma_state_bounds(&self)
        requires
            self.wf(),
        ensures
            0 <= self.state().0 <= self.source().len(),
            self.state().0 <= self.state().1,
            self.source().len() + 4 <= u32::MAX,
    {
    }

    /// A lexer at the start of `chars`.
    pub fn new(chars: Vec<char>) -> (res: Lexer)
        requires
            chars.len() + 4 <= u32::MAX,
        ensures
            res.wf(),
            res.source() == chars@,
            res.state() == (0int, 0int, 0int, 0int, 1int),
    {
        Lexer { chars, index: 0, pos: 0, pos_prior: 0, last_newline_pos: 0, line_num: 1 }
    }

    /// The line that the lexer has reached.
    pub fn get_line_num(&self) -> (res: u32)
        ensures
            res == self.state().4,
    {
        self.line_num
    }

    /// Reads the next token, after any white space and comments.
    pub fn next_token(&mut self) -> (res: Result<Token, LexerError>)
        requires
            old(self).can_step(),
        ensures
            final(self).wf(),
            final(self).source() == old(self).source(),
            final(self).state() == lex_step(old(self).source(), old(self).state()).1,
            match (res, lex_step(old(self).source(), old(self).state()).0) {
                (Ok(tok), Ok(tv)) => tok@ == tv,
                (Err(e1), Err(e2)) => e1 == e2,
                _ => false,
            },
    {
        let ghost s = self.chars@;
        let ghost st0 = self.state();
        proof {
            lemma_trivia_end_bounds(s, st0.0);
            lemma_trivia_end_not_newline(s, st0.0);
        }
        self.skip_trivia();
        let ghost t = self.index as int;
        if self.index >= self.chars.len() {
            let _ = self.slurp_char_opt();
            let token = self.make_token(TokenType::Eof);
            self.pos_prior = self.pos;
            return Ok(token);
        }
        let result = self.scan();
        proof {
            let e = self.index as int;
            lemma_count_nl_split(s, 0, t, e);
            lemma_last_nl_split(s, 0, t, e, 0);
        }
        match result {
            Ok(typ) => {
                let token = self.make_token(typ);
                self.pos_prior = self.pos;
                Ok(token)
            },
            Err(e) => Err(e),
        }
    }

    /// Reads the token that starts at the current character.
    fn scan(&mut self) -> (res: Result<TokenType, LexerError>)
        requires
            old(self).wf(),
            old(self).index < old(self).chars.len(),
            old(self).chars@[old(self).index as int] != '\n',
        ensures
            final(self).chars@ == old(self).chars@,
            ({
                let s = old(self).chars@;
                let t = old(self).index as int;
                let (r, e) = scan_token(s, t);
                &&& t < e <= s.len()
                &&& final(self).index == e
                &&& final(self).pos == e
                &&& final(self).pos_prior == old(self).pos_prior
                &&& final(self).line_num == old(self).line_num + count_nl(s, t, e)
                &&& final(self).last_newline_pos == last_nl(
                    s,
                    t,
                    e,
                    old(self).last_newline_pos as int,
                )
                &&& match (res, r) {
                    (Ok(typ), Ok(tv)) => typ@ == tv,
                    (Err(e1), Err(e2)) => e1 == e2,
                    _ => false,
                }
            }),
    {
        let ghost s = self.chars@;
        let ghost t = self.index as int;
        let ghost lnp0 = self.last_newline_pos as int;
        let start = self.index;
        let c = self.chars[start];
        let _ = self.slurp_char_opt();
        if is_alphabetical(c) {
            let r = self.make_namelike(c, start);
            proof {
                lemma_alnum_end_bounds(s, t + 1);
                assert forall|k: int| t <= k < self.index implies s[k] != '\n' by {
                    if k > t {
                        assert(s[k] != '\n');
                    }
                }
                lemma_no_newline(s, t, self.index as int, lnp0);
            }
            return Ok(r);
        }
        if is_digit(c) {
            let r = self.make_number(start);
            proof {
                assert forall|k: int| t <= k < self.index implies s[k] != '\n' by {
                    if k > t {
                        assert(s[k] != '\n');
                    }
                }
                lemma_no_newline(s, t, self.index as int, lnp0);
                lemma_digits_end_bounds(s, t + 1);
                if digits_end(s, t + 1) + 1 <= s.len() {
                    lemma_digits_end_bounds(s, digits_end(s, t + 1) + 1);
                }
            }
            return Ok(r);
        }
        if c == '"' {
            let r = self.make_string(start);
            proof {
                lemma_quote_end_bounds(s, t + 1);
                assert(count_nl(s, t, t) == 0);
                assert(count_nl(s, t, t + 1) == 0);
                assert(s[t] == '"');
                assert(last_nl(s, t, t, lnp0) == lnp0);
                assert(last_nl(s, t, t + 1, lnp0) == lnp0);
                lemma_count_nl_split(s, t, t + 1, self.index as int);
                lemma_last_nl_split(s, t, t + 1, self.index as int, lnp0);
            }
            return r;
        }
        let result = if c == '(' {
            Ok(TokenType::LeftParen)
        } else if c == ')' {
            Ok(TokenType::RightParen)
        } else if c == '{' {
            Ok(TokenType::LeftBrace)
        } else if c == '}' {
            Ok(TokenType::RightBrace)
        } else if c == ';' {
            Ok(TokenType::Semicolon)
        } else if c == ',' {
            Ok(TokenType::Comma)
        } else if c == '.' {
            Ok(TokenType::Dot)
        } else if c == '-' {
            Ok(TokenType::Minus)
        } else if c == '+' {
            Ok(TokenType::Plus)
        } else if c == '/' {
            Ok(TokenType::Slash)
        } else if c == '*' {
            Ok(TokenType::Star)
        } else if c == '!' {
            if self.slurp_if_equals_char() {
                Ok(TokenType::BangEqual)
            } else {
                Ok(TokenType::Bang)
            }
        } else if c == '=' {
            if self.slurp_if_equals_char() {
                Ok(TokenType::EqualEqual)
            } else {
                Ok(TokenType::Equal)
            }
        } else if c == '<' {
            if self.slurp_if_equals_char() {
                Ok(TokenType::LessEqual)
            } else {
                Ok(TokenType::Less)
            }
        } else if c == '>' {
            if self.slurp_if_equals_char() {
                Ok(TokenType::GreaterEqual)
            } else {
                Ok(TokenType::Greater)
            }
        } else {
            Err(UnexpectedToken)
        };
        proof {
            assert forall|k: int| t <= k < self.index implies s[k] != '\n' by {
                if k > t {
                    assert(s[k] == '=');
                }
            }
            lemma_no_newline(s, t, self.index as int, lnp0);
        }
        result
    }

    fn make_token(&self, typ: TokenType) -> (res: Token)
        requires
            self.pos_prior <= self.pos,
        ensures
            res.typ == typ,
            res.loc == (SourceLoc {
                start_index: self.pos_prior,
                line_num: self.line_num,
                column: column_of(self.pos_prior as int, self.last_newline_pos as int),
                length: (self.pos - self.pos_prior) as u32,
            }),
    {
        let start_index = self.pos_prior;
        let line_num = self.line_num;
        let column: u32 = if self.pos_prior as u64 + 1 >= self.last_newline_pos as u64 {
            (self.pos_prior as u64 + 1 - self.last_newline_pos as u64) as u32
        } else {
            (self.pos_prior as u64 + 1 + 0x1_0000_0000 - self.last_newline_pos as u64) as u32
        };
        let length = self.pos - self.pos_prior;
        Token { typ, loc: SourceLoc { start_index, line_num, column, length } }
    }

    fn peek(&self) -> (res: Option<char>)
        ensures
            res == (if self.index < self.chars.len() {
                Some(self.chars@[self.index as int])
            } else {
                None
            }),
    {
        if self.index < self.chars.len() {
            Some(self.chars[self.index])
        } else {
            None
        }
    }

    fn peek_next(&self) -> (res: Option<char>)
        ensures
            res == (if self.index + 1 < self.chars.len() {
                Some(self.chars@[self.index + 1])
            } else {
                None
            }),
    {
        if self.chars.len() > 0 && self.index < self.chars.len() - 1 {
            Some(self.chars[self.index + 1])
        } else {
            None
        }
    }

    /// Skips white space and `//` comments, counting the newlines.
    fn skip_trivia(&mut self)
        requires
            old(self).wf(),
        ensures
            final(self).wf(),
            final(self).chars@ == old(self).chars@,
            ({
                let (idx, pos, pp, lnp, line) = old(self).state();
                let t = trivia_end(old(self).chars@, idx);
                final(self).state() == (
                    t,
                    if t > idx {
                        t
                    } else {
                        pos
                    },
                    if t > idx {
                        t
                    } else {
                        pp
                    },
                    last_nl(old(self).chars@, idx, t, lnp),
                    line + count_nl(old(self).chars@, idx, t),
                )
            }),
    {
        let ghost s = self.chars@;
        let ghost i0 = self.index as int;
        let ghost st0 = self.state();
        proof {
            lemma_trivia_end_bounds(s, i0);
        }
        loop
            invariant
                self.wf(),
                self.chars@ == s,
                0 <= i0 <= self.index,
                trivia_end(s, self.index as int) == trivia_end(s, i0),
                self.index > i0 ==> self.pos == self.index && self.pos_prior == self.index,
                self.index == i0 ==> self.pos == st0.1 && self.pos_prior == st0.2,
                self.line_num == st0.4 + count_nl(s, i0, self.index as int),
                self.last_newline_pos == last_nl(s, i0, self.index as int, st0.3),
            ensures
                self.wf(),
                self.chars@ == s,
                self.index == trivia_end(s, i0),
                self.index > i0 ==> self.pos == self.index && self.pos_prior == self.index,
                self.index == i0 ==> self.pos == st0.1 && self.pos_prior == st0.2,
                self.line_num == st0.4 + count_nl(s, i0, self.index as int),
                self.last_newline_pos == last_nl(s, i0, self.index as int, st0.3),
            decreases s.len() - self.index,
        {
            proof {
                lemma_count_nl_split(s, 0, i0, self.index as int);
                lemma_last_nl_split(s, 0, i0, self.index as int, 0);
                lemma_count_nl_bound(s, 0, self.index as int);
            }
            match self.peek() {
                Some(c) => {
                    if c == ' ' || c == '\r' || c == '\t' {
                        self.advance();
                    } else if c == '\n' {
                        self.last_newline_pos = self.pos;
                        self.line_num = self.line_num + 1;
                        self.advance();
                    } else if c == '/' {
                        if self.peek_next() == Some('/') {
                            let ghost k = self.index as int;
                            proof {
                                lemma_newline_end_le(s, k + 2);
                                lemma_newline_end_ge(s, k + 2);
                            }
                            loop
                                invariant
                                    self.wf(),
                                    self.chars@ == s,
                                    k <= self.index <= newline_end(s, k + 2),
                                    newline_end(s, k + 2) <= s.len(),
                                    k + 2 <= newline_end(s, k + 2),
                                    self.index < k + 2 ==> s[self.index as int] == '/',
                                    self.index > k + 1 ==> newline_end(s, self.index as int)
                                        == newline_end(s, k + 2),
                                    self.index > i0 ==> self.pos == self.index
                                        && self.pos_prior == self.index,
                                    self.index == i0 ==> self.pos == st0.1 && self.pos_prior
                                        == st0.2,
                                    self.line_num == st0.4 + count_nl(s, i0, self.index as int),
                                    self.last_newline_pos == last_nl(
                                        s,
                                        i0,
                                        self.index as int,
                                        st0.3,
                                    ),
                                    0 <= i0 <= k,
                                    k + 1 < s.len(),
                                    s[k] == '/' && s[k + 1] == '/',
                                ensures
                                    self.wf(),
                                    self.chars@ == s,
                                    self.index == newline_end(s, k + 2),
                                    self.index > i0,
                                    self.pos == self.index && self.pos_prior == self.index,
                                    self.line_num == st0.4 + count_nl(s, i0, self.index as int),
                                    self.last_newline_pos == last_nl(
                                        s,
                                        i0,
                                        self.index as int,
                                        st0.3,
                                    ),
                                decreases s.len() - self.index,
                            {
                                let p = self.peek();
                                if p.is_none() || p == Some('\n') {
                                    break ;
                                }
                                proof {
                                    lemma_count_nl_split(s, 0, i0, self.index as int);
                                    lemma_last_nl_split(s, 0, i0, self.index as int, 0);
                                    lemma_newline_end_ge(s, self.index as int + 1);
                                }
                                self.advance();
                            }
                        } else {
                            break ;
                        }
                    } else {
                        break ;
                    }
                },
                None => {
                    break ;
                },
            }
        }
    }

    /// Reads one character and moves past it; the pending token now starts
    /// after it.
    fn advance(&mut self)
        requires
            old(self).index < old(self).chars.len(),
            old(self).pos == old(self).index,
            old(self).chars.len() + 4 <= u32::MAX,
        ensures
            final(self).chars@ == old(self).chars@,
            final(self).index == old(self).index + 1,
            final(self).pos == final(self).index,
            final(self).pos_prior == final(self).index,
            final(self).line_num == old(self).line_num,
            final(self).last_newline_pos == old(self).last_newline_pos,
    {
        let _ = self.slurp_char_opt();
        self.pos_prior = self.pos;
    }

    /// Reads `=` if it is the next character.
    fn slurp_if_equals_char(&mut self) -> (res: bool)
        requires
            old(self).wf(),
            old(self).index == old(self).pos,
        ensures
            final(self).chars@ == old(self).chars@,
            final(self).pos_prior == old(self).pos_prior,
            final(self).line_num == old(self).line_num,
            final(self).last_newline_pos == old(self).last_newline_pos,
            res == (old(self).index < old(self).chars.len() && old(self).chars@[old(
                self,
            ).index as int] == '='),
            final(self).index == old(self).index + if res {
                1int
            } else {
                0int
            },
            final(self).pos == final(self).index,
    {
        if self.peek() == Some('=') {
            let _ = self.slurp_char_opt();
            true
        } else {
            false
        }
    }

    /// Reads one character, if there is one; the position moves on either way.
    fn slurp_char_opt(&mut self) -> (res: Option<char>)
        requires
            old(self).pos + 1 <= u32::MAX,
            old(self).index <= old(self).chars.len(),
        ensures
            final(self).chars@ == old(self).chars@,
            final(self).pos == old(self).pos + 1,
            final(self).pos_prior == old(self).pos_prior,
            final(self).line_num == old(self).line_num,
            final(self).last_newline_pos == old(self).last_newline_pos,
            res == (if old(self).index < old(self).chars.len() {
                Some(old(self).chars@[old(self).index as int])
            } else {
                None
            }),
            final(self).index == old(self).index + if res is Some {
                1int
            } else {
                0int
            },
    {
        self.pos = self.pos + 1;
        if self.index < self.chars.len() {
            let c = self.chars[self.index];
            self.index = self.index + 1;
            Some(c)
        } else {
            None
        }
    }

    /// Reads the rest of a name whose first character sits at `start`.
    fn make_namelike(&mut self, c: char, start: usize) -> (res: TokenType)
        requires
            old(self).index == start + 1,
            old(self).pos == old(self).index,
            old(self).index <= old(self).chars.len(),
            old(self).chars@[start as int] == c,
            old(self).chars.len() + 4 <= u32::MAX,
        ensures
            final(self).chars@ == old(self).chars@,
            final(self).index == alnum_end(old(self).chars@, start + 1),
            final(self).pos == final(self).index,
            final(self).pos_prior == old(self).pos_prior,
            final(self).line_num == old(self).line_num,
            final(self).last_newline_pos == old(self).last_newline_pos,
            res@ == keyword_or_identifier(
                old(self).chars@.subrange(start as int, final(self).index as int),
            ),
            forall|k: int|
                start < k < final(self).index ==> #[trigger] old(self).chars@[k] != '\n',
            final(self).index > start,
    {
        let ghost s = self.chars@;
        let mut namelike: Vec<char> = Vec::new();
        namelike.push(c);
        proof {
            lemma_alnum_end_bounds(s, start + 1);
        }
        loop
            invariant
                self.chars@ == s,
                start + 1 <= self.index <= alnum_end(s, start + 1),
                alnum_end(s, self.index as int) == alnum_end(s, start + 1),
                alnum_end(s, start + 1) <= s.len(),
                self.pos == self.index,
                s.len() + 4 <= u32::MAX,
                namelike@ == s.subrange(start as int, self.index as int),
                forall|k: int| start < k < self.index ==> #[trigger] s[k] != '\n',
                self.pos_prior == old(self).pos_prior,
                self.line_num == old(self).line_num,
                self.last_newline_pos == old(self).last_newline_pos,
            ensures
                self.chars@ == s,
                self.index == alnum_end(s, start + 1),
                self.pos == self.index,
                namelike@ == s.subrange(start as int, self.index as int),
                forall|k: int| start < k < self.index ==> #[trigger] s[k] != '\n',
                self.pos_prior == old(self).pos_prior,
                self.line_num == old(self).line_num,
                self.last_newline_pos == old(self).last_newline_pos,
            decreases s.len() - self.index,
        {
            match self.peek() {
                Some(c) => {
                    if is_digit(c) || is_alphabetical(c) {
                        proof {
                            lemma_alnum_end_bounds(s, self.index as int + 1);
                        }
                        let _ = self.slurp_char_opt();
                        namelike.push(c);
                        assert(namelike@ =~= s.subrange(start as int, self.index as int));
                    } else {
                        break ;
                    }
                },
                None => {
                    break ;
                },
            }
        }
        keyword_type(namelike)
    }

    /// Reads a run of digits.
    fn slurp_digits(&mut self, num_str: &mut Vec<char>, start: usize)
        requires
            old(self).index <= old(self).chars.len(),
            old(self).pos == old(self).index,
            old(self).chars.len() + 4 <= u32::MAX,
            start <= old(self).index,
            old(num_str)@ == old(self).chars@.subrange(start as int, old(self).index as int),
        ensures
            final(self).chars@ == old(self).chars@,
            final(self).index == digits_end(old(self).chars@, old(self).index as int),
            final(self).pos == final(self).index,
            final(self).pos_prior == old(self).pos_prior,
            final(self).line_num == old(self).line_num,
            final(self).last_newline_pos == old(self).last_newline_pos,
            final(num_str)@ == old(self).chars@.subrange(start as int, final(self).index as int),
            forall|k: int|
                old(self).index <= k < final(self).index ==> #[trigger] old(self).chars@[k]
                    != '\n',
            final(self).index >= old(self).index,
    {
        let ghost s = self.chars@;
        let ghost i0 = self.index as int;
        proof {
            lemma_digits_end_bounds(s, i0);
        }
        loop
            invariant
                self.chars@ == s,
                i0 <= self.index <= digits_end(s, i0),
                digits_end(s, self.index as int) == digits_end(s, i0),
                digits_end(s, i0) <= s.len(),
                self.pos == self.index,
                s.len() + 4 <= u32::MAX,
                start <= i0,
                num_str@ == s.subrange(start as int, self.index as int),
                forall|k: int| i0 <= k < self.index ==> #[trigger] s[k] != '\n',
                self.pos_prior == old(self).pos_prior,
                self.line_num == old(self).line_num,
                self.last_newline_pos == old(self).last_newline_pos,
            ensures
                self.chars@ == s,
                self.index == digits_end(s, i0),
                self.pos == self.index,
                num_str@ == s.subrange(start as int, self.index as int),
                forall|k: int| i0 <= k < self.index ==> #[trigger] s[k] != '\n',
                self.pos_prior == old(self).pos_prior,
                self.line_num == old(self).line_num,
                self.last_newline_pos == old(self).last_newline_pos,
            decreases s.len() - self.index,
        {
            match self.peek() {
                Some(c) => {
                    if is_digit(c) {
                        proof {
                            lemma_digits_end_bounds(s, self.index as int + 1);
                        }
                        let _ = self.slurp_char_opt();
                        num_str.push(c);
                        assert(num_str@ =~= s.subrange(start as int, self.index as int));
                    } else {
                        break ;
                    }
                },
                None => {
                    break ;
                },
            }
        }
    }

    /// Reads the rest of a number literal whose first digit sits at `start`.
    fn make_number(&mut self, start: usize) -> (res: TokenType)
        requires
            old(self).index == start + 1,
            old(self).pos == old(self).index,
            old(self).index <= old(self).chars.len(),
            spec_is_digit(old(self).chars@[start as int]),
            old(self).chars.len() + 4 <= u32::MAX,
        ensures
            final(self).chars@ == old(self).chars@,
            final(self).index == number_end(old(self).chars@, start as int),
            final(self).pos == final(self).index,
            final(self).pos_prior == old(self).pos_prior,
            final(self).line_num == old(self).line_num,
            final(self).last_newline_pos == old(self).last_newline_pos,
            res@ == TypeView::Number(
                old(self).chars@.subrange(start as int, final(self).index as int),
            ),
            forall|k: int|
                start < k < final(self).index ==> #[trigger] old(self).chars@[k] != '\n',
            final(self).index > start,
    {
        let ghost s = self.chars@;
        let mut num_str: Vec<char> = Vec::new();
        num_str.push(self.chars[start]);
        assert(num_str@ =~= s.subrange(start as int, start + 1));
        self.slurp_digits(&mut num_str, start);
        let ghost e0 = self.index as int;
        proof {
            lemma_digits_end_bounds(s, start + 1);
        }
        if self.peek() == Some('.') {
            match self.peek_next() {
                Some(c) => {
                    if is_digit(c) {
                        let _ = self.slurp_char_opt();
                        num_str.push('.');
                        assert(num_str@ =~= s.subrange(start as int, self.index as int));
                        self.slurp_digits(&mut num_str, start);
                    }
                },
                None => {},
            }
        }
        TokenType::Number(num_str)
    }

    /// Reads the rest of a string literal whose opening quote sits at `start`.
    fn make_string(&mut self, start: usize) -> (res: Result<TokenType, LexerError>)
        requires
            old(self).wf(),
            old(self).index == start + 1,
            old(self).pos == old(self).index,
            old(self).chars@[start as int] == '"',
        ensures
            final(self).chars@ == old(self).chars@,
            ({
                let s = old(self).chars@;
                let q = quote_end(s, start + 1);
                let e = if q >= s.len() {
                    s.len() as int
                } else {
                    q + 1
                };
                &&& final(self).index == e
                &&& final(self).pos == e
                &&& final(self).pos_prior == old(self).pos_prior
                &&& final(self).line_num == old(self).line_num + count_nl(
                    s,
                    start + 1,
                    final(self).index as int,
                )
                &&& final(self).last_newline_pos == last_nl(
                    s,
                    start + 1,
                    final(self).index as int,
                    old(self).last_newline_pos as int,
                )
                &&& if q >= s.len() {
                    res == Err::<TokenType, LexerError>(UnterminatedString)
                } else {
                    res is Ok && res->Ok_0@ == TypeView::LoxString(s.subrange(start + 1, q))
                }
            }),
    {
        let ghost s = self.chars@;
        let ghost line0 = self.line_num as int;
        let ghost lnp0 = self.last_newline_pos as int;
        let mut text: Vec<char> = Vec::new();
        proof {
            lemma_quote_end_bounds(s, start + 1);
            lemma_count_nl_bound(s, 0, start + 1);
        }
        loop
            invariant
                self.chars@ == s,
                start + 1 <= self.index <= quote_end(s, start + 1),
                quote_end(s, self.index as int) == quote_end(s, start + 1),
                quote_end(s, start + 1) <= s.len(),
                self.pos == self.index,
                s.len() + 4 <= u32::MAX,
                text@ == s.subrange(start + 1, self.index as int),
                self.pos_prior == old(self).pos_prior,
                self.line_num == line0 + count_nl(s, start + 1, self.index as int),
                line0 == 1 + count_nl(s, 0, start + 1),
                self.last_newline_pos == last_nl(s, start + 1, self.index as int, lnp0),
            ensures
                self.chars@ == s,
                self.index == quote_end(s, start + 1),
                self.index < s.len() ==> s[self.index as int] == '"',
                self.pos == self.index,
                text@ == s.subrange(start + 1, self.index as int),
                self.pos_prior == old(self).pos_prior,
                self.line_num == line0 + count_nl(s, start + 1, self.index as int),
                self.last_newline_pos == last_nl(s, start + 1, self.index as int, lnp0),
            decreases s.len() - self.index,
        {
            match self.peek() {
                None => {
                    break ;
                },
                Some(c) => {
                    if c == '"' {
                        break ;
                    }
                    proof {
                        lemma_quote_end_bounds(s, self.index as int + 1);
                    }
                    if c == '\n' {
                        proof {
                            lemma_count_nl_split(s, 0, start + 1, self.index as int);
                            lemma_count_nl_bound(s, 0, self.index as int);
                        }
                        self.last_newline_pos = self.pos;
                        self.line_num = self.line_num + 1;
                    }
                    let _ = self.slurp_char_opt();
                    text.push(c);
                    assert(text@ =~= s.subrange(start + 1, self.index as int));
                },
            }
        }
        if self.index >= self.chars.len() {
            return Err(UnterminatedString);
        }
        let _ = self.slurp_char_opt();
        Ok(TokenType::LoxString(text))
    }
}

} // verus!

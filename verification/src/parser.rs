use vstd::prelude::*;

use crate::lexer::{lemma_lex_step_progress, lex_step, LexState, Lexer};
use crate::output::{concat_chars, decimal_chars, outputs_view, spec_decimal, Output, OutputView};
use crate::source_loc::spec_extract;
use crate::text::str_to_chars;
use crate::token::{LexerError, Token, TokenType, TokenView, TypeView};

verus! {

/// The next token that the lexer gives from state `st`, passing over the
/// characters that it cannot read, and its state after that token.
pub open spec fn next_good(s: Seq<char>, st: LexState) -> (TokenView, LexState)
    decreases s.len() - st.0,
{
    let (r, st2) = lex_step(s, st);
    match r {
        Ok(t) => (t, st2),
        Err(_) => if st.0 < st2.0 <= s.len() {
            next_good(s, st2)
        } else {
            (vstd::pervasive::arbitrary(), st2)
        },
    }
}

/// The next good token comes after the current place; only the end of
/// input leaves the lexer where it is.
pub proof fn lemma_next_good(s: Seq<char>, st: LexState)
    requires
        0 <= st.0 <= s.len(),
        st.1 == st.0,
    ensures
        ({
            let (t, st2) = next_good(s, st);
            &&& st.0 <= st2.0 <= s.len()
            &&& is_eof(t) ==> st2.0 == s.len() && st2.1 == s.len() + 1
            &&& !is_eof(t) ==> st2.0 > st.0 && st2.1 == st2.0
        }),
    decreases s.len() - st.0,
{
    lemma_lex_step_progress(s, st);
    let (r, st2) = lex_step(s, st);
    if r is Err {
        lemma_next_good(s, st2);
    }
}

/// A place in the token stream: the current token, and the lexer's state
/// after it.
pub type Place = (TokenView, LexState);

/// The place one token further on; the end of input stays where it is.
pub open spec fn adv(s: Seq<char>, at: Place) -> Place {
    if is_eof(at.0) {
        at
    } else {
        next_good(s, at.1)
    }
}

/// How much input is left from a place: the characters not yet read, and
/// one more while the current token is not the end.
pub open spec fn place_measure(s: Seq<char>, at: Place) -> int {
    (s.len() - at.1.0) + if is_eof(at.0) {
        0int
    } else {
        1int
    }
}

/// A place that a parser can stand at: the lexer's state lies in the
/// input; after the end the whole input is read, after any other token
/// the lexer stands where that token ends.
pub open spec fn place_ok(s: Seq<char>, at: Place) -> bool {
    &&& 0 <= at.1.0 <= s.len()
    &&& is_eof(at.0) ==> at.1.0 == s.len()
    &&& !is_eof(at.0) ==> at.1.1 == at.1.0
}

/// Moving on from a place reaches a place, with less input left unless the
/// current token is the end.
pub proof fn lemma_adv(s: Seq<char>, at: Place)
    requires
        place_ok(s, at),
    ensures
        place_ok(s, adv(s, at)),
        0 <= place_measure(s, adv(s, at)) <= place_measure(s, at),
        !is_eof(at.0) ==> place_measure(s, adv(s, at)) < place_measure(s, at),
{
    if !is_eof(at.0) {
        lemma_next_good(s, at.1);
    }
}

/// Whether a token begins a statement: `class`, `fun`, `var`, `for`, `if`,
/// `while`, `print` or `return`.
pub open spec fn starts_statement(t: TypeView) -> bool {
    ||| t == TokenType::Class@
    ||| t == TokenType::Fun@
    ||| t == TokenType::Var@
    ||| t == TokenType::For@
    ||| t == TokenType::If@
    ||| t == TokenType::While@
    ||| t == TokenType::Print@
    ||| t == TokenType::Return@
}

/// Whether recovery from an error stops between `prev` and `cur`: at the
/// end of input, after a semicolon, or before a statement.
pub open spec fn sync_stops(prev: TokenView, cur: TokenView) -> bool {
    ||| is_eof(cur)
    ||| prev.typ == TokenType::Semicolon@
    ||| starts_statement(cur.typ)
}

/// Recovery from an error never skips a keyword that begins a statement:
/// where the current token is `class`, `fun`, `var`, `for`, `if`,
/// `while`, `print` or `return`, it stops at once and the parser stays
/// where it is. Nor does it skip past the end of input or past a `;`.
pub proof fn law_recovery_stops(s: Seq<char>, st: LexState, prev: TokenView, cur: TokenView)
    ensures
        ({
            let t = cur.typ;
            t == TokenType::Class@ || t == TokenType::Fun@ || t == TokenType::Var@ || t == TokenType::For@
                || t == TokenType::If@ || t == TokenType::While@ || t == TokenType::Print@ || t
                == TokenType::Return@
        }) ==> sync_end(s, st, prev, cur) == (prev, cur, st),
        is_eof(cur) ==> sync_end(s, st, prev, cur) == (prev, cur, st),
        prev.typ == TokenType::Semicolon@ ==> sync_end(s, st, prev, cur) == (prev, cur, st),
{
}

/// Where recovery from an error stops, starting from the tokens `prev` and
/// `cur` with the lexer in state `st`: the previous token, the current
/// token and the lexer's state at the first place where it stops.
pub open spec fn sync_end(s: Seq<char>, st: LexState, prev: TokenView, cur: TokenView) -> (
    TokenView,
    TokenView,
    LexState,
)
    decreases s.len() - st.0,
{
    if sync_stops(prev, cur) {
        (prev, cur, st)
    } else {
        let (t, st2) = next_good(s, st);
        if st.0 < st2.0 <= s.len() {
            sync_end(s, st2, cur, t)
        } else {
            (cur, t, st2)
        }
    }
}

/// Whether a token view is the end of the input.
pub open spec fn is_eof(t: TokenView) -> bool {
    t.typ == TokenType::Eof@
}

/// The first line of an error report: `[line N] Error`.
pub open spec fn report_head(line: u32) -> Seq<char> {
    seq!['[', 'l', 'i', 'n', 'e', ' '] + spec_decimal(line as nat) + seq![
        ']',
        ' ',
        'E',
        'r',
        'r',
        'o',
        'r',
    ]
}

/// The outputs of one error report: where it happened, the offending token
/// (the end of input is named as such), and the message.
pub open spec fn error_report(
    line: u32,
    at: Option<TokenView>,
    source: Seq<char>,
    message: Seq<char>,
) -> Seq<OutputView> {
    let mid: Seq<OutputView> = match at {
        None => Seq::empty(),
        Some(t) => if is_eof(t) {
            seq![OutputView::StdErr(seq![' ', 'a', 't', ' ', 'e', 'n', 'd'])]
        } else {
            seq![
                OutputView::StdErr(
                    seq![' ', 'a', 't', ' ', '\''] + spec_extract(t.loc, source) + seq!['\''],
                ),
            ]
        },
    };
    seq![OutputView::StdErr(report_head(line))] + mid + seq![
        OutputView::StdErrLn(seq![':', ' '] + message),
    ]
}

/// The message for a lexer error.
pub open spec fn lexer_message(e: LexerError) -> Seq<char> {
    match e {
        LexerError::UnexpectedToken => "Unexpected character."@,
        LexerError::UnterminatedString => "Unterminated string."@,
    }
}

/// Reads tokens from the lexer one at a time, keeps the current and the
/// previous one, and collects the error reports.
pub struct Parser {
    pub lexer: Lexer,
    pub current_token_opt: Option<Token>,
    pub previous_token_opt: Option<Token>,
    pub had_error: bool,
    pub is_panicking: bool,
    pub source: Vec<char>,
    pub wasm_output: Vec<Output>,
}

impl Parser {
    /// The parser's invariant: the lexer reads the source, it has read past
    /// the end exactly when the current token is the end of input, and a
    /// parser in panic mode has reported an error.
    pub closed spec fn wf(&self) -> bool {
        let st = self.lexer.state();
        &&& self.lexer.wf()
        &&& self.lexer.source() == self.source@
        &&& self.source.len() + 4 <= u32::MAX
        &&& (self.is_panicking ==> self.had_error)
        &&& (self.had_error ==> self.out().len() > 0)
        &&& match self.current_token_opt {
            Some(t) => if is_eof(t@) {
                st.0 == self.source.len() && st.1 == self.source.len() + 1
            } else {
                st.1 == st.0
            },
            None => st.1 == st.0,
        }
    }

    /// How much input is left: the characters not yet read, and one more
    /// while the current token is not the end.
    pub open spec fn remaining(&self) -> nat {
        (self.source.len() - self.lexer.state().0) as nat + match self.current_token_opt {
            Some(t) => if is_eof(t@) {
                0nat
            } else {
                1nat
            },
            None => 0nat,
        }
    }

    /// Two parsers stand at the same place in the same source.
    pub open spec fn same_place(&self, other: &Parser) -> bool {
        &&& self.lexer == other.lexer
        &&& self.current_token_opt == other.current_token_opt
        &&& self.previous_token_opt == other.previous_token_opt
        &&& self.source == other.source
    }

    /// The reports collected so far.
    pub closed spec fn out(&self) -> Seq<OutputView> {
        outputs_view(self.wasm_output@)
    }

    /// Once an error is reported, the reports are not empty.
    pub proof fn lemma_error_reported(&self)
        requires
            self.wf(),
        ensures
            self.had_error ==> self.out().len() > 0,
    {
    }

    /// The line that the lexer has reached.
    pub closed spec fn lexer_line(&self) -> u32 {
        self.lexer.state().4 as u32
    }

    /// The current token is there and is the end of input.
    pub open spec fn at_eof(&self) -> bool {
        self.current_token_opt matches Some(t) && is_eof(t@)
    }

    /// Where the parser stands: its current token and the lexer's state.
    pub open spec fn place(&self) -> Place {
        (self.current_token_opt->0@, self.lexer.state())
    }

    /// A well-formed parser with a current token stands at a place, and the
    /// input it has left is what is left from that place.
    pub proof fn lemma_place_ok(&self)
        requires
            self.wf(),
            self.current_token_opt is Some,
        ensures
            place_ok(self.source@, self.place()),
            self.remaining() == place_measure(self.source@, self.place()),
    {
        self.lexer.lemma_state_bounds();
    }

    /// From `self` to `next` the parser moved one token on: the current
    /// token became the previous one, and the next good token of the lexer
    /// became current; at the end of input the end stays current.
    pub open spec fn moved_on(&self, next: &Parser) -> bool {
        &&& next.previous_token_opt == self.current_token_opt
        &&& next.current_token_opt is Some
        &&& if self.at_eof() {
            next.current_token_opt == self.current_token_opt && next.lexer.state() == self.lexer.state()
        } else {
            &&& next.current_token_opt->0@ == next_good(self.source@, self.lexer.state()).0
            &&& next.lexer.state() == next_good(self.source@, self.lexer.state()).1
        }
    }

    /// A parser at the start of `source`, before its first token.
    pub fn new(source: Vec<char>) -> (res: Parser)
        requires
            source.len() + 4 <= u32::MAX,
        ensures
            res.wf(),
            res.source@ == source@,
            res.current_token_opt is None,
            res.previous_token_opt is None,
            !res.had_error,
            !res.is_panicking,
            res.out() == Seq::<OutputView>::empty(),
            res.remaining() == source@.len(),
            res.lexer.state() == (0int, 0int, 0int, 0int, 1int),
    {
        let chars = crate::text::copy_chars(&source);
        let res = Parser {
            lexer: Lexer::new(chars),
            current_token_opt: None,
            previous_token_opt: None,
            had_error: false,
            is_panicking: false,
            source,
            wasm_output: Vec::new(),
        };
        assert(res.out() =~= Seq::<OutputView>::empty());
        res
    }

    /// Moves to the next token; lexer errors on the way are reported. Once
    /// the end of input is reached, the parser stays there.
    pub fn advance(&mut self)
        requires
            old(self).wf(),
        ensures
            final(self).wf(),
            final(self).source == old(self).source,
            final(self).previous_token_opt == old(self).current_token_opt,
            final(self).current_token_opt is Some,
            final(self).remaining() <= old(self).remaining(),
            (old(self).current_token_opt matches Some(t) && !is_eof(t@)) ==> final(self).remaining()
                < old(self).remaining(),
            old(self).at_eof() ==> final(self).current_token_opt == old(self).current_token_opt
                && final(self).out() == old(self).out() && final(self).had_error
                == old(self).had_error && final(self).is_panicking == old(self).is_panicking,
            old(self).out().is_prefix_of(final(self).out()),
            old(self).had_error ==> final(self).had_error,
            old(self).is_panicking ==> final(self).is_panicking,
            old(self).moved_on(&*final(self)),
            old(self).at_eof() || (lex_step(old(self).source@, old(self).lexer.state()).0 is Ok)
                ==> final(self).had_error == old(self).had_error && final(self).is_panicking
                == old(self).is_panicking,
    {
        let ghost old_out = self.out();
        self.previous_token_opt = self.current_token_opt.take();
        let at_end = match &self.previous_token_opt {
            Some(t) => match t.typ {
                TokenType::Eof => true,
                _ => false,
            },
            None => false,
        };
        if at_end {
            let dup = match &self.previous_token_opt {
                Some(t) => Some(t.duplicate()),
                None => None,
            };
            self.current_token_opt = dup;
            proof {
                assert(self.out() =~= old_out);
            }
            return;
        }
        proof {
            self.lexer.lemma_state_bounds();
        }
        let ghost st_start = self.lexer.state();
        loop
            invariant_except_break
                self.lexer.state().1 == self.lexer.state().0,
                self.current_token_opt is None,
                next_good(self.source@, self.lexer.state()) == next_good(self.source@, st_start),
                (lex_step(self.source@, st_start).0 is Ok) ==> self.lexer.state() == st_start && self.had_error
                    == old(self).had_error && self.is_panicking == old(self).is_panicking,
            invariant
                st_start == old(self).lexer.state(),
                self.lexer.wf(),
                self.lexer.source() == self.source@,
                self.source == old(self).source,
                self.source.len() + 4 <= u32::MAX,
                0 <= self.lexer.state().0 <= self.source.len(),
                self.previous_token_opt == old(self).current_token_opt,
                old(self).current_token_opt matches Some(t) ==> !is_eof(t@)
                    && self.lexer.state().0 >= old(self).lexer.state().0,
                self.lexer.state().0 >= old(self).lexer.state().0,
                old_out == old(self).out(),
                old_out.is_prefix_of(self.out()),
                old(self).had_error ==> self.had_error,
                old(self).is_panicking ==> self.is_panicking,
                self.is_panicking ==> self.had_error,
                self.had_error ==> self.out().len() > 0,
            ensures
                self.wf(),
                self.current_token_opt is Some,
                old(self).current_token_opt matches Some(t) ==> self.remaining() < old(self).remaining(),
                self.remaining() <= old(self).remaining(),
                self.current_token_opt->0@ == next_good(self.source@, st_start).0,
                self.lexer.state() == next_good(self.source@, st_start).1,
                (lex_step(self.source@, st_start).0 is Ok) ==> self.had_error == old(self).had_error
                    && self.is_panicking == old(self).is_panicking,
            decreases self.source.len() - self.lexer.state().0,
        {
            proof {
                lemma_lex_step_progress(self.source@, self.lexer.state());
            }
            let ghost st0 = self.lexer.state();
            match self.lexer.next_token() {
                Ok(token) => {
                    self.current_token_opt = Some(token);
                    proof {
                        let st = self.lexer.state();
                        self.lexer.lemma_state_bounds();
                        if is_eof(token@) {
                            assert(st.0 == self.source.len());
                        } else {
                            assert(st.0 > st0.0);
                        }
                    }
                    break ;
                },
                Err(error) => {
                    proof {
                        self.lexer.lemma_state_bounds();
                    }
                    let message = match error {
                        LexerError::UnexpectedToken => "Unexpected character.",
                        LexerError::UnterminatedString => "Unterminated string.",
                    };
                    self.error_at(None, message);
                },
            }
        }
    }

    /// Whether the current token is of the kind `typ`.
    pub fn check(&self, typ: &TokenType) -> (res: bool)
        requires
            self.current_token_opt is Some,
        ensures
            res == (self.current_token_opt->0.typ@ == typ@),
    {
        match &self.current_token_opt {
            Some(t) => t.typ.same_as(typ),
            None => false,
        }
    }

    /// Whether the current token is the end of input.
    pub fn check_eof(&self) -> (res: bool)
        requires
            self.current_token_opt is Some,
        ensures
            res == self.at_eof(),
    {
        match &self.current_token_opt {
            Some(t) => match t.typ {
                TokenType::Eof => true,
                _ => false,
            },
            None => false,
        }
    }

    /// Moves past the current token when it is of the kind `typ`; reports
    /// `message` at it otherwise.
    pub fn consume(&mut self, typ: &TokenType, message: &str)
        requires
            old(self).wf(),
            old(self).current_token_opt is Some,
        ensures
            final(self).wf(),
            final(self).source == old(self).source,
            final(self).current_token_opt is Some,
            final(self).remaining() <= old(self).remaining(),
            old(self).out().is_prefix_of(final(self).out()),
            old(self).had_error ==> final(self).had_error,
            if old(self).current_token_opt->0.typ@ == typ@ {
                final(self).previous_token_opt == old(self).current_token_opt
                    && (!old(self).at_eof() ==> final(self).remaining() < old(self).remaining())
                    && old(self).moved_on(&*final(self)) && (old(self).at_eof() || (lex_step(
                    old(self).source@,
                    old(self).lexer.state(),
                ).0 is Ok) ==> final(self).had_error == old(self).had_error && final(self).is_panicking
                    == old(self).is_panicking)
            } else {
                final(self).current_token_opt == old(self).current_token_opt
                    && final(self).previous_token_opt == old(self).previous_token_opt
                    && final(self).remaining() == old(self).remaining()
                    && final(self).out() == old(self).out() + (if old(self).is_panicking {
                    Seq::empty()
                } else {
                    error_report(
                        old(self).current_token_opt->0.loc.line_num,
                        Some(old(self).current_token_opt->0@),
                        old(self).source@,
                        message@,
                    )
                }) && final(self).is_panicking && final(self).had_error
            },
    {
        if self.check(typ) {
            self.advance();
        } else {
            self.error_at_current(message);
        }
    }

    /// The name in the current token when it is an identifier, moving past
    /// it; otherwise reports `message` at it and gives nothing.
    pub fn consume_ident(&mut self, message: &str) -> (res: Option<Vec<char>>)
        requires
            old(self).wf(),
            old(self).current_token_opt is Some,
        ensures
            final(self).wf(),
            final(self).source == old(self).source,
            final(self).current_token_opt is Some,
            final(self).remaining() <= old(self).remaining(),
            old(self).out().is_prefix_of(final(self).out()),
            old(self).had_error ==> final(self).had_error,
            match res {
                Some(name) => old(self).current_token_opt->0.typ@ == TypeView::Identifier(name@)
                    && final(self).previous_token_opt == old(self).current_token_opt
                    && final(self).remaining() < old(self).remaining()
                    && old(self).moved_on(&*final(self)),
                None => !(old(self).current_token_opt->0.typ is Identifier)
                    && final(self).current_token_opt == old(self).current_token_opt
                    && final(self).previous_token_opt == old(self).previous_token_opt
                    && final(self).remaining() == old(self).remaining()
                    && final(self).out() == old(self).out() + (if old(self).is_panicking {
                    Seq::empty()
                } else {
                    error_report(
                        old(self).current_token_opt->0.loc.line_num,
                        Some(old(self).current_token_opt->0@),
                        old(self).source@,
                        message@,
                    )
                }) && final(self).is_panicking && final(self).had_error,
            },
    {
        let out_opt = match &self.current_token_opt {
            Some(t) => match &t.typ {
                TokenType::Identifier(y) => Some(crate::text::copy_chars(y)),
                _ => None,
            },
            None => None,
        };
        match out_opt {
            Some(name) => {
                self.advance();
                Some(name)
            },
            None => {
                self.error_at_current(message);
                None
            },
        }
    }

    /// Leaves panic mode and skips tokens up to a likely statement
    /// boundary: the end of input, just after a `;`, or before a keyword
    /// that starts a statement.
    pub fn synchronize(&mut self)
        requires
            old(self).wf(),
            old(self).current_token_opt is Some,
            old(self).previous_token_opt is Some,
        ensures
            final(self).wf(),
            final(self).source == old(self).source,
            final(self).current_token_opt is Some,
            final(self).previous_token_opt is Some,
            !final(self).is_panicking,
            final(self).remaining() <= old(self).remaining(),
            old(self).out().is_prefix_of(final(self).out()),
            old(self).had_error ==> final(self).had_error,
            ({
                let r = sync_end(
                    old(self).source@,
                    old(self).lexer.state(),
                    old(self).previous_token_opt->0@,
                    old(self).current_token_opt->0@,
                );
                &&& final(self).previous_token_opt->0@ == r.0
                &&& final(self).current_token_opt->0@ == r.1
                &&& final(self).lexer.state() == r.2
            }),
    {
        let ghost target = sync_end(
            self.source@,
            self.lexer.state(),
            self.previous_token_opt->0@,
            self.current_token_opt->0@,
        );
        self.is_panicking = false;
        loop
            invariant
                target == sync_end(
                    self.source@,
                    self.lexer.state(),
                    self.previous_token_opt->0@,
                    self.current_token_opt->0@,
                ),
                self.wf(),
                self.source == old(self).source,
                self.current_token_opt is Some,
                self.previous_token_opt is Some,
                !self.is_panicking,
                self.remaining() <= old(self).remaining(),
                old(self).out().is_prefix_of(self.out()),
                old(self).had_error ==> self.had_error,
            ensures
                sync_stops(self.previous_token_opt->0@, self.current_token_opt->0@),
            decreases self.remaining(),
        {
            let stop = match (&self.current_token_opt, &self.previous_token_opt) {
                (Some(cur), Some(prev)) => {
                    let cur_stops = match cur.typ {
                        TokenType::Eof | TokenType::Class | TokenType::For | TokenType::Fun
                        | TokenType::If | TokenType::Print | TokenType::Return | TokenType::Var
                        | TokenType::While => true,
                        _ => false,
                    };
                    let prev_stops = match prev.typ {
                        TokenType::Semicolon => true,
                        _ => false,
                    };
                    cur_stops || prev_stops
                },
                _ => true,
            };
            proof {
                assert(stop == sync_stops(self.previous_token_opt->0@, self.current_token_opt->0@));
            }
            if stop {
                break ;
            }
            proof {
                self.lexer.lemma_state_bounds();
                lemma_next_good(self.source@, self.lexer.state());
            }
            self.advance();
            self.is_panicking = false;
        }
    }

    /// Records an output.
    pub fn push_output(&mut self, output: Output)
        ensures
            final(self).out() == old(self).out().push(output@),
            final(self).source == old(self).source,
            final(self).lexer == old(self).lexer,
            final(self).current_token_opt == old(self).current_token_opt,
            final(self).previous_token_opt == old(self).previous_token_opt,
            final(self).had_error == old(self).had_error,
            final(self).is_panicking == old(self).is_panicking,
    {
        self.wasm_output.push(output);
        proof {
            assert(self.out() =~= old(self).out().push(output@));
        }
    }

    /// Hands out the outputs collected so far; none are left.
    pub fn take_wasm_output(&mut self) -> (res: Vec<Output>)
        ensures
            outputs_view(res@) == old(self).out(),
            final(self).out() == Seq::<OutputView>::empty(),
            final(self).source == old(self).source,
            final(self).lexer == old(self).lexer,
            final(self).current_token_opt == old(self).current_token_opt,
            final(self).previous_token_opt == old(self).previous_token_opt,
            final(self).had_error == old(self).had_error,
            final(self).is_panicking == old(self).is_panicking,
    {
        let mut taken: Vec<Output> = Vec::new();
        std::mem::swap(&mut taken, &mut self.wasm_output);
        proof {
            assert(self.out() =~= Seq::<OutputView>::empty());
        }
        taken
    }

    /// Reports `message` at the current token.
    pub fn error_at_current(&mut self, message: &str)
        requires
            old(self).wf(),
            old(self).current_token_opt is Some,
        ensures
            final(self).wf(),
            final(self).out() == old(self).out() + (if old(self).is_panicking {
                Seq::empty()
            } else {
                error_report(
                    old(self).current_token_opt->0.loc.line_num,
                    Some(old(self).current_token_opt->0@),
                    old(self).source@,
                    message@,
                )
            }),
            final(self).had_error == (old(self).had_error || !old(self).is_panicking),
            final(self).had_error,
            final(self).is_panicking,
            final(self).source == old(self).source,
            final(self).lexer == old(self).lexer,
            final(self).current_token_opt == old(self).current_token_opt,
            final(self).previous_token_opt == old(self).previous_token_opt,
            final(self).remaining() == old(self).remaining(),
    {
        let tok = match &self.current_token_opt {
            Some(t) => Some(t.duplicate()),
            None => None,
        };
        self.error_at(tok, message);
    }

    /// Reports `message` at the previous token.
    pub fn error(&mut self, message: &str)
        requires
            old(self).wf(),
        ensures
            final(self).wf(),
            final(self).out() == old(self).out() + (if old(self).is_panicking {
                Seq::empty()
            } else {
                error_report(
                    match old(self).previous_token_opt {
                        Some(t) => t.loc.line_num,
                        None => old(self).lexer_line(),
                    },
                    match old(self).previous_token_opt {
                        Some(t) => Some(t@),
                        None => None,
                    },
                    old(self).source@,
                    message@,
                )
            }),
            final(self).had_error == (old(self).had_error || !old(self).is_panicking),
            final(self).had_error,
            final(self).is_panicking,
            final(self).source == old(self).source,
            final(self).lexer == old(self).lexer,
            final(self).current_token_opt == old(self).current_token_opt,
            final(self).previous_token_opt == old(self).previous_token_opt,
            final(self).remaining() == old(self).remaining(),
    {
        let tok = match &self.previous_token_opt {
            Some(t) => Some(t.duplicate()),
            None => None,
        };
        self.error_at(tok, message);
    }

    /// Reports `message` at `token_opt` (or at the lexer's line when there
    /// is no token), unless a report is already under way.
    fn error_at(&mut self, token_opt: Option<Token>, message: &str)
        ensures
            final(self).out() == old(self).out() + (if old(self).is_panicking {
                Seq::empty()
            } else {
                error_report(
                    match token_opt {
                        Some(t) => t.loc.line_num,
                        None => match old(self).previous_token_opt {
                            Some(t) => t.loc.line_num,
                            None => old(self).lexer_line(),
                        },
                    },
                    match token_opt {
                        Some(t) => Some(t@),
                        None => None,
                    },
                    old(self).source@,
                    message@,
                )
            }),
            final(self).had_error == (old(self).had_error || !old(self).is_panicking),
            final(self).is_panicking,
            final(self).source == old(self).source,
            final(self).lexer == old(self).lexer,
            final(self).current_token_opt == old(self).current_token_opt,
            final(self).previous_token_opt == old(self).previous_token_opt,
    {
        let ghost at: Option<TokenView> = match &token_opt {
            Some(t) => Some(t@),
            None => None,
        };
        if self.is_panicking {
            proof {
                assert(self.out() =~= old(self).out() + Seq::<OutputView>::empty());
            }
            return;
        }
        self.is_panicking = true;
        let line_num: u32 = match &token_opt {
            Some(t) => t.loc.line_num,
            None => match &self.previous_token_opt {
                Some(t) => t.loc.line_num,
                None => self.lexer.get_line_num(),
            },
        };
        let head = concat_chars(
            &concat_chars(&vec!['[', 'l', 'i', 'n', 'e', ' '], &decimal_chars(line_num as u64)),
            &vec![']', ' ', 'E', 'r', 'r', 'o', 'r'],
        );
        proof {
            assert(head@ =~= report_head(line_num));
        }
        self.push_output(Output::StdErr(head));
        let ghost after_head = self.out();
        match &token_opt {
            Some(t) => match t.typ {
                TokenType::Eof => {
                    let text = vec![' ', 'a', 't', ' ', 'e', 'n', 'd'];
                    proof {
                        assert(text@ =~= seq![' ', 'a', 't', ' ', 'e', 'n', 'd']);
                        assert(is_eof(t@));
                    }
                    self.push_output(Output::StdErr(text));
                    proof {
                        assert(self.out() =~= after_head.push(OutputView::StdErr(seq![' ', 'a', 't', ' ', 'e', 'n', 'd'])));
                    }
                },
                _ => {
                    let text = concat_chars(
                        &concat_chars(&vec![' ', 'a', 't', ' ', '\''], &t.loc.extract(&self.source)),
                        &vec!['\''],
                    );
                    proof {
                        assert(!is_eof(t@));
                        assert(text@ =~= seq![' ', 'a', 't', ' ', '\''] + spec_extract(t.loc, old(self).source@) + seq!['\'']);
                    }
                    self.push_output(Output::StdErr(text));
                },
            },
            None => {},
        }
        let ghost after_mid = self.out();
        let tail = concat_chars(&vec![':', ' '], &str_to_chars(message));
        proof {
            assert(tail@ =~= seq![':', ' '] + message@);
        }
        self.push_output(Output::StdErrLn(tail));
        self.had_error = true;
        proof {
            let expected = error_report(line_num, at, old(self).source@, message@);
            let mid: Seq<OutputView> = match at {
                None => Seq::empty(),
                Some(t) => if is_eof(t) {
                    seq![OutputView::StdErr(seq![' ', 'a', 't', ' ', 'e', 'n', 'd'])]
                } else {
                    seq![
                        OutputView::StdErr(
                            seq![' ', 'a', 't', ' ', '\''] + spec_extract(t.loc, old(self).source@) + seq!['\''],
                        ),
                    ]
                },
            };
            assert(after_mid =~= after_head + mid);
            assert(expected =~= seq![OutputView::StdErr(report_head(line_num))] + mid + seq![
                OutputView::StdErrLn(seq![':', ' '] + message@),
            ]);
            assert(self.out() =~= old(self).out() + expected);
        }
    }
}

} // verus!

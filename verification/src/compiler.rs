use vstd::prelude::*;

use crate::heap::{
    all_live, children, lemma_all_live_grow, lemma_seq_refs_push, live, obj, seq_refs, text_at,
    value_refs, Heap,
};
use crate::chunk::Chunk;
use crate::heap_object::{FunctionObj, HeapObject};
use crate::opcode::{spec_byte_value, Byte, OpCode};
use crate::parser::{adv, is_eof, lemma_adv, next_good, place_measure, place_ok, Parser, Place};
use crate::syntax::{
    args_end, arg_list_end, cond_clause_end, expr_end, expr_stmt_end, for_cond_start, for_has_condition, for_has_increment, infix_end, infix_rank, nearer,
    routine_end, semi_end, var_decl_end, var_end, after_number_print, number_print_at, number_print_text, number_prints,
    number_prints_code, number_prints_consts, number_prints_count, number_program, reads_cleanly, start_place,
};
use crate::lexer::lex_step;
use crate::precedence::{
    lemma_rule_not_primary, prec_rank, rule_for, spec_rule_for, ParseFn, Precedence,
};
use crate::program::{
    is_deeper, latest_initialized, locals_view, spec_depth, FunctionKind, LocalVar, LocalView, Program, Upvalue,
};
use crate::text::chars_eq;
use crate::source_loc::{spec_extract, SourceLoc};
use crate::token::{Token, TokenType, TypeView};
use crate::value::{GcPtr, Value, ValueView};

verus! {

/// What the compiler knows of the class whose body it is in.
#[derive(Clone, Copy, Debug, PartialEq, Eq, Structural)]
pub struct ClassContext {
    pub has_superclass: bool,
}

/// A single-pass compiler from Lox source to bytecode: the parser, the
/// functions being compiled (innermost last), the classes being compiled,
/// and the heap that holds strings and finished functions.
pub struct Compiler {
    pub class_contexts: Vec<ClassContext>,
    pub parser: Parser,
    pub programs: Vec<Program>,
    pub heap: Heap,
}

/// Every object that a function points to is live.
pub open spec fn fn_refs_live(objs: Seq<Option<crate::heap_object::GcObject>>, f: FunctionObj) -> bool {
    all_live(objs, children(HeapObject::HeapFunction(f)))
}

/// `b` is `a` with only the bytecode of the function being compiled changed
/// (its code, lines and constants).
pub open spec fn only_top_chunk(a: Compiler, b: Compiler) -> bool {
    &&& b.parser == a.parser
    &&& b.heap == a.heap
    &&& b.class_contexts == a.class_contexts
    &&& b.programs@.len() == a.programs@.len()
    &&& forall|i: int| 0 <= i < a.programs@.len() - 1 ==> b.programs@[i] == a.programs@[i]
    &&& b.top().function_kind == a.top().function_kind
    &&& b.top().ident_byte_cache == a.top().ident_byte_cache
    &&& b.top().local_vars == a.top().local_vars
    &&& b.top().scope_depth == a.top().scope_depth
    &&& b.top().upvalues == a.top().upvalues
    &&& b.top().function.spec_arity() == a.top().function.spec_arity()
    &&& b.top().function.spec_upvalue_count() == a.top().function.spec_upvalue_count()
    &&& b.top().function.spec_name() == a.top().function.spec_name()
}

/// From `a` to `b` only the function being compiled changed, not its kind
/// or scope depth, and the parser only reported errors.
pub open spec fn keeps_outer(a: Compiler, b: Compiler) -> bool {
    &&& b.programs@.len() == a.programs@.len()
    &&& forall|i: int| 0 <= i < a.programs@.len() - 1 ==> b.programs@[i] == a.programs@[i]
    &&& b.class_contexts == a.class_contexts
    &&& b.parser.same_place(&a.parser)
    &&& (a.parser.had_error ==> b.parser.had_error)
    &&& b.top().scope_depth == a.top().scope_depth
    &&& b.top().function_kind == a.top().function_kind
}

/// The operand bytes of a 16-bit jump distance, high byte first.
pub open spec fn hi_byte(n: int) -> u8 {
    ((n / 256) % 256) as u8
}

pub open spec fn lo_byte(n: int) -> u8 {
    (n % 256) as u8
}


/// A jump's distance read back from its operand, high byte first.
pub open spec fn operand_at(code: Seq<Byte>, at: int) -> int {
    match (code[at + 1], code[at + 2]) {
        (Byte::Raw(h), Byte::Raw(l)) => h as int * 256 + l as int,
        _ => -1,
    }
}

/// The operand of a jump, read high byte first, is its distance: forward
/// from the end of the operand to the target, or for a backward jump from
/// the end of its operand back to its target, when that fits in 16 bits.
pub proof fn law_jump_operands(code: Seq<Byte>, at: int, op: OpCode, target: int)
    ensures
        jump_at(code, at, op, target) && target - at - 3 <= 0xffff ==> operand_at(code, at) == target - at - 3,
        loop_at(code, at, target) && at + 3 - target <= 0xffff ==> operand_at(code, at) == at + 3 - target,
{
    if jump_at(code, at, op, target) && target - at - 3 <= 0xffff {
        lemma_bytes_of(target - at - 3);
    }
    if loop_at(code, at, target) && at + 3 - target <= 0xffff {
        lemma_bytes_of(at + 3 - target);
    }
}

/// A 16-bit number is its high byte times 256 plus its low byte.
proof fn lemma_bytes_of(n: int)
    requires
        0 <= n <= 0xffff,
    ensures
        hi_byte(n) as int * 256 + lo_byte(n) as int == n,
{
    assert(0 <= n / 256 < 256) by (nonlinear_arith)
        requires
            0 <= n <= 0xffff,
    ;
    assert((n / 256) * 256 + n % 256 == n) by (nonlinear_arith);
    assert(0 <= n % 256 < 256) by (nonlinear_arith);
}

/// Entry `k` is the first entry of the cache for the name in slot `p`.
pub open spec fn first_cached(cache: Seq<(GcPtr, u8)>, p: usize, k: int) -> bool {
    &&& 0 <= k < cache.len()
    &&& cache[k].0.0 == p
    &&& forall|m: int| 0 <= m < k ==> (#[trigger] cache[m]).0.0 != p
}

/// Entry `k` is the first place of `u` among the upvalues.
pub open spec fn first_upvalue(ups: Seq<Upvalue>, u: Upvalue, k: int) -> bool {
    &&& 0 <= k < ups.len()
    &&& ups[k] == u
    &&& forall|m: int| 0 <= m < k ==> #[trigger] ups[m] != u
}

/// The innermost initialised local named `name`: its slot.
pub open spec fn find_local(locals: Seq<LocalView>, name: Seq<char>) -> Option<int>
    decreases locals.len(),
{
    if locals.len() == 0 {
        None
    } else if (locals.last() matches LocalView::LocalBinding { name: n, depth_opt: Some(_), .. }
        && n == name) {
        Some(locals.len() - 1)
    } else {
        find_local(locals.drop_last(), name)
    }
}

/// Whether slot `k` holds an initialised local named `name`.
pub open spec fn named_here(locals: Seq<LocalView>, k: int, name: Seq<char>) -> bool {
    locals[k] matches LocalView::LocalBinding { name: n, depth_opt: Some(_), .. } && n == name
}

/// A name resolves to the innermost local that bears it: the slot found
/// holds an initialised local of that name and no later slot does; where
/// none is found, no slot does.
pub proof fn law_innermost_local(locals: Seq<LocalView>, name: Seq<char>)
    ensures
        find_local(locals, name) matches Some(k) ==> {
            &&& 0 <= k < locals.len()
            &&& named_here(locals, k, name)
            &&& forall|j: int| k < j < locals.len() ==> !#[trigger] named_here(locals, j, name)
        },
        find_local(locals, name) is None ==> forall|j: int| 0 <= j < locals.len() ==> !#[trigger] named_here(
            locals,
            j,
            name,
        ),
    decreases locals.len(),
{
    if locals.len() > 0 {
        let rest = locals.drop_last();
        law_innermost_local(rest, name);
        assert forall|j: int| 0 <= j < rest.len() implies named_here(rest, j, name) == named_here(locals, j, name) by {
            assert(rest[j] == locals[j]);
        }
    }
}

/// Whether a local named `name` that is still being initialised lies above
/// the innermost initialised one.
pub open spec fn uninit_shadow(locals: Seq<LocalView>, name: Seq<char>) -> bool
    decreases locals.len(),
{
    if locals.len() == 0 {
        false
    } else if (locals.last() matches LocalView::LocalBinding { name: n, depth_opt: Some(_), .. }
        && n == name) {
        false
    } else if (locals.last() matches LocalView::LocalBinding { name: n, depth_opt: None, .. }
        && n == name) {
        true
    } else {
        uninit_shadow(locals.drop_last(), name)
    }
}

/// Whether a local named `name` already lives in the scope at `depth`
/// (the search stops at the first local of an outer scope).
pub open spec fn declared_in_scope(locals: Seq<LocalView>, name: Seq<char>, depth: u8) -> bool
    decreases locals.len(),
{
    if locals.len() == 0 {
        false
    } else {
        match locals.last() {
            LocalView::LocalBinding { name: n, depth_opt, .. } => {
                if (depth_opt matches Some(d) && d < depth) {
                    false
                } else if n == name {
                    true
                } else {
                    declared_in_scope(locals.drop_last(), name, depth)
                }
            },
            LocalView::GlobalFunction => declared_in_scope(locals.drop_last(), name, depth),
        }
    }
}


/// What every parsing step keeps: the frame of `step_frame`, the number of
/// parameters of the function being compiled, and its code, which only
/// grows at its end.
pub open spec fn parse_frame(a: Compiler, b: Compiler) -> bool {
    &&& step_frame(a, b)
    &&& keeps_code(a, b)
    &&& b.top().function.spec_arity() == a.top().function.spec_arity()
}

/// The code of the function being compiled in `a` is a prefix of that in
/// `b`.
pub open spec fn keeps_code(a: Compiler, b: Compiler) -> bool {
    &&& b.top_code().len() >= a.top_code().len()
    &&& forall|i: int| 0 <= i < a.top_code().len() ==> #[trigger] b.top_code()[i] == a.top_code()[i]
}

/// What every step keeps, the code of the current function aside: the
/// invariant, the functions being compiled (their number, kinds, scope
/// depths, and the code of the enclosing ones), the classes being
/// compiled, the source; the current code and the heap only grow, the
/// input is only read forward, and an error once reported stays reported.
pub open spec fn step_frame(a: Compiler, b: Compiler) -> bool {
    &&& b.inv()
    &&& b.programs@.len() == a.programs@.len()
    &&& b.top().scope_depth == a.top().scope_depth
    &&& b.top().function_kind == a.top().function_kind
    &&& b.top().function.spec_name() == a.top().function.spec_name()
    &&& b.top_code().len() >= a.top_code().len()
    &&& b.class_contexts@ == a.class_contexts@
    &&& forall|j: int|
        0 <= j < a.programs@.len() - 1 ==> {
            &&& (#[trigger] b.programs@[j]).function_kind == a.programs@[j].function_kind
            &&& b.programs@[j].scope_depth == a.programs@[j].scope_depth
            &&& b.programs@[j].function.spec_chunk() == a.programs@[j].function.spec_chunk()
            &&& b.programs@[j].function.spec_name() == a.programs@[j].function.spec_name()
            &&& b.programs@[j].function.spec_arity() == a.programs@[j].function.spec_arity()
        }
    &&& b.parser.remaining() <= a.parser.remaining()
    &&& b.parser.source == a.parser.source
    &&& (a.parser.had_error ==> b.parser.had_error)
    &&& Compiler::heap_grew(&a.heap, &b.heap)
}

/// Some input was read, unless the input was already at its end.
pub open spec fn progress(a: Compiler, b: Compiler) -> bool {
    a.parser.at_eof() || b.parser.remaining() < a.parser.remaining()
}

/// The code ends with `tail`, which lies past its first `from` bytes.
pub open spec fn ends_with(code: Seq<Byte>, from: int, tail: Seq<Byte>) -> bool {
    &&& code.len() >= from + tail.len()
    &&& code.subrange(code.len() - tail.len(), code.len() as int) == tail
}

/// The last instruction of the code is `op` with `n` operand bytes, and it
/// lies past the first `from` bytes.
pub open spec fn ends_with_op(code: Seq<Byte>, from: int, op: OpCode, n: int) -> bool {
    &&& code.len() >= from + 1 + n
    &&& code[code.len() - 1 - n] == Byte::Named(op)
}

/// At `at` stands the forward jump `op` to `target`, its distance counted
/// from the end of its operand.
pub open spec fn jump_at(code: Seq<Byte>, at: int, op: OpCode, target: int) -> bool {
    &&& 0 <= at
    &&& at + 3 <= target <= code.len()
    &&& code[at] == Byte::Named(op)
    &&& code[at + 1] == Byte::Raw(hi_byte(target - at - 3))
    &&& code[at + 2] == Byte::Raw(lo_byte(target - at - 3))
}

/// At `at` stands a backward jump to `target`, its distance counted from
/// the end of its operand.
pub open spec fn loop_at(code: Seq<Byte>, at: int, target: int) -> bool {
    &&& 0 <= target <= at
    &&& at + 3 <= code.len()
    &&& code[at] == Byte::Named(OpCode::Loop)
    &&& code[at + 1] == Byte::Raw(hi_byte(at + 3 - target))
    &&& code[at + 2] == Byte::Raw(lo_byte(at + 3 - target))
}

/// The kind of the previous token.
pub open spec fn prev_type(c: Compiler) -> TokenType {
    c.parser.previous_token_opt->0.typ
}

/// The kind of the current token.
pub open spec fn cur_type(c: Compiler) -> TokenType {
    c.parser.current_token_opt->0.typ
}

/// The text of the previous token.
pub open spec fn prev_text(c: Compiler) -> Seq<char> {
    spec_extract(c.parser.previous_token_opt->0.loc, c.parser.source@)
}

/// The constants of the function being compiled.
pub open spec fn top_constants(c: Compiler) -> Seq<ValueView> {
    c.top().function.spec_chunk().constants@
}

/// The instruction of a literal token.
pub open spec fn literal_code(t: TokenType) -> Seq<Byte> {
    match t {
        TokenType::False => seq![Byte::Named(OpCode::False)],
        TokenType::Nil => seq![Byte::Named(OpCode::Nil)],
        TokenType::True => seq![Byte::Named(OpCode::True)],
        _ => Seq::empty(),
    }
}

/// The instruction of a prefix operator.
pub open spec fn unary_code(t: TokenType) -> Seq<Byte> {
    match t {
        TokenType::Minus => seq![Byte::Named(OpCode::Negate)],
        TokenType::Bang => seq![Byte::Named(OpCode::Not)],
        _ => Seq::empty(),
    }
}

/// The instructions of a binary operator: `!=`, `>=` and `<=` are the
/// opposite comparison negated.
pub open spec fn binary_code(t: TokenType) -> Seq<Byte> {
    match t {
        TokenType::BangEqual => seq![Byte::Named(OpCode::Equal), Byte::Named(OpCode::Not)],
        TokenType::Bang => seq![Byte::Named(OpCode::Not)],
        TokenType::EqualEqual => seq![Byte::Named(OpCode::Equal)],
        TokenType::GreaterEqual => seq![Byte::Named(OpCode::Less), Byte::Named(OpCode::Not)],
        TokenType::Greater => seq![Byte::Named(OpCode::Greater)],
        TokenType::LessEqual => seq![Byte::Named(OpCode::Greater), Byte::Named(OpCode::Not)],
        TokenType::Less => seq![Byte::Named(OpCode::Less)],
        TokenType::Minus => seq![Byte::Named(OpCode::Subtract)],
        TokenType::Plus => seq![Byte::Named(OpCode::Add)],
        TokenType::Slash => seq![Byte::Named(OpCode::Divide)],
        TokenType::Star => seq![Byte::Named(OpCode::Multiply)],
        _ => Seq::empty(),
    }
}

/// The place of a string token's text between its quotes.
pub open spec fn string_body(loc: SourceLoc) -> SourceLoc {
    SourceLoc {
        start_index: if loc.start_index < u32::MAX {
            (loc.start_index + 1) as u32
        } else {
            loc.start_index
        },
        line_num: loc.line_num,
        column: loc.column,
        length: if loc.length >= 2 {
            (loc.length - 2) as u32
        } else {
            0
        },
    }
}

/// From `a` to `b` the constant `v` was added, with the instruction that
/// loads it; past 256 constants an error is reported and index 0 loaded.
pub open spec fn loads_constant(a: Compiler, b: Compiler, v: ValueView) -> bool {
    if top_constants(a).len() > 255 {
        &&& b.parser.had_error
        &&& b.top_code() == a.top_code().push(Byte::Named(OpCode::Constant)).push(Byte::Raw(0))
        &&& top_constants(b) == top_constants(a)
    } else {
        &&& b.top_code() == a.top_code().push(Byte::Named(OpCode::Constant)).push(
            Byte::Raw(top_constants(a).len() as u8),
        )
        &&& top_constants(b) == top_constants(a).push(v)
    }
}

/// Whether the function at `pi` can reach a variable `name` through an
/// upvalue: it is not the top-level script, and an enclosing function has
/// an initialised local of that name or reaches one in turn.
pub open spec fn upvalue_reachable(progs: Seq<Program>, pi: int, name: Seq<char>) -> bool
    decreases pi,
{
    if pi <= 0 || pi >= progs.len() || progs[pi].function_kind == FunctionKind::Script {
        false
    } else {
        find_local(locals_view(progs[pi - 1].local_vars@), name) is Some || upvalue_reachable(
            progs,
            pi - 1,
            name,
        )
    }
}

/// From `a` to `b` the code got an instruction that reads a variable
/// (`get`, with operand `arg`), or, where assignment is allowed, the value
/// to assign and an instruction that writes it (`set`).
pub open spec fn accesses(a: Compiler, b: Compiler, get: OpCode, set: OpCode, arg: u8, can_assign: bool) -> bool {
    ||| b.top_code() == a.top_code().push(Byte::Named(get)).push(Byte::Raw(arg))
    ||| can_assign && ends_with(b.top_code(), a.top_code().len() as int, seq![Byte::Named(set), Byte::Raw(arg)])
}

/// From `a` to `b` the variable `name` was read or assigned: a local of
/// the current function by its slot; else an upvalue, where an enclosing
/// function declares it (unless an error was reported); else a global.
pub open spec fn names_variable(a: Compiler, b: Compiler, name: Seq<char>, can_assign: bool) -> bool {
    match find_local(locals_view(a.top().local_vars@), name) {
        Some(k) => accesses(a, b, OpCode::GetLocal, OpCode::SetLocal, k as u8, can_assign),
        None => if upvalue_reachable(a.programs@, a.programs@.len() - 1, name) {
            b.parser.had_error || exists|u: u8| #[trigger]
                accesses(a, b, OpCode::GetUpvalue, OpCode::SetUpvalue, u, can_assign)
        } else {
            exists|g: u8| #[trigger] accesses(a, b, OpCode::GetGlobal, OpCode::SetGlobal, g, can_assign)
        },
    }
}

/// From `a` to `b` the variable named by the previous token was read or
/// assigned (when the heap had no room for its name, an error was
/// reported).
pub open spec fn names_prev_variable(a: Compiler, b: Compiler, can_assign: bool) -> bool {
    if a.heap.has_room(1) {
        names_variable(a, b, prev_text(a), can_assign)
    } else {
        b.parser.had_error
    }
}

/// `res` is the constant index of the name in slot `p` from `a` to `b`:
/// the index that this function remembers for it, or else a new constant
/// (past 256 constants, an error and index 0).
pub open spec fn ident_index(a: Compiler, b: Compiler, p: usize, res: u8) -> bool {
    if exists|k: int| first_cached(a.top().ident_byte_cache@, p, k) {
        res == a.top().ident_byte_cache@[choose|k: int| first_cached(a.top().ident_byte_cache@, p, k)].1
    } else if top_constants(a).len() > 255 {
        res == 0 && b.parser.had_error
    } else {
        &&& res == top_constants(a).len()
        &&& top_constants(b) == top_constants(a).push(ValueView::Reference(p))
    }
}

/// `res` is the constant index, from `a` to `b`, of a string `name` in
/// slot `p` of the heap (interned when the heap had room; else an error
/// was reported and another name stands in).
pub open spec fn ident_constant_at(a: Compiler, b: Compiler, name: Seq<char>, p: usize, res: u8) -> bool {
    &&& text_at(b.heap.objs(), p) is Some
    &&& a.heap.has_room(1) ==> text_at(b.heap.objs(), p) == Some(name)
    &&& !a.heap.has_room(1) ==> b.parser.had_error
    &&& ident_index(a, b, p, res)
}

/// The text of the current token.
pub open spec fn cur_text(c: Compiler) -> Seq<char> {
    spec_extract(c.parser.current_token_opt->0.loc, c.parser.source@)
}

/// The implicit return of a function of kind `kind`: an initialiser gives
/// back `this` (slot 0), any other function nil.
pub open spec fn return_code(kind: FunctionKind) -> Seq<Byte> {
    if kind == FunctionKind::Initializer {
        seq![Byte::Named(OpCode::GetLocal), Byte::Raw(0), Byte::Named(OpCode::Return)]
    } else {
        seq![Byte::Named(OpCode::Nil), Byte::Named(OpCode::Return)]
    }
}

/// The shape of an `if` statement compiled from `a.top_code().len()` on in
/// `b`: past the condition (at `c`) a jump over the branch taken that pops
/// the condition, and past that branch (at `e`) a jump over the other
/// branch, which pops the condition first; a jump too far is reported.
pub open spec fn if_shape(b: Compiler, n: int, c: int, e: int) -> bool {
    let code = b.top_code();
    &&& n <= c
    &&& c + 4 <= e
    &&& jump_at(code, c, OpCode::JumpIfFalse, e + 3)
    &&& code[c + 3] == Byte::Named(OpCode::Pop)
    &&& jump_at(code, e, OpCode::Jump, code.len() as int)
    &&& code[e + 3] == Byte::Named(OpCode::Pop)
    &&& e - c > u16::MAX ==> b.parser.had_error
    &&& code.len() - e - 3 > u16::MAX ==> b.parser.had_error
}

/// The exit of a `while` loop compiled from `n` on in `b`: past the
/// condition (at `c`) a jump to the final pop of the condition, then a pop
/// of the condition before the body; a jump too far is reported.
pub open spec fn while_exit(b: Compiler, n: int, c: int) -> bool {
    let code = b.top_code();
    &&& n <= c
    &&& c + 8 <= code.len()
    &&& jump_at(code, c, OpCode::JumpIfFalse, code.len() - 1)
    &&& code[c + 3] == Byte::Named(OpCode::Pop)
    &&& code.len() - 1 - c - 3 > u16::MAX ==> b.parser.had_error
}

/// In the code from `n` on, a loop whose backward jump stands at `l` is
/// left through the conditional jump at `c`: it stands past `n`, pops the
/// condition before the body, and goes to the `Pop` that discards the
/// condition just after the backward jump.
pub open spec fn for_exit(code: Seq<Byte>, n: int, c: int, l: int) -> bool {
    &&& n <= c
    &&& c + 4 <= l
    &&& jump_at(code, c, OpCode::JumpIfFalse, l + 3)
    &&& code[c + 3] == Byte::Named(OpCode::Pop)
    &&& code[l] == Byte::Named(OpCode::Loop)
    &&& l + 3 < code.len()
    &&& code[l + 3] == Byte::Named(OpCode::Pop)
}

/// A loop's increment clause starts at `t`, after its condition at `c`:
/// the forward jump just before it goes past it to the body at `b`, and
/// the backward jump just before the body goes back to the condition.
pub open spec fn for_increment(code: Seq<Byte>, c: int, t: int, b: int) -> bool {
    &&& c + 3 <= t
    &&& t + 3 <= b
    &&& jump_at(code, t - 3, OpCode::Jump, b)
    &&& loop_at(code, b - 3, c)
}

/// A loop's increment stays where it is when the code only grows.
pub proof fn lemma_increment_kept(a: Compiler, b2: Compiler, c: int, t: int, b: int)
    requires
        for_increment(a.top_code(), c, t, b),
        keeps_code(a, b2),
    ensures
        for_increment(b2.top_code(), c, t, b),
{
    let c0 = a.top_code();
    let c1 = b2.top_code();
    assert(c1[t - 3] == c0[t - 3]);
    assert(c1[t - 2] == c0[t - 2]);
    assert(c1[t - 1] == c0[t - 1]);
    assert(c1[b - 3] == c0[b - 3]);
    assert(c1[b - 2] == c0[b - 2]);
    assert(c1[b - 1] == c0[b - 1]);
}

/// The number of names in a parameter list whose first name is at `at`: a
/// name, then another after each comma.
pub open spec fn param_count(s: Seq<char>, at: Place) -> nat
    decreases place_measure(s, at),
{
    let after_name = adv(s, at);
    let next = adv(s, after_name);
    if after_name.0.typ == TokenType::Comma@ && 0 <= place_measure(s, next) < place_measure(s, at) {
        1 + param_count(s, next)
    } else {
        1
    }
}

/// The number of parameters of a list that opens at `at`, on its left
/// parenthesis: none when a right parenthesis follows at once.
pub open spec fn param_list_count(s: Seq<char>, at: Place) -> nat {
    let first = adv(s, at);
    if first.0.typ == TokenType::RightParen@ {
        0
    } else {
        param_count(s, first)
    }
}

/// From `start` on, the code holds a pair of bytes for each upvalue: 1
/// for a local of the enclosing function (0 for one of its upvalues), then
/// the slot.
pub open spec fn upvalue_pairs(code: Seq<Byte>, start: int, ups: Seq<Upvalue>) -> bool {
    forall|i: int|
        0 <= i < ups.len() ==> code[start + 2 * i] == Byte::Raw(
            if (#[trigger] ups[i]).is_local {
                1u8
            } else {
                0u8
            },
        ) && code[start + 2 * i + 1] == Byte::Raw(ups[i].index)
}

/// The pairs after a closure instruction read back as its upvalues: the
/// first byte of each is 1 exactly for a local of the enclosing function,
/// the second the slot.
pub proof fn law_upvalue_pairs(code: Seq<Byte>, start: int, ups: Seq<Upvalue>, i: int)
    requires
        upvalue_pairs(code, start, ups),
        0 <= i < ups.len(),
    ensures
        (code[start + 2 * i] == Byte::Raw(1)) == ups[i].is_local,
        code[start + 2 * i] == Byte::Raw(0) || code[start + 2 * i] == Byte::Raw(1),
        code[start + 2 * i + 1] == Byte::Raw(ups[i].index),
{
    assert(ups[i] == ups[i]);
}

/// From `a` to `b` a function of kind `kind` was compiled into slot `p` of
/// the heap: named by the previous token of `a`, with as many parameters
/// as its list opening at the current token of `a` names (at most 255), its
/// code ending with the implicit return; it was added as a
/// constant, and the instruction that makes its closure was emitted,
/// followed by a pair of bytes for each variable that it captures.
pub open spec fn closure_for(a: Compiler, b: Compiler, p: usize, kind: FunctionKind) -> bool {
    let n = a.top_code().len() as int;
    let code = b.top_code();
    &&& top_constants(b) == top_constants(a).push(ValueView::Reference(p))
    &&& live(b.heap.objs(), p)
    &&& code.len() >= n + 2
    &&& code[n] == Byte::Named(OpCode::Closure)
    &&& code[n + 1] == Byte::Raw(top_constants(a).len() as u8)
    &&& obj(b.heap.objs(), p) matches HeapObject::HeapFunction(f)
    &&& f matches FunctionObj::UserDefined { arity, chunk, name_gc_ptr, upvalue_count }
    &&& a.heap.has_room(1) ==> text_at(b.heap.objs(), name_gc_ptr.0) == Some(prev_text(a))
    &&& ends_with(chunk.code@, 0, return_code(kind))
    &&& arity == param_list_count(a.parser.source@, a.parser.place())
    &&& arity <= 255
    &&& code.len() == n + 2 + 2 * upvalue_count
    &&& exists|ups: Seq<Upvalue>| ups.len() == upvalue_count && #[trigger] upvalue_pairs(code, n + 2, ups)
}

/// Whether a number literal stands alone at the current token of `a`:
/// read without error and followed by `;`, with no error so far and room
/// for one more constant.
pub open spec fn lone_number_at(a: Compiler) -> bool {
    let src = a.parser.source@;
    let at = a.parser.place();
    &&& !a.parser.had_error
    &&& !a.parser.is_panicking
    &&& at.0.typ is Number
    &&& reads_cleanly(src, at)
    &&& adv(src, at).0.typ == TokenType::Semicolon@
    &&& top_constants(a).len() <= 255
}

/// The text of the number literal current in `a`.
pub open spec fn current_number_text(a: Compiler) -> Seq<char> {
    match a.parser.place().0.typ {
        TypeView::Number(t) => t,
        _ => Seq::empty(),
    }
}

/// From `a` to `b` a lone number literal was compiled: loaded as a new
/// constant, with no error, the parser past it, the heap unchanged.
pub open spec fn number_loaded(a: Compiler, b: Compiler) -> bool {
    &&& !b.parser.had_error
    &&& !b.parser.is_panicking
    &&& b.parser.place() == adv(a.parser.source@, a.parser.place())
    &&& b.top_code() == a.top_code().push(Byte::Named(OpCode::Constant)).push(
        Byte::Raw(top_constants(a).len() as u8),
    )
    &&& top_constants(b) == top_constants(a).push(ValueView::Double(current_number_text(a)))
    &&& b.heap == a.heap
    &&& b.programs@.len() == a.programs@.len()
}

/// Whether a statement `print N;` starts at the current token of `a`, with
/// no error so far and room for one more constant.
pub open spec fn number_print_ready(a: Compiler) -> bool {
    &&& !a.parser.had_error
    &&& !a.parser.is_panicking
    &&& number_print_at(a.parser.source@, a.parser.place())
    &&& top_constants(a).len() <= 255
}

/// From `a` to `b` a statement `print N;` was compiled: its number loaded
/// as a new constant and printed, with no error, the parser past it, the
/// heap unchanged.
pub open spec fn number_printed(a: Compiler, b: Compiler) -> bool {
    let src = a.parser.source@;
    &&& !b.parser.had_error
    &&& !b.parser.is_panicking
    &&& b.parser.place() == after_number_print(src, a.parser.place())
    &&& b.top_code() == a.top_code() + seq![
        Byte::Named(OpCode::Constant),
        Byte::Raw(top_constants(a).len() as u8),
        Byte::Named(OpCode::Print),
    ]
    &&& top_constants(b) == top_constants(a).push(ValueView::Double(number_print_text(src, a.parser.place())))
    &&& b.heap == a.heap
    &&& b.programs@.len() == a.programs@.len()
}

/// `c` compiled `s`, a program of statements `print N;` only, into the
/// function in slot `res`: each number loaded as the next constant and
/// printed, in turn, then the script's return; its constants the numbers
/// in order.
pub open spec fn number_compiled(c: Compiler, res: Option<GcPtr>, s: Seq<char>) -> bool {
    let start = start_place(s);
    res matches Some(p) && (obj(c.heap.objs(), p.0) matches HeapObject::HeapFunction(f) && {
        &&& f.spec_chunk().code@ == number_prints_code(s, start, 0) + return_code(FunctionKind::Script)
        &&& f.spec_chunk().constants@ == number_prints_consts(s, start)
    })
}

/// What a run of the compiler on `s` from heap `h` ends in: `c` the
/// compiler after it, `res` its result. The heap keeps its earlier objects
/// and stays well formed; the result is a slot exactly when no error was
/// reported, else the reports are not empty; the slot holds the top-level
/// function, with a line for each byte, ending in the script's return.
/// A program of statements `print N;` only, with room on the heap and for
/// its constants, compiles without error to its numbers loaded and printed.
pub open spec fn run_outcome(s: Seq<char>, h: Heap, c: Compiler, res: Option<GcPtr>) -> bool {
    &&& c.heap.wf()
    &&& Compiler::heap_grew(&h, &c.heap)
    &&& c.parser.source@ == s
    &&& c.programs@.len() == 0
    &&& res is Some <==> !c.parser.had_error
    &&& res is None ==> c.parser.out().len() > 0
    &&& res matches Some(p) ==> live(c.heap.objs(), p.0) && (obj(c.heap.objs(), p.0) matches HeapObject::HeapFunction(f) && {
        &&& f is MainScript
        &&& ends_with(f.spec_chunk().code@, 0, return_code(FunctionKind::Script))
        &&& f.spec_chunk().wf()
    })
    &&& h.has_room(1) && number_program(s) && number_prints_count(s, start_place(s)) <= 256 ==> number_compiled(c, res, s)
}

/// What the expression routine `f` did from `a` to `b`: with no error
/// reported, it read the tokens that the syntax of its part of an
/// expression gives, and emitted the code that `parse_fn_code` states.
pub open spec fn parse_fn_effect(f: ParseFn, a: Compiler, b: Compiler, can_assign: bool) -> bool {
    &&& !b.parser.had_error ==> routine_end(
        a.parser.source@,
        f,
        a.parser.previous_token_opt->0@,
        a.parser.place(),
        can_assign,
    ) == Some(b.parser.place())
    &&& parse_fn_code(f, a, b, can_assign)
}

/// The code that the expression routine `f` emitted from `a` to `b`.
pub open spec fn parse_fn_code(f: ParseFn, a: Compiler, b: Compiler, can_assign: bool) -> bool {
    let n = a.top_code().len() as int;
    let code = b.top_code();
    match f {
        ParseFn::And => {
            &&& jump_at(code, n, OpCode::JumpIfFalse, code.len() as int)
            &&& code[n + 3] == Byte::Named(OpCode::Pop)
            &&& code.len() - n - 3 > u16::MAX ==> b.parser.had_error
        },
        ParseFn::Binary => {
            &&& ends_with(code, n, binary_code(prev_type(a)))
            &&& !b.parser.had_error ==> prec_rank(spec_rule_for(cur_type(b)@).precedence) <= prec_rank(
                spec_rule_for(prev_type(a)@).precedence,
            )
        },
        ParseFn::Dot => if cur_type(a) is Identifier {
            ||| ends_with_op(code, n, OpCode::GetProperty, 1)
            ||| can_assign && ends_with_op(code, n, OpCode::SetProperty, 1)
            ||| ends_with_op(code, n, OpCode::Invoke, 2)
        } else {
            b.parser.had_error && code == a.top_code()
        },
        ParseFn::FunctionCall => ends_with_op(code, n, OpCode::FnCall, 1),
        ParseFn::Grouping => !b.parser.had_error ==> prev_type(b)@ == TokenType::RightParen@,
        ParseFn::Literal => code == a.top_code() + literal_code(prev_type(a)),
        ParseFn::Number => match prev_type(a) {
            TokenType::Number(x) => loads_constant(a, b, ValueView::Double(x@)) && (top_constants(a).len() <= 255
                ==> b.parser == a.parser && b.heap == a.heap),
            _ => code == a.top_code(),
        },
        ParseFn::Or => {
            &&& jump_at(code, n, OpCode::JumpIfFalse, n + 6)
            &&& jump_at(code, n + 3, OpCode::Jump, code.len() as int)
            &&& code[n + 6] == Byte::Named(OpCode::Pop)
            &&& code.len() - n - 6 > u16::MAX ==> b.parser.had_error
        },
        ParseFn::String => exists|p: usize| #[trigger] loads_constant(a, b, ValueView::Reference(p))
            && text_at(b.heap.objs(), p) is Some && (a.heap.has_room(1) ==> text_at(b.heap.objs(), p)
            == Some(spec_extract(string_body(a.parser.previous_token_opt->0.loc), a.parser.source@))),
        ParseFn::Super => {
            &&& (a.class_contexts@.len() == 0 || !a.class_contexts@.last().has_superclass) ==> b.parser.had_error
            &&& !b.parser.had_error ==> ends_with_op(code, n, OpCode::GetSuper, 1) || ends_with_op(
                code,
                n,
                OpCode::SuperInvoke,
                2,
            )
        },
        ParseFn::This => if a.class_contexts@.len() == 0 {
            b.parser.had_error && code == a.top_code()
        } else {
            names_prev_variable(a, b, false)
        },
        ParseFn::Unary => ends_with(code, n, unary_code(prev_type(a))),
        ParseFn::VarReference => names_prev_variable(a, b, can_assign),
    }
}

/// Reading or assigning a variable is told apart by the functions being
/// compiled alone.
pub proof fn lemma_names_variable_same(a1: Compiler, a2: Compiler, b: Compiler, name: Seq<char>, can_assign: bool)
    requires
        a1.programs == a2.programs,
        names_variable(a1, b, name, can_assign),
    ensures
        names_variable(a2, b, name, can_assign),
{
    if find_local(locals_view(a1.top().local_vars@), name) is None {
        if upvalue_reachable(a1.programs@, a1.programs@.len() - 1, name) {
            if !b.parser.had_error {
                let u = choose|u: u8| #[trigger] accesses(a1, b, OpCode::GetUpvalue, OpCode::SetUpvalue, u, can_assign);
                assert(accesses(a2, b, OpCode::GetUpvalue, OpCode::SetUpvalue, u, can_assign));
            }
        } else {
            let g = choose|g: u8| #[trigger] accesses(a1, b, OpCode::GetGlobal, OpCode::SetGlobal, g, can_assign);
            assert(accesses(a2, b, OpCode::GetGlobal, OpCode::SetGlobal, g, can_assign));
        }
    }
}

/// A string of a heap is still there after the heap grows.
pub proof fn lemma_text_grow(a: &Heap, b: &Heap, k: usize)
    requires
        Compiler::heap_grew(a, b),
        text_at(a.objs(), k) is Some,
    ensures
        text_at(b.objs(), k) is Some,
        text_at(b.objs(), k) == text_at(a.objs(), k),
{
    assert(b.objs()[k as int] == a.objs()[k as int]);
}

/// The slot that a local lookup finds is one of the slots.
pub proof fn lemma_find_local_bound(locals: Seq<LocalView>, name: Seq<char>)
    ensures
        find_local(locals, name) matches Some(k) ==> 0 <= k < locals.len(),
    decreases locals.len(),
{
    if locals.len() > 0 {
        lemma_find_local_bound(locals.drop_last(), name);
    }
}

impl Compiler {
    /// The function being compiled (the innermost).
    pub open spec fn top(&self) -> Program {
        self.programs@.last()
    }

    /// The code of the function being compiled.
    pub open spec fn top_code(&self) -> Seq<Byte> {
        self.top().function.spec_chunk().code@
    }

    /// The line of the previous token, which emitted bytes are tagged with.
    pub open spec fn line(&self) -> u32 {
        self.parser.previous_token_opt->0.loc.line_num
    }

    /// Every function being compiled is well formed and points only to
    /// live objects.
    pub open spec fn progs_ok(&self) -> bool {
        forall|i: int|
            0 <= i < self.programs@.len() ==> (#[trigger] self.programs@[i]).wf() && fn_refs_live(
                self.heap.objs(),
                self.programs@[i].function,
            )
    }

    /// The compiler's invariant once it has read its first token.
    pub open spec fn inv_base(&self) -> bool {
        &&& self.parser.wf()
        &&& self.parser.current_token_opt is Some
        &&& self.heap.wf()
        &&& self.programs@.len() >= 1
        &&& self.progs_ok()
    }

    /// The invariant after at least one token was consumed.
    pub open spec fn inv(&self) -> bool {
        self.inv_base() && self.parser.previous_token_opt is Some
    }

    /// The heap only grew from `a` to `b`.
    pub open spec fn heap_grew(a: &Heap, b: &Heap) -> bool {
        &&& a.objs().len() <= b.objs().len()
        &&& forall|i: int| 0 <= i < a.objs().len() ==> #[trigger] b.objs()[i] == a.objs()[i]
    }

    /// Functions that point to live objects still do after the heap grows.
    pub proof fn lemma_progs_grow(a: &Compiler, b: &Compiler)
        requires
            a.progs_ok(),
            Self::heap_grew(&a.heap, &b.heap),
            a.programs == b.programs,
        ensures
            b.progs_ok(),
    {
        assert(b.heap.objs().subrange(0, a.heap.objs().len() as int) =~= a.heap.objs());
        assert forall|i: int| 0 <= i < b.programs@.len() implies (#[trigger] b.programs@[i]).wf()
            && fn_refs_live(b.heap.objs(), b.programs@[i].function) by {
            lemma_all_live_grow(
                a.heap.objs(),
                b.heap.objs(),
                children(HeapObject::HeapFunction(a.programs@[i].function)),
            );
        }
    }

    /// Appends a byte to the function being compiled, tagged with the line
    /// of the previous token.
    fn emit_byte(&mut self, byte: Byte)
        requires
            old(self).inv(),
        ensures
            parse_frame(*old(self), *final(self)),
            final(self).inv(),
            only_top_chunk(*old(self), *final(self)),
            final(self).top_code() == old(self).top_code().push(byte),
            final(self).top().function.spec_chunk().line_nums@ == old(
                self,
            ).top().function.spec_chunk().line_nums@.push(old(self).line()),
            final(self).top().function.spec_chunk().constants@ == old(
                self,
            ).top().function.spec_chunk().constants@,
    {
        let line = match &self.parser.previous_token_opt {
            Some(t) => t.loc.line_num,
            None => 0,
        };
        let last = self.programs.len() - 1;
        let ghost before = self.programs@;
        self.programs[last].function.chunk_mut().write(byte, line);
        proof {
            assert forall|i: int| 0 <= i < self.programs@.len() implies (#[trigger] self.programs@[i]).wf()
                && fn_refs_live(self.heap.objs(), self.programs@[i].function) by {
                if i == last {
                    assert(children(HeapObject::HeapFunction(self.programs@[i].function)) =~= children(
                        HeapObject::HeapFunction(before[i].function),
                    ));
                } else {
                    assert(self.programs@[i] == before[i]);
                }
            }
        }
    }

    /// Appends an instruction.
    fn emit_op(&mut self, op: OpCode)
        requires
            old(self).inv(),
        ensures
            parse_frame(*old(self), *final(self)),
            final(self).inv(),
            only_top_chunk(*old(self), *final(self)),
            final(self).top_code() == old(self).top_code().push(Byte::Named(op)),
            final(self).top().function.spec_chunk().constants@ == old(
                self,
            ).top().function.spec_chunk().constants@,
    {
        self.emit_byte(Byte::Named(op));
    }

    /// Appends an instruction and its one-byte operand.
    fn emit_op_arg(&mut self, op: OpCode, arg: u8)
        requires
            old(self).inv(),
        ensures
            parse_frame(*old(self), *final(self)),
            final(self).inv(),
            only_top_chunk(*old(self), *final(self)),
            final(self).top_code() == old(self).top_code().push(Byte::Named(op)).push(Byte::Raw(arg)),
            final(self).top().function.spec_chunk().constants@ == old(
                self,
            ).top().function.spec_chunk().constants@,
    {
        self.emit_byte(Byte::Named(op));
        self.emit_byte(Byte::Raw(arg));
    }

    /// Appends a jump instruction with a placeholder distance; gives the
    /// place of the distance, to be filled in later.
    fn emit_jump(&mut self, instruction: OpCode) -> (res: usize)
        requires
            old(self).inv(),
        ensures
            parse_frame(*old(self), *final(self)),
            final(self).inv(),
            only_top_chunk(*old(self), *final(self)),
            final(self).top_code() == old(self).top_code().push(Byte::Named(instruction)).push(
                Byte::Raw(0xff),
            ).push(Byte::Raw(0xff)),
            res == old(self).top_code().len() + 1,
            final(self).top().function.spec_chunk().constants@ == old(
                self,
            ).top().function.spec_chunk().constants@,
    {
        self.emit_byte(Byte::Named(instruction));
        self.emit_byte(Byte::Raw(0xff));
        self.emit_byte(Byte::Raw(0xff));
        let last = self.programs.len() - 1;
        self.programs[last].function.chunk().count() - 2
    }

    /// Appends a backward jump to `loop_start`: the distance is counted from
    /// the end of the jump's operand; a distance over 16 bits is reported.
    fn emit_loop(&mut self, loop_start: usize)
        requires
            old(self).inv(),
            loop_start <= old(self).top_code().len(),
        ensures
            parse_frame(*old(self), *final(self)),
            final(self).inv(),
            final(self).programs@.len() == old(self).programs@.len(),
            final(self).heap == old(self).heap,
            final(self).class_contexts == old(self).class_contexts,
            final(self).parser.current_token_opt == old(self).parser.current_token_opt,
            final(self).parser.previous_token_opt == old(self).parser.previous_token_opt,
            final(self).parser.remaining() == old(self).parser.remaining(),
            final(self).parser.place() == old(self).parser.place(),
            old(self).parser.had_error ==> final(self).parser.had_error,
            final(self).top().scope_depth == old(self).top().scope_depth,
            final(self).top().function_kind == old(self).top().function_kind,
            final(self).top_code() == old(self).top_code().push(Byte::Named(OpCode::Loop)).push(
                Byte::Raw(hi_byte(old(self).top_code().len() + 3 - loop_start)),
            ).push(Byte::Raw(lo_byte(old(self).top_code().len() + 3 - loop_start))),
            old(self).top_code().len() + 3 - loop_start > u16::MAX ==> final(self).parser.had_error,
    {
        self.emit_byte(Byte::Named(OpCode::Loop));
        let last = self.programs.len() - 1;
        let count = self.programs[last].function.chunk().count();
        proof {
            assert(count == old(self).top_code().len() + 1);
        }
        let offset: u128 = (count - loop_start) as u128 + 2;
        if offset > 65535 {
            self.parser.error("Loop body too large.");
        }
        let hi = ((offset / 256) % 256) as u8;
        let lo = (offset % 256) as u8;
        proof {
            assert(offset == old(self).top_code().len() + 3 - loop_start);
            assert(hi == hi_byte(offset as int));
            assert(lo == lo_byte(offset as int));
        }
        let ghost mid = self.top_code();
        self.emit_byte(Byte::Raw(hi));
        self.emit_byte(Byte::Raw(lo));
        proof {
            assert(mid == old(self).top_code().push(Byte::Named(OpCode::Loop)));
        }
    }

    /// Points the jump whose distance sits at `offset` to the end of the
    /// code: the distance is counted from after the operand; one over 16
    /// bits is reported.
    fn fill_in_jump_target(&mut self, offset: usize)
        requires
            old(self).inv(),
            offset + 2 <= old(self).top_code().len(),
        ensures
            step_frame(*old(self), *final(self)),
            final(self).top().function.spec_arity() == old(self).top().function.spec_arity(),
            final(self).parser.place() == old(self).parser.place(),
            final(self).inv(),
            final(self).programs@.len() == old(self).programs@.len(),
            final(self).heap == old(self).heap,
            final(self).class_contexts == old(self).class_contexts,
            final(self).parser.current_token_opt == old(self).parser.current_token_opt,
            final(self).parser.previous_token_opt == old(self).parser.previous_token_opt,
            final(self).parser.remaining() == old(self).parser.remaining(),
            old(self).parser.had_error ==> final(self).parser.had_error,
            final(self).top().scope_depth == old(self).top().scope_depth,
            final(self).top().function_kind == old(self).top().function_kind,
            ({
                let jt = old(self).top_code().len() - offset - 2;
                &&& final(self).top_code() == old(self).top_code().update(
                    offset as int,
                    Byte::Raw(hi_byte(jt)),
                ).update(offset + 1, Byte::Raw(lo_byte(jt)))
                &&& jt > u16::MAX ==> final(self).parser.had_error
            }),
    {
        let last = self.programs.len() - 1;
        let count = self.programs[last].function.chunk().count();
        let jt: usize = count - offset - 2;
        if jt > 65535 {
            self.parser.error("Too much code to jump over.");
        }
        let hi = ((jt / 256) % 256) as u8;
        let lo = (jt % 256) as u8;
        let ghost before = self.programs@;
        self.programs[last].function.chunk_mut().patch(offset, Byte::Raw(hi));
        self.programs[last].function.chunk_mut().patch(offset + 1, Byte::Raw(lo));
        proof {
            assert forall|i: int| 0 <= i < self.programs@.len() implies (#[trigger] self.programs@[i]).wf()
                && fn_refs_live(self.heap.objs(), self.programs@[i].function) by {
                if i == last {
                    assert(children(HeapObject::HeapFunction(self.programs@[i].function)) =~= children(
                        HeapObject::HeapFunction(before[i].function),
                    ));
                } else {
                    assert(self.programs@[i] == before[i]);
                }
            }
        }
    }

    /// Appends the implicit return: an initialiser gives back `this`, any
    /// other function nil.
    fn emit_return(&mut self)
        requires
            old(self).inv(),
        ensures
            parse_frame(*old(self), *final(self)),
            final(self).inv(),
            only_top_chunk(*old(self), *final(self)),
            final(self).top_code() == if old(self).top().function_kind == FunctionKind::Initializer {
                old(self).top_code().push(Byte::Named(OpCode::GetLocal)).push(Byte::Raw(0)).push(
                    Byte::Named(OpCode::Return),
                )
            } else {
                old(self).top_code().push(Byte::Named(OpCode::Nil)).push(Byte::Named(OpCode::Return))
            },
            final(self).top().function.spec_chunk().constants@ == old(
                self,
            ).top().function.spec_chunk().constants@,
    {
        let last = self.programs.len() - 1;
        if self.programs[last].function_kind == FunctionKind::Initializer {
            self.emit_op_arg(OpCode::GetLocal, 0);
        } else {
            self.emit_op(OpCode::Nil);
        }
        self.emit_op(OpCode::Return);
    }

    /// Adds a constant to the function being compiled and gives its index;
    /// past 256 constants it reports an error and gives 0.
    fn make_constant(&mut self, value: Value) -> (res: u8)
        requires
            old(self).inv(),
            all_live(old(self).heap.objs(), value_refs(value@)),
        ensures
            parse_frame(*old(self), *final(self)),
            final(self).inv(),
            keeps_outer(*old(self), *final(self)),
            final(self).heap == old(self).heap,
            old(self).top().function.spec_chunk().constants@.len() <= 255 ==> final(self).parser == old(self).parser,
            final(self).top().ident_byte_cache == old(self).top().ident_byte_cache,
            final(self).top().local_vars == old(self).top().local_vars,
            final(self).top().upvalues == old(self).top().upvalues,
            final(self).top_code() == old(self).top_code(),
            if old(self).top().function.spec_chunk().constants@.len() > 255 {
                &&& res == 0
                &&& final(self).parser.had_error
                &&& final(self).top().function.spec_chunk().constants@ == old(
                    self,
                ).top().function.spec_chunk().constants@
            } else {
                &&& res == old(self).top().function.spec_chunk().constants@.len()
                &&& final(self).top().function.spec_chunk().constants@ == old(
                    self,
                ).top().function.spec_chunk().constants@.push(value@)
            },
    {
        let last = self.programs.len() - 1;
        let count = self.programs[last].function.chunk().constants.count();
        if count > 255 {
            self.parser.error("Too many constants in one chunk.");
            0
        } else {
            let ghost before = self.programs@;
            let res = self.programs[last].function.chunk_mut().add_constant(value);
            proof {
                assert forall|i: int| 0 <= i < self.programs@.len() implies (#[trigger] self.programs@[i]).wf()
                    && fn_refs_live(self.heap.objs(), self.programs@[i].function) by {
                    if i == last {
                        let f0 = before[i].function;
                        let f1 = self.programs@[i].function;
                        lemma_seq_refs_push(f0.spec_chunk().constants@, value@);
                        assert(f1.spec_chunk().constants@ == f0.spec_chunk().constants@.push(value@));
                        assert forall|q: usize| children(HeapObject::HeapFunction(f1)).contains(q) implies live(
                            self.heap.objs(),
                            q,
                        ) by {
                            if !value_refs(value@).contains(q) {
                                assert(children(HeapObject::HeapFunction(f0)).contains(q));
                            }
                        }
                    } else {
                        assert(self.programs@[i] == before[i]);
                    }
                }
            }
            res
        }
    }

    /// Appends an instruction that loads a new constant.
    fn emit_constant(&mut self, value: Value)
        requires
            old(self).inv(),
            all_live(old(self).heap.objs(), value_refs(value@)),
        ensures
            parse_frame(*old(self), *final(self)),
            final(self).inv(),
            keeps_outer(*old(self), *final(self)),
            final(self).heap == old(self).heap,
            old(self).top().function.spec_chunk().constants@.len() <= 255 ==> final(self).parser == old(self).parser,
            final(self).top().ident_byte_cache == old(self).top().ident_byte_cache,
            final(self).top().local_vars == old(self).top().local_vars,
            final(self).top().upvalues == old(self).top().upvalues,
            loads_constant(*old(self), *final(self), value@),
    {
        let constant = self.make_constant(value);
        self.emit_op_arg(OpCode::Constant, constant);
    }

    /// Moves past the current token when it is of the kind `typ`, and says
    /// whether it was.
    pub fn token_is_a(&mut self, typ: &TokenType) -> (res: bool)
        requires
            old(self).inv_base(),
        ensures
            final(self).inv_base(),
            res == (old(self).parser.current_token_opt->0.typ@ == typ@),
            res ==> final(self).inv(),
            final(self).parser.previous_token_opt is Some || !res,
            !res ==> *final(self) == *old(self),
            res ==> final(self).parser.previous_token_opt == old(self).parser.current_token_opt,
            res ==> old(self).parser.moved_on(&final(self).parser),
            res && (old(self).parser.at_eof() || (lex_step(
                old(self).parser.source@,
                old(self).parser.lexer.state(),
            ).0 is Ok)) ==> final(self).parser.had_error == old(self).parser.had_error
                && final(self).parser.is_panicking == old(self).parser.is_panicking,
            res && !old(self).parser.at_eof() ==> final(self).parser.remaining() < old(
                self,
            ).parser.remaining(),
            final(self).parser.remaining() <= old(self).parser.remaining(),
            final(self).programs == old(self).programs,
            final(self).heap == old(self).heap,
            final(self).class_contexts == old(self).class_contexts,
            old(self).parser.had_error ==> final(self).parser.had_error,
            final(self).parser.source == old(self).parser.source,
    {
        if !self.parser.check(typ) {
            return false;
        }
        self.parser.advance();
        true
    }

    /// The interned string for the text at `loc`. When the heap is full the
    /// error is reported and the name `init` stands in.
    fn intern(&mut self, loc: SourceLoc) -> (res: GcPtr)
        requires
            old(self).inv_base(),
        ensures
            final(self).inv_base(),
            Self::heap_grew(&old(self).heap, &final(self).heap),
            final(self).programs == old(self).programs,
            final(self).class_contexts == old(self).class_contexts,
            final(self).parser.same_place(&old(self).parser),
            old(self).parser.had_error ==> final(self).parser.had_error,
            text_at(final(self).heap.objs(), res.0) is Some,
            old(self).heap.has_room(1) ==> text_at(final(self).heap.objs(), res.0) == Some(
                spec_extract(loc, old(self).parser.source@),
            ),
            !old(self).heap.has_room(1) ==> final(self).parser.had_error,
    {
        if self.heap.has_room_for(1) {
            let ghost before = *self;
            let res = self.heap.copy_string(&self.parser.source, &loc);
            proof {
                assert forall|i: int| 0 <= i < before.heap.objs().len() implies #[trigger] self.heap.objs()[i] == before.heap.objs()[i] by {
                    assert(self.heap.objs().subrange(0, before.heap.objs().len() as int)[i] == before.heap.objs()[i]);
                }
                Self::lemma_progs_grow(&before, self);
            }
            res
        } else {
            self.parser.error("Out of memory.");
            proof {
                self.heap.lemma_names();
            }
            self.heap.init_ptr()
        }
    }

    /// The constant index for the name in slot `name`: the one made before
    /// in this function, or a new one (which is remembered).
    fn reference_ident_constant(&mut self, name: GcPtr) -> (res: u8)
        requires
            old(self).inv(),
            live(old(self).heap.objs(), name.0),
        ensures
            parse_frame(*old(self), *final(self)),
            final(self).inv(),
            keeps_outer(*old(self), *final(self)),
            final(self).heap == old(self).heap,
            final(self).top().local_vars == old(self).top().local_vars,
            final(self).top().upvalues == old(self).top().upvalues,
            final(self).top_code() == old(self).top_code(),
            if exists|k: int| first_cached(old(self).top().ident_byte_cache@, name.0, k) {
                &&& final(self).programs == old(self).programs
                &&& first_cached(
                    old(self).top().ident_byte_cache@,
                    name.0,
                    choose|k: int| first_cached(old(self).top().ident_byte_cache@, name.0, k),
                )
                &&& res == old(self).top().ident_byte_cache@[choose|k: int|
                    first_cached(old(self).top().ident_byte_cache@, name.0, k)].1
            } else {
                &&& final(self).top().ident_byte_cache@ == old(self).top().ident_byte_cache@.push(
                    (name, res),
                )
                &&& if old(self).top().function.spec_chunk().constants@.len() > 255 {
                    res == 0 && final(self).parser.had_error
                } else {
                    &&& res == old(self).top().function.spec_chunk().constants@.len()
                    &&& final(self).top().function.spec_chunk().constants@ == old(
                        self,
                    ).top().function.spec_chunk().constants@.push(ValueView::Reference(name.0))
                }
            },
    {
        let last = self.programs.len() - 1;
        let mut j: usize = 0;
        while j < self.programs[last].ident_byte_cache.len()
            invariant
                self.inv(),
                self.programs == old(self).programs,
                self.heap == old(self).heap,
                self.parser == old(self).parser,
                self.class_contexts == old(self).class_contexts,
                last == self.programs@.len() - 1,
                j <= self.programs@[last as int].ident_byte_cache@.len(),
                forall|m: int| 0 <= m < j ==> (#[trigger] self.programs@[last as int].ident_byte_cache@[m]).0.0 != name.0,
            decreases self.programs@[last as int].ident_byte_cache@.len() - j,
        {
            let (p, b) = self.programs[last].ident_byte_cache[j];
            if p.0 == name.0 {
                proof {
                    assert(first_cached(old(self).top().ident_byte_cache@, name.0, j as int));
                    let k = choose|k: int| first_cached(old(self).top().ident_byte_cache@, name.0, k);
                    assert(k == j) by {
                        if k < j {
                        } else if k > j {
                            assert(old(self).top().ident_byte_cache@[j as int].0.0 == name.0);
                        }
                    }
                }
                return b;
            }
            j = j + 1;
        }
        proof {
            assert(!exists|k: int| first_cached(old(self).top().ident_byte_cache@, name.0, k));
        }
        let generated = self.make_constant(Value::Reference(name));
        let ghost before = self.programs@;
        self.programs[last].ident_byte_cache.push((name, generated));
        proof {
            assert forall|i: int| 0 <= i < self.programs@.len() implies (#[trigger] self.programs@[i]).wf()
                && fn_refs_live(self.heap.objs(), self.programs@[i].function) by {
                if i != last {
                    assert(self.programs@[i] == before[i]);
                }
            }
            assert forall|i: int| 0 <= i < old(self).programs@.len() - 1 implies self.programs@[i] == old(self).programs@[i] by {
                assert(self.programs@[i] == before[i]);
            }
        }
        generated
    }

    /// The constant index for the name that the previous token spells.
    fn make_ident_constant(&mut self) -> (res: u8)
        requires
            old(self).inv(),
        ensures
            parse_frame(*old(self), *final(self)),
            exists|p: usize| #[trigger] ident_constant_at(*old(self), *final(self), prev_text(*old(self)), p, res),
            final(self).inv(),
            Self::heap_grew(&old(self).heap, &final(self).heap),
            keeps_outer(*old(self), *final(self)),
            final(self).top().local_vars == old(self).top().local_vars,
            final(self).top().upvalues == old(self).top().upvalues,
            final(self).top_code() == old(self).top_code(),
    {
        let loc = match &self.parser.previous_token_opt {
            Some(t) => t.loc,
            None => SourceLoc { start_index: 0, line_num: 0, column: 0, length: 0 },
        };
        let ghost before = *self;
        let p = self.intern(loc);
        proof {
            self.heap.lemma_text_live(p.0);
        }
        let ghost mid = *self;
        let res = self.reference_ident_constant(p);
        proof {
            assert(self.heap == mid.heap);
            assert(mid.programs == old(self).programs);
            assert(ident_constant_at(*old(self), *self, prev_text(*old(self)), p.0, res));
        }
        res
    }

    /// Declares a new local in the current function; past 256 locals it
    /// reports an error instead.
    fn add_local(&mut self, name: Vec<char>)
        requires
            old(self).inv(),
        ensures
            parse_frame(*old(self), *final(self)),
            final(self).inv(),
            keeps_outer(*old(self), *final(self)),
            final(self).heap == old(self).heap,
            final(self).top().function == old(self).top().function,
            final(self).top().upvalues == old(self).top().upvalues,
            final(self).top().ident_byte_cache == old(self).top().ident_byte_cache,
            if old(self).top().local_vars@.len() > 255 {
                final(self).parser.had_error && final(self).top().local_vars == old(
                    self,
                ).top().local_vars
            } else {
                locals_view(final(self).top().local_vars@) == locals_view(
                    old(self).top().local_vars@,
                ).push(LocalView::LocalBinding { name: name@, depth_opt: None, is_captured: false })
            },
    {
        let last = self.programs.len() - 1;
        if self.programs[last].local_vars.len() > 255 {
            self.parser.error("Too many local variables in function.");
        } else {
            let ghost before = self.programs@;
            self.programs[last].local_vars.push(
                LocalVar::LocalBinding { name, depth_opt: None, is_captured: false },
            );
            proof {
                assert(locals_view(self.programs@[last as int].local_vars@) =~= locals_view(
                    before[last as int].local_vars@,
                ).push(LocalView::LocalBinding { name: name@, depth_opt: None, is_captured: false }));
                assert forall|i: int| 0 <= i < self.programs@.len() implies (#[trigger] self.programs@[i]).wf()
                    && fn_refs_live(self.heap.objs(), self.programs@[i].function) by {
                    if i != last {
                        assert(self.programs@[i] == before[i]);
                    }
                }
                assert forall|i: int| 0 <= i < old(self).programs@.len() - 1 implies self.programs@[i] == old(self).programs@[i] by {
                    assert(self.programs@[i] == before[i]);
                }
            }
        }
    }

    /// Declares a local named `name` when inside a scope: a name already
    /// declared in the same scope is reported.
    fn declare_variable(&mut self, name: Vec<char>)
        requires
            old(self).inv(),
        ensures
            parse_frame(*old(self), *final(self)),
            final(self).inv(),
            keeps_outer(*old(self), *final(self)),
            final(self).heap == old(self).heap,
            final(self).top().function == old(self).top().function,
            final(self).top().upvalues == old(self).top().upvalues,
            final(self).top().ident_byte_cache == old(self).top().ident_byte_cache,
            old(self).top().scope_depth == 0 ==> final(self).programs == old(self).programs,
            old(self).top().scope_depth > 0 ==> {
                &&& declared_in_scope(
                    locals_view(old(self).top().local_vars@),
                    name@,
                    old(self).top().scope_depth,
                ) ==> final(self).parser.had_error
                &&& if old(self).top().local_vars@.len() > 255 {
                    final(self).parser.had_error && final(self).top().local_vars == old(
                        self,
                    ).top().local_vars
                } else {
                    locals_view(final(self).top().local_vars@) == locals_view(
                        old(self).top().local_vars@,
                    ).push(LocalView::LocalBinding { name: name@, depth_opt: None, is_captured: false })
                }
            },
    {
        let last = self.programs.len() - 1;
        if self.programs[last].scope_depth > 0 {
            let depth = self.programs[last].scope_depth;
            let ghost all = locals_view(self.programs@[last as int].local_vars@);
            let mut i: usize = self.programs[last].local_vars.len();
            proof {
                assert(all.take(i as int) =~= all);
            }
            while i > 0
                invariant_except_break
                    i > 0 || !declared_in_scope(all.take(i as int), name@, depth),
                invariant
                    self.inv(),
                    self.programs == old(self).programs,
                    self.heap == old(self).heap,
                    self.class_contexts == old(self).class_contexts,
                    self.parser.same_place(&old(self).parser),
                    old(self).parser.had_error ==> self.parser.had_error,
                    last == self.programs@.len() - 1,
                    depth == self.programs@[last as int].scope_depth,
                    all == locals_view(self.programs@[last as int].local_vars@),
                    i <= all.len(),
                    declared_in_scope(all, name@, depth) ==> self.parser.had_error
                        || declared_in_scope(all.take(i as int), name@, depth),
                ensures
                    declared_in_scope(all, name@, depth) ==> self.parser.had_error,
                decreases i,
            {
                let ghost cur = all.take(i as int);
                proof {
                    assert(cur.last() == self.programs@[last as int].local_vars@[i - 1]@);
                    assert(cur.drop_last() =~= all.take(i - 1));
                }
                let stop = match &self.programs[last].local_vars[i - 1] {
                    LocalVar::LocalBinding { name: n, depth_opt, .. } => {
                        let outer = match depth_opt {
                            Some(d) => *d < depth,
                            None => false,
                        };
                        if outer {
                            true
                        } else {
                            if chars_eq(n, &name) {
                                self.parser.error("Already a variable with this name in this scope.");
                            }
                            false
                        }
                    },
                    LocalVar::GlobalFunction => false,
                };
                if stop {
                    proof {
                        assert(!declared_in_scope(cur, name@, depth));
                    }
                    break ;
                }
                i = i - 1;
            }
            self.add_local(name);
        }
    }

    /// Finishes a variable declaration: a global is defined by name; a
    /// local becomes usable.
    fn define_variable(&mut self, global_var: u8)
        requires
            old(self).inv(),
        ensures
            parse_frame(*old(self), *final(self)),
            final(self).inv(),
            keeps_outer(*old(self), *final(self)),
            final(self).heap == old(self).heap,
            final(self).parser == old(self).parser,
            final(self).top().upvalues == old(self).top().upvalues,
            final(self).top().ident_byte_cache == old(self).top().ident_byte_cache,
            old(self).top().scope_depth == 0 ==> final(self).top_code() == old(self).top_code().push(
                Byte::Named(OpCode::DefineGlobal),
            ).push(Byte::Raw(global_var)) && final(self).top().local_vars == old(self).top().local_vars,
            old(self).top().scope_depth > 0 ==> final(self).top_code() == old(self).top_code(),
    {
        let last = self.programs.len() - 1;
        if self.programs[last].scope_depth == 0 {
            self.emit_op_arg(OpCode::DefineGlobal, global_var);
        } else {
            let ghost before = self.programs@;
            self.programs[last].mark_latest_var_initialized();
            proof {
                assert forall|i: int| 0 <= i < self.programs@.len() implies (#[trigger] self.programs@[i]).wf()
                    && fn_refs_live(self.heap.objs(), self.programs@[i].function) by {
                    if i != last {
                        assert(self.programs@[i] == before[i]);
                    }
                }
                assert forall|i: int| 0 <= i < old(self).programs@.len() - 1 implies self.programs@[i] == old(self).programs@[i] by {
                    assert(self.programs@[i] == before[i]);
                }
            }
        }
    }

    /// The slot of the innermost initialised local named `name` in the
    /// function at `pi`; a local of that name still being initialised
    /// above it is reported.
    fn resolve_local(&mut self, pi: usize, name: &Vec<char>) -> (res: Option<u8>)
        requires
            old(self).inv(),
            pi < old(self).programs@.len(),
        ensures
            parse_frame(*old(self), *final(self)),
            final(self).inv(),
            final(self).programs == old(self).programs,
            final(self).heap == old(self).heap,
            final(self).class_contexts == old(self).class_contexts,
            final(self).parser.same_place(&old(self).parser),
            old(self).parser.had_error ==> final(self).parser.had_error,
            res == match find_local(locals_view(old(self).programs@[pi as int].local_vars@), name@) {
                Some(k) => Some(k as u8),
                None => None::<u8>,
            },
            uninit_shadow(locals_view(old(self).programs@[pi as int].local_vars@), name@)
                ==> final(self).parser.had_error,
    {
        let ghost all = locals_view(self.programs@[pi as int].local_vars@);
        let mut i: usize = self.programs[pi].local_vars.len();
        proof {
            assert(all.take(i as int) =~= all);
        }
        while i > 0
            invariant
                self.inv(),
                self.programs == old(self).programs,
                self.heap == old(self).heap,
                self.class_contexts == old(self).class_contexts,
                self.parser.same_place(&old(self).parser),
                old(self).parser.had_error ==> self.parser.had_error,
                pi < self.programs@.len(),
                all == locals_view(self.programs@[pi as int].local_vars@),
                all.len() <= 256,
                i <= all.len(),
                find_local(all, name@) == find_local(all.take(i as int), name@),
                uninit_shadow(all, name@) ==> self.parser.had_error || uninit_shadow(
                    all.take(i as int),
                    name@,
                ),
            decreases i,
        {
            let ghost cur = all.take(i as int);
            proof {
                assert(cur.last() == self.programs@[pi as int].local_vars@[i - 1]@);
                assert(cur.drop_last() =~= all.take(i - 1));
            }
            let (same, init) = match &self.programs[pi].local_vars[i - 1] {
                LocalVar::LocalBinding { name: n, depth_opt, .. } => (chars_eq(n, name), depth_opt.is_some()),
                LocalVar::GlobalFunction => (false, false),
            };
            if same {
                if !init {
                    self.parser.error("Can't read local variable in its own initializer.");
                } else {
                    return Some((i - 1) as u8);
                }
            }
            i = i - 1;
        }
        None
    }

    /// The place of the upvalue (`index`, `is_local`) of the function at
    /// `pi`: the one it has already, or a new one; past 256 upvalues an
    /// error is reported and there is none.
    fn register_upvalue(&mut self, pi: usize, index: u8, is_local: bool) -> (res: Option<u8>)
        requires
            old(self).inv(),
            pi < old(self).programs@.len(),
        ensures
            parse_frame(*old(self), *final(self)),
            final(self).inv(),
            final(self).heap == old(self).heap,
            final(self).class_contexts == old(self).class_contexts,
            final(self).parser.same_place(&old(self).parser),
            old(self).parser.had_error ==> final(self).parser.had_error,
            final(self).programs@.len() == old(self).programs@.len(),
            forall|j: int| 0 <= j < old(self).programs@.len() && j != pi ==> final(self).programs@[j] == old(self).programs@[j],
            final(self).programs@[pi as int].function_kind == old(self).programs@[pi as int].function_kind,
            final(self).programs@[pi as int].scope_depth == old(self).programs@[pi as int].scope_depth,
            final(self).programs@[pi as int].local_vars == old(self).programs@[pi as int].local_vars,
            final(self).programs@[pi as int].ident_byte_cache == old(self).programs@[pi as int].ident_byte_cache,
            final(self).programs@[pi as int].function.spec_chunk() == old(self).programs@[pi as int].function.spec_chunk(),
            final(self).programs@[pi as int].function.spec_name() == old(self).programs@[pi as int].function.spec_name(),
            final(self).programs@[pi as int].function.spec_arity() == old(self).programs@[pi as int].function.spec_arity(),
            old(self).programs@[pi as int].upvalues@.len() > 255 ==> res is None
                && final(self).parser.had_error && final(self).programs == old(self).programs,
            old(self).programs@[pi as int].upvalues@.len() <= 255 && (exists|k: int|
                first_upvalue(old(self).programs@[pi as int].upvalues@, Upvalue { index, is_local }, k))
                ==> final(self).programs == old(self).programs && res is Some && first_upvalue(
                old(self).programs@[pi as int].upvalues@,
                Upvalue { index, is_local },
                res->0 as int,
            ),
            old(self).programs@[pi as int].upvalues@.len() <= 255 && !(exists|k: int|
                first_upvalue(old(self).programs@[pi as int].upvalues@, Upvalue { index, is_local }, k))
                ==> res == Some(old(self).programs@[pi as int].upvalues@.len() as u8)
                && final(self).programs@[pi as int].upvalues@ == old(self).programs@[pi as int].upvalues@.push(
                Upvalue { index, is_local },
            ),
    {
        let count = self.programs[pi].function.upvalue_count();
        if count > 255 {
            self.parser.error("Too many closure variables in function.");
            return None;
        }
        let target = Upvalue { index, is_local };
        proof {
            assert(self.programs@[pi as int].wf());
        }
        let mut j: usize = 0;
        while j < self.programs[pi].upvalues.len()
            invariant
                self.programs == old(self).programs,
                self.heap == old(self).heap,
                self.parser == old(self).parser,
                self.class_contexts == old(self).class_contexts,
                self.inv(),
                pi < self.programs@.len(),
                self.programs@[pi as int].upvalues@.len() <= 255,
                target.index == index && target.is_local == is_local,
                j <= self.programs@[pi as int].upvalues@.len(),
                forall|m: int| 0 <= m < j ==> #[trigger] self.programs@[pi as int].upvalues@[m] != target,
            decreases self.programs@[pi as int].upvalues@.len() - j,
        {
            if self.programs[pi].upvalues[j] == target {
                proof {
                    let p0 = old(self).programs@[pi as int];
                    assert(p0.wf());
                    assert(p0.upvalues@.len() <= 255);
                    assert(first_upvalue(p0.upvalues@, target, j as int));
                    assert(exists|k: int| first_upvalue(p0.upvalues@, target, k));
                    assert(self.programs@[pi as int] == p0);
                    assert((j as u8) as int == j as int);
                    assert(target == (Upvalue { index, is_local }));
                    assert(first_upvalue(p0.upvalues@, (Upvalue { index, is_local }), j as int));
                }
                return Some(j as u8);
            }
            j = j + 1;
        }
        proof {
            assert forall|k: int| !first_upvalue(old(self).programs@[pi as int].upvalues@, target, k) by {
                if 0 <= k < old(self).programs@[pi as int].upvalues@.len() {
                    assert(self.programs@[pi as int].upvalues@[k] != target);
                }
            }
        }
        let ghost before = self.programs@;
        self.programs[pi].upvalues.push(target);
        self.programs[pi].function.increment_upvalue_count();
        proof {
            assert forall|i: int| 0 <= i < self.programs@.len() implies (#[trigger] self.programs@[i]).wf()
                && fn_refs_live(self.heap.objs(), self.programs@[i].function) by {
                if i != pi {
                    assert(self.programs@[i] == before[i]);
                } else {
                    assert(children(HeapObject::HeapFunction(self.programs@[i].function)) =~= children(
                        HeapObject::HeapFunction(before[i].function),
                    ));
                }
            }
        }
        Some(count as u8)
    }

    /// The upvalue through which the function at `pi` reaches the variable
    /// `name` of an enclosing function, registering it (and marking the
    /// local captured) on the way; none for a global.
    fn resolve_upvalue(&mut self, pi: usize, name: &Vec<char>) -> (res: Option<u8>)
        requires
            old(self).inv(),
            pi < old(self).programs@.len(),
        ensures
            parse_frame(*old(self), *final(self)),
            final(self).inv(),
            final(self).heap == old(self).heap,
            final(self).class_contexts == old(self).class_contexts,
            final(self).parser.same_place(&old(self).parser),
            old(self).parser.had_error ==> final(self).parser.had_error,
            final(self).programs@.len() == old(self).programs@.len(),
            forall|j: int| pi < j < old(self).programs@.len() ==> final(self).programs@[j] == old(self).programs@[j],
            forall|j: int| 0 <= j < old(self).programs@.len() ==> {
                &&& (#[trigger] final(self).programs@[j]).function_kind == old(self).programs@[j].function_kind
                &&& final(self).programs@[j].scope_depth == old(self).programs@[j].scope_depth
                &&& final(self).programs@[j].ident_byte_cache == old(self).programs@[j].ident_byte_cache
                &&& final(self).programs@[j].function.spec_chunk() == old(self).programs@[j].function.spec_chunk()
                &&& final(self).programs@[j].function.spec_name() == old(self).programs@[j].function.spec_name()
                &&& final(self).programs@[j].function.spec_arity() == old(self).programs@[j].function.spec_arity()
                &&& locals_view(final(self).programs@[j].local_vars@).len() == locals_view(old(self).programs@[j].local_vars@).len()
            },
            old(self).programs@[pi as int].function_kind == FunctionKind::Script || pi == 0 ==> res is None,
            res matches Some(k) ==> k < final(self).programs@[pi as int].upvalues@.len(),
            res is Some ==> upvalue_reachable(old(self).programs@, pi as int, name@),
            upvalue_reachable(old(self).programs@, pi as int, name@) && res is None ==> final(self).parser.had_error,
        decreases pi,
    {
        if self.programs[pi].function_kind == FunctionKind::Script || pi == 0 {
            return None;
        }
        let ghost s0 = *self;
        match self.resolve_local(pi - 1, name) {
            Some(li) => {
                proof {
                    let locals = locals_view(s0.programs@[pi - 1].local_vars@);
                    lemma_find_local_bound(locals, name@);
                }
                let ghost before = self.programs@;
                self.programs[pi - 1].local_vars[li as usize].mark_captured();
                proof {
                    assert forall|i: int| 0 <= i < self.programs@.len() implies (#[trigger] self.programs@[i]).wf()
                        && fn_refs_live(self.heap.objs(), self.programs@[i].function) by {
                        if i != pi - 1 {
                            assert(self.programs@[i] == before[i]);
                        }
                    }
                }
                let ghost s1 = *self;
                let res = self.register_upvalue(pi, li, true);
                proof {
                    assert forall|j: int| 0 <= j < old(self).programs@.len() implies {
                        &&& (#[trigger] self.programs@[j]).function_kind == old(self).programs@[j].function_kind
                        &&& self.programs@[j].scope_depth == old(self).programs@[j].scope_depth
                        &&& self.programs@[j].ident_byte_cache == old(self).programs@[j].ident_byte_cache
                        &&& self.programs@[j].function.spec_chunk() == old(self).programs@[j].function.spec_chunk()
                        &&& self.programs@[j].function.spec_name() == old(self).programs@[j].function.spec_name()
                        &&& self.programs@[j].function.spec_arity() == old(self).programs@[j].function.spec_arity()
                        &&& locals_view(self.programs@[j].local_vars@).len() == locals_view(old(self).programs@[j].local_vars@).len()
                    } by {
                        if j != pi {
                            assert(self.programs@[j] == s1.programs@[j]);
                        }
                        if j != pi - 1 {
                            assert(s1.programs@[j] == before[j]);
                        }
                    }
                }
                res
            },
            None => {
                let ghost s1 = *self;
                match self.resolve_upvalue(pi - 1, name) {
                    Some(ui) => {
                        let ghost s2 = *self;
                        let res = self.register_upvalue(pi, ui, false);
                        proof {
                            assert forall|j: int| 0 <= j < old(self).programs@.len() implies {
                                &&& (#[trigger] self.programs@[j]).function_kind == old(self).programs@[j].function_kind
                                &&& self.programs@[j].scope_depth == old(self).programs@[j].scope_depth
                                &&& self.programs@[j].ident_byte_cache == old(self).programs@[j].ident_byte_cache
                                &&& self.programs@[j].function.spec_chunk() == old(self).programs@[j].function.spec_chunk()
                                &&& self.programs@[j].function.spec_name() == old(self).programs@[j].function.spec_name()
                                &&& self.programs@[j].function.spec_arity() == old(self).programs@[j].function.spec_arity()
                                &&& locals_view(self.programs@[j].local_vars@).len() == locals_view(old(self).programs@[j].local_vars@).len()
                            } by {
                                if j != pi {
                                    assert(self.programs@[j] == s2.programs@[j]);
                                }
                                assert((#[trigger] s2.programs@[j]).function_kind == s1.programs@[j].function_kind);
                            }
                        }
                        res
                    },
                    None => None,
                }
            },
        }
    }

    /// Enters a nested scope of the current function.
    fn begin_scope(&mut self)
        requires
            old(self).inv(),
        ensures
            final(self).inv(),
            final(self).programs@.len() == old(self).programs@.len(),
            forall|i: int| 0 <= i < old(self).programs@.len() - 1 ==> final(self).programs@[i] == old(self).programs@[i],
            final(self).heap == old(self).heap,
            final(self).parser == old(self).parser,
            final(self).class_contexts == old(self).class_contexts,
            final(self).top().function_kind == old(self).top().function_kind,
            final(self).top().scope_depth == (old(self).top().scope_depth + 1) % 256,
            final(self).top_code() == old(self).top_code(),
            final(self).top().function == old(self).top().function,
            final(self).top().function.spec_name() == old(self).top().function.spec_name(),
    {
        let last = self.programs.len() - 1;
        let ghost before = self.programs@;
        self.programs[last].begin_scope();
        proof {
            assert forall|i: int| 0 <= i < self.programs@.len() implies (#[trigger] self.programs@[i]).wf()
                && fn_refs_live(self.heap.objs(), self.programs@[i].function) by {
                if i != last {
                    assert(self.programs@[i] == before[i]);
                }
            }
            assert forall|i: int| 0 <= i < old(self).programs@.len() - 1 implies self.programs@[i] == old(self).programs@[i] by {
                assert(self.programs@[i] == before[i]);
            }
        }
    }

    /// Leaves the current scope of the current function, discarding its
    /// locals.
    fn end_scope(&mut self)
        requires
            old(self).inv(),
        ensures
            final(self).inv(),
            final(self).programs@.len() == old(self).programs@.len(),
            forall|i: int| 0 <= i < old(self).programs@.len() - 1 ==> final(self).programs@[i] == old(self).programs@[i],
            final(self).heap == old(self).heap,
            final(self).parser == old(self).parser,
            final(self).class_contexts == old(self).class_contexts,
            final(self).top().function_kind == old(self).top().function_kind,
            final(self).top().scope_depth == (old(self).top().scope_depth + 255) % 256,
            keeps_code(*old(self), *final(self)),
            final(self).top().function.spec_arity() == old(self).top().function.spec_arity(),
            final(self).top().function.spec_name() == old(self).top().function.spec_name(),
    {
        let last = self.programs.len() - 1;
        let ghost before = self.programs@;
        let ops = self.programs[last].end_scope();
        proof {
            assert forall|i: int| 0 <= i < self.programs@.len() implies (#[trigger] self.programs@[i]).wf()
                && fn_refs_live(self.heap.objs(), self.programs@[i].function) by {
                if i != last {
                    assert(self.programs@[i] == before[i]);
                }
            }
            assert forall|i: int| 0 <= i < old(self).programs@.len() - 1 implies self.programs@[i] == old(self).programs@[i] by {
                assert(self.programs@[i] == before[i]);
            }
        }
        let ghost mid = *self;
        let mut k: usize = 0;
        while k < ops.len()
            invariant
                self.inv(),
                self.programs@.len() == mid.programs@.len(),
                forall|i: int| 0 <= i < mid.programs@.len() - 1 ==> self.programs@[i] == mid.programs@[i],
                self.heap == mid.heap,
                self.parser == mid.parser,
                self.class_contexts == mid.class_contexts,
                self.top().function_kind == mid.top().function_kind,
                self.top().scope_depth == mid.top().scope_depth,
                keeps_code(mid, *self),
                self.top().function.spec_arity() == mid.top().function.spec_arity(),
                self.top().function.spec_name() == mid.top().function.spec_name(),
            decreases ops.len() - k,
        {
            self.emit_op(ops[k]);
            k = k + 1;
        }
    }

    /// Compiles an expression at the loosest level.
    fn parse_expression(&mut self)
        requires
            old(self).inv_base(),
        ensures
            parse_frame(*old(self), *final(self)),
            progress(*old(self), *final(self)),
            !final(self).parser.had_error ==> expr_end(old(self).parser.source@, old(self).parser.place(), 1)
                == Some(final(self).parser.place()),
            lone_number_at(*old(self)) ==> number_loaded(*old(self), *final(self)),
        decreases old(self).parser.remaining(), 2nat,
    {
        self.parse_precedence(Precedence::Assignment);
    }

    /// Compiles an expression whose operators bind at least as tightly as
    /// `p`: one prefix routine, then infix routines while the next operator
    /// binds tightly enough.
    fn parse_precedence(&mut self, p: Precedence)
        requires
            old(self).inv_base(),
            prec_rank(p) >= 1,
        ensures
            parse_frame(*old(self), *final(self)),
            progress(*old(self), *final(self)),
            !final(self).parser.had_error ==> prec_rank(spec_rule_for(cur_type(*final(self))@).precedence)
                < prec_rank(p),
            !final(self).parser.had_error ==> expr_end(
                old(self).parser.source@,
                old(self).parser.place(),
                prec_rank(p),
            ) == Some(final(self).parser.place()),
            lone_number_at(*old(self)) ==> number_loaded(*old(self), *final(self)),
        decreases old(self).parser.remaining(), 1nat,
    {
        let ghost src = self.parser.source@;
        let ghost start = self.parser.place();
        let ghost r = prec_rank(p);
        let ghost lone = lone_number_at(*old(self));
        proof {
            self.parser.lemma_place_ok();
        }
        self.parser.advance();
        let prefix = match &self.parser.previous_token_opt {
            Some(t) => rule_for(&t.typ).prefix,
            None => None,
        };
        match prefix {
            Some(f) => {
                proof {
                    assert(start.0 == self.parser.previous_token_opt->0@);
                    assert(spec_rule_for(TokenType::Eof@).prefix is None);
                    assert(!is_eof(start.0));
                    lemma_adv(src, start);
                    self.parser.lemma_place_ok();
                }
                let can_assign = p.at_most(Precedence::Assignment);
                self.apply(f, can_assign);
                let ghost after_prefix = *self;
                proof {
                    if lone {
                        assert(f == ParseFn::Number);
                        assert(number_loaded(*old(self), *self));
                        assert(spec_rule_for(TokenType::Semicolon@).precedence == Precedence::Bupkis);
                    }
                    self.parser.lemma_place_ok();
                    if !self.parser.had_error {
                        assert(expr_end(src, start, r) == infix_end(src, self.parser.place(), r));
                    }
                }
                loop
                    invariant_except_break
                        lone ==> *self == after_prefix,
                    invariant
                        parse_frame(*old(self), *self),
                        self.parser.remaining() < old(self).parser.remaining(),
                        prec_rank(p) >= 1,
                        r == prec_rank(p),
                        lone ==> number_loaded(*old(self), after_prefix),
                        lone == lone_number_at(*old(self)),
                        start == old(self).parser.place(),
                        lone ==> spec_rule_for(TokenType::Semicolon@).precedence == Precedence::Bupkis,
                        can_assign == (r <= 1),
                        src == self.parser.source@,
                        !self.parser.had_error ==> expr_end(src, start, r) == infix_end(src, self.parser.place(), r),
                    ensures
                        parse_frame(*old(self), *self),
                        self.parser.remaining() < old(self).parser.remaining(),
                        prec_rank(spec_rule_for(cur_type(*self)@).precedence) < prec_rank(p),
                        !self.parser.had_error ==> expr_end(src, start, r) == infix_end(src, self.parser.place(), r),
                        lone ==> *self == after_prefix,
                    decreases self.parser.remaining(),
                {
                    let ghost e = self.parser.place();
                    proof {
                        self.parser.lemma_place_ok();
                    }
                    let cur_prec = match &self.parser.current_token_opt {
                        Some(t) => rule_for(&t.typ).precedence,
                        None => Precedence::Bupkis,
                    };
                    proof {
                        if lone {
                            assert(*self == after_prefix);
                            assert(e == adv(src, start));
                            assert(e.0.typ == TokenType::Semicolon@);
                            assert(self.parser.current_token_opt->0.typ@ == TokenType::Semicolon@);
                            assert(cur_prec == Precedence::Bupkis);
                        }
                    }
                    if !p.at_most(cur_prec) {
                        break ;
                    }
                    proof {
                        lemma_rule_not_primary(self.parser.current_token_opt->0.typ@);
                        assert(infix_rank(e.0) >= r);
                        assert(prec_rank(spec_rule_for(TokenType::Eof@).precedence) == 0);
                        assert(!is_eof(e.0));
                        lemma_adv(src, e);
                    }
                    self.parser.advance();
                    proof {
                        self.parser.lemma_place_ok();
                    }
                    let infix = match &self.parser.previous_token_opt {
                        Some(t) => rule_for(&t.typ).infix,
                        None => None,
                    };
                    match infix {
                        Some(g) => self.apply(g, can_assign),
                        None => {},
                    }
                    proof {
                        self.parser.lemma_place_ok();
                        if !self.parser.had_error {
                            assert(infix_end(src, e, r) == infix_end(src, self.parser.place(), r));
                        }
                    }
                }
                let ghost e = self.parser.place();
                if can_assign && self.token_is_a(&TokenType::Equal) {
                    self.parser.error("Invalid assignment target.");
                }
                proof {
                    if !self.parser.had_error {
                        assert(infix_end(src, e, r) == Some(e));
                    }
                }
            },
            None => {
                self.parser.error("Expect expression.");
            },
        }
    }

    /// Runs the parsing routine `f`.
    fn apply(&mut self, f: ParseFn, can_assign: bool)
        requires
            old(self).inv(),
        ensures
            parse_frame(*old(self), *final(self)),
            parse_fn_effect(f, *old(self), *final(self), can_assign),
        decreases old(self).parser.remaining(), 7nat,
    {
        match f {
            ParseFn::And => self.parse_and(can_assign),
            ParseFn::Binary => self.parse_binary(can_assign),
            ParseFn::Dot => self.parse_dot(can_assign),
            ParseFn::FunctionCall => self.parse_function_call(can_assign),
            ParseFn::Grouping => self.parse_grouping(can_assign),
            ParseFn::Literal => self.parse_literal(can_assign),
            ParseFn::Number => self.parse_number(can_assign),
            ParseFn::Or => self.parse_or(can_assign),
            ParseFn::String => self.parse_string(can_assign),
            ParseFn::Super => self.parse_super(can_assign),
            ParseFn::This => self.parse_this(can_assign),
            ParseFn::Unary => self.parse_unary(can_assign),
            ParseFn::VarReference => self.parse_var_reference(can_assign),
        }
    }

    /// The right operand of `and`: skipped when the left one is false.
    fn parse_and(&mut self, can_assign: bool)
        requires
            old(self).inv(),
        ensures
            parse_frame(*old(self), *final(self)),
            parse_fn_effect(ParseFn::And, *old(self), *final(self), can_assign),
        decreases old(self).parser.remaining(), 3nat,
    {
        let end_jt = self.emit_jump(OpCode::JumpIfFalse);
        self.emit_op(OpCode::Pop);
        self.parse_precedence(Precedence::And);
        self.fill_in_jump_target(end_jt);
    }

    /// The right operand of a binary operator, then the operator's code.
    #[verifier::spinoff_prover]
    #[verifier::rlimit(40)]
    fn parse_binary(&mut self, can_assign: bool)
        requires
            old(self).inv(),
        ensures
            parse_frame(*old(self), *final(self)),
            parse_fn_effect(ParseFn::Binary, *old(self), *final(self), can_assign),
        decreases old(self).parser.remaining(), 3nat,
    {
        let operator_type = match &self.parser.previous_token_opt {
            Some(t) => t.typ.duplicate(),
            None => TokenType::Eof,
        };
        let rule = rule_for(&operator_type);
        proof {
            lemma_rule_not_primary(operator_type@);
        }
        self.parse_precedence(rule.precedence.next());
        let ghost mid = self.top_code();
        match operator_type {
            TokenType::BangEqual => {
                self.emit_op(OpCode::Equal);
                self.emit_op(OpCode::Not);
            },
            TokenType::Bang => self.emit_op(OpCode::Not),
            TokenType::EqualEqual => self.emit_op(OpCode::Equal),
            TokenType::GreaterEqual => {
                self.emit_op(OpCode::Less);
                self.emit_op(OpCode::Not);
            },
            TokenType::Greater => self.emit_op(OpCode::Greater),
            TokenType::LessEqual => {
                self.emit_op(OpCode::Greater);
                self.emit_op(OpCode::Not);
            },
            TokenType::Less => self.emit_op(OpCode::Less),
            TokenType::Minus => self.emit_op(OpCode::Subtract),
            TokenType::Plus => self.emit_op(OpCode::Add),
            TokenType::Slash => self.emit_op(OpCode::Divide),
            TokenType::Star => self.emit_op(OpCode::Multiply),
            _ => {},
        }
        proof {
            let tail = binary_code(prev_type(*old(self)));
            assert(self.top_code() =~= mid + tail);
            assert(self.top_code().subrange(self.top_code().len() - tail.len(), self.top_code().len() as int) =~= tail);
        }
    }

    /// A property access, assignment or method call after a dot.
    #[verifier::spinoff_prover]
    #[verifier::rlimit(40)]
    fn parse_dot(&mut self, can_assign: bool)
        requires
            old(self).inv(),
        ensures
            parse_frame(*old(self), *final(self)),
            parse_fn_effect(ParseFn::Dot, *old(self), *final(self), can_assign),
        decreases old(self).parser.remaining(), 4nat,
    {
        let ghost src = self.parser.source@;
        let ghost q = self.parser.place();
        proof {
            self.parser.lemma_place_ok();
        }
        let property_opt = self.parser.consume_ident("Expect property name after '.'.");
        if property_opt.is_some() {
            let name_byte = self.make_ident_constant();
            let ghost n = self.parser.place();
            proof {
                assert(n == adv(src, q));
                assert(q.0.typ is Identifier);
                lemma_adv(src, q);
                lemma_adv(src, n);
            }
            if can_assign && self.token_is_a(&TokenType::Equal) {
                self.parse_expression();
                self.emit_op_arg(OpCode::SetProperty, name_byte);
            } else if self.token_is_a(&TokenType::LeftParen) {
                let arg_count = self.parse_args();
                self.emit_op_arg(OpCode::Invoke, name_byte);
                self.emit_byte(Byte::Raw(arg_count));
            } else {
                self.emit_op_arg(OpCode::GetProperty, name_byte);
            }
        }
    }

    /// The arguments of a call, up to the closing parenthesis; their count
    /// (more than 255 is reported; the count wraps as a byte).
    fn parse_args(&mut self) -> (res: u8)
        requires
            old(self).inv(),
        ensures
            parse_frame(*old(self), *final(self)),
            !final(self).parser.had_error ==> prev_type(*final(self))@ == TokenType::RightParen@,
            cur_type(*old(self))@ == TokenType::RightParen@ ==> res == 0 && final(self).top_code() == old(self).top_code(),
            !final(self).parser.had_error ==> args_end(old(self).parser.source@, old(self).parser.place()) == Some(
                final(self).parser.place(),
            ),
        decreases old(self).parser.remaining(), 3nat,
    {
        let ghost src = self.parser.source@;
        let ghost q = self.parser.place();
        let mut arg_count: u8 = 0;
        if !self.parser.check(&TokenType::RightParen) {
            loop
                invariant_except_break
                    !self.parser.had_error ==> arg_list_end(src, q) == arg_list_end(src, self.parser.place()),
                invariant
                    parse_frame(*old(self), *self),
                    src == self.parser.source@,
                    self.parser.remaining() <= old(self).parser.remaining(),
                ensures
                    parse_frame(*old(self), *self),
                    !self.parser.had_error ==> arg_list_end(src, q) == if self.parser.place().0.typ
                        == TokenType::RightParen@ {
                        Some(adv(src, self.parser.place()))
                    } else {
                        None
                    },
                decreases self.parser.remaining(),
            {
                let ghost p0 = self.parser.place();
                proof {
                    self.parser.lemma_place_ok();
                }
                self.parse_expression();
                if arg_count == 255 {
                    self.parser.error("Can't have more than 255 arguments.");
                }
                arg_count = arg_count.wrapping_add(1);
                let ghost e = self.parser.place();
                proof {
                    self.parser.lemma_place_ok();
                }
                let more = self.token_is_a(&TokenType::Comma);
                proof {
                    if !self.parser.had_error {
                        assert(expr_end(src, p0, 1) == Some(e));
                        if more {
                            lemma_adv(src, e);
                            assert(arg_list_end(src, p0) == arg_list_end(src, self.parser.place()));
                        } else {
                            assert(arg_list_end(src, p0) == if e.0.typ == TokenType::RightParen@ {
                                Some(adv(src, e))
                            } else {
                                None
                            });
                        }
                    }
                }
                if !more {
                    break ;
                }
            }
        }
        self.parser.consume(&TokenType::RightParen, "Expect ')' after arguments.");
        arg_count
    }

    /// A call's arguments and the call.
    fn parse_function_call(&mut self, can_assign: bool)
        requires
            old(self).inv(),
        ensures
            parse_frame(*old(self), *final(self)),
            parse_fn_effect(ParseFn::FunctionCall, *old(self), *final(self), can_assign),
        decreases old(self).parser.remaining(), 4nat,
    {
        let arg_count = self.parse_args();
        self.emit_op_arg(OpCode::FnCall, arg_count);
    }

    /// A parenthesised expression.
    fn parse_grouping(&mut self, can_assign: bool)
        requires
            old(self).inv(),
        ensures
            parse_frame(*old(self), *final(self)),
            parse_fn_effect(ParseFn::Grouping, *old(self), *final(self), can_assign),
        decreases old(self).parser.remaining(), 3nat,
    {
        self.parse_expression();
        self.parser.consume(&TokenType::RightParen, "Expect ')' after expression.");
    }

    /// `false`, `nil` or `true`.
    fn parse_literal(&mut self, can_assign: bool)
        requires
            old(self).inv(),
        ensures
            parse_frame(*old(self), *final(self)),
            parse_fn_effect(ParseFn::Literal, *old(self), *final(self), can_assign),
    {
        let op = match &self.parser.previous_token_opt {
            Some(t) => match t.typ {
                TokenType::False => Some(OpCode::False),
                TokenType::Nil => Some(OpCode::Nil),
                TokenType::True => Some(OpCode::True),
                _ => None,
            },
            None => None,
        };
        match op {
            Some(o) => self.emit_op(o),
            None => {},
        }
        proof {
            assert(self.top_code() =~= old(self).top_code() + literal_code(prev_type(*old(self))));
        }
    }

    /// A number literal, kept as a constant with its text.
    fn parse_number(&mut self, can_assign: bool)
        requires
            old(self).inv(),
        ensures
            parse_frame(*old(self), *final(self)),
            parse_fn_effect(ParseFn::Number, *old(self), *final(self), can_assign),
    {
        let text = match &self.parser.previous_token_opt {
            Some(t) => match &t.typ {
                TokenType::Number(x) => Some(crate::text::copy_chars(x)),
                _ => None,
            },
            None => None,
        };
        match text {
            Some(x) => self.emit_constant(Value::Double(x)),
            None => {},
        }
    }

    /// The right operand of `or`: skipped when the left one is true.
    fn parse_or(&mut self, can_assign: bool)
        requires
            old(self).inv(),
        ensures
            parse_frame(*old(self), *final(self)),
            parse_fn_effect(ParseFn::Or, *old(self), *final(self), can_assign),
        decreases old(self).parser.remaining(), 3nat,
    {
        let else_jt = self.emit_jump(OpCode::JumpIfFalse);
        let end_jt = self.emit_jump(OpCode::Jump);
        self.fill_in_jump_target(else_jt);
        self.emit_op(OpCode::Pop);
        self.parse_precedence(Precedence::Or);
        self.fill_in_jump_target(end_jt);
    }

    /// A string literal: the text between the quotes, interned.
    fn parse_string(&mut self, can_assign: bool)
        requires
            old(self).inv(),
        ensures
            parse_frame(*old(self), *final(self)),
            parse_fn_effect(ParseFn::String, *old(self), *final(self), can_assign),
    {
        let loc = match &self.parser.previous_token_opt {
            Some(t) => t.loc,
            None => SourceLoc { start_index: 0, line_num: 0, column: 0, length: 0 },
        };
        let inner = SourceLoc {
            start_index: if loc.start_index < u32::MAX {
                loc.start_index + 1
            } else {
                loc.start_index
            },
            line_num: loc.line_num,
            column: loc.column,
            length: if loc.length >= 2 {
                loc.length - 2
            } else {
                0
            },
        };
        proof {
            assert(inner == string_body(old(self).parser.previous_token_opt->0.loc));
        }
        let gc_ptr = self.intern(inner);
        proof {
            self.heap.lemma_text_live(gc_ptr.0);
        }
        self.emit_constant(Value::Reference(gc_ptr));
        proof {
            assert(loads_constant(*old(self), *self, ValueView::Reference(gc_ptr.0)));
        }
    }

    /// A method of the superclass: `super.name`, called or not.
    #[verifier::spinoff_prover]
    #[verifier::rlimit(40)]
    fn parse_super(&mut self, can_assign: bool)
        requires
            old(self).inv(),
        ensures
            parse_frame(*old(self), *final(self)),
            parse_fn_effect(ParseFn::Super, *old(self), *final(self), can_assign),
        decreases old(self).parser.remaining(), 4nat,
    {
        let n = self.class_contexts.len();
        if n == 0 {
            self.parser.error("Can't use 'super' outside of a class.");
        } else if !self.class_contexts[n - 1].has_superclass {
            self.parser.error("Can't use 'super' in a class with no superclass.");
        }
        let ghost src = self.parser.source@;
        let ghost q = self.parser.place();
        proof {
            self.parser.lemma_place_ok();
        }
        self.parser.consume(&TokenType::Dot, "Expect '.' after 'super'.");
        let ghost m = self.parser.place();
        proof {
            if !self.parser.had_error {
                assert(m == adv(src, q));
                lemma_adv(src, q);
            }
        }
        let method_name_opt = self.parser.consume_ident("Expect superclass method name.");
        if method_name_opt.is_some() {
            let name_byte = self.make_ident_constant();
            let this_ptr = self.heap.this_ptr();
            proof {
                self.heap.lemma_names();
            }
            let ghost n = self.parser.place();
            proof {
                if !self.parser.had_error {
                    assert(n == adv(src, m));
                    lemma_adv(src, m);
                    lemma_adv(src, n);
                }
            }
            self.reference_named_variable(this_ptr, false);
            if self.token_is_a(&TokenType::LeftParen) {
                let arg_count = self.parse_args();
                let super_ptr = self.heap.super_ptr();
                proof {
                    self.heap.lemma_names();
                }
                self.reference_named_variable(super_ptr, false);
                self.emit_op_arg(OpCode::SuperInvoke, name_byte);
                self.emit_byte(Byte::Raw(arg_count));
            } else {
                let super_ptr = self.heap.super_ptr();
                proof {
                    self.heap.lemma_names();
                }
                self.reference_named_variable(super_ptr, false);
                self.emit_op_arg(OpCode::GetSuper, name_byte);
            }
        }
    }

    /// `this`, which only a method may use.
    fn parse_this(&mut self, can_assign: bool)
        requires
            old(self).inv(),
        ensures
            parse_frame(*old(self), *final(self)),
            parse_fn_effect(ParseFn::This, *old(self), *final(self), can_assign),
        decreases old(self).parser.remaining(), 6nat,
    {
        if self.class_contexts.len() == 0 {
            self.parser.error("Can't use 'this' outside of a class.");
        } else {
            self.parse_var_reference(false);
        }
    }

    /// A prefix `-` or `!` and its operand.
    fn parse_unary(&mut self, can_assign: bool)
        requires
            old(self).inv(),
        ensures
            parse_frame(*old(self), *final(self)),
            parse_fn_effect(ParseFn::Unary, *old(self), *final(self), can_assign),
        decreases old(self).parser.remaining(), 3nat,
    {
        let operator_type = match &self.parser.previous_token_opt {
            Some(t) => t.typ.duplicate(),
            None => TokenType::Eof,
        };
        self.parse_precedence(Precedence::Unary);
        let ghost mid = self.top_code();
        match operator_type {
            TokenType::Minus => self.emit_op(OpCode::Negate),
            TokenType::Bang => self.emit_op(OpCode::Not),
            _ => {},
        }
        proof {
            let tail = unary_code(prev_type(*old(self)));
            assert(self.top_code() =~= mid + tail);
            assert(self.top_code().subrange(self.top_code().len() - tail.len(), self.top_code().len() as int) =~= tail);
        }
    }

    /// A variable named by the previous token.
    fn parse_var_reference(&mut self, can_assign: bool)
        requires
            old(self).inv(),
        ensures
            parse_frame(*old(self), *final(self)),
            parse_fn_effect(ParseFn::VarReference, *old(self), *final(self), can_assign),
        decreases old(self).parser.remaining(), 5nat,
    {
        self.make_named_variable(can_assign);
    }

    /// Reads or assigns the variable that the previous token names.
    fn make_named_variable(&mut self, can_assign: bool)
        requires
            old(self).inv(),
        ensures
            parse_frame(*old(self), *final(self)),
            names_prev_variable(*old(self), *final(self), can_assign),
            !final(self).parser.had_error ==> var_end(old(self).parser.source@, old(self).parser.place(), can_assign)
                == Some(final(self).parser.place()),
        decreases old(self).parser.remaining(), 4nat,
    {
        let loc = match &self.parser.previous_token_opt {
            Some(t) => t.loc,
            None => SourceLoc { start_index: 0, line_num: 0, column: 0, length: 0 },
        };
        let gc_ptr = self.intern(loc);
        let ghost mid = *self;
        self.reference_named_variable(gc_ptr, can_assign);
        proof {
            assert(mid.programs == old(self).programs);
            if old(self).heap.has_room(1) {
                assert(names_variable(mid, *self, prev_text(*old(self)), can_assign));
                lemma_names_variable_same(mid, *old(self), *self, prev_text(*old(self)), can_assign);
            }
        }
    }

    /// Reads or assigns the variable named by the string in `name_gc_ptr`:
    /// a local of the current function, an upvalue, or a global.
    #[verifier::spinoff_prover]
    #[verifier::rlimit(40)]
    fn reference_named_variable(&mut self, name_gc_ptr: GcPtr, can_assign: bool)
        requires
            old(self).inv(),
            text_at(old(self).heap.objs(), name_gc_ptr.0) is Some,
        ensures
            parse_frame(*old(self), *final(self)),
            names_variable(*old(self), *final(self), text_at(old(self).heap.objs(), name_gc_ptr.0)->0, can_assign),
            !final(self).parser.had_error ==> var_end(old(self).parser.source@, old(self).parser.place(), can_assign)
                == Some(final(self).parser.place()),
        decreases old(self).parser.remaining(), 3nat,
    {
        let name = match self.heap.object(name_gc_ptr) {
            HeapObject::HeapString(so) => crate::text::copy_chars(&so.chars),
            _ => Vec::new(),
        };
        let ghost src = self.parser.source@;
        let ghost q = self.parser.place();
        proof {
            self.parser.lemma_place_ok();
            if can_assign && q.0.typ == TokenType::Equal@ {
                lemma_adv(src, q);
            }
        }
        let top = self.programs.len() - 1;
        let local = self.resolve_local(top, &name);
        let ghost s1 = *self;
        let mut upvalue: Option<u8> = None;
        let (arg, get_op, set_op) = match local {
            Some(i) => (i, OpCode::GetLocal, OpCode::SetLocal),
            None => {
                upvalue = self.resolve_upvalue(top, &name);
                match upvalue {
                    Some(u) => (u, OpCode::GetUpvalue, OpCode::SetUpvalue),
                    None => {
                        proof {
                            self.heap.lemma_text_live(name_gc_ptr.0);
                        }
                        (self.reference_ident_constant(name_gc_ptr), OpCode::GetGlobal, OpCode::SetGlobal)
                    },
                }
            },
        };
        let ghost s2 = *self;
        proof {
            assert(s1.programs == old(self).programs);
            assert(s2.top_code() == old(self).top_code());
            assert(s2.parser.place() == q);
        }
        if can_assign && self.token_is_a(&TokenType::Equal) {
            self.parse_expression();
            self.emit_op_arg(set_op, arg);
            proof {
                assert(self.top_code().subrange(self.top_code().len() - 2, self.top_code().len() as int)
                    =~= seq![Byte::Named(set_op), Byte::Raw(arg)]);
            }
        } else {
            self.emit_op_arg(get_op, arg);
        }
        proof {
            assert(accesses(*old(self), *self, get_op, set_op, arg, can_assign));
        }
    }

    /// An expression statement: the value is discarded.
    #[verifier::spinoff_prover]
    fn parse_expr_stmt(&mut self)
        requires
            old(self).inv_base(),
        ensures
            parse_frame(*old(self), *final(self)),
            progress(*old(self), *final(self)),
            !final(self).parser.had_error ==> expr_stmt_end(old(self).parser.source@, old(self).parser.place())
                == Some(final(self).parser.place()),
        decreases old(self).parser.remaining(), 3nat,
    {
        self.parse_expression();
        self.parser.consume(&TokenType::Semicolon, "Expect ';' after expression.");
        self.emit_op(OpCode::Pop);
    }

    /// The name of a declared variable: declared as a local inside a
    /// scope (giving 0), or as the constant index of its name.
    fn parse_variable(&mut self, error_message: &str) -> (res: u8)
        requires
            old(self).inv(),
        ensures
            parse_frame(*old(self), *final(self)),
            !(cur_type(*old(self)) is Identifier) ==> res == 0 && final(self).parser.had_error
                && final(self).programs == old(self).programs,
            !final(self).parser.had_error ==> final(self).parser.place() == adv(
                old(self).parser.source@,
                old(self).parser.place(),
            ),
            cur_type(*old(self)) matches TokenType::Identifier(nm) ==> if old(self).top().scope_depth > 0 {
                &&& res == 0
                &&& final(self).top_code() == old(self).top_code()
                &&& declared_in_scope(
                    locals_view(old(self).top().local_vars@),
                    nm@,
                    old(self).top().scope_depth,
                ) ==> final(self).parser.had_error
                &&& if old(self).top().local_vars@.len() > 255 {
                    final(self).parser.had_error && final(self).top().local_vars == old(
                        self,
                    ).top().local_vars
                } else {
                    locals_view(final(self).top().local_vars@) == locals_view(
                        old(self).top().local_vars@,
                    ).push(LocalView::LocalBinding { name: nm@, depth_opt: None, is_captured: false })
                }
            } else {
                &&& final(self).top().local_vars == old(self).top().local_vars
                &&& exists|p: usize| #[trigger] ident_constant_at(*old(self), *final(self), cur_text(*old(self)), p, res)
            },
    {
        match self.parser.consume_ident(error_message) {
            Some(name) => {
                self.declare_variable(name);
                let last = self.programs.len() - 1;
                if self.programs[last].scope_depth > 0 {
                    0
                } else {
                    let ghost s2 = *self;
                    let r = self.make_ident_constant();
                    proof {
                        assert(s2.programs == old(self).programs);
                        assert(s2.heap == old(self).heap);
                        assert(prev_text(s2) == cur_text(*old(self)));
                        let p = choose|p: usize| #[trigger] ident_constant_at(s2, *self, prev_text(s2), p, r);
                        assert(ident_constant_at(*old(self), *self, cur_text(*old(self)), p, r));
                    }
                    r
                }
            },
            None => 0,
        }
    }

    /// A `var` declaration, with or without an initial value.
    #[verifier::spinoff_prover]
    fn parse_var_decl(&mut self)
        requires
            old(self).inv(),
        ensures
            parse_frame(*old(self), *final(self)),
            old(self).top().scope_depth == 0 ==> ends_with_op(
                final(self).top_code(),
                old(self).top_code().len() as int,
                OpCode::DefineGlobal,
                1,
            ),
            !(cur_type(*old(self)) is Identifier) ==> final(self).parser.had_error,
            !final(self).parser.had_error ==> var_decl_end(old(self).parser.source@, old(self).parser.place())
                == Some(final(self).parser.place()),
        decreases old(self).parser.remaining(), 4nat,
    {
        let global_var = self.parse_variable("Expect variable name.");
        if self.token_is_a(&TokenType::Equal) {
            self.parse_expression();
        } else {
            self.emit_op(OpCode::Nil);
        }
        self.parser.consume(&TokenType::Semicolon, "Expect ';' after variable declaration.");
        self.define_variable(global_var);
    }

    /// A `return` statement.
    #[verifier::spinoff_prover]
    fn parse_return(&mut self)
        requires
            old(self).inv(),
        ensures
            parse_frame(*old(self), *final(self)),
            old(self).top().function_kind == FunctionKind::Script ==> final(self).parser.had_error
                && final(self).top_code() == old(self).top_code(),
            old(self).top().function_kind != FunctionKind::Script && cur_type(*old(self))@ == TokenType::Semicolon@
                ==> final(self).top_code() == old(self).top_code() + return_code(old(self).top().function_kind),
            old(self).top().function_kind != FunctionKind::Script && cur_type(*old(self))@ != TokenType::Semicolon@
                ==> ends_with(final(self).top_code(), old(self).top_code().len() as int, seq![Byte::Named(OpCode::Return)])
                && (old(self).top().function_kind == FunctionKind::Initializer ==> final(self).parser.had_error),
        decreases old(self).parser.remaining(), 3nat,
    {
        let last = self.programs.len() - 1;
        let kind = self.programs[last].function_kind;
        if kind == FunctionKind::Script {
            self.parser.error("Can't return from top-level code.");
        } else if self.token_is_a(&TokenType::Semicolon) {
            self.emit_return();
            proof {
                assert(self.top_code() =~= old(self).top_code() + return_code(kind));
            }
        } else {
            if kind == FunctionKind::Initializer {
                self.parser.error("Can't return a value from an initializer.");
            }
            self.parse_expression();
            self.parser.consume(&TokenType::Semicolon, "Expect ';' after return value.");
            self.emit_op(OpCode::Return);
            proof {
                assert(self.top_code().subrange(self.top_code().len() - 1, self.top_code().len() as int)
                    =~= seq![Byte::Named(OpCode::Return)]);
            }
        }
    }

    /// A statement.
    #[verifier::spinoff_prover]
    fn parse_statement(&mut self)
        requires
            old(self).inv_base(),
        ensures
            parse_frame(*old(self), *final(self)),
            progress(*old(self), *final(self)),
            number_print_ready(*old(self)) ==> number_printed(*old(self), *final(self)),
        decreases old(self).parser.remaining(), 8nat,
    {
        let ghost src = self.parser.source@;
        let ghost ready = number_print_ready(*old(self));
        if self.token_is_a(&TokenType::Print) {
            let ghost s1 = *self;
            proof {
                if ready {
                    assert(s1.parser.place() == adv(src, old(self).parser.place()));
                    assert(lone_number_at(s1));
                }
            }
            self.parse_expression();
            let ghost s2 = *self;
            self.parser.consume(&TokenType::Semicolon, "Expect ';' after value.");
            self.emit_op(OpCode::Print);
            proof {
                if ready {
                    assert(number_loaded(s1, s2));
                    assert(current_number_text(s1) == number_print_text(src, old(self).parser.place()));
                    assert(s2.parser.place().0.typ == TokenType::Semicolon@);
                    assert(self.top_code() =~= old(self).top_code() + seq![
                        Byte::Named(OpCode::Constant),
                        Byte::Raw(top_constants(*old(self)).len() as u8),
                        Byte::Named(OpCode::Print),
                    ]);
                    assert(number_printed(*old(self), *self));
                }
            }
        } else if self.token_is_a(&TokenType::If) {
            self.parse_if_else();
        } else if self.token_is_a(&TokenType::For) {
            self.parse_for();
        } else if self.token_is_a(&TokenType::Return) {
            self.parse_return();
        } else if self.token_is_a(&TokenType::While) {
            self.parse_while();
        } else if self.token_is_a(&TokenType::LeftBrace) {
            self.begin_scope();
            self.parse_block();
            self.end_scope();
        } else {
            self.parse_expr_stmt();
        }
    }

    /// An `if` statement with an optional `else`.
    #[verifier::spinoff_prover]
    fn parse_if_else(&mut self)
        requires
            old(self).inv(),
        ensures
            parse_frame(*old(self), *final(self)),
            exists|c: int, e: int| #[trigger] if_shape(*final(self), old(self).top_code().len() as int, c, e),
        decreases old(self).parser.remaining(), 9nat,
    {
        self.parser.consume(&TokenType::LeftParen, "Expect '(' after 'if'.");
        self.parse_expression();
        self.parser.consume(&TokenType::RightParen, "Expect ')' after condition.");
        let ghost n = old(self).top_code().len() as int;
        let ghost c = self.top_code().len() as int;
        let consequent_jt = self.emit_jump(OpCode::JumpIfFalse);
        self.emit_op(OpCode::Pop);
        proof {
            assert(self.top_code()[c] == Byte::Named(OpCode::JumpIfFalse));
            assert(self.top_code()[c + 3] == Byte::Named(OpCode::Pop));
        }
        self.parse_statement();
        let ghost e = self.top_code().len() as int;
        let alternative_jt = self.emit_jump(OpCode::Jump);
        self.fill_in_jump_target(consequent_jt);
        self.emit_op(OpCode::Pop);
        let ghost s1 = *self;
        proof {
            assert(jump_at(s1.top_code(), c, OpCode::JumpIfFalse, e + 3));
            assert(s1.top_code()[c + 3] == Byte::Named(OpCode::Pop));
            assert(s1.top_code()[e] == Byte::Named(OpCode::Jump));
            assert(s1.top_code()[e + 3] == Byte::Named(OpCode::Pop));
            assert(e - c > u16::MAX ==> s1.parser.had_error);
        }
        if self.token_is_a(&TokenType::Else) {
            self.parse_statement();
        }
        let ghost s2 = *self;
        proof {
            assert(keeps_code(s1, s2));
            assert(jump_at(s2.top_code(), c, OpCode::JumpIfFalse, e + 3));
            assert(s2.top_code()[c + 3] == Byte::Named(OpCode::Pop));
            assert(s2.top_code()[e] == Byte::Named(OpCode::Jump));
            assert(s2.top_code()[e + 3] == Byte::Named(OpCode::Pop));
        }
        self.fill_in_jump_target(alternative_jt);
        proof {
            assert(if_shape(*self, n, c, e));
        }
    }

    /// A `while` loop.
    #[verifier::spinoff_prover]
    fn parse_while(&mut self)
        requires
            old(self).inv(),
        ensures
            parse_frame(*old(self), *final(self)),
            ({
                let code = final(self).top_code();
                let e = code.len() as int;
                &&& e >= old(self).top_code().len() + 8
                &&& code[e - 1] == Byte::Named(OpCode::Pop)
                &&& loop_at(code, e - 4, old(self).top_code().len() as int)
                &&& e - 1 - old(self).top_code().len() > u16::MAX ==> final(self).parser.had_error
                &&& exists|c: int| #[trigger] while_exit(*final(self), old(self).top_code().len() as int, c)
            }),
        decreases old(self).parser.remaining(), 9nat,
    {
        let last = self.programs.len() - 1;
        let loop_start = self.programs[last].function.chunk().count();
        self.parser.consume(&TokenType::LeftParen, "Expect '(' after 'while'.");
        self.parse_expression();
        self.parser.consume(&TokenType::RightParen, "Expect ')' after condition.");
        let ghost n = old(self).top_code().len() as int;
        let ghost c = self.top_code().len() as int;
        let exit_jt = self.emit_jump(OpCode::JumpIfFalse);
        self.emit_op(OpCode::Pop);
        proof {
            assert(self.top_code()[c] == Byte::Named(OpCode::JumpIfFalse));
            assert(self.top_code()[c + 3] == Byte::Named(OpCode::Pop));
        }
        self.parse_statement();
        let ghost l = self.top_code().len() as int;
        self.emit_loop(loop_start);
        proof {
            assert(loop_at(self.top_code(), l, n));
            assert(self.top_code()[c] == Byte::Named(OpCode::JumpIfFalse));
            assert(self.top_code()[c + 3] == Byte::Named(OpCode::Pop));
        }
        self.fill_in_jump_target(exit_jt);
        self.emit_op(OpCode::Pop);
        proof {
            assert(loop_at(self.top_code(), l, n));
            assert(while_exit(*self, n, c));
        }
    }

    /// A `for` loop, with its own scope for the loop variable.
    #[verifier::rlimit(100)]
    #[verifier::spinoff_prover]
    fn parse_for(&mut self)
        requires
            old(self).inv(),
        ensures
            parse_frame(*old(self), *final(self)),
            exists|l: int, t: int| #[trigger] loop_at(final(self).top_code(), l, t) && old(self).top_code().len() <= t,
            !final(self).parser.had_error && for_has_condition(old(self).parser.source@, old(self).parser.place())
                ==> exists|c: int, l: int| #[trigger] for_exit(
                final(self).top_code(),
                old(self).top_code().len() as int,
                c,
                l,
            ),
            !final(self).parser.had_error && for_has_increment(old(self).parser.source@, old(self).parser.place())
                ==> exists|c: int, t: int, b: int, l: int|
                #![trigger for_increment(final(self).top_code(), c, t, b), loop_at(final(self).top_code(), l, t)]
                old(self).top_code().len() <= c && for_increment(final(self).top_code(), c, t, b) && b <= l
                    && loop_at(final(self).top_code(), l, t),
        decreases old(self).parser.remaining(), 10nat,
    {
        self.begin_scope();
        self.parse_for_init();
        let ghost n = old(self).top_code().len() as int;
        let ghost after_init = *self;
        let (loop_start, exit_jt_opt) = self.parse_for_clauses();
        let ghost ci = after_init.top_code().len() as int;
        let ghost b = self.top_code().len() as int;
        let ghost inc = loop_start != ci;
        let ghost t = loop_start as int;
        proof {
            if !self.parser.had_error && for_has_increment(old(self).parser.source@, old(self).parser.place()) {
                assert(!after_init.parser.had_error);
                assert(inc);
            }
        }
        proof {
            if !self.parser.had_error && for_has_condition(old(self).parser.source@, old(self).parser.place()) {
                assert(!after_init.parser.had_error);
                assert(exit_jt_opt is Some);
            }
        }
        let ghost after_clauses = *self;
        self.parse_statement();
        let ghost l = self.top_code().len() as int;
        proof {
            assert(old(self).top_code().len() <= t);
            if inc {
                lemma_increment_kept(after_clauses, *self, ci, t, b);
            }
        }
        let ghost before_loop = *self;
        self.emit_loop(loop_start);
        proof {
            assert(loop_at(self.top_code(), l, t));
            if inc {
                lemma_increment_kept(before_loop, *self, ci, t, b);
            }
        }
        match exit_jt_opt {
            Some(exit_jt) => {
                let ghost before_fill = *self;
                self.fill_in_jump_target(exit_jt);
                let ghost after_fill = *self;
                self.emit_op(OpCode::Pop);
                proof {
                    let c = exit_jt - 1;
                    assert(self.top_code()[l + 3] == Byte::Named(OpCode::Pop));
                    assert(for_exit(self.top_code(), n, c, l));
                    if inc {
                        let c0 = before_fill.top_code();
                        let c1 = self.top_code();
                        assert(c1[t - 3] == c0[t - 3]);
                        assert(c1[t - 2] == c0[t - 2]);
                        assert(c1[t - 1] == c0[t - 1]);
                        assert(c1[b - 3] == c0[b - 3]);
                        assert(c1[b - 2] == c0[b - 2]);
                        assert(c1[b - 1] == c0[b - 1]);
                        assert(for_increment(self.top_code(), ci, t, b));
                    }
                }
            },
            None => {},
        }
        let ghost before_end = *self;
        proof {
            assert(loop_at(self.top_code(), l, t));
        }
        self.end_scope();
        proof {
            assert(loop_at(self.top_code(), l, t));
            if inc {
                lemma_increment_kept(before_end, *self, ci, t, b);
                assert(b <= l);
            }
            if exit_jt_opt is Some {
                let c = exit_jt_opt->0 - 1;
                assert(for_exit(before_end.top_code(), n, c, l));
                assert(for_exit(self.top_code(), n, c, l));
            }
        }
    }

    /// The condition and increment clauses of a `for` loop, up to its `)`:
    /// gives where the loop starts again (the condition, or the increment
    /// when there is one), and the place of the exit jump's distance when
    /// there is a condition.
    #[verifier::spinoff_prover]
    #[verifier::rlimit(80)]
    fn parse_for_clauses(&mut self) -> (res: (usize, Option<usize>))
        requires
            old(self).inv(),
        ensures
            parse_frame(*old(self), *final(self)),
            old(self).top_code().len() <= res.0 <= final(self).top_code().len(),
            (res.1 is Some) == (cur_type(*old(self))@ != TokenType::Semicolon@),
            res.1 matches Some(x) ==> {
                &&& old(self).top_code().len() + 1 <= x
                &&& x + 3 <= final(self).top_code().len()
                &&& final(self).top_code()[x - 1] == Byte::Named(OpCode::JumpIfFalse)
                &&& final(self).top_code()[x + 2] == Byte::Named(OpCode::Pop)
            },
            !final(self).parser.had_error ==> (cond_clause_end(old(self).parser.source@, old(self).parser.place())
                matches Some(i) && ((res.0 != old(self).top_code().len()) == (i.0.typ
                != TokenType::RightParen@))),
            res.0 != old(self).top_code().len() ==> for_increment(
                final(self).top_code(),
                old(self).top_code().len() as int,
                res.0 as int,
                final(self).top_code().len() as int,
            ),
            res.1 matches Some(x) ==> (res.0 != old(self).top_code().len() ==> x + 6 <= res.0),
        decreases old(self).parser.remaining(), 6nat,
    {
        let last = self.programs.len() - 1;
        let mut loop_start = self.programs[last].function.chunk().count();
        let mut exit_jt_opt: Option<usize> = None;
        let ghost src = self.parser.source@;
        let ghost c0 = self.parser.place();
        let ghost n0 = self.top_code().len() as int;
        proof {
            self.parser.lemma_place_ok();
        }
        let has_cond = !self.token_is_a(&TokenType::Semicolon);
        if has_cond {
            self.parse_expression();
            let ghost e = self.parser.place();
            proof {
                self.parser.lemma_place_ok();
            }
            self.parser.consume(&TokenType::Semicolon, "Expect ';' after loop condition.");
            proof {
                if !self.parser.had_error {
                    assert(expr_end(src, c0, 1) == Some(e));
                    assert(e.0.typ == TokenType::Semicolon@);
                    assert(self.parser.place() == adv(src, e));
                    assert(cond_clause_end(src, c0) == Some(self.parser.place()));
                }
            }
            let ghost c = self.top_code().len() as int;
            exit_jt_opt = Some(self.emit_jump(OpCode::JumpIfFalse));
            self.emit_op(OpCode::Pop);
            proof {
                assert(self.top_code()[c] == Byte::Named(OpCode::JumpIfFalse));
                assert(self.top_code()[c + 3] == Byte::Named(OpCode::Pop));
            }
        }
        let ghost after_cond = *self;
        proof {
            if !has_cond {
                assert(self.parser.place() == adv(src, c0));
            }
            if !self.parser.had_error {
                assert(cond_clause_end(src, c0) == Some(self.parser.place()));
            }
            self.parser.lemma_place_ok();
        }
        if !self.token_is_a(&TokenType::RightParen) {
            let body_jt = self.emit_jump(OpCode::Jump);
            let inc_start = self.programs[last].function.chunk().count();
            let ghost j = body_jt - 1;
            self.parse_expression();
            self.emit_op(OpCode::Pop);
            self.parser.consume(&TokenType::RightParen, "Expect ')' after for clauses.");
            let ghost l = self.top_code().len() as int;
            self.emit_loop(loop_start);
            let ghost before_fill = *self;
            proof {
                assert(loop_at(self.top_code(), l, n0));
                assert(self.top_code()[j] == Byte::Named(OpCode::Jump));
            }
            loop_start = inc_start;
            self.fill_in_jump_target(body_jt);
            proof {
                let code = self.top_code();
                assert(code[j] == before_fill.top_code()[j]);
                assert(code[l] == before_fill.top_code()[l]);
                assert(code[l + 1] == before_fill.top_code()[l + 1]);
                assert(code[l + 2] == before_fill.top_code()[l + 2]);
                assert(jump_at(code, j, OpCode::Jump, l + 3));
                assert(loop_at(code, l, n0));
                assert(for_increment(code, n0, inc_start as int, code.len() as int));
            }
        }
        proof {
            if has_cond {
                let x = exit_jt_opt->0;
                assert(keeps_code(after_cond, *self));
                assert(self.top_code()[x - 1] == Byte::Named(OpCode::JumpIfFalse));
                assert(self.top_code()[x + 2] == Byte::Named(OpCode::Pop));
            }
        }
        (loop_start, exit_jt_opt)
    }

    /// The start of a `for` loop, its `(` and its initializer: nothing, a
    /// variable declaration or an expression statement.
    fn parse_for_init(&mut self)
        requires
            old(self).inv(),
        ensures
            parse_frame(*old(self), *final(self)),
            !final(self).parser.had_error ==> for_cond_start(old(self).parser.source@, old(self).parser.place())
                == Some(final(self).parser.place()),
        decreases old(self).parser.remaining(), 5nat,
    {
        self.parser.consume(&TokenType::LeftParen, "Expect '(' after 'for'.");
        if self.token_is_a(&TokenType::Var) {
            self.parse_var_decl();
        } else if !self.token_is_a(&TokenType::Semicolon) {
            self.parse_expr_stmt();
        }
    }

    /// A declaration: a class, a function, a variable or a statement. After
    /// an error the parser skips to the next statement.
    #[verifier::spinoff_prover]
    #[verifier::rlimit(40)]
    fn parse_declaration(&mut self)
        requires
            old(self).inv_base(),
        ensures
            parse_frame(*old(self), *final(self)),
            progress(*old(self), *final(self)),
            number_print_ready(*old(self)) ==> number_printed(*old(self), *final(self)),
        decreases old(self).parser.remaining(), 11nat,
    {
        if self.token_is_a(&TokenType::Class) {
            self.parse_class_decl();
        } else if self.token_is_a(&TokenType::Fun) {
            self.parse_function_decl();
        } else if self.token_is_a(&TokenType::Var) {
            self.parse_var_decl();
        } else {
            self.parse_statement();
        }
        if self.parser.is_panicking {
            self.parser.synchronize();
        }
    }

    /// The declarations of a block, up to its closing brace.
    fn parse_block(&mut self)
        requires
            old(self).inv(),
        ensures
            parse_frame(*old(self), *final(self)),
            !final(self).parser.had_error ==> prev_type(*final(self))@ == TokenType::RightBrace@,
        decreases old(self).parser.remaining(), 12nat,
    {
        loop
            invariant
                parse_frame(*old(self), *self),
            decreases self.parser.remaining(),
        {
            let stop = self.parser.check(&TokenType::RightBrace) || self.parser.check_eof();
            if stop {
                break ;
            }
            self.parse_declaration();
        }
        self.parser.consume(&TokenType::RightBrace, "Expect '}' after block.");
    }

    /// Marks the latest local of the current function as initialised.
    fn mark_initialized(&mut self)
        requires
            old(self).inv(),
        ensures
            parse_frame(*old(self), *final(self)),
            locals_view(final(self).top().local_vars@) == latest_initialized(
                locals_view(old(self).top().local_vars@),
                old(self).top().scope_depth,
            ),
            final(self).top_code() == old(self).top_code(),
    {
        let last = self.programs.len() - 1;
        let ghost before = self.programs@;
        self.programs[last].mark_latest_var_initialized();
        proof {
            assert forall|i: int| 0 <= i < self.programs@.len() implies (#[trigger] self.programs@[i]).wf()
                && fn_refs_live(self.heap.objs(), self.programs@[i].function) by {
                if i != last {
                    assert(self.programs@[i] == before[i]);
                }
            }
        }
    }

    /// Sets the number of parameters of the function being compiled.
    fn set_arity(&mut self, arity: u32)
        requires
            old(self).inv(),
        ensures
            step_frame(*old(self), *final(self)),
            keeps_code(*old(self), *final(self)),
            final(self).top_code() == old(self).top_code(),
            final(self).top().function.spec_arity() == arity,
    {
        let last = self.programs.len() - 1;
        let ghost before = self.programs@;
        self.programs[last].function.set_arity(arity);
        proof {
            assert forall|i: int| 0 <= i < self.programs@.len() implies (#[trigger] self.programs@[i]).wf()
                && fn_refs_live(self.heap.objs(), self.programs@[i].function) by {
                if i != last {
                    assert(self.programs@[i] == before[i]);
                } else {
                    assert(children(HeapObject::HeapFunction(self.programs@[i].function)) =~= children(
                        HeapObject::HeapFunction(before[i].function),
                    ));
                }
            }
        }
    }

    /// The parameter list of the function being compiled, from its left
    /// parenthesis on: each name is declared as a local, and the number of
    /// names becomes the function's arity (more than 255 is reported).
    fn parse_params(&mut self)
        requires
            old(self).inv(),
            old(self).top().function.spec_arity() == 0,
        ensures
            step_frame(*old(self), *final(self)),
            keeps_code(*old(self), *final(self)),
            !final(self).parser.had_error ==> final(self).top().function.spec_arity() == param_list_count(
                old(self).parser.source@,
                old(self).parser.place(),
            ),
            final(self).top().function.spec_arity() > 255 ==> final(self).parser.had_error,
    {
        let ghost src = self.parser.source@;
        self.parser.consume(&TokenType::LeftParen, "Expect '(' after function name.");
        let ghost q0 = self.parser.place();
        let ghost e0 = self.parser.had_error;
        proof {
            assert(!self.parser.had_error ==> q0 == adv(src, old(self).parser.place()));
        }
        if !self.parser.check(&TokenType::RightParen) {
            let last = self.programs.len() - 1;
            let mut arity: u32 = self.programs[last].function.arity();
            loop
                invariant_except_break
                    !self.parser.had_error ==> param_count(src, q0) == arity + param_count(
                        src,
                        self.parser.place(),
                    ),
                invariant
                    parse_frame(*old(self), *self),
                    e0 ==> self.parser.had_error,
                    arity > 255 ==> self.parser.had_error,
                    self.parser.source@ == src,
                ensures
                    parse_frame(*old(self), *self),
                    e0 ==> self.parser.had_error,
                    arity > 255 ==> self.parser.had_error,
                    !self.parser.had_error ==> param_count(src, q0) == arity,
                decreases self.parser.remaining(),
            {
                let ghost p = self.parser.place();
                let ghost arity0 = arity;
                proof {
                    self.parser.lemma_place_ok();
                }
                arity = arity.wrapping_add(1);
                if arity > 255 {
                    self.parser.error_at_current("Can't have more than 255 parameters.");
                }
                let constant = self.parse_variable("Expect parameter name.");
                self.define_variable(constant);
                let ghost p1 = self.parser.place();
                let more = self.token_is_a(&TokenType::Comma);
                proof {
                    if !self.parser.had_error {
                        assert(arity == arity0 + 1);
                        assert(p1 == adv(src, p));
                        let a1 = adv(src, p);
                        let a2 = adv(src, a1);
                        assert(!is_eof(p.0)) by {
                            assert(p.0.typ is Identifier);
                        }
                        lemma_adv(src, p);
                        lemma_adv(src, a1);
                        if more {
                            assert(self.parser.place() == a2);
                            assert(param_count(src, p) == 1 + param_count(src, a2));
                        } else {
                            assert(param_count(src, p) == 1);
                        }
                    }
                }
                if !more {
                    break ;
                }
            }
            self.set_arity(arity);
            proof {
                if !self.parser.had_error {
                    assert(q0.0.typ != TokenType::RightParen@);
                    assert(param_count(src, q0) == arity);
                    assert(self.top().function.spec_arity() == arity);
                }
            }
        } else {
            proof {
                if !self.parser.had_error {
                    assert(q0.0.typ == TokenType::RightParen@);
                    assert(self.top().function.spec_arity() == 0);
                }
            }
        }
    }

    /// A function's parameters and body, compiled as a new function of
    /// kind `function_kind` named by the previous token; then the code that
    /// makes its closure, with the variables it captures.
    #[verifier::rlimit(80)]
    fn parse_function(&mut self, function_kind: FunctionKind)
        requires
            old(self).inv(),
        ensures
            parse_frame(*old(self), *final(self)),
            !final(self).parser.had_error ==> exists|p: usize| #[trigger] closure_for(*old(self), *final(self), p, function_kind),
            param_list_count(old(self).parser.source@, old(self).parser.place()) > 255 ==> final(self).parser.had_error,
        decreases old(self).parser.remaining(), 13nat,
    {
        let loc = match &self.parser.previous_token_opt {
            Some(t) => t.loc,
            None => SourceLoc { start_index: 0, line_num: 0, column: 0, length: 0 },
        };
        let name_gc_ptr = self.intern(loc);
        proof {
            self.heap.lemma_text_live(name_gc_ptr.0);
        }
        let function_obj = FunctionObj::UserDefined {
            arity: 0,
            chunk: Chunk::default(),
            name_gc_ptr,
            upvalue_count: 0,
        };
        let ghost outer = *self;
        let program = Program::new(function_obj, function_kind);
        self.programs.push(program);
        proof {
            assert(seq_refs(program.function.spec_chunk().constants@) =~= Set::<usize>::empty());
            assert forall|i: int| 0 <= i < self.programs@.len() implies (#[trigger] self.programs@[i]).wf()
                && fn_refs_live(self.heap.objs(), self.programs@[i].function) by {
                if i < outer.programs@.len() {
                    assert(self.programs@[i] == outer.programs@[i]);
                }
            }
        }
        self.begin_scope();
        let ghost inner = *self;
        let ghost src = self.parser.source@;
        proof {
            assert(self.parser.place() == old(self).parser.place());
            assert(self.top().function.spec_arity() == 0);
        }
        self.parse_params();
        proof {
            assert(!self.parser.had_error ==> self.top().function.spec_arity() == param_list_count(
                src,
                old(self).parser.place(),
            ));
        }
        self.parser.consume(&TokenType::RightParen, "Expect ')' after parameters.");
        self.parser.consume(&TokenType::LeftBrace, "Expect '{' before function body.");
        let ghost before_block = *self;
        proof {
            assert(before_block.top().function.spec_arity() > 255 ==> before_block.parser.had_error);
            assert(before_block.top().function.spec_name() == Some(name_gc_ptr));
        }
        self.parse_block();
        let ghost before_return = *self;
        self.emit_return();
        let ghost before_pop = *self;
        proof {
            let tail = return_code(function_kind);
            assert(self.top().function_kind == function_kind);
            assert(self.top_code() =~= before_return.top_code() + tail);
            assert(self.top_code().subrange(self.top_code().len() - tail.len(), self.top_code().len() as int)
                =~= tail);
        }
        let finished = match self.programs.pop() {
            Some(p) => p,
            None => {
                proof {
                    assert(false);
                }
                return;
            },
        };
        proof {
            assert(finished == before_pop.programs@.last());
            assert forall|i: int| 0 <= i < self.programs@.len() implies (#[trigger] self.programs@[i]).wf()
                && fn_refs_live(self.heap.objs(), self.programs@[i].function) by {
                assert(self.programs@[i] == before_pop.programs@[i]);
            }
            assert(before_pop.programs@[outer.programs@.len() - 1].function.spec_chunk()
                == inner.programs@[outer.programs@.len() - 1].function.spec_chunk());
            assert(inner.programs@[outer.programs@.len() - 1] == outer.programs@[outer.programs@.len() - 1]);
            assert(fn_refs_live(self.heap.objs(), finished.function)) by {
                assert(before_pop.programs@[before_pop.programs@.len() - 1] == finished);
            }
        }
        if self.heap.has_room_for(1) {
            let ghost before_alloc = *self;
            let gc_ptr = self.heap.allocate_function(finished.function);
            proof {
                assert forall|i: int| 0 <= i < before_alloc.heap.objs().len() implies #[trigger] self.heap.objs()[i] == before_alloc.heap.objs()[i] by {}
                Self::lemma_progs_grow(&before_alloc, self);
                assert(live(self.heap.objs(), gc_ptr.0));
                assert(value_refs(ValueView::Reference(gc_ptr.0)) =~= set![gc_ptr.0]);
            }
            let ghost before_constant = *self;
            proof {
                assert(before_constant.top_code() == old(self).top_code());
                assert(top_constants(before_constant) == top_constants(*old(self)));
            }
            let closure = self.make_constant(Value::Reference(gc_ptr));
            self.emit_op_arg(OpCode::Closure, closure);
            let ghost after_closure = *self;
            let ghost start = after_closure.top_code().len() as int;
            let ghost ups = finished.upvalues@;
            let mut k: usize = 0;
            while k < finished.upvalues.len()
                invariant
                    parse_frame(after_closure, *self),
                    k <= finished.upvalues@.len(),
                    ups == finished.upvalues@,
                    start == after_closure.top_code().len(),
                    self.top_code().len() == after_closure.top_code().len() + 2 * k,
                    top_constants(*self) == top_constants(after_closure),
                    upvalue_pairs(self.top_code(), start, ups.take(k as int)),
                decreases finished.upvalues.len() - k,
            {
                let u = finished.upvalues[k];
                let ghost before_pair = self.top_code();
                self.emit_byte(Byte::Raw(if u.is_local { 1 } else { 0 }));
                self.emit_byte(Byte::Raw(u.index));
                proof {
                    assert forall|i: int| 0 <= i < k + 1 implies self.top_code()[start + 2 * i] == Byte::Raw(
                        if (#[trigger] ups.take(k + 1)[i]).is_local {
                            1u8
                        } else {
                            0u8
                        },
                    ) && self.top_code()[start + 2 * i + 1] == Byte::Raw(ups.take(k + 1)[i].index) by {
                        if i < k {
                            assert(ups.take(k + 1)[i] == ups.take(k as int)[i]);
                            assert(before_pair[start + 2 * i] == self.top_code()[start + 2 * i]);
                            assert(before_pair[start + 2 * i + 1] == self.top_code()[start + 2 * i + 1]);
                        } else {
                            assert(ups.take(k + 1)[i] == u);
                        }
                    }
                }
                k = k + 1;
            }
            proof {
                assert(ups.take(ups.len() as int) =~= ups);
                if !self.parser.had_error {
                    assert(!before_constant.parser.had_error);
                    assert(live(self.heap.objs(), gc_ptr.0)) by {
                        assert(self.heap.objs()[gc_ptr.0 as int] == after_closure.heap.objs()[gc_ptr.0 as int]);
                    }
                    assert(self.heap.objs()[gc_ptr.0 as int] == before_constant.heap.objs()[gc_ptr.0 as int]);
                    assert(obj(self.heap.objs(), gc_ptr.0) == HeapObject::HeapFunction(finished.function));
                    assert(finished.function.spec_name() == Some(name_gc_ptr));
                    assert(finished.function.spec_arity() <= 255);
                    if old(self).heap.has_room(1) {
                        lemma_text_grow(&outer.heap, &self.heap, name_gc_ptr.0);
                    }
                    assert(upvalue_pairs(self.top_code(), start, ups));
                    let n = old(self).top_code().len() as int;
                    assert(start == n + 2);
                    assert(top_constants(*self) == top_constants(*old(self)).push(ValueView::Reference(gc_ptr.0)));
                    assert(self.top_code()[n] == Byte::Named(OpCode::Closure));
                    assert(self.top_code()[n + 1] == Byte::Raw(top_constants(*old(self)).len() as u8));
                    assert(ends_with(finished.function.spec_chunk().code@, 0, return_code(function_kind)));
                    assert(self.top_code().len() == n + 2 + 2 * finished.function.spec_upvalue_count());
                    assert(closure_for(*old(self), *self, gc_ptr.0, function_kind));
                }
            }
        } else {
            self.parser.error("Out of memory.");
        }
    }

    /// A function declaration: its name, then the function.
    fn parse_function_decl(&mut self)
        requires
            old(self).inv(),
        ensures
            parse_frame(*old(self), *final(self)),
            old(self).top().scope_depth == 0 ==> ends_with_op(
                final(self).top_code(),
                old(self).top_code().len() as int,
                OpCode::DefineGlobal,
                1,
            ),
            !(cur_type(*old(self)) is Identifier) ==> final(self).parser.had_error,
        decreases old(self).parser.remaining(), 14nat,
    {
        let global_var_byte = self.parse_variable("Expect function name.");
        self.mark_initialized();
        self.parse_function(FunctionKind::Function);
        self.define_variable(global_var_byte);
    }

    /// A method of a class body; `init` is the initialiser.
    fn parse_method(&mut self)
        requires
            old(self).inv(),
        ensures
            parse_frame(*old(self), *final(self)),
            (old(self).parser.current_token_opt->0.typ is Identifier) ==> final(self).parser.remaining()
                < old(self).parser.remaining(),
        decreases old(self).parser.remaining(), 14nat,
    {
        match self.parser.consume_ident("Expect method name.") {
            Some(name) => {
                let kind = if chars_eq(&name, &vec!['i', 'n', 'i', 't']) {
                    FunctionKind::Initializer
                } else {
                    FunctionKind::Method
                };
                let name_byte = self.make_ident_constant();
                self.parse_function(kind);
                self.emit_op_arg(OpCode::Method, name_byte);
            },
            None => {},
        }
    }

    /// A class declaration: its name, an optional superclass, and its
    /// methods.
    #[verifier::rlimit(60)]
    #[verifier::spinoff_prover]
    fn parse_class_decl(&mut self)
        requires
            old(self).inv(),
        ensures
            parse_frame(*old(self), *final(self)),
            !(cur_type(*old(self)) is Identifier) ==> final(self).parser.had_error && final(self).top_code()
                == old(self).top_code(),
            cur_type(*old(self)) is Identifier ==> {
                let n = old(self).top_code().len() as int;
                let code = final(self).top_code();
                &&& code.len() >= n + 2
                &&& code[n] == Byte::Named(OpCode::Class)
                &&& old(self).top().scope_depth == 0 ==> code.len() >= n + 4 && code[n + 2] == Byte::Named(
                    OpCode::DefineGlobal,
                ) && code[n + 3] == code[n + 1]
            },
            cur_type(*old(self)) matches TokenType::Identifier(cn) ==> {
                let src = old(self).parser.source@;
                let after_name = next_good(src, old(self).parser.lexer.state());
                let super_name = next_good(src, after_name.1).0;
                after_name.0.typ == TokenType::Less@ && super_name.typ == TypeView::Identifier(cn@)
                    ==> final(self).parser.had_error
            },
            cur_type(*old(self)) is Identifier ==> {
                let src = old(self).parser.source@;
                let after_name = next_good(src, old(self).parser.lexer.state());
                let super_name = next_good(src, after_name.1).0;
                let code = final(self).top_code();
                after_name.0.typ == TokenType::Less@ && super_name.typ is Identifier ==> exists|i: int|
                    old(self).top_code().len() + 2 <= i < code.len() && #[trigger] code[i] == Byte::Named(
                        OpCode::Inherit,
                    )
            },
        decreases old(self).parser.remaining(), 15nat,
    {
        let class_name = match self.parser.consume_ident("Expect class name.") {
            Some(n) => n,
            None => {
                return;
            },
        };
        let ghost p1 = self.parser;
        let loc = match &self.parser.previous_token_opt {
            Some(t) => t.loc,
            None => SourceLoc { start_index: 0, line_num: 0, column: 0, length: 0 },
        };
        let class_name_gc_ptr = self.intern(loc);
        let ghost s1 = *self;
        let name_byte = self.make_ident_constant();
        self.declare_variable(crate::text::copy_chars(&class_name));
        let ghost n = old(self).top_code().len() as int;
        proof {
            assert(self.top_code() == old(self).top_code());
        }
        self.emit_op_arg(OpCode::Class, name_byte);
        self.define_variable(name_byte);
        let ghost before_push = *self;
        proof {
            assert(before_push.top_code()[n] == Byte::Named(OpCode::Class));
            assert(before_push.top_code().len() >= n + 2);
            assert(old(self).top().scope_depth == 0 ==> before_push.top_code().len() >= n + 4
                && before_push.top_code()[n + 2] == Byte::Named(OpCode::DefineGlobal)
                && before_push.top_code()[n + 3] == before_push.top_code()[n + 1]);
        }
        self.class_contexts.push(ClassContext { has_superclass: false });
        let ghost s2 = *self;
        proof {
            lemma_text_grow(&s1.heap, &self.heap, class_name_gc_ptr.0);
        }
        proof {
            assert(self.parser.lexer == p1.lexer);
            assert(self.parser.current_token_opt == p1.current_token_opt);
        }
        let ghost p2 = self.parser;
        let ghost mut inherit_at: int = 0;
        let ghost mut inherited = false;
        if self.token_is_a(&TokenType::Less) {
            let ghost p3 = self.parser;
            proof {
                assert(p2.moved_on(&p3));
                assert(!p2.at_eof());
            }
            match self.parser.consume_ident("Expect superclass name.") {
                Some(superclass_name) => {
                    proof {
                        if let TokenType::Identifier(cn) = cur_type(*old(self)) {
                            let src = old(self).parser.source@;
                            let after_name = next_good(src, old(self).parser.lexer.state());
                            if after_name.0.typ == TokenType::Less@ && next_good(src, after_name.1).0.typ
                                == TypeView::Identifier(cn@) {
                                assert(p3.current_token_opt->0@ == next_good(src, after_name.1).0);
                                assert(superclass_name@ == cn@);
                                assert(class_name@ == cn@);
                            }
                        }
                    }
                    self.make_named_variable(false);
                    if chars_eq(&class_name, &superclass_name) {
                        self.parser.error("A class can't inherit from itself.");
                    }
                    self.begin_scope();
                    self.add_local(vec!['s', 'u', 'p', 'e', 'r']);
                    self.define_variable(0);
                    proof {
                        lemma_text_grow(&s2.heap, &self.heap, class_name_gc_ptr.0);
                    }
                    self.reference_named_variable(class_name_gc_ptr, false);
                    let ghost m = self.top_code().len() as int;
                    self.emit_op(OpCode::Inherit);
                    proof {
                        inherit_at = m;
                        inherited = true;
                        assert(self.top_code()[m] == Byte::Named(OpCode::Inherit));
                    }
                    let n = self.class_contexts.len();
                    self.class_contexts.set(n - 1, ClassContext { has_superclass: true });
                },
                None => {
                    loop
                        invariant
                            parse_frame(s2, *self),
                        decreases self.parser.remaining(),
                    {
                        let stop = self.parser.check(&TokenType::LeftBrace) || self.parser.check_eof();
                        if stop {
                            break ;
                        }
                        self.parser.advance();
                    }
                },
            }
        }
        let ghost s3 = *self;
        proof {
            lemma_text_grow(&s1.heap, &self.heap, class_name_gc_ptr.0);
        }
        self.reference_named_variable(class_name_gc_ptr, false);
        self.parser.consume(&TokenType::LeftBrace, "Expect '{' before class body.");
        loop
            invariant
                parse_frame(s3, *self),
                self.parser.remaining() <= old(self).parser.remaining(),
            decreases self.parser.remaining(),
        {
            let stop = self.parser.check(&TokenType::RightBrace) || self.parser.check_eof();
            if stop {
                break ;
            }
            let is_name = match &self.parser.current_token_opt {
                Some(t) => match t.typ {
                    TokenType::Identifier(_) => true,
                    _ => false,
                },
                None => false,
            };
            self.parse_method();
            if !is_name {
                break ;
            }
        }
        self.parser.consume(&TokenType::RightBrace, "Expect '}' after class body.");
        self.emit_op(OpCode::Pop);
        let n = self.class_contexts.len();
        if n > 0 {
            if self.class_contexts[n - 1].has_superclass {
                self.end_scope();
            }
            let _ = self.class_contexts.pop();
        }
        proof {
            assert(self.class_contexts@ =~= before_push.class_contexts@);
            assert(keeps_code(before_push, *self));
            if inherited {
                assert(self.top_code()[inherit_at] == Byte::Named(OpCode::Inherit));
            }
        }
    }

    /// A compiler with an empty heap, before any source.
    pub fn default() -> (res: Compiler)
        ensures
            res.heap.wf(),
            res.heap.objs().len() == 3,
            res.programs@.len() == 0,
            res.class_contexts@.len() == 0,
    {
        Compiler {
            class_contexts: Vec::new(),
            parser: Parser::new(Vec::new()),
            programs: Vec::new(),
            heap: Heap::new(),
        }
    }

    /// Compiles a whole program. On success, the slot of the compiled
    /// top-level function; on failure nothing, the errors having been
    /// reported. The heap keeps its earlier objects and stays well formed.
    /// A program of statements `print N;` only, with room for its
    /// constants and one more heap object, always compiles.
    #[verifier::spinoff_prover]
    #[verifier::rlimit(60)]
    pub fn run(&mut self, source: String) -> (res: Option<GcPtr>)
        requires
            old(self).heap.wf(),
            source@.len() + 4 <= u32::MAX,
        ensures
            final(self).heap.wf(),
            Self::heap_grew(&old(self).heap, &final(self).heap),
            final(self).parser.source@ == source@,
            res is Some <==> !final(self).parser.had_error,
            res is None ==> final(self).parser.out().len() > 0,
            final(self).programs@.len() == 0,
            res matches Some(p) ==> live(final(self).heap.objs(), p.0) && (obj(final(self).heap.objs(), p.0)
                matches HeapObject::HeapFunction(f) && f.spec_name() is None),
            res matches Some(p) ==> {
                &&& final(self).parser.previous_token_opt->0.typ@ == TokenType::Eof@
                &&& obj(final(self).heap.objs(), p.0) matches HeapObject::HeapFunction(f)
                &&& ends_with(f.spec_chunk().code@, 0, return_code(FunctionKind::Script))
            },
            old(self).heap.has_room(1) && number_program(source@) && number_prints_count(
                source@,
                start_place(source@),
            ) <= 256 ==> number_compiled(*final(self), res, source@),
            run_outcome(source@, old(self).heap, *final(self), res),
    {
        let chars = crate::text::str_to_chars(source.as_str());
        let script = FunctionObj::MainScript { arity: 0, chunk: Chunk::default(), upvalue_count: 0 };
        let mut programs: Vec<Program> = Vec::new();
        let program = Program::new(script, FunctionKind::Script);
        programs.push(program);
        self.programs = programs;
        self.class_contexts = Vec::new();
        self.parser = Parser::new(chars);
        self.parser.advance();
        let ghost start = *self;
        let ghost src = source@;
        let ghost first = start_place(src);
        let ghost good = old(self).heap.has_room(1) && number_program(src) && number_prints_count(src, first)
            <= 256;
        proof {
            assert(self.parser.place() == first);
            assert(self.top_code() =~= Seq::<Byte>::empty());
            assert(top_constants(*self) =~= Seq::<ValueView>::empty());
            assert(self.top_code() + number_prints_code(src, first, 0) =~= number_prints_code(src, first, 0));
            assert(top_constants(*self) + number_prints_consts(src, first) =~= number_prints_consts(src, first));
            assert(seq_refs(program.function.spec_chunk().constants@) =~= Set::<usize>::empty());
            assert(self.programs@[0] == program);
            assert(forall|i: int| 0 <= i < old(self).heap.objs().len() ==> #[trigger] self.heap.objs()[i] == old(self).heap.objs()[i]);
        }
        loop
            invariant
                self.inv_base(),
                self.programs@.len() == 1,
                self.top().function.spec_name() is None,
                self.top().function_kind == FunctionKind::Script,
                self.parser.source@ == source@,
                Self::heap_grew(&old(self).heap, &self.heap),
                src == source@,
                first == start_place(src),
                good == (old(self).heap.has_room(1) && number_program(src) && number_prints_count(src, first)
                    <= 256),
                good ==> !self.parser.had_error && !self.parser.is_panicking,
                good ==> number_prints(src, self.parser.place()),
                good ==> self.heap == old(self).heap,
                good ==> self.top_code() + number_prints_code(src, self.parser.place(), top_constants(*self).len())
                    == number_prints_code(src, first, 0),
                good ==> top_constants(*self) + number_prints_consts(src, self.parser.place())
                    == number_prints_consts(src, first),
                good ==> top_constants(*self).len() + number_prints_count(src, self.parser.place())
                    == number_prints_count(src, first),
            ensures
                good ==> is_eof(self.parser.place().0),
                good ==> !self.parser.had_error && !self.parser.is_panicking,
                good ==> number_prints(src, self.parser.place()),
                good ==> self.heap == old(self).heap,
                good ==> self.top_code() + number_prints_code(src, self.parser.place(), top_constants(*self).len())
                    == number_prints_code(src, first, 0),
                good ==> top_constants(*self) + number_prints_consts(src, self.parser.place())
                    == number_prints_consts(src, first),
                good ==> top_constants(*self).len() + number_prints_count(src, self.parser.place())
                    == number_prints_count(src, first),
                self.inv(),
                self.programs@.len() == 1,
                self.top().function.spec_name() is None,
                self.top().function_kind == FunctionKind::Script,
                self.parser.source@ == source@,
                Self::heap_grew(&old(self).heap, &self.heap),
                self.parser.previous_token_opt->0.typ@ == TokenType::Eof@,
            decreases self.parser.remaining(),
        {
            proof {
                self.parser.lemma_place_ok();
            }
            if self.token_is_a(&TokenType::Eof) {
                break ;
            }
            let ghost here = self.parser.place();
            let ghost k = top_constants(*self).len();
            proof {
                if good {
                    let n = after_number_print(src, here);
                    assert(!is_eof(here.0));
                    assert(number_print_at(src, here) && nearer(src, n, here) && number_prints(src, n));
                    assert(number_prints_count(src, here) == 1 + number_prints_count(src, n));
                    assert(number_print_ready(*self));
                }
            }
            let ghost before_decl = *self;
            self.parse_declaration();
            proof {
                if good {
                    let n = after_number_print(src, here);
                    assert(number_printed(before_decl, *self));
                    assert(self.parser.place() == n);
                    let trio = seq![Byte::Named(OpCode::Constant), Byte::Raw(k as u8), Byte::Named(OpCode::Print)];
                    assert(number_prints_code(src, here, k) == trio + number_prints_code(src, n, k + 1));
                    assert(self.top_code() == before_decl.top_code() + trio);
                    assert(self.top_code() + number_prints_code(src, n, k + 1) =~= before_decl.top_code()
                        + number_prints_code(src, here, k));
                    assert(number_prints_consts(src, here) == seq![ValueView::Double(number_print_text(src, here))]
                        + number_prints_consts(src, n));
                    assert(top_constants(*self) + number_prints_consts(src, n) =~= top_constants(before_decl)
                        + number_prints_consts(src, here));
                }
            }
        }
        let ghost before_return = *self;
        self.emit_return();
        let ghost before_pop = *self;
        proof {
            let tail = return_code(FunctionKind::Script);
            assert(self.top_code() =~= before_return.top_code() + tail);
            assert(self.top_code().subrange(self.top_code().len() - tail.len(), self.top_code().len() as int)
                =~= tail);
        }
        let finished = match self.programs.pop() {
            Some(p) => p,
            None => {
                proof {
                    assert(false);
                }
                return None;
            },
        };
        proof {
            assert(finished == before_pop.programs@[0]);
            assert(before_pop.programs@[0].wf());
        }
        if !self.heap.has_room_for(1) {
            self.parser.error("Out of memory.");
            proof {
                self.parser.lemma_error_reported();
            }
            return None;
        }
        let is_main = match &finished.function {
            FunctionObj::MainScript { .. } => true,
            FunctionObj::UserDefined { .. } => false,
        };
        let ghost before_alloc = self.heap;
        let gc_ptr = self.heap.allocate_function(finished.function);
        proof {
            assert forall|i: int| 0 <= i < old(self).heap.objs().len() implies #[trigger] self.heap.objs()[i] == old(self).heap.objs()[i] by {
                assert(self.heap.objs()[i] == before_alloc.objs()[i]);
            }
        }
        proof {
            self.parser.lemma_error_reported();
            if good {
                let at_end = before_return.parser.place();
                assert(number_prints_code(src, at_end, top_constants(before_return).len()) =~= Seq::<Byte>::empty());
                assert(before_return.top_code() =~= number_prints_code(src, first, 0));
                assert(number_prints_consts(src, at_end) =~= Seq::<ValueView>::empty());
                assert(top_constants(before_return) =~= number_prints_consts(src, first));
                assert(finished.function.spec_chunk().code@ == before_pop.top_code());
                assert(obj(self.heap.objs(), gc_ptr.0) == HeapObject::HeapFunction(finished.function));
            }
        }
        if self.parser.had_error {
            None
        } else {
            Some(gc_ptr)
        }
    }

    /// The slots that the functions being compiled point to: what a
    /// collection during compilation must keep.
    pub fn mark_roots(&self) -> (res: Vec<GcPtr>)
        ensures
            crate::heap::ptr_set(res@) == Set::new(
                |q: usize|
                    exists|i: int|
                        0 <= i < self.programs@.len() && children(
                            HeapObject::HeapFunction(#[trigger] self.programs@[i].function),
                        ).contains(q),
            ),
    {
        let mut out: Vec<GcPtr> = Vec::new();
        let mut i: usize = 0;
        proof {
            assert(crate::heap::ptr_set(out@) =~= Set::<usize>::empty());
        }
        while i < self.programs.len()
            invariant
                i <= self.programs@.len(),
                crate::heap::ptr_set(out@) == Set::new(
                    |q: usize|
                        exists|j: int|
                            0 <= j < i && children(
                                HeapObject::HeapFunction(#[trigger] self.programs@[j].function),
                            ).contains(q),
                ),
            decreases self.programs@.len() - i,
        {
            let ghost before = out@;
            let kids = crate::heap::children_of_function(&self.programs[i].function);
            crate::heap::append_ptrs(&mut out, &kids);
            proof {
                let target = Set::new(
                    |q: usize|
                        exists|j: int|
                            0 <= j < i + 1 && children(
                                HeapObject::HeapFunction(#[trigger] self.programs@[j].function),
                            ).contains(q),
                );
                assert forall|q: usize| #[trigger] crate::heap::ptr_set(out@).contains(q) == target.contains(q) by {
                    if target.contains(q) {
                        let j = choose|j: int|
                            0 <= j < i + 1 && children(
                                HeapObject::HeapFunction(#[trigger] self.programs@[j].function),
                            ).contains(q);
                        if j < i {
                            assert(crate::heap::ptr_set(before).contains(q));
                        }
                    }
                    if crate::heap::ptr_set(before).contains(q) {
                        let j = choose|j: int|
                            0 <= j < i && children(
                                HeapObject::HeapFunction(#[trigger] self.programs@[j].function),
                            ).contains(q);
                        assert(target.contains(q));
                    }
                    if crate::heap::ptr_set(kids@).contains(q) {
                        assert(children(HeapObject::HeapFunction(self.programs@[i as int].function)).contains(q));
                        assert(target.contains(q));
                    }
                }
                assert(crate::heap::ptr_set(out@) =~= target);
            }
            i = i + 1;
        }
        out
    }

    /// Hands out the error reports collected so far.
    pub fn take_wasm_output(&mut self) -> (res: Vec<crate::output::Output>)
        ensures
            crate::output::outputs_view(res@) == old(self).parser.out(),
            final(self).parser.out() == Seq::<crate::output::OutputView>::empty(),
            final(self).heap == old(self).heap,
            final(self).programs == old(self).programs,
    {
        self.parser.take_wasm_output()
    }
}

} // verus!

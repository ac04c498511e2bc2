use vstd::prelude::*;

use crate::compilation::{chunk_ok, crawl_root, groups_view, main_function, main_serializable, texts_view, CompiledValue, Compilation};
use crate::heap::{live, obj, Heap};
use crate::heap_object::HeapObject;
use crate::value::GcPtr;
use crate::compiler::{run_outcome, Compiler};
use crate::opcode::{Byte, OpCode};
use crate::shadow_stack::{ShadowStack, StackValueType};
use crate::wasm_encode::{
    export_entries, function_entries, import_entries, memory_entries, type_entries,
    code_section_function, code_section_new, data_section_new, emit_call, emit_end, emit_f64_const,
    emit_i32_const, emit_local_get, emit_local_set, emit_return, export_section_export,
    export_section_new, function_instrs, function_locals, function_new, function_section_function,
    function_section_len, function_section_new, import_section_import, import_section_len,
    import_section_new, memory_section_len, memory_section_memory, memory_section_new,
    module_add_code, module_add_data, module_add_exports, module_add_functions, module_add_imports,
    module_add_memories, module_add_types, module_bytes, module_finish, module_new, module_sections,
    validate_module, validation_message, wasm_is_valid,
    type_section_function, type_section_len, type_section_new, SectionView, WasmExportKind,
    WasmInstr, WasmValType,
};

verus! {

/// The type tags that the generated code pushes before each value.
pub open spec fn tag_nil() -> i32 {
    0
}

pub open spec fn tag_boolean() -> i32 {
    1
}

pub open spec fn tag_number() -> i32 {
    2
}

pub open spec fn tag_raw() -> i32 {
    4
}

/// The bytes of the line groups, line after line.
pub open spec fn flatten_groups(g: Seq<(u32, Seq<Byte>)>) -> Seq<Byte>
    decreases g.len(),
{
    if g.len() == 0 {
        Seq::empty()
    } else {
        flatten_groups(g.drop_last()) + g.last().1
    }
}

/// The local that holds a constant: one `i32` for a boolean or nil, one
/// `f64` for a number; functions and strings are not supported.
pub open spec fn const_local(c: CompiledValue) -> Option<(u32, WasmValType)> {
    match c {
        CompiledValue::CompiledBoolean(_) => Some((1u32, WasmValType::I32)),
        CompiledValue::CompiledNil => Some((1u32, WasmValType::I32)),
        CompiledValue::CompiledNumber(_) => Some((1u32, WasmValType::F64)),
        _ => None,
    }
}

/// The locals for the constants, one each, when all are supported.
pub open spec fn wasm_locals(consts: Seq<CompiledValue>) -> Option<Seq<(u32, WasmValType)>>
    decreases consts.len(),
{
    if consts.len() == 0 {
        Some(Seq::empty())
    } else {
        match (wasm_locals(consts.drop_last()), const_local(consts.last())) {
            (Some(ls), Some(l)) => Some(ls.push(l)),
            _ => None,
        }
    }
}

/// The instruction that loads constant `i` (a number by the bits given).
pub open spec fn const_load(c: CompiledValue, bits: u64) -> WasmInstr {
    match c {
        CompiledValue::CompiledBoolean(b) => WasmInstr::I32Const(if b {
            1i32
        } else {
            0i32
        }),
        CompiledValue::CompiledNumber(_) => WasmInstr::F64Const(bits),
        _ => WasmInstr::I32Const(0i32),
    }
}

/// The instructions that store each constant into its local.
pub open spec fn const_init(consts: Seq<CompiledValue>, bits: Seq<u64>) -> Seq<WasmInstr>
    decreases consts.len(),
{
    if consts.len() == 0 {
        Seq::empty()
    } else {
        let i = consts.len() - 1;
        const_init(consts.drop_last(), bits) + seq![
            const_load(consts.last(), bits[i]),
            WasmInstr::LocalSet(i as u32),
        ]
    }
}

/// `pre` before the instructions of `rest`, if there are any.
pub open spec fn prepend(pre: Seq<WasmInstr>, rest: Option<Seq<WasmInstr>>) -> Option<Seq<WasmInstr>> {
    match rest {
        Some(r) => Some(pre + r),
        None => None,
    }
}

/// The instructions for the code from `i` on, with the kinds `s` on the
/// stack, calling `print_int` (`pi`) or `print_number` (`pn`) to print;
/// none when an instruction is not supported or the code is malformed.
pub open spec fn translate(code: Seq<Byte>, i: int, s: Seq<StackValueType>, pi: u32, pn: u32) -> Option<
    Seq<WasmInstr>,
>
    decreases code.len() - i,
{
    if i < 0 || i >= code.len() {
        Some(Seq::empty())
    } else {
        match code[i] {
            Byte::Raw(n) => prepend(
                seq![WasmInstr::I32Const(tag_raw()), WasmInstr::I32Const(n as i32)],
                translate(code, i + 1, s.push(StackValueType::Number), pi, pn),
            ),
            Byte::Named(op) => match op {
                OpCode::Constant => if i + 1 < code.len() && code[i + 1] is Raw {
                    prepend(
                        seq![
                            WasmInstr::I32Const(tag_number()),
                            WasmInstr::LocalGet(code[i + 1]->Raw_0 as u32),
                        ],
                        translate(code, i + 2, s.push(StackValueType::Number), pi, pn),
                    )
                } else {
                    None
                },
                OpCode::False => prepend(
                    seq![WasmInstr::I32Const(tag_boolean()), WasmInstr::I32Const(0)],
                    translate(code, i + 1, s.push(StackValueType::Boolean), pi, pn),
                ),
                OpCode::True => prepend(
                    seq![WasmInstr::I32Const(tag_boolean()), WasmInstr::I32Const(1)],
                    translate(code, i + 1, s.push(StackValueType::Boolean), pi, pn),
                ),
                OpCode::Nil => prepend(
                    seq![WasmInstr::I32Const(tag_nil()), WasmInstr::I32Const(0)],
                    translate(code, i + 1, s.push(StackValueType::Nil), pi, pn),
                ),
                OpCode::Print => if s.len() == 0 {
                    None
                } else {
                    prepend(
                        seq![
                            WasmInstr::Call(
                                if s.last() == StackValueType::Number {
                                    pn
                                } else {
                                    pi
                                },
                            ),
                        ],
                        translate(code, i + 1, s.drop_last(), pi, pn),
                    )
                },
                OpCode::Return => if s.len() == 0 {
                    prepend(
                        seq![WasmInstr::I32Const(tag_nil()), WasmInstr::I32Const(0), WasmInstr::Return],
                        translate(code, i + 1, s, pi, pn),
                    )
                } else {
                    prepend(seq![WasmInstr::Return], translate(code, i + 1, s.drop_last(), pi, pn))
                },
                _ => None,
            },
        }
    }
}

/// A literal value as the generated code hands it to `print_int`.
pub enum WasmLiteral {
    Nil,
    Boolean(bool),
}

/// The literal that a type tag and a payload, pushed as two `i32`
/// constants, stand for: tag 0 is nil with payload 0; tag 1 is a boolean,
/// payload 0 for false and 1 for true. Nothing for any other pair.
pub open spec fn literal_of(tag: WasmInstr, payload: WasmInstr) -> Option<WasmLiteral> {
    match (tag, payload) {
        (WasmInstr::I32Const(t), WasmInstr::I32Const(v)) => if t == 0 && v == 0 {
            Some(WasmLiteral::Nil)
        } else if t == 1 && v == 0 {
            Some(WasmLiteral::Boolean(false))
        } else if t == 1 && v == 1 {
            Some(WasmLiteral::Boolean(true))
        } else {
            None
        },
        _ => None,
    }
}

/// A literal instruction becomes the tag and payload of the value it
/// names: `true` the boolean true, `false` the boolean false, `nil` nil.
/// Printed at once, a literal goes to `print_int` (`pi`), and a number
/// constant, loaded from its local, to `print_number` (`pn`). A `return`
/// with nothing on the stack returns nil.
pub proof fn law_literal_translation(code: Seq<Byte>, i: int, s: Seq<StackValueType>, pi: u32, pn: u32)
    requires
        0 <= i < code.len(),
        translate(code, i, s, pi, pn) is Some,
    ensures
        ({
            let t = translate(code, i, s, pi, pn)->0;
            &&& code[i] == Byte::Named(OpCode::True) ==> t.len() >= 2 && literal_of(t[0], t[1]) == Some(
                WasmLiteral::Boolean(true),
            )
            &&& code[i] == Byte::Named(OpCode::False) ==> t.len() >= 2 && literal_of(t[0], t[1]) == Some(
                WasmLiteral::Boolean(false),
            )
            &&& code[i] == Byte::Named(OpCode::Nil) ==> t.len() >= 2 && literal_of(t[0], t[1]) == Some(
                WasmLiteral::Nil,
            )
            &&& (code[i] == Byte::Named(OpCode::True) || code[i] == Byte::Named(OpCode::False) || code[i]
                == Byte::Named(OpCode::Nil)) && i + 1 < code.len() && code[i + 1] == Byte::Named(OpCode::Print)
                ==> t.len() >= 3 && t[2] == WasmInstr::Call(pi)
            &&& code[i] == Byte::Named(OpCode::Return) && s.len() == 0 ==> t.len() >= 3 && literal_of(t[0], t[1])
                == Some(WasmLiteral::Nil) && t[2] == WasmInstr::Return
            &&& code[i] == Byte::Named(OpCode::Constant) && i + 2 < code.len() && code[i + 2] == Byte::Named(
                OpCode::Print,
            ) ==> t.len() >= 3 && t[0] == WasmInstr::I32Const(2) && t[1] is LocalGet && t[2]
                == WasmInstr::Call(pn)
        }),
{
    reveal_with_fuel(translate, 3);
    let t = translate(code, i, s, pi, pn)->0;
    if code[i] == Byte::Named(OpCode::True) || code[i] == Byte::Named(OpCode::False) || code[i] == Byte::Named(
        OpCode::Nil,
    ) {
        if i + 1 < code.len() && code[i + 1] == Byte::Named(OpCode::Print) {
            let k = if code[i] == Byte::Named(OpCode::True) || code[i] == Byte::Named(OpCode::False) {
                StackValueType::Boolean
            } else {
                StackValueType::Nil
            };
            assert(s.push(k).last() == k);
            assert(s.push(k).len() > 0);
        }
    }
    if code[i] == Byte::Named(OpCode::Constant) && i + 2 < code.len() && code[i + 2] == Byte::Named(
        OpCode::Print,
    ) {
        let k = StackValueType::Number;
        assert(s.push(k).last() == k);
        assert(s.push(k).len() > 0);
    }
}

/// Each constant is stored into its own local, in order, with its value:
/// a boolean as the payload that stands for it, nil as nil's payload, a
/// number as the bits given for it.
pub proof fn law_constants_stored(consts: Seq<CompiledValue>, bits: Seq<u64>, i: int)
    requires
        0 <= i < consts.len(),
        consts.len() <= bits.len(),
    ensures
        const_init(consts, bits).len() == 2 * consts.len(),
        const_init(consts, bits)[2 * i + 1] == WasmInstr::LocalSet(i as u32),
        consts[i] matches CompiledValue::CompiledBoolean(b) ==> literal_of(
            WasmInstr::I32Const(1),
            const_init(consts, bits)[2 * i],
        ) == Some(WasmLiteral::Boolean(b)),
        consts[i] is CompiledNil ==> literal_of(WasmInstr::I32Const(0), const_init(consts, bits)[2 * i]) == Some(
            WasmLiteral::Nil,
        ),
        consts[i] is CompiledNumber ==> const_init(consts, bits)[2 * i] == WasmInstr::F64Const(bits[i]),
    decreases consts.len(),
{
    lemma_const_init_len(consts, bits);
    let last = consts.len() - 1;
    if i < last {
        law_constants_stored(consts.drop_last(), bits, i);
        lemma_const_init_len(consts.drop_last(), bits);
        assert(consts.drop_last()[i] == consts[i]);
    }
}

/// Each constant has a local of its own, of the type of the value stored
/// into it: `f64` exactly where a number's bits are stored, `i32` for a
/// boolean or nil.
pub proof fn law_constant_locals_typed(consts: Seq<CompiledValue>, bits: Seq<u64>, i: int)
    requires
        0 <= i < consts.len(),
        consts.len() <= bits.len(),
        wasm_locals(consts) is Some,
    ensures
        wasm_locals(consts)->0.len() == consts.len(),
        wasm_locals(consts)->0[i].0 == 1,
        (wasm_locals(consts)->0[i].1 == WasmValType::F64) == (const_init(consts, bits)[2 * i] is F64Const),
        wasm_locals(consts)->0[i].1 == WasmValType::F64 || wasm_locals(consts)->0[i].1 == WasmValType::I32,
    decreases consts.len(),
{
    law_constants_stored(consts, bits, i);
    let last = consts.len() - 1;
    if last > 0 {
        let rest = consts.drop_last();
        assert(wasm_locals(rest) is Some);
        if i < last {
            law_constant_locals_typed(rest, bits, i);
            law_constants_stored(rest, bits, i);
            assert(rest[i] == consts[i]);
        } else {
            lemma_locals_len(rest);
        }
    }
}

/// The locals of supported constants are one per constant.
proof fn lemma_locals_len(consts: Seq<CompiledValue>)
    requires
        wasm_locals(consts) is Some,
    ensures
        wasm_locals(consts)->0.len() == consts.len(),
    decreases consts.len(),
{
    if consts.len() > 0 {
        lemma_locals_len(consts.drop_last());
    }
}

/// The stores of the constants take two instructions each.
proof fn lemma_const_init_len(consts: Seq<CompiledValue>, bits: Seq<u64>)
    ensures
        const_init(consts, bits).len() == 2 * consts.len(),
    decreases consts.len(),
{
    if consts.len() > 0 {
        lemma_const_init_len(consts.drop_last(), bits);
    }
}

/// Whether the code from `i` on translates with `n` values on the stack:
/// only constants, literals, `print` of a value and `return` occur, and each
/// constant has its operand.
pub open spec fn translates(code: Seq<Byte>, i: int, n: nat) -> bool
    decreases code.len() - i,
{
    if i < 0 || i >= code.len() {
        true
    } else {
        match code[i] {
            Byte::Raw(_) => translates(code, i + 1, n + 1),
            Byte::Named(op) => match op {
                OpCode::Constant => i + 1 < code.len() && code[i + 1] is Raw && translates(code, i + 2, n + 1),
                OpCode::False | OpCode::True | OpCode::Nil => translates(code, i + 1, n + 1),
                OpCode::Print => n > 0 && translates(code, i + 1, (n - 1) as nat),
                OpCode::Return => if n == 0 {
                    translates(code, i + 1, 0)
                } else {
                    translates(code, i + 1, (n - 1) as nat)
                },
                _ => false,
            },
        }
    }
}

/// The code translates exactly when it translates with as many values on
/// the stack as `s` holds.
pub proof fn lemma_translates(code: Seq<Byte>, i: int, s: Seq<StackValueType>, pi: u32, pn: u32)
    ensures
        (translate(code, i, s, pi, pn) is Some) == translates(code, i, s.len()),
    decreases code.len() - i,
{
    if 0 <= i < code.len() {
        match code[i] {
            Byte::Raw(_) => {
                lemma_translates(code, i + 1, s.push(StackValueType::Number), pi, pn);
            },
            Byte::Named(op) => match op {
                OpCode::Constant => {
                    if i + 1 < code.len() {
                        lemma_translates(code, i + 2, s.push(StackValueType::Number), pi, pn);
                    }
                },
                OpCode::False => {
                    lemma_translates(code, i + 1, s.push(StackValueType::Boolean), pi, pn);
                },
                OpCode::True => {
                    lemma_translates(code, i + 1, s.push(StackValueType::Boolean), pi, pn);
                },
                OpCode::Nil => {
                    lemma_translates(code, i + 1, s.push(StackValueType::Nil), pi, pn);
                },
                OpCode::Print => {
                    if s.len() > 0 {
                        lemma_translates(code, i + 1, s.drop_last(), pi, pn);
                    }
                },
                OpCode::Return => {
                    if s.len() == 0 {
                        lemma_translates(code, i + 1, s, pi, pn);
                    } else {
                        lemma_translates(code, i + 1, s.drop_last(), pi, pn);
                    }
                },
                _ => {},
            },
        }
    }
}

/// The constants have locals exactly when each one is a boolean, nil or a
/// number.
pub proof fn lemma_wasm_locals(consts: Seq<CompiledValue>)
    ensures
        (wasm_locals(consts) is Some) == (forall|i: int| 0 <= i < consts.len() ==> #[trigger] const_local(consts[i]) is Some),
    decreases consts.len(),
{
    if consts.len() > 0 {
        lemma_wasm_locals(consts.drop_last());
        if wasm_locals(consts.drop_last()) is Some && const_local(consts.last()) is Some {
            assert forall|i: int| 0 <= i < consts.len() implies #[trigger] const_local(consts[i]) is Some by {
                if i < consts.len() - 1 {
                    assert(consts.drop_last()[i] == consts[i]);
                }
            }
        } else if wasm_locals(consts.drop_last()) is None {
            let j = choose|j: int| 0 <= j < consts.len() - 1 && !(#[trigger] const_local(consts.drop_last()[j]) is Some);
            assert(consts.drop_last()[j] == consts[j]);
        }
    }
}

/// The module that the generator writes around the main function's locals
/// and body: three function types, the two print imports, the main
/// function, one memory of one page, the exports `main` and `memory`, the
/// code, and an empty data section.
pub open spec fn expected_sections(locals: Seq<(u32, WasmValType)>, body: Seq<WasmInstr>) -> Seq<
    SectionView,
> {
    seq![
        SectionView::Types(
            seq![
                (seq![WasmValType::I32, WasmValType::I32], Seq::empty()),
                (seq![WasmValType::I32, WasmValType::F64], Seq::empty()),
                (Seq::empty(), seq![WasmValType::I32, WasmValType::I32]),
            ],
        ),
        SectionView::Imports(
            seq![("env"@, "print_int"@, 0u32), ("env"@, "print_number"@, 1u32)],
        ),
        SectionView::Functions(seq![2u32]),
        SectionView::Memories(seq![(1u64, None, false, false, None)]),
        SectionView::Exports(
            seq![("main"@, WasmExportKind::Func, 2u32), ("memory"@, WasmExportKind::Memory, 0u32)],
        ),
        SectionView::Code(seq![(locals, body)]),
        SectionView::Data(0),
    ]
}

/// What the generator makes of a compilation: the module bytes, or nothing
/// when a constant or an instruction is not supported.
pub open spec fn spec_wasm(c: Compilation, bits: Seq<u64>) -> Option<Seq<u8>> {
    let code = flatten_groups(groups_view(c.main.line_data@));
    match (wasm_locals(c.main.constants@), translate(code, 0, Seq::empty(), 0, 1)) {
        (Some(ls), Some(t)) => Some(
            module_bytes(
                expected_sections(ls, const_init(c.main.constants@, bits) + t + seq![WasmInstr::End]),
            ),
        ),
        _ => None,
    }
}

/// Whether the code of a compilation cannot be turned into WebAssembly,
/// whatever its numbers hold: a constant has no local, or the code does not
/// translate.
pub open spec fn wasm_fails(c: Compilation) -> bool {
    wasm_locals(c.main.constants@) is None || translate(flatten_groups(groups_view(c.main.line_data@)), 0, Seq::empty(), 0, 1) is None
}

/// Whether the top-level function in slot `r` of a well-formed heap gives
/// no module: it cannot be compiled, or a compilation of it has too many
/// constants or code that cannot be turned into WebAssembly.
pub open spec fn no_module_for(h: Heap, r: GcPtr) -> bool {
    &&& h.wf()
    &&& live(h.objs(), r.0)
    &&& (!main_serializable(h.objs(), r.0) || exists|c: Compilation|
        #[trigger] chunk_ok(h.objs(), texts_view(c.strings@), *main_function(h.objs(), r.0)->0.spec_chunk(), c.main)
            && (c.main.constants@.len() >= u32::MAX || wasm_fails(c)))
}

/// Whether a compilation can be turned into WebAssembly: every constant
/// is a boolean, nil or a number, and its code translates.
pub fn wasm_supported(compilation: &Compilation) -> (res: bool)
    ensures
        res == !wasm_fails(*compilation),
{
    let consts = &compilation.main.constants;
    let mut k: usize = 0;
    while k < consts.len()
        invariant
            consts == &compilation.main.constants,
            k <= consts@.len(),
            forall|i: int| 0 <= i < k ==> #[trigger] const_local(consts@[i]) is Some,
        decreases consts.len() - k,
    {
        let ok = match &consts[k] {
            CompiledValue::CompiledBoolean(_) => true,
            CompiledValue::CompiledNil => true,
            CompiledValue::CompiledNumber(_) => true,
            _ => false,
        };
        if !ok {
            proof {
                lemma_wasm_locals(consts@);
                assert(!(const_local(consts@[k as int]) is Some));
                assert(wasm_locals(consts@) is None);
                assert(wasm_fails(*compilation));
            }
            return false;
        }
        k = k + 1;
    }
    proof {
        lemma_wasm_locals(consts@);
    }
    let code = WasmCompiler::flatten(compilation);
    let ghost all = code@;
    let mut i: usize = 0;
    let mut n: usize = 0;
    proof {
        lemma_translates(all, 0, Seq::empty(), 0, 1);
    }
    while i < code.len()
        invariant
            all == code@,
            all == flatten_groups(groups_view(compilation.main.line_data@)),
            (translate(all, 0, Seq::empty(), 0, 1) is Some) == translates(all, 0, 0),
            wasm_locals(compilation.main.constants@) is Some,
            i <= code@.len(),
            n <= i,
            translates(all, 0, 0) == translates(all, i as int, n as nat),
        decreases code.len() - i,
    {
        match code[i] {
            Byte::Raw(_) => {
                i = i + 1;
                n = n + 1;
            },
            Byte::Named(op) => match op {
                OpCode::Constant => {
                    if i + 1 < code.len() {
                        let is_raw = match code[i + 1] {
                            Byte::Raw(_) => true,
                            Byte::Named(_) => false,
                        };
                        if !is_raw {
                            proof {
                                assert(!translates(all, i as int, n as nat));
                            }
                            return false;
                        }
                        i = i + 2;
                        n = n + 1;
                    } else {
                        proof {
                            assert(!translates(all, i as int, n as nat));
                        }
                        return false;
                    }
                },
                OpCode::False | OpCode::True | OpCode::Nil => {
                    i = i + 1;
                    n = n + 1;
                },
                OpCode::Print => {
                    if n == 0 {
                        proof {
                            assert(!translates(all, i as int, n as nat));
                        }
                        return false;
                    }
                    i = i + 1;
                    n = n - 1;
                },
                OpCode::Return => {
                    i = i + 1;
                    if n > 0 {
                        n = n - 1;
                    }
                },
                _ => {
                    proof {
                        assert(!translates(all, i as int, n as nat));
                    }
                    return false;
                },
            },
        }
    }
    true
}

/// The outcome of generating WebAssembly from source.
pub enum WasmResult {
    CompilationError,
    Success { wasm: Vec<u8> },
    ValidationError { message: Vec<char> },
}

/// Generates a WebAssembly module from the top-level code of a
/// compilation, tracking the kinds of the values it leaves on the stack.
pub struct WasmCompiler {
    pub stack: ShadowStack,
}

impl WasmCompiler {
    /// A generator with an empty stack.
    pub fn new() -> (res: WasmCompiler)
        ensures
            res.stack@ == Seq::<StackValueType>::empty(),
    {
        WasmCompiler { stack: ShadowStack::new() }
    }

    /// The bytes of the main chunk, line after line.
    fn flatten(compilation: &Compilation) -> (res: Vec<Byte>)
        ensures
            res@ == flatten_groups(groups_view(compilation.main.line_data@)),
    {
        let mut out: Vec<Byte> = Vec::new();
        let mut i: usize = 0;
        while i < compilation.main.line_data.len()
            invariant
                i <= compilation.main.line_data@.len(),
                out@ == flatten_groups(groups_view(compilation.main.line_data@).subrange(0, i as int)),
            decreases compilation.main.line_data@.len() - i,
        {
            let bytes = &compilation.main.line_data[i].1;
            let mut j: usize = 0;
            let ghost start = out@;
            while j < bytes.len()
                invariant
                    j <= bytes@.len(),
                    out@ == start + bytes@.subrange(0, j as int),
                decreases bytes@.len() - j,
            {
                out.push(bytes[j]);
                j = j + 1;
                proof {
                    assert(out@ =~= start + bytes@.subrange(0, j as int));
                }
            }
            proof {
                let g = groups_view(compilation.main.line_data@);
                assert(bytes@.subrange(0, bytes@.len() as int) =~= bytes@);
                assert(g.subrange(0, i + 1).drop_last() =~= g.subrange(0, i as int));
                assert(g.subrange(0, i + 1).last().1 == bytes@);
            }
            i = i + 1;
        }
        proof {
            assert(groups_view(compilation.main.line_data@).subrange(
                0,
                compilation.main.line_data@.len() as int,
            ) =~= groups_view(compilation.main.line_data@));
        }
        out
    }

    /// Generates the module for a compilation; `number_bits` gives the bits
    /// of the `f64` of each number constant. The compilation must be one
    /// that translates (`wasm_supported`): no constant is a function or a
    /// string, no instruction other than a constant, `false`, `true`, `nil`,
    /// `print` or `return` occurs, each constant has its operand, and `print`
    /// always finds something to print.
    pub fn run(&mut self, compilation: &Compilation, number_bits: &Vec<u64>) -> (res: Option<Vec<u8>>)
        requires
            number_bits@.len() == compilation.main.constants@.len(),
            compilation.main.constants@.len() < u32::MAX,
            old(self).stack@ == Seq::<StackValueType>::empty(),
            !wasm_fails(*compilation),
        ensures
            match (res, spec_wasm(*compilation, number_bits@)) {
                (Some(bytes), Some(expected)) => bytes@ == expected,
                (None, None) => true,
                _ => false,
            },
    {
        let consts = &compilation.main.constants;
        let bytecode = Self::flatten(compilation);
        let mut module = module_new();
        let mut memories = memory_section_new();
        let public_memory_index = memory_section_len(&memories);
        memory_section_memory(&mut memories, 1, None, false, false, None);
        let data = data_section_new();
        let mut types = type_section_new();
        let int_params = vec![WasmValType::I32, WasmValType::I32];
        let number_params = vec![WasmValType::I32, WasmValType::F64];
        let no_types: Vec<WasmValType> = Vec::new();
        proof {
            assert(int_params@ =~= seq![WasmValType::I32, WasmValType::I32]);
            assert(number_params@ =~= seq![WasmValType::I32, WasmValType::F64]);
            assert(no_types@ =~= Seq::<WasmValType>::empty());
        }
        let print_int_type_index = type_section_len(&types);
        type_section_function(&mut types, &int_params, &no_types);
        let print_number_type_index = type_section_len(&types);
        type_section_function(&mut types, &number_params, &no_types);
        let main_type_index = type_section_len(&types);
        type_section_function(&mut types, &no_types, &int_params);
        proof {
            assert(type_entries(types) =~= seq![
                (seq![WasmValType::I32, WasmValType::I32], Seq::empty()),
                (seq![WasmValType::I32, WasmValType::F64], Seq::empty()),
                (Seq::empty(), seq![WasmValType::I32, WasmValType::I32]),
            ]);
        }
        module_add_types(&mut module, &types);
        let mut imports = import_section_new();
        let print_int_fn_index = import_section_len(&imports);
        import_section_import(&mut imports, "env", "print_int", print_int_type_index);
        let print_number_fn_index = import_section_len(&imports);
        import_section_import(&mut imports, "env", "print_number", print_number_type_index);
        module_add_imports(&mut module, &imports);
        let mut functions = function_section_new();
        let main_fn_index = import_section_len(&imports) + function_section_len(&functions);
        function_section_function(&mut functions, main_type_index);
        module_add_functions(&mut module, &functions);
        module_add_memories(&mut module, &memories);
        proof {
            reveal_strlit("env");
            reveal_strlit("print_int");
            reveal_strlit("print_number");
            assert(import_entries(imports) =~= seq![("env"@, "print_int"@, 0u32), ("env"@, "print_number"@, 1u32)]);
            assert(function_entries(functions) =~= seq![2u32]);
            assert(memory_entries(memories) =~= seq![(1u64, None, false, false, None)]);
        }
        let ghost sections_so_far = module_sections(module);
        proof {
            assert(sections_so_far =~= expected_sections(Seq::empty(), Seq::empty()).subrange(0, 4));
        }
        // The locals: one per constant.
        let mut locals: Vec<(u32, WasmValType)> = Vec::new();
        let mut i: usize = 0;
        while i < consts.len()
            invariant
                consts@ == compilation.main.constants@,
                i <= consts@.len(),
                wasm_locals(consts@.subrange(0, i as int)) == Some(locals@),
            decreases consts@.len() - i,
        {
            proof {
                assert(consts@.subrange(0, i + 1).drop_last() =~= consts@.subrange(0, i as int));
            }
            let local = match &consts[i] {
                CompiledValue::CompiledBoolean(_) => (1u32, WasmValType::I32),
                CompiledValue::CompiledNil => (1u32, WasmValType::I32),
                CompiledValue::CompiledNumber(_) => (1u32, WasmValType::F64),
                _ => {
                    proof {
                        lemma_wasm_locals_none(consts@, i as int);
                    }
                    return None;
                },
            };
            locals.push(local);
            i = i + 1;
        }
        proof {
            assert(consts@.subrange(0, consts@.len() as int) =~= consts@);
        }
        let mut function = function_new(&locals);
        // Each constant goes into its local.
        let mut k: usize = 0;
        while k < consts.len()
            invariant
                consts@ == compilation.main.constants@,
                k <= consts@.len(),
                consts@.len() < u32::MAX,
                number_bits@.len() == consts@.len(),
                function_locals(function) == locals@,
                function_instrs(function) == const_init(consts@.subrange(0, k as int), number_bits@),
            decreases consts@.len() - k,
        {
            proof {
                assert(consts@.subrange(0, k + 1).drop_last() =~= consts@.subrange(0, k as int));
            }
            match &consts[k] {
                CompiledValue::CompiledBoolean(b) => emit_i32_const(&mut function, if *b { 1 } else { 0 }),
                CompiledValue::CompiledNumber(_) => emit_f64_const(&mut function, number_bits[k]),
                _ => emit_i32_const(&mut function, 0),
            }
            emit_local_set(&mut function, k as u32);
            k = k + 1;
        }
        proof {
            assert(consts@.subrange(0, consts@.len() as int) =~= consts@);
        }
        // The code.
        let ghost init = function_instrs(function);
        let ghost code = bytecode@;
        let mut bc_index: usize = 0;
        loop
            invariant
                bytecode@ == code,
                code == flatten_groups(groups_view(compilation.main.line_data@)),
                wasm_locals(compilation.main.constants@) == Some(locals@),
                bc_index <= code.len(),
                print_int_fn_index == 0,
                print_number_fn_index == 1,
                function_locals(function) == locals@,
                translate(code, 0, Seq::empty(), 0, 1) == prepend(
                    function_instrs(function).subrange(init.len() as int, function_instrs(function).len() as int),
                    translate(code, bc_index as int, self.stack@, 0, 1),
                ),
                init.is_prefix_of(function_instrs(function)),
                init == const_init(compilation.main.constants@, number_bits@),
            ensures
                bc_index >= code.len(),
            decreases code.len() - bc_index,
        {
            if bc_index >= bytecode.len() {
                break ;
            }
            let ghost before = function_instrs(function);
            let ghost st = self.stack@;
            let ghost i0 = bc_index as int;
            let ghost mut x: Seq<WasmInstr> = Seq::empty();
            match bytecode[bc_index] {
                Byte::Raw(num) => {
                    emit_i32_const(&mut function, 4);
                    emit_i32_const(&mut function, num as i32);
                    self.stack.push_number();
                    proof {
                        x = seq![WasmInstr::I32Const(tag_raw()), WasmInstr::I32Const(num as i32)];
                        assert(function_instrs(function) =~= before + x);
                        assert(translate(code, i0, st, 0, 1) == prepend(x, translate(code, i0 + 1, self.stack@, 0, 1)));
                    }
                    bc_index = bc_index + 1;
                },
                Byte::Named(OpCode::Constant) => {
                    if bc_index + 1 >= bytecode.len() {
                        return None;
                    }
                    let const_index = match bytecode[bc_index + 1] {
                        Byte::Raw(n) => n,
                        Byte::Named(_) => {
                            return None;
                        },
                    };
                    emit_i32_const(&mut function, 2);
                    emit_local_get(&mut function, const_index as u32);
                    self.stack.push_number();
                    proof {
                        x = seq![WasmInstr::I32Const(tag_number()), WasmInstr::LocalGet(const_index as u32)];
                        assert(function_instrs(function) =~= before + x);
                        assert(translate(code, i0, st, 0, 1) == prepend(x, translate(code, i0 + 2, self.stack@, 0, 1)));
                    }
                    bc_index = bc_index + 2;
                },
                Byte::Named(OpCode::False) => {
                    emit_i32_const(&mut function, 1);
                    emit_i32_const(&mut function, 0);
                    self.stack.push_boolean();
                    proof {
                        x = seq![WasmInstr::I32Const(tag_boolean()), WasmInstr::I32Const(0)];
                        assert(function_instrs(function) =~= before + x);
                        assert(translate(code, i0, st, 0, 1) == prepend(x, translate(code, i0 + 1, self.stack@, 0, 1)));
                    }
                    bc_index = bc_index + 1;
                },
                Byte::Named(OpCode::True) => {
                    emit_i32_const(&mut function, 1);
                    emit_i32_const(&mut function, 1);
                    self.stack.push_boolean();
                    proof {
                        x = seq![WasmInstr::I32Const(tag_boolean()), WasmInstr::I32Const(1)];
                        assert(function_instrs(function) =~= before + x);
                        assert(translate(code, i0, st, 0, 1) == prepend(x, translate(code, i0 + 1, self.stack@, 0, 1)));
                    }
                    bc_index = bc_index + 1;
                },
                Byte::Named(OpCode::Nil) => {
                    emit_i32_const(&mut function, 0);
                    emit_i32_const(&mut function, 0);
                    self.stack.push_nil();
                    proof {
                        x = seq![WasmInstr::I32Const(tag_nil()), WasmInstr::I32Const(0)];
                        assert(function_instrs(function) =~= before + x);
                        assert(translate(code, i0, st, 0, 1) == prepend(x, translate(code, i0 + 1, self.stack@, 0, 1)));
                    }
                    bc_index = bc_index + 1;
                },
                Byte::Named(OpCode::Print) => {
                    if self.stack.is_empty() {
                        return None;
                    }
                    let fn_index = if self.stack.peek_number(0) {
                        print_number_fn_index
                    } else {
                        print_int_fn_index
                    };
                    emit_call(&mut function, fn_index);
                    self.stack.pop();
                    proof {
                        x = seq![WasmInstr::Call(fn_index)];
                        assert(function_instrs(function) =~= before + x);
                        assert(translate(code, i0, st, 0, 1) == prepend(x, translate(code, i0 + 1, self.stack@, 0, 1)));
                    }
                    bc_index = bc_index + 1;
                },
                Byte::Named(OpCode::Return) => {
                    if self.stack.is_empty() {
                        emit_i32_const(&mut function, 0);
                        emit_i32_const(&mut function, 0);
                        self.stack.push_nil();
                    }
                    self.stack.pop();
                    emit_return(&mut function);
                    proof {
                        if st.len() == 0 {
                            x = seq![WasmInstr::I32Const(tag_nil()), WasmInstr::I32Const(0), WasmInstr::Return];
                            assert(Seq::<StackValueType>::empty().push(StackValueType::Nil).drop_last() =~= st);
                        } else {
                            x = seq![WasmInstr::Return];
                        }
                        assert(function_instrs(function) =~= before + x);
                        assert(code[i0] == Byte::Named(OpCode::Return));
                        if st.len() == 0 {
                            assert(self.stack@ =~= st);
                        } else {
                            assert(self.stack@ =~= st.drop_last());
                        }
                        assert(translate(code, i0, st, 0, 1) == prepend(x, translate(code, i0 + 1, self.stack@, 0, 1)));
                    }
                    bc_index = bc_index + 1;
                },
                Byte::Named(_) => {
                    return None;
                },
            }
            proof {
                let now = function_instrs(function);
                let added = x;
                let pre = before.subrange(init.len() as int, before.len() as int);
                assert(now.subrange(init.len() as int, now.len() as int) =~= pre + added);
                let rest = translate(code, bc_index as int, self.stack@, 0, 1);
                if rest is Some {
                    assert((pre + added) + rest->0 =~= pre + (added + rest->0));
                }
            }
        }
        emit_end(&mut function);
        let mut exports = export_section_new();
        export_section_export(&mut exports, "main", WasmExportKind::Func, main_fn_index);
        export_section_export(&mut exports, "memory", WasmExportKind::Memory, public_memory_index);
        module_add_exports(&mut module, &exports);
        let mut code_section = code_section_new();
        code_section_function(&mut code_section, &function);
        module_add_code(&mut module, &code_section);
        module_add_data(&mut module, &data);
        proof {
            reveal_strlit("main");
            reveal_strlit("memory");
            assert(export_entries(exports) =~= seq![("main"@, WasmExportKind::Func, 2u32), ("memory"@, WasmExportKind::Memory, 0u32)]);
            let body = function_instrs(function);
            let prefix = body.subrange(init.len() as int, body.len() - 1);
            assert(body.subrange(0, init.len() as int) == init);
            assert(translate(code, bc_index as int, self.stack@, 0, 1) == Some(Seq::<WasmInstr>::empty()));
            assert(prefix + Seq::<WasmInstr>::empty() =~= prefix);
            assert(translate(code, 0, Seq::empty(), 0, 1) == Some(prefix));
            assert(body =~= const_init(compilation.main.constants@, number_bits@) + prefix + seq![WasmInstr::End]);
            assert(module_sections(module) =~= expected_sections(locals@, body));
        }
        Some(module_finish(module))
    }
}

/// When a constant is not supported, there are no locals for the constants.
pub proof fn lemma_wasm_locals_none(consts: Seq<CompiledValue>, i: int)
    requires
        0 <= i < consts.len(),
        const_local(consts[i]) is None,
    ensures
        wasm_locals(consts) is None,
    decreases consts.len(),
{
    if i < consts.len() - 1 {
        lemma_wasm_locals_none(consts.drop_last(), i);
    }
}


/// Whether `bits` gives, for each number constant, what `f` returns on its
/// text.
pub open spec fn bits_for<F: Fn(&Vec<char>) -> u64>(consts: Seq<CompiledValue>, f: F, bits: Seq<u64>) -> bool {
    &&& bits.len() == consts.len()
    &&& forall|i: int| 0 <= i < consts.len() ==> (#[trigger] consts[i] matches CompiledValue::CompiledNumber(t)
        ==> f.ensures((&t,), bits[i]))
}

/// Whether `b` is what the generator makes of a compilation of the
/// top-level function in slot `p`, each number's bits given by `f`.
pub open spec fn made_from<F: Fn(&Vec<char>) -> u64>(h: Heap, p: GcPtr, f: F, b: Seq<u8>) -> bool {
    exists|comp: Compilation, bits: Seq<u64>|
        chunk_ok(h.objs(), texts_view(comp.strings@), *main_function(h.objs(), p.0)->0.spec_chunk(), comp.main)
            && bits_for(comp.main.constants@, f, bits) && #[trigger] spec_wasm(comp, bits) == Some(b)
}

/// What `generate_wasm` gives after a run of the compiler that ended in
/// `c` with result `r`: a compilation error exactly when the run failed;
/// else the module made from the compiled top-level function, with the
/// validator's verdict on it; nothing only when that function gives no
/// module.
pub open spec fn wasm_outcome<F: Fn(&Vec<char>) -> u64>(c: Compiler, r: Option<GcPtr>, f: F, res: Option<WasmResult>) -> bool {
    match r {
        None => res matches Some(WasmResult::CompilationError),
        Some(p) => match res {
            None => no_module_for(c.heap, p),
            Some(WasmResult::CompilationError) => false,
            Some(WasmResult::Success { wasm }) => wasm_is_valid(wasm@) && made_from(c.heap, p, f, wasm@),
            Some(WasmResult::ValidationError { message }) => exists|b: Seq<u8>|
                !wasm_is_valid(b) && message@ == validation_message(b) && #[trigger] made_from(c.heap, p, f, b),
        },
    }
}

/// Compiles `source` and generates a WebAssembly module for its top-level
/// code, checked by wasmparser; `number_bits` gives the bits of the `f64`
/// that a number literal denotes. A compilation error exactly when the
/// compiler reports one; else the module made from the compilation, valid
/// or with the validator's complaint; nothing when the program uses what
/// the generator does not support.
pub fn generate_wasm<F: Fn(&Vec<char>) -> u64>(source: String, number_bits: F) -> (res: Option<WasmResult>)
    requires
        source@.len() + 4 <= u32::MAX,
        forall|t: &Vec<char>| number_bits.requires((t,)),
    ensures
        exists|h: Heap, c: Compiler, r: Option<GcPtr>|
            h.wf() && #[trigger] run_outcome(source@, h, c, r) && wasm_outcome(c, r, number_bits, res),
{
    let mut compiler = Compiler::default();
    let ghost h = compiler.heap;
    let ghost src = source@;
    let run_res = compiler.run(source);
    let ghost after = compiler;
    proof {
        assert(run_outcome(src, h, after, run_res));
    }
    let root = match run_res {
        Some(r) => r,
        None => {
            return Some(WasmResult::CompilationError);
        },
    };
    let compilation = match crawl_root(&compiler.heap, root) {
        Some(c) => c,
        None => {
            proof {
                assert(no_module_for(compiler.heap, root));
            }
            return None;
        },
    };
    let consts = &compilation.main.constants;
    proof {
        assert(main_function(compiler.heap.objs(), root.0)->0 == obj(compiler.heap.objs(), root.0)->HeapFunction_0);
    }
    if consts.len() >= 0xffff_ffff {
        proof {
            assert(chunk_ok(compiler.heap.objs(), texts_view(compilation.strings@), *main_function(compiler.heap.objs(), root.0)->0.spec_chunk(), compilation.main));
            assert(no_module_for(compiler.heap, root));
        }
        return None;
    }
    if !wasm_supported(&compilation) {
        proof {
            assert(chunk_ok(compiler.heap.objs(), texts_view(compilation.strings@), *main_function(compiler.heap.objs(), root.0)->0.spec_chunk(), compilation.main));
            assert(no_module_for(compiler.heap, root));
        }
        return None;
    }
    let mut bits: Vec<u64> = Vec::new();
    let mut i: usize = 0;
    while i < consts.len()
        invariant
            i <= consts@.len(),
            bits@.len() == i,
            forall|t: &Vec<char>| number_bits.requires((t,)),
            forall|j: int| 0 <= j < i ==> (#[trigger] consts@[j] matches CompiledValue::CompiledNumber(t)
                ==> number_bits.ensures((&t,), bits@[j])),
        decreases consts@.len() - i,
    {
        let b = match &consts[i] {
            CompiledValue::CompiledNumber(t) => number_bits(t),
            _ => 0,
        };
        bits.push(b);
        i = i + 1;
    }
    let mut generator = WasmCompiler::new();
    let wasm = match generator.run(&compilation, &bits) {
        Some(w) => w,
        None => {
            proof {
                assert(wasm_fails(compilation));
                assert(chunk_ok(compiler.heap.objs(), texts_view(compilation.strings@), *main_function(compiler.heap.objs(), root.0)->0.spec_chunk(), compilation.main));
                assert(no_module_for(compiler.heap, root));
            }
            return None;
        },
    };
    proof {
        assert(bits_for(consts@, number_bits, bits@));
        assert(chunk_ok(compiler.heap.objs(), texts_view(compilation.strings@), *main_function(compiler.heap.objs(), root.0)->0.spec_chunk(), compilation.main));
        assert(made_from(compiler.heap, root, number_bits, wasm@));
    }
    match validate_module(&wasm) {
        Ok(()) => Some(WasmResult::Success { wasm }),
        Err(message) => Some(WasmResult::ValidationError { message }),
    }
}

} // verus!

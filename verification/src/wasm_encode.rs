use vstd::prelude::*;

use wasm_encoder::{
    CodeSection, DataSection, EntityType, ExportKind, ExportSection, Function, FunctionSection, Ieee64,
    ImportSection, MemorySection, MemoryType, Module, TypeSection, ValType,
};

verus! {

// ---------------------------------------------------------------------------
// The types of the encoder that the code generator holds.
// ---------------------------------------------------------------------------

#[verifier::external_type_specification]
#[verifier::external_body]
pub struct ExModule(Module);

#[verifier::external_type_specification]
#[verifier::external_body]
pub struct ExTypeSection(TypeSection);

#[verifier::external_type_specification]
#[verifier::external_body]
pub struct ExImportSection(ImportSection);

#[verifier::external_type_specification]
#[verifier::external_body]
pub struct ExFunctionSection(FunctionSection);

#[verifier::external_type_specification]
#[verifier::external_body]
pub struct ExMemorySection(MemorySection);

#[verifier::external_type_specification]
#[verifier::external_body]
pub struct ExExportSection(ExportSection);

#[verifier::external_type_specification]
#[verifier::external_body]
pub struct ExCodeSection(CodeSection);

#[verifier::external_type_specification]
#[verifier::external_body]
pub struct ExDataSection(DataSection);

#[verifier::external_type_specification]
#[verifier::external_body]
pub struct ExFunction(Function);

// ---------------------------------------------------------------------------
// Plain values for what the encoder holds.
// ---------------------------------------------------------------------------

/// The value types the generated code uses.
#[derive(Clone, Copy, Debug, PartialEq, Eq, Structural)]
pub enum WasmValType {
    I32,
    F64,
}

/// The instructions the generated code uses (a 64-bit float by its bits).
#[derive(Clone, Copy, Debug, PartialEq, Eq, Structural)]
pub enum WasmInstr {
    I32Const(i32),
    F64Const(u64),
    LocalGet(u32),
    LocalSet(u32),
    Call(u32),
    Return,
    End,
}

/// The kinds of export the generated module has.
#[derive(Clone, Copy, Debug, PartialEq, Eq, Structural)]
pub enum WasmExportKind {
    Func,
    Memory,
}

/// A section of a module, by what was put in it.
pub enum SectionView {
    Types(Seq<(Seq<WasmValType>, Seq<WasmValType>)>),
    Imports(Seq<(Seq<char>, Seq<char>, u32)>),
    Functions(Seq<u32>),
    Memories(Seq<(u64, Option<u64>, bool, bool, Option<u32>)>),
    Exports(Seq<(Seq<char>, WasmExportKind, u32)>),
    Code(Seq<(Seq<(u32, WasmValType)>, Seq<WasmInstr>)>),
    Data(nat),
}

// ---------------------------------------------------------------------------
// Names for what the encoder's values hold and for what it produces.
// ---------------------------------------------------------------------------

/// The sections written into a module, in order.
pub uninterp spec fn module_sections(m: Module) -> Seq<SectionView>;

/// The bytes that the encoder produces for a module with these sections.
pub uninterp spec fn module_bytes(sections: Seq<SectionView>) -> Seq<u8>;

/// The function types defined in a type section: parameters and results.
pub uninterp spec fn type_entries(t: TypeSection) -> Seq<(Seq<WasmValType>, Seq<WasmValType>)>;

/// The imports of an import section: module, name and function type.
pub uninterp spec fn import_entries(i: ImportSection) -> Seq<(Seq<char>, Seq<char>, u32)>;

/// The type indices of a function section.
pub uninterp spec fn function_entries(f: FunctionSection) -> Seq<u32>;

/// The minimum sizes of the memories of a memory section.
pub uninterp spec fn memory_entries(m: MemorySection) -> Seq<(u64, Option<u64>, bool, bool, Option<u32>)>;

/// The exports of an export section: name, kind and index.
pub uninterp spec fn export_entries(e: ExportSection) -> Seq<(Seq<char>, WasmExportKind, u32)>;

/// The function bodies of a code section: locals and instructions.
pub uninterp spec fn code_entries(c: CodeSection) -> Seq<(Seq<(u32, WasmValType)>, Seq<WasmInstr>)>;

/// The number of data segments of a data section.
pub uninterp spec fn data_count(d: DataSection) -> nat;

/// The locals that a function body was made with.
pub uninterp spec fn function_locals(f: Function) -> Seq<(u32, WasmValType)>;

/// The instructions written into a function body.
pub uninterp spec fn function_instrs(f: Function) -> Seq<WasmInstr>;

// ---------------------------------------------------------------------------
// The calls into the encoder.
// ---------------------------------------------------------------------------

/// `Module::new`: a module with no sections yet.
#[verifier::external_body]
pub(crate) fn module_new() -> (res: Module)
    ensures
        module_sections(res) == Seq::<SectionView>::empty(),
{
    Module::new()
}

/// `Module::section` with a type section: the section is written next.
#[verifier::external_body]
pub(crate) fn module_add_types(m: &mut Module, s: &TypeSection)
    ensures
        module_sections(*final(m)) == module_sections(*old(m)).push(SectionView::Types(type_entries(*s))),
{
    m.section(s);
}

/// `Module::section` with an import section.
#[verifier::external_body]
pub(crate) fn module_add_imports(m: &mut Module, s: &ImportSection)
    ensures
        module_sections(*final(m)) == module_sections(*old(m)).push(
            SectionView::Imports(import_entries(*s)),
        ),
{
    m.section(s);
}

/// `Module::section` with a function section.
#[verifier::external_body]
pub(crate) fn module_add_functions(m: &mut Module, s: &FunctionSection)
    ensures
        module_sections(*final(m)) == module_sections(*old(m)).push(
            SectionView::Functions(function_entries(*s)),
        ),
{
    m.section(s);
}

/// `Module::section` with a memory section.
#[verifier::external_body]
pub(crate) fn module_add_memories(m: &mut Module, s: &MemorySection)
    ensures
        module_sections(*final(m)) == module_sections(*old(m)).push(
            SectionView::Memories(memory_entries(*s)),
        ),
{
    m.section(s);
}

/// `Module::section` with an export section.
#[verifier::external_body]
pub(crate) fn module_add_exports(m: &mut Module, s: &ExportSection)
    ensures
        module_sections(*final(m)) == module_sections(*old(m)).push(
            SectionView::Exports(export_entries(*s)),
        ),
{
    m.section(s);
}

/// `Module::section` with a code section.
#[verifier::external_body]
pub(crate) fn module_add_code(m: &mut Module, s: &CodeSection)
    ensures
        module_sections(*final(m)) == module_sections(*old(m)).push(SectionView::Code(code_entries(*s))),
{
    m.section(s);
}

/// `Module::section` with a data section.
#[verifier::external_body]
pub(crate) fn module_add_data(m: &mut Module, s: &DataSection)
    ensures
        module_sections(*final(m)) == module_sections(*old(m)).push(SectionView::Data(data_count(*s))),
{
    m.section(s);
}

/// `Module::finish`: the encoded module.
#[verifier::external_body]
pub(crate) fn module_finish(m: Module) -> (res: Vec<u8>)
    ensures
        res@ == module_bytes(module_sections(m)),
{
    m.finish()
}

/// `TypeSection::new`: no types yet.
#[verifier::external_body]
pub(crate) fn type_section_new() -> (res: TypeSection)
    ensures
        type_entries(res) == Seq::<(Seq<WasmValType>, Seq<WasmValType>)>::empty(),
{
    TypeSection::new()
}

/// `TypeSection::len`: the number of types defined.
#[verifier::external_body]
pub(crate) fn type_section_len(t: &TypeSection) -> (res: u32)
    ensures
        res == type_entries(*t).len(),
{
    t.len()
}

/// `TypeSection::ty` then `CoreTypeEncoder::function`: defines one more
/// function type.
#[verifier::external_body]
pub(crate) fn type_section_function(t: &mut TypeSection, params: &Vec<WasmValType>, results: &Vec<WasmValType>)
    ensures
        type_entries(*final(t)) == type_entries(*old(t)).push((params@, results@)),
{
    let ps: Vec<ValType> = params.iter().map(|p| match p {
        WasmValType::I32 => ValType::I32,
        WasmValType::F64 => ValType::F64,
    }).collect();
    let rs: Vec<ValType> = results.iter().map(|p| match p {
        WasmValType::I32 => ValType::I32,
        WasmValType::F64 => ValType::F64,
    }).collect();
    t.ty().function(ps, rs);
}

/// `ImportSection::new`: no imports yet.
#[verifier::external_body]
pub(crate) fn import_section_new() -> (res: ImportSection)
    ensures
        import_entries(res) == Seq::<(Seq<char>, Seq<char>, u32)>::empty(),
{
    ImportSection::new()
}

/// `ImportSection::len`: the number of imports.
#[verifier::external_body]
pub(crate) fn import_section_len(i: &ImportSection) -> (res: u32)
    ensures
        res == import_entries(*i).len(),
{
    i.len()
}

/// `ImportSection::import` of a function of type `type_index`.
#[verifier::external_body]
pub(crate) fn import_section_import(i: &mut ImportSection, module: &str, name: &str, type_index: u32)
    ensures
        import_entries(*final(i)) == import_entries(*old(i)).push((module@, name@, type_index)),
{
    i.import(module, name, EntityType::Function(type_index));
}

/// `FunctionSection::new`: no functions yet.
#[verifier::external_body]
pub(crate) fn function_section_new() -> (res: FunctionSection)
    ensures
        function_entries(res) == Seq::<u32>::empty(),
{
    FunctionSection::new()
}

/// `FunctionSection::len`: the number of functions.
#[verifier::external_body]
pub(crate) fn function_section_len(f: &FunctionSection) -> (res: u32)
    ensures
        res == function_entries(*f).len(),
{
    f.len()
}

/// `FunctionSection::function`: one more function, of type `type_index`.
#[verifier::external_body]
pub(crate) fn function_section_function(f: &mut FunctionSection, type_index: u32)
    ensures
        function_entries(*final(f)) == function_entries(*old(f)).push(type_index),
{
    f.function(type_index);
}

/// `MemorySection::new`: no memories yet.
#[verifier::external_body]
pub(crate) fn memory_section_new() -> (res: MemorySection)
    ensures
        memory_entries(res) == Seq::<(u64, Option<u64>, bool, bool, Option<u32>)>::empty(),
{
    MemorySection::new()
}

/// `MemorySection::len`: the number of memories.
#[verifier::external_body]
pub(crate) fn memory_section_len(m: &MemorySection) -> (res: u32)
    ensures
        res == memory_entries(*m).len(),
{
    m.len()
}

/// `MemorySection::memory`: one more memory, with its minimum and maximum
/// size in pages, whether it is 64-bit, whether it is shared, and the log
/// base 2 of its page size (`None` for the default); a custom page size is
/// at most 64KiB, as the encoder may panic on a larger one.
#[verifier::external_body]
pub(crate) fn memory_section_memory(
    m: &mut MemorySection,
    minimum: u64,
    maximum: Option<u64>,
    memory64: bool,
    shared: bool,
    page_size_log2: Option<u32>,
)
    requires
        page_size_log2 matches Some(k) ==> k <= 16,
    ensures
        memory_entries(*final(m)) == memory_entries(*old(m)).push((minimum, maximum, memory64, shared, page_size_log2)),
{
    m.memory(MemoryType { minimum, maximum, memory64, shared, page_size_log2 });
}

/// `ExportSection::new`: no exports yet.
#[verifier::external_body]
pub(crate) fn export_section_new() -> (res: ExportSection)
    ensures
        export_entries(res) == Seq::<(Seq<char>, WasmExportKind, u32)>::empty(),
{
    ExportSection::new()
}

/// `ExportSection::export`: one more export.
#[verifier::external_body]
pub(crate) fn export_section_export(e: &mut ExportSection, name: &str, kind: WasmExportKind, index: u32)
    ensures
        export_entries(*final(e)) == export_entries(*old(e)).push((name@, kind, index)),
{
    let k = match kind {
        WasmExportKind::Func => ExportKind::Func,
        WasmExportKind::Memory => ExportKind::Memory,
    };
    e.export(name, k, index);
}

/// `CodeSection::new`: no bodies yet.
#[verifier::external_body]
pub(crate) fn code_section_new() -> (res: CodeSection)
    ensures
        code_entries(res) == Seq::<(Seq<(u32, WasmValType)>, Seq<WasmInstr>)>::empty(),
{
    CodeSection::new()
}

/// `CodeSection::function`: one more function body.
#[verifier::external_body]
pub(crate) fn code_section_function(c: &mut CodeSection, f: &Function)
    ensures
        code_entries(*final(c)) == code_entries(*old(c)).push((function_locals(*f), function_instrs(*f))),
{
    c.function(f);
}

/// `DataSection::new`: no data segments.
#[verifier::external_body]
pub(crate) fn data_section_new() -> (res: DataSection)
    ensures
        data_count(res) == 0,
{
    DataSection::new()
}

/// `Function::new`: a body with these locals and no instructions yet.
#[verifier::external_body]
pub(crate) fn function_new(locals: &Vec<(u32, WasmValType)>) -> (res: Function)
    ensures
        function_locals(res) == locals@,
        function_instrs(res) == Seq::<WasmInstr>::empty(),
{
    let ls: Vec<(u32, ValType)> = locals.iter().map(|(n, t)| match t {
        WasmValType::I32 => (*n, ValType::I32),
        WasmValType::F64 => (*n, ValType::F64),
    }).collect();
    Function::new(ls)
}

/// `InstructionSink::i32_const` on a body.
#[verifier::external_body]
pub(crate) fn emit_i32_const(f: &mut Function, x: i32)
    ensures
        function_locals(*final(f)) == function_locals(*old(f)),
        function_instrs(*final(f)) == function_instrs(*old(f)).push(WasmInstr::I32Const(x)),
{
    f.instructions().i32_const(x);
}

/// `InstructionSink::f64_const` on a body, the float given by its bits.
#[verifier::external_body]
pub(crate) fn emit_f64_const(f: &mut Function, bits: u64)
    ensures
        function_locals(*final(f)) == function_locals(*old(f)),
        function_instrs(*final(f)) == function_instrs(*old(f)).push(WasmInstr::F64Const(bits)),
{
    f.instructions().f64_const(Ieee64::new(bits));
}

/// `InstructionSink::local_get` on a body.
#[verifier::external_body]
pub(crate) fn emit_local_get(f: &mut Function, l: u32)
    ensures
        function_locals(*final(f)) == function_locals(*old(f)),
        function_instrs(*final(f)) == function_instrs(*old(f)).push(WasmInstr::LocalGet(l)),
{
    f.instructions().local_get(l);
}

/// `InstructionSink::local_set` on a body.
#[verifier::external_body]
pub(crate) fn emit_local_set(f: &mut Function, l: u32)
    ensures
        function_locals(*final(f)) == function_locals(*old(f)),
        function_instrs(*final(f)) == function_instrs(*old(f)).push(WasmInstr::LocalSet(l)),
{
    f.instructions().local_set(l);
}

/// `InstructionSink::call` on a body.
#[verifier::external_body]
pub(crate) fn emit_call(f: &mut Function, index: u32)
    ensures
        function_locals(*final(f)) == function_locals(*old(f)),
        function_instrs(*final(f)) == function_instrs(*old(f)).push(WasmInstr::Call(index)),
{
    f.instructions().call(index);
}

/// `InstructionSink::return_` on a body.
#[verifier::external_body]
pub(crate) fn emit_return(f: &mut Function)
    ensures
        function_locals(*final(f)) == function_locals(*old(f)),
        function_instrs(*final(f)) == function_instrs(*old(f)).push(WasmInstr::Return),
{
    f.instructions().return_();
}

/// `InstructionSink::end` on a body.
#[verifier::external_body]
pub(crate) fn emit_end(f: &mut Function)
    ensures
        function_locals(*final(f)) == function_locals(*old(f)),
        function_instrs(*final(f)) == function_instrs(*old(f)).push(WasmInstr::End),
{
    f.instructions().end();
}

/// Whether wasmparser, with its default features, accepts these bytes as
/// a WebAssembly module or component.
pub uninterp spec fn wasm_is_valid(bytes: Seq<u8>) -> bool;

/// The message of wasmparser's error for these bytes.
pub uninterp spec fn validation_message(bytes: Seq<u8>) -> Seq<char>;

/// `wasmparser::validate`: whether the bytes are a valid module, and the
/// text of the error when they are not.
#[verifier::external_body]
pub(crate) fn validate_module(bytes: &Vec<u8>) -> (res: Result<(), Vec<char>>)
    ensures
        res is Ok == wasm_is_valid(bytes@),
        res matches Err(m) ==> m@ == validation_message(bytes@),
{
    match wasmparser::validate(bytes) {
        Ok(_) => Ok(()),
        Err(e) => Err(e.to_string().chars().collect()),
    }
}

} // verus!

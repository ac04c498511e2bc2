use vstd::prelude::*;

use crate::compilation::{
    chunk_ok, crawl_root, main_function, main_serializable, serializable_value, texts_view, Compilation,
};
use crate::heap::Heap;
use crate::value::GcPtr;
use crate::compiler::{run_outcome, number_compiled, Compiler};
use crate::output::{outputs_view, Output};
use crate::syntax::{lemma_number_consts, number_prints_count, number_program, start_place};
use crate::serialize::{serialize_root, spec_serialize_root};

verus! {

/// How a run of a program ended.
#[derive(Clone, Copy, Debug, PartialEq, Eq, Structural)]
pub enum Interpretation {
    CompilationError,
    RuntimeError,
    Success,
}

/// What `serialize` gives after a run of the compiler that ended in `c`
/// with result `r`: the run's error reports when it failed; else the text of
/// a compilation of the compiled top-level function, or nothing when that
/// function holds a constant that the text format cannot hold.
pub open spec fn serialized_outcome(c: Compiler, r: Option<GcPtr>, res: Option<Result<Vec<char>, Vec<Output>>>) -> bool {
    match r {
        None => res matches Some(Err(outs)) && outputs_view(outs@) == c.parser.out(),
        Some(p) => if main_serializable(c.heap.objs(), p.0) {
            res matches Some(Ok(text)) && exists|comp: Compilation|
                chunk_ok(
                    c.heap.objs(),
                    texts_view(comp.strings@),
                    *main_function(c.heap.objs(), p.0)->0.spec_chunk(),
                    comp.main,
                ) && text@ == #[trigger] spec_serialize_root(comp)
        } else {
            res is None
        },
    }
}

/// Compiles `source` and writes the compilation out as text; on a
/// compilation error, the error reports instead. Nothing when the compiled
/// code holds a constant that the text format cannot hold. A program of
/// statements `print N;` only always gives its text.
pub fn serialize(source: String) -> (res: Option<Result<Vec<char>, Vec<Output>>>)
    requires
        source@.len() + 4 <= u32::MAX,
    ensures
        exists|h: Heap, c: Compiler, r: Option<GcPtr>|
            h.wf() && #[trigger] run_outcome(source@, h, c, r) && serialized_outcome(c, r, res),
        number_program(source@) && number_prints_count(source@, start_place(source@)) <= 256 ==> res matches Some(
            Ok(_),
        ),
{
    let mut compiler = Compiler::default();
    let ghost h = compiler.heap;
    let ghost src = source@;
    let r = compiler.run(source);
    let ghost after = compiler;
    proof {
        assert(run_outcome(src, h, after, r));
        if number_program(src) && number_prints_count(src, start_place(src)) <= 256 {
            assert(h.has_room(1));
            lemma_number_consts(src, start_place(src));
            let p = r->0;
            let f = main_function(after.heap.objs(), p.0)->0;
            assert(number_compiled(after, r, src));
            assert forall|i: int| 0 <= i < f.spec_chunk().constants@.len() implies serializable_value(
                after.heap.objs(),
                #[trigger] f.spec_chunk().constants@[i],
                after.heap.objs().len() as nat,
            ) by {
                assert(f.spec_chunk().constants@[i] is Double);
            }
            assert(main_serializable(after.heap.objs(), p.0));
        }
    }
    match r {
        Some(root) => match crawl_root(&compiler.heap, root) {
            Some(compilation) => Some(Ok(serialize_root(&compilation))),
            None => None,
        },
        None => Some(Err(compiler.take_wasm_output())),
    }
}

} // verus!

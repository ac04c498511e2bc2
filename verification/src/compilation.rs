use vstd::prelude::*;

use crate::chunk::Chunk;
use crate::heap::{live, obj, text_at, Heap};
use crate::heap_object::{FunctionObj, HeapObject};
use crate::opcode::Byte;
use crate::value::{GcPtr, Value, ValueArray, ValueView};
use crate::text::copy_chars;

verus! {

/// The number of a string in a compilation's list of strings.
#[derive(Clone, Copy, Debug, PartialEq, Eq, Structural)]
pub struct StringRef(pub usize);

/// The bytes of a chunk grouped by source line (lines ascending, bytes in
/// order within a line), and its constants.
pub struct CompiledChunk {
    pub line_data: Vec<(u32, Vec<Byte>)>,
    pub constants: Vec<CompiledValue>,
}

/// A constant of a compiled chunk. A number keeps the text of its literal.
pub enum CompiledValue {
    CompiledBoolean(bool),
    CompiledNumber(Vec<char>),
    CompiledNil,
    CompiledFunction { arity: u32, upvalue_count: u16, name_ref: StringRef, chunk: CompiledChunk },
    CompiledString(StringRef),
}

/// A compiled program, self-contained: the strings it uses and the code of
/// its top-level function.
pub struct Compilation {
    pub strings: Vec<Vec<char>>,
    pub main: CompiledChunk,
}

/// The groups with one more byte on `line`: appended to that line's group,
/// or in a new group at its place among the lines.
pub open spec fn insert_group(groups: Seq<(u32, Seq<Byte>)>, line: u32, b: Byte) -> Seq<
    (u32, Seq<Byte>),
>
    decreases groups.len(),
{
    if groups.len() == 0 {
        seq![(line, seq![b])]
    } else if groups[0].0 == line {
        groups.update(0, (line, groups[0].1.push(b)))
    } else if groups[0].0 > line {
        seq![(line, seq![b])] + groups
    } else {
        seq![groups[0]] + insert_group(groups.drop_first(), line, b)
    }
}

/// The bytes of a chunk grouped by line: each line once, ascending, with
/// its bytes in their order in the code.
pub open spec fn line_groups(code: Seq<Byte>, lines: Seq<u32>) -> Seq<(u32, Seq<Byte>)>
    decreases code.len(),
{
    if code.len() == 0 || lines.len() != code.len() {
        Seq::empty()
    } else {
        insert_group(line_groups(code.drop_last(), lines.drop_last()), lines.last(), code.last())
    }
}

/// Line groups taken by their views.
pub open spec fn groups_view(v: Seq<(u32, Vec<Byte>)>) -> Seq<(u32, Seq<Byte>)> {
    v.map_values(|g: (u32, Vec<Byte>)| (g.0, g.1@))
}

/// Whether a compiled constant is what the heap holds for `v`, with the
/// strings numbered as in `strings`.
pub open spec fn value_ok(
    objs: Seq<Option<crate::heap_object::GcObject>>,
    strings: Seq<Seq<char>>,
    v: ValueView,
    c: CompiledValue,
) -> bool
    decreases c,
{
    match c {
        CompiledValue::CompiledBoolean(b) => v == ValueView::Boolean(b),
        CompiledValue::CompiledNumber(t) => v == ValueView::Double(t@),
        CompiledValue::CompiledNil => v == ValueView::Nil,
        CompiledValue::CompiledString(r) => v matches ValueView::Reference(p) && r.0 < strings.len()
            && text_at(objs, p) == Some(strings[r.0 as int]),
        CompiledValue::CompiledFunction { arity, upvalue_count, name_ref, chunk } => {
            &&& v matches ValueView::Reference(p)
            &&& live(objs, p)
            &&& obj(objs, p) matches HeapObject::HeapFunction(f)
            &&& f matches FunctionObj::UserDefined { .. }
            &&& f.spec_arity() == arity
            &&& f.spec_upvalue_count() == upvalue_count
            &&& name_ref.0 < strings.len()
            &&& text_at(objs, (f.spec_name()->0).0) == Some(strings[name_ref.0 as int])
            &&& chunk_ok(objs, strings, *f.spec_chunk(), chunk)
        },
    }
}

/// Whether a compiled chunk is a heap chunk: its bytes grouped by line, and
/// its constants compiled one for one.
pub open spec fn chunk_ok(
    objs: Seq<Option<crate::heap_object::GcObject>>,
    strings: Seq<Seq<char>>,
    ch: Chunk,
    cc: CompiledChunk,
) -> bool
    decreases cc,
{
    &&& groups_view(cc.line_data@) == line_groups(ch.code@, ch.line_nums@)
    &&& cc.constants@.len() == ch.constants@.len()
    &&& forall|i: int|
        0 <= i < cc.constants@.len() ==> value_ok(
            objs,
            strings,
            ch.constants@[i],
            #[trigger] cc.constants@[i],
        )
}

/// Adds one byte on `line` to the groups.
pub fn insert_byte(groups: &mut Vec<(u32, Vec<Byte>)>, line: u32, b: Byte)
    ensures
        groups_view(final(groups)@) == insert_group(groups_view(old(groups)@), line, b),
{
    let ghost g0 = groups_view(groups@);
    let mut i: usize = 0;
    proof {
        assert(g0.take(0) =~= Seq::<(u32, Seq<Byte>)>::empty());
        assert(g0.skip(0) =~= g0);
    }
    while i < groups.len()
        invariant
            i <= groups.len(),
            groups@ == old(groups)@,
            g0 == groups_view(groups@),
            forall|k: int| 0 <= k < i ==> (#[trigger] groups@[k]).0 < line,
            insert_group(g0, line, b) == g0.take(i as int) + insert_group(g0.skip(i as int), line, b),
        decreases groups.len() - i,
    {
        let l = groups[i].0;
        if l == line {
            proof {
                let rest = g0.skip(i as int);
                assert(rest[0] == g0[i as int]);
                assert(insert_group(rest, line, b) == rest.update(0, (line, rest[0].1.push(b))));
            }
            let mut g = groups.remove(i);
            g.1.push(b);
            groups.insert(i, g);
            proof {
                let rest = g0.skip(i as int);
                assert(groups_view(groups@) =~= g0.take(i as int) + rest.update(0, (line, rest[0].1.push(b))));
            }
            return;
        } else if l > line {
            proof {
                let rest = g0.skip(i as int);
                assert(rest[0] == g0[i as int]);
            }
            let nb = vec![b];
            proof {
                assert(nb@ =~= seq![b]);
            }
            groups.insert(i, (line, nb));
            proof {
                let rest = g0.skip(i as int);
                assert(groups_view(groups@) =~= g0.take(i as int) + (seq![(line, seq![b])] + rest));
            }
            return;
        }
        proof {
            let rest = g0.skip(i as int);
            assert(rest[0] == g0[i as int]);
            assert(rest.drop_first() =~= g0.skip(i + 1));
            assert(g0.take(i as int) + (seq![rest[0]] + insert_group(rest.drop_first(), line, b)) =~= g0.take(i + 1)
                + insert_group(g0.skip(i + 1), line, b));
        }
        i = i + 1;
    }
    proof {
        assert(g0.skip(i as int) =~= Seq::<(u32, Seq<Byte>)>::empty());
        assert(g0.take(i as int) =~= g0);
    }
    let nb = vec![b];
    proof {
        assert(nb@ =~= seq![b]);
    }
    groups.push((line, nb));
    proof {
        assert(groups_view(groups@) =~= g0 + seq![(line, seq![b])]);
    }
}

/// The bytes of a chunk grouped by line.
pub fn group_lines(chunk: &Chunk) -> (res: Vec<(u32, Vec<Byte>)>)
    requires
        chunk.wf(),
    ensures
        groups_view(res@) == line_groups(chunk.code@, chunk.line_nums@),
{
    let mut groups: Vec<(u32, Vec<Byte>)> = Vec::new();
    let mut i: usize = 0;
    proof {
        assert(groups_view(groups@) =~= Seq::<(u32, Seq<Byte>)>::empty());
    }
    while i < chunk.code.len()
        invariant
            chunk.wf(),
            i <= chunk.code.len(),
            groups_view(groups@) == line_groups(
                chunk.code@.subrange(0, i as int),
                chunk.line_nums@.subrange(0, i as int),
            ),
        decreases chunk.code.len() - i,
    {
        insert_byte(&mut groups, chunk.line_nums[i], chunk.code[i]);
        proof {
            let c1 = chunk.code@.subrange(0, i + 1);
            let l1 = chunk.line_nums@.subrange(0, i + 1);
            assert(c1.drop_last() =~= chunk.code@.subrange(0, i as int));
            assert(l1.drop_last() =~= chunk.line_nums@.subrange(0, i as int));
        }
        i = i + 1;
    }
    assert(chunk.code@.subrange(0, chunk.code.len() as int) =~= chunk.code@);
    assert(chunk.line_nums@.subrange(0, chunk.code.len() as int) =~= chunk.line_nums@);
    groups
}


/// The texts of the strings in the listed slots.
pub open spec fn slot_texts(objs: Seq<Option<crate::heap_object::GcObject>>, slots: Seq<GcPtr>) -> Seq<
    Seq<char>,
> {
    slots.map_values(|p: GcPtr| text_at(objs, p.0)->0)
}

/// The list holds distinct slots of strings.
pub open spec fn string_slots(objs: Seq<Option<crate::heap_object::GcObject>>, slots: Seq<GcPtr>) -> bool {
    &&& forall|i: int| 0 <= i < slots.len() ==> text_at(objs, (#[trigger] slots[i]).0) is Some
    &&& forall|i: int, j: int| 0 <= i < j < slots.len() ==> (#[trigger] slots[i]).0 != (#[trigger] slots[j]).0
}

/// The texts of a list of character vectors.
pub open spec fn texts_view(v: Seq<Vec<char>>) -> Seq<Seq<char>> {
    v.map_values(|t: Vec<char>| t@)
}

/// The top-level function in slot `p`, if it holds one.
pub open spec fn main_function(objs: Seq<Option<crate::heap_object::GcObject>>, p: usize) -> Option<FunctionObj> {
    if live(objs, p) {
        match obj(objs, p) {
            HeapObject::HeapFunction(f) => if f is MainScript {
                Some(f)
            } else {
                None
            },
            _ => None,
        }
    } else {
        None
    }
}

/// Whether slot `p` holds a top-level function that a compilation can
/// hold: its code has a line for each byte, and each constant can be held,
/// with no more nested functions than the heap has slots.
pub open spec fn main_serializable(objs: Seq<Option<crate::heap_object::GcObject>>, p: usize) -> bool {
    &&& main_function(objs, p) is Some
    &&& main_function(objs, p)->0.spec_chunk().code@.len() == main_function(objs, p)->0.spec_chunk().line_nums@.len()
    &&& serializable_constants(objs, main_function(objs, p)->0.spec_chunk().constants@, objs.len() as nat)
}

/// Whether slot `p` is among the slots of the list.
pub open spec fn in_slots(slots: Seq<GcPtr>, p: usize) -> bool {
    exists|k: int| 0 <= k < slots.len() && (#[trigger] slots[k]).0 == p
}

/// Whether the strings that a value uses can be found: it is a boolean,
/// nil or a number, a live string, or a live declared function named by a
/// string whose constants can be searched, no deeper than `fuel` nested
/// functions.
pub open spec fn findable_value(objs: Seq<Option<crate::heap_object::GcObject>>, v: ValueView, fuel: nat) -> bool
    decreases fuel, 0nat,
{
    match v {
        ValueView::Reference(p) => live(objs, p) && match obj(objs, p) {
            HeapObject::HeapString(_) => true,
            HeapObject::HeapFunction(f) => match f {
                FunctionObj::UserDefined { chunk, name_gc_ptr, .. } => fuel > 0 && text_at(objs, name_gc_ptr.0)
                    is Some && findable_constants(objs, chunk.constants@, (fuel - 1) as nat),
                FunctionObj::MainScript { .. } => false,
            },
            _ => false,
        },
        _ => true,
    }
}

/// Whether the strings that each of the constants use can be found.
pub open spec fn findable_constants(
    objs: Seq<Option<crate::heap_object::GcObject>>,
    cs: Seq<ValueView>,
    fuel: nat,
) -> bool
    decreases fuel, 1nat,
{
    forall|i: int| 0 <= i < cs.len() ==> findable_value(objs, #[trigger] cs[i], fuel)
}

/// Whether a value can be held by a compilation: as `findable_value`, and
/// each function's code has a line for each byte.
pub open spec fn serializable_value(objs: Seq<Option<crate::heap_object::GcObject>>, v: ValueView, fuel: nat) -> bool
    decreases fuel, 0nat,
{
    match v {
        ValueView::Reference(p) => live(objs, p) && match obj(objs, p) {
            HeapObject::HeapString(_) => true,
            HeapObject::HeapFunction(f) => match f {
                FunctionObj::UserDefined { chunk, name_gc_ptr, .. } => fuel > 0 && text_at(objs, name_gc_ptr.0)
                    is Some && chunk.code@.len() == chunk.line_nums@.len() && serializable_constants(
                    objs,
                    chunk.constants@,
                    (fuel - 1) as nat,
                ),
                FunctionObj::MainScript { .. } => false,
            },
            _ => false,
        },
        _ => true,
    }
}

/// Whether each of the constants can be held by a compilation.
pub open spec fn serializable_constants(
    objs: Seq<Option<crate::heap_object::GcObject>>,
    cs: Seq<ValueView>,
    fuel: nat,
) -> bool
    decreases fuel, 1nat,
{
    forall|i: int| 0 <= i < cs.len() ==> serializable_value(objs, #[trigger] cs[i], fuel)
}

/// Whether the strings that a value uses are all in the list.
pub open spec fn covered_value(
    objs: Seq<Option<crate::heap_object::GcObject>>,
    v: ValueView,
    fuel: nat,
    slots: Seq<GcPtr>,
) -> bool
    decreases fuel, 0nat,
{
    match v {
        ValueView::Reference(p) => live(objs, p) ==> match obj(objs, p) {
            HeapObject::HeapString(_) => in_slots(slots, p),
            HeapObject::HeapFunction(f) => match f {
                FunctionObj::UserDefined { chunk, name_gc_ptr, .. } => fuel > 0 ==> in_slots(slots, name_gc_ptr.0)
                    && covered_constants(objs, chunk.constants@, (fuel - 1) as nat, slots),
                FunctionObj::MainScript { .. } => true,
            },
            _ => true,
        },
        _ => true,
    }
}

/// Whether the strings that each of the constants use are all in the list.
pub open spec fn covered_constants(
    objs: Seq<Option<crate::heap_object::GcObject>>,
    cs: Seq<ValueView>,
    fuel: nat,
    slots: Seq<GcPtr>,
) -> bool
    decreases fuel, 1nat,
{
    forall|i: int| 0 <= i < cs.len() ==> covered_value(objs, #[trigger] cs[i], fuel, slots)
}

/// A list that begins with the slots of another covers what that one did.
pub proof fn lemma_covered_grow(
    objs: Seq<Option<crate::heap_object::GcObject>>,
    v: ValueView,
    fuel: nat,
    a: Seq<GcPtr>,
    b: Seq<GcPtr>,
)
    requires
        covered_value(objs, v, fuel, a),
        a.is_prefix_of(b),
    ensures
        covered_value(objs, v, fuel, b),
    decreases fuel,
{
    assert forall|p: usize| in_slots(a, p) implies in_slots(b, p) by {
        let k = choose|k: int| 0 <= k < a.len() && (#[trigger] a[k]).0 == p;
        assert(b.subrange(0, a.len() as int)[k] == b[k]);
    }
    if let ValueView::Reference(p) = v {
        if live(objs, p) {
            if let HeapObject::HeapFunction(FunctionObj::UserDefined { chunk, .. }) = obj(objs, p) {
                if fuel > 0 {
                    let cs = chunk.constants@;
                    assert forall|i: int| 0 <= i < cs.len() implies covered_value(objs, #[trigger] cs[i], (fuel - 1) as nat, b) by {
                        lemma_covered_grow(objs, cs[i], (fuel - 1) as nat, a, b);
                    }
                }
            }
        }
    }
}

/// What can be held can be searched.
pub proof fn lemma_serializable_findable(objs: Seq<Option<crate::heap_object::GcObject>>, v: ValueView, fuel: nat)
    requires
        serializable_value(objs, v, fuel),
    ensures
        findable_value(objs, v, fuel),
    decreases fuel,
{
    if let ValueView::Reference(p) = v {
        if let HeapObject::HeapFunction(FunctionObj::UserDefined { chunk, .. }) = obj(objs, p) {
            let cs = chunk.constants@;
            assert forall|i: int| 0 <= i < cs.len() implies findable_value(objs, #[trigger] cs[i], (fuel - 1) as nat) by {
                lemma_serializable_findable(objs, cs[i], (fuel - 1) as nat);
            }
        }
    }
}

/// Adds the slot `p` of a string to the list unless it is there.
fn note_string(heap: &Heap, acc: &mut Vec<GcPtr>, p: GcPtr)
    requires
        string_slots(heap.objs(), old(acc)@),
        text_at(heap.objs(), p.0) is Some,
    ensures
        string_slots(heap.objs(), final(acc)@),
        old(acc)@.is_prefix_of(final(acc)@),
        exists|k: int| 0 <= k < final(acc)@.len() && (#[trigger] final(acc)@[k]).0 == p.0,
{
    let mut i: usize = 0;
    while i < acc.len()
        invariant
            i <= acc.len(),
            acc@ == old(acc)@,
            string_slots(heap.objs(), old(acc)@),
            forall|k: int| 0 <= k < i ==> (#[trigger] acc@[k]).0 != p.0,
        decreases acc.len() - i,
    {
        if acc[i].0 == p.0 {
            assert(acc@[i as int].0 == p.0);
            assert(old(acc)@.is_prefix_of(acc@)) by {
                assert(acc@.subrange(0, old(acc)@.len() as int) =~= old(acc)@);
            }
            return;
        }
        i = i + 1;
    }
    acc.push(p);
    proof {
        assert(acc@[acc@.len() - 1].0 == p.0);
        assert(acc@.subrange(0, old(acc)@.len() as int) =~= old(acc)@);
    }
}

/// Collects the strings that a value uses: the names of functions and
/// string constants, through nested functions. Fails on a value that a
/// compilation cannot hold, or deeper than `fuel` nested functions.
pub fn find_str_info_in_value(heap: &Heap, value: &Value, acc: &mut Vec<GcPtr>, fuel: usize) -> (res: bool)
    requires
        heap.wf(),
        string_slots(heap.objs(), old(acc)@),
    ensures
        string_slots(heap.objs(), final(acc)@),
        old(acc)@.is_prefix_of(final(acc)@),
        res == findable_value(heap.objs(), value@, fuel as nat),
        res ==> covered_value(heap.objs(), value@, fuel as nat, final(acc)@),
    decreases fuel, 0nat,
{
    match value {
        Value::Boolean(_) | Value::Nil | Value::Double(_) => true,
        Value::Reference(p) => {
            if !heap.is_live(*p) {
                return false;
            }
            match heap.object(*p) {
                HeapObject::HeapString(_) => {
                    note_string(heap, acc, *p);
                    proof {
                        let k = choose|k: int| 0 <= k < acc@.len() && (#[trigger] acc@[k]).0 == p.0;
                        assert(in_slots(acc@, p.0));
                    }
                    true
                },
                HeapObject::HeapFunction(f) => match f {
                    FunctionObj::UserDefined { chunk, name_gc_ptr, .. } => {
                        if fuel == 0 || !heap.is_live(*name_gc_ptr) {
                            proof {
                                if fuel > 0 {
                                    assert(text_at(heap.objs(), name_gc_ptr.0) is None);
                                }
                            }
                            return false;
                        }
                        match heap.object(*name_gc_ptr) {
                            HeapObject::HeapString(_) => {},
                            _ => {
                                return false;
                            },
                        }
                        let ghost a0 = acc@;
                        note_string(heap, acc, *name_gc_ptr);
                        let ghost a1 = acc@;
                        let ok = find_str_info_in_constants(heap, &chunk.constants, acc, fuel - 1);
                        proof {
                            assert(a0.is_prefix_of(acc@)) by {
                                assert forall|k: int| 0 <= k < a0.len() implies acc@[k] == a0[k] by {
                                    assert(acc@.subrange(0, a1.len() as int)[k] == acc@[k]);
                                    assert(a1.subrange(0, a0.len() as int)[k] == a1[k]);
                                }
                                assert(acc@.subrange(0, a0.len() as int) =~= a0);
                            }
                            let k = choose|k: int| 0 <= k < a1.len() && (#[trigger] a1[k]).0 == name_gc_ptr.0;
                            assert(acc@.subrange(0, a1.len() as int)[k] == acc@[k]);
                            assert(in_slots(acc@, name_gc_ptr.0));
                            assert(text_at(heap.objs(), name_gc_ptr.0) is Some);
                        }
                        ok
                    },
                    FunctionObj::MainScript { .. } => false,
                },
                _ => false,
            }
        },
    }
}

/// Collects the strings that the constants of a chunk use.
pub fn find_str_info_in_constants(
    heap: &Heap,
    constants: &ValueArray,
    acc: &mut Vec<GcPtr>,
    fuel: usize,
) -> (res: bool)
    requires
        heap.wf(),
        string_slots(heap.objs(), old(acc)@),
    ensures
        string_slots(heap.objs(), final(acc)@),
        old(acc)@.is_prefix_of(final(acc)@),
        res == findable_constants(heap.objs(), constants@, fuel as nat),
        res ==> covered_constants(heap.objs(), constants@, fuel as nat, final(acc)@),
    decreases fuel, 1nat,
{
    let mut i: usize = 0;
    while i < constants.count()
        invariant
            heap.wf(),
            i <= constants@.len(),
            string_slots(heap.objs(), acc@),
            old(acc)@.is_prefix_of(acc@),
            forall|k: int| 0 <= k < i ==> findable_value(heap.objs(), #[trigger] constants@[k], fuel as nat),
            forall|k: int| 0 <= k < i ==> covered_value(heap.objs(), #[trigger] constants@[k], fuel as nat, acc@),
        decreases constants@.len() - i,
    {
        let ghost a0 = acc@;
        if !find_str_info_in_value(heap, constants.get(i), acc, fuel) {
            return false;
        }
        proof {
            assert forall|k: int| 0 <= k < old(acc)@.len() implies acc@[k] == old(acc)@[k] by {
                assert(a0[k] == old(acc)@[k]);
                assert(acc@.subrange(0, a0.len() as int)[k] == acc@[k]);
                assert(a0.subrange(0, old(acc)@.len() as int)[k] == a0[k]);
            }
            assert(acc@.subrange(0, old(acc)@.len() as int) =~= old(acc)@);
            assert forall|k: int| 0 <= k < i + 1 implies covered_value(heap.objs(), #[trigger] constants@[k], fuel as nat, acc@) by {
                if k < i {
                    lemma_covered_grow(heap.objs(), constants@[k], fuel as nat, a0, acc@);
                }
            }
        }
        i = i + 1;
    }
    true
}

/// The strings that the top-level function in slot `root` uses, each once.
pub fn find_str_info(heap: &Heap, root: GcPtr) -> (res: Option<Vec<GcPtr>>)
    requires
        heap.wf(),
    ensures
        res matches Some(v) ==> string_slots(heap.objs(), v@) && live(heap.objs(), root.0) && (obj(
            heap.objs(),
            root.0,
        ) matches HeapObject::HeapFunction(f) && f is MainScript),
        res is Some <==> (main_function(heap.objs(), root.0) is Some && findable_constants(
            heap.objs(),
            main_function(heap.objs(), root.0)->0.spec_chunk().constants@,
            heap.objs().len() as nat,
        )),
        res matches Some(v) ==> (obj(heap.objs(), root.0) matches HeapObject::HeapFunction(f) && covered_constants(
            heap.objs(),
            f.spec_chunk().constants@,
            heap.objs().len() as nat,
            v@,
        )),
{
    if !heap.is_live(root) {
        return None;
    }
    match heap.object(root) {
        HeapObject::HeapFunction(FunctionObj::MainScript { chunk, .. }) => {
            let mut acc: Vec<GcPtr> = Vec::new();
            if find_str_info_in_constants(heap, &chunk.constants, &mut acc, heap.slot_count()) {
                Some(acc)
            } else {
                None
            }
        },
        _ => None,
    }
}

/// The number of the string in slot `p` in the list.
fn string_ref_of(slots: &Vec<GcPtr>, p: GcPtr) -> (res: Option<StringRef>)
    ensures
        res matches Some(r) ==> r.0 < slots@.len() && slots@[r.0 as int].0 == p.0,
        res is None ==> !in_slots(slots@, p.0),
{
    let mut i: usize = 0;
    while i < slots.len()
        invariant
            i <= slots.len(),
            forall|k: int| 0 <= k < i ==> (#[trigger] slots@[k]).0 != p.0,
        decreases slots.len() - i,
    {
        if slots[i].0 == p.0 {
            return Some(StringRef(i));
        }
        i = i + 1;
    }
    None
}

/// The compiled form of a constant, with strings numbered by their place
/// in `slots`. Fails where a compilation cannot hold the value.
pub fn crawl_value(heap: &Heap, value: &Value, slots: &Vec<GcPtr>, fuel: usize) -> (res: Option<CompiledValue>)
    requires
        heap.wf(),
        string_slots(heap.objs(), slots@),
    ensures
        res matches Some(c) ==> value_ok(heap.objs(), slot_texts(heap.objs(), slots@), value@, c),
        res is Some <==> (serializable_value(heap.objs(), value@, fuel as nat) && covered_value(
            heap.objs(),
            value@,
            fuel as nat,
            slots@,
        )),
    decreases fuel, 0nat,
{
    match value {
        Value::Boolean(b) => Some(CompiledValue::CompiledBoolean(*b)),
        Value::Nil => Some(CompiledValue::CompiledNil),
        Value::Double(t) => Some(CompiledValue::CompiledNumber(copy_chars(t))),
        Value::Reference(p) => {
            if !heap.is_live(*p) {
                return None;
            }
            match heap.object(*p) {
                HeapObject::HeapString(_) => match string_ref_of(slots, *p) {
                    Some(r) => Some(CompiledValue::CompiledString(r)),
                    None => None,
                },
                HeapObject::HeapFunction(f) => match f {
                    FunctionObj::UserDefined { arity, chunk, name_gc_ptr, upvalue_count } => {
                        if fuel == 0 {
                            return None;
                        }
                        let name_ref = match string_ref_of(slots, *name_gc_ptr) {
                            Some(r) => r,
                            None => {
                                return None;
                            },
                        };
                        match crawl_chunk(heap, chunk, slots, fuel - 1) {
                            Some(cc) => Some(
                                CompiledValue::CompiledFunction {
                                    arity: *arity,
                                    upvalue_count: *upvalue_count,
                                    name_ref,
                                    chunk: cc,
                                },
                            ),
                            None => None,
                        }
                    },
                    FunctionObj::MainScript { .. } => None,
                },
                _ => None,
            }
        },
    }
}

/// The compiled form of a chunk: its bytes grouped by line and its
/// constants compiled.
pub fn crawl_chunk(heap: &Heap, chunk: &Chunk, slots: &Vec<GcPtr>, fuel: usize) -> (res: Option<CompiledChunk>)
    requires
        heap.wf(),
        string_slots(heap.objs(), slots@),
    ensures
        res matches Some(cc) ==> chunk.wf() && chunk_ok(heap.objs(), slot_texts(heap.objs(), slots@), *chunk, cc),
        res is Some <==> (chunk.code@.len() == chunk.line_nums@.len() && serializable_constants(
            heap.objs(),
            chunk.constants@,
            fuel as nat,
        ) && covered_constants(heap.objs(), chunk.constants@, fuel as nat, slots@)),
    decreases fuel, 1nat,
{
    if chunk.code.len() != chunk.line_nums.len() {
        return None;
    }
    let line_data = group_lines(chunk);
    let mut constants: Vec<CompiledValue> = Vec::new();
    let mut i: usize = 0;
    while i < chunk.constants.count()
        invariant
            heap.wf(),
            string_slots(heap.objs(), slots@),
            i <= chunk.constants@.len(),
            constants@.len() == i,
            forall|k: int|
                0 <= k < i ==> value_ok(
                    heap.objs(),
                    slot_texts(heap.objs(), slots@),
                    chunk.constants@[k],
                    #[trigger] constants@[k],
                ),
            forall|k: int|
                0 <= k < i ==> serializable_value(heap.objs(), #[trigger] chunk.constants@[k], fuel as nat)
                    && covered_value(heap.objs(), chunk.constants@[k], fuel as nat, slots@),
        decreases chunk.constants@.len() - i,
    {
        match crawl_value(heap, chunk.constants.get(i), slots, fuel) {
            Some(c) => constants.push(c),
            None => {
                return None;
            },
        }
        i = i + 1;
    }
    Some(CompiledChunk { line_data, constants })
}

/// The compilation of the top-level function in slot `root`: its strings
/// and its code. Fails when `root` is not a top-level function or when a
/// constant cannot be held.
pub fn crawl_root(heap: &Heap, root: GcPtr) -> (res: Option<Compilation>)
    requires
        heap.wf(),
    ensures
        res matches Some(c) ==> {
            &&& live(heap.objs(), root.0)
            &&& obj(heap.objs(), root.0) matches HeapObject::HeapFunction(f)
            &&& f matches FunctionObj::MainScript { .. }
            &&& chunk_ok(heap.objs(), texts_view(c.strings@), *f.spec_chunk(), c.main)
            &&& forall|i: int, j: int|
                0 <= i < j < c.strings@.len() ==> texts_view(c.strings@)[i] != texts_view(
                    c.strings@,
                )[j]
        },
        !(live(heap.objs(), root.0) && obj(heap.objs(), root.0) matches HeapObject::HeapFunction(
            FunctionObj::MainScript { .. },
        )) ==> res is None,
        res is Some <==> main_serializable(heap.objs(), root.0),
{
    let slots = match find_str_info(heap, root) {
        Some(v) => v,
        None => {
            proof {
                if main_serializable(heap.objs(), root.0) {
                    let cs = main_function(heap.objs(), root.0)->0.spec_chunk().constants@;
                    assert forall|i: int| 0 <= i < cs.len() implies findable_value(heap.objs(), #[trigger] cs[i], heap.objs().len() as nat) by {
                        lemma_serializable_findable(heap.objs(), cs[i], heap.objs().len() as nat);
                    }
                }
            }
            return None;
        },
    };
    let mut strings: Vec<Vec<char>> = Vec::new();
    let mut i: usize = 0;
    while i < slots.len()
        invariant
            heap.wf(),
            string_slots(heap.objs(), slots@),
            i <= slots@.len(),
            texts_view(strings@) == slot_texts(heap.objs(), slots@).subrange(0, i as int),
        decreases slots@.len() - i,
    {
        proof {
            heap.lemma_text_live(slots@[i as int].0);
        }
        let text = match heap.object(slots[i]) {
            HeapObject::HeapString(so) => copy_chars(&so.chars),
            _ => Vec::new(),
        };
        proof {
            assert(text@ == text_at(heap.objs(), slots@[i as int].0)->0);
        }
        let ghost prev = strings@;
        strings.push(text);
        proof {
            assert(texts_view(strings@) =~= texts_view(prev).push(text@));
            assert(slot_texts(heap.objs(), slots@).subrange(0, i + 1) =~= slot_texts(heap.objs(), slots@).subrange(0, i as int).push(text_at(heap.objs(), slots@[i as int].0)->0));
            assert(texts_view(strings@) =~= slot_texts(heap.objs(), slots@).subrange(0, i + 1));
        }
        i = i + 1;
    }
    proof {
        assert(texts_view(strings@) =~= slot_texts(heap.objs(), slots@));
        assert forall|i: int, j: int| 0 <= i < j < strings@.len() implies texts_view(strings@)[i] != texts_view(strings@)[j] by {
            heap.lemma_strings_distinct(slots@[i].0, slots@[j].0);
        }
    }
    match heap.object(root) {
        HeapObject::HeapFunction(FunctionObj::MainScript { chunk, .. }) => match crawl_chunk(
            heap,
            chunk,
            &slots,
            heap.slot_count(),
        ) {
            Some(main) => Some(Compilation { strings, main }),
            None => None,
        },
        _ => None,
    }
}

} // verus!

use vstd::prelude::*;

use crate::heap::{live, obj, text_at, Heap};
use crate::heap_object::{FunctionObj, GcObject, HeapObject};
use crate::text::{append_chars, copy_chars};
use crate::value::{GcPtr, Value};

verus! {

/// How a function is shown: `<script>` for the top level, `<fn name>` for
/// a declared function whose name is a string of the heap.
pub open spec fn spec_function_text(objs: Seq<Option<GcObject>>, f: FunctionObj) -> Option<Seq<char>> {
    match f {
        FunctionObj::MainScript { .. } => Some(seq!['<', 's', 'c', 'r', 'i', 'p', 't', '>']),
        FunctionObj::UserDefined { name_gc_ptr, .. } => match text_at(objs, name_gc_ptr.0) {
            Some(t) => Some(seq!['<', 'f', 'n', ' '] + t + seq!['>']),
            None => None,
        },
    }
}

/// The function that the closure in slot `p` wraps, if `p` holds a closure
/// over a live function.
pub open spec fn closure_function(objs: Seq<Option<GcObject>>, p: usize) -> Option<FunctionObj> {
    if live(objs, p) {
        match obj(objs, p) {
            HeapObject::HeapClosure(c) => if live(objs, c.function_gc_ptr.0) {
                match obj(objs, c.function_gc_ptr.0) {
                    HeapObject::HeapFunction(f) => Some(f),
                    _ => None,
                }
            } else {
                None
            },
            _ => None,
        }
    } else {
        None
    }
}

/// The name of the class in slot `p`, if `p` holds a class named by a
/// string of the heap.
pub open spec fn class_name(objs: Seq<Option<GcObject>>, p: usize) -> Option<Seq<char>> {
    if live(objs, p) {
        match obj(objs, p) {
            HeapObject::HeapClass(c) => text_at(objs, c.name_gc_ptr.0),
            _ => None,
        }
    } else {
        None
    }
}

/// How the object in slot `p` is shown: a string by its text, a function
/// or closure or bound method by its function, a class by its name, an
/// instance by its class's name and ` instance`, a native function as
/// `<native fn>`, an upvalue as `upvalue`. Nothing when the slot or an
/// object it leads to is missing or of another kind.
pub open spec fn spec_object_text(objs: Seq<Option<GcObject>>, p: usize) -> Option<Seq<char>> {
    if live(objs, p) {
        match obj(objs, p) {
            HeapObject::HeapString(s) => Some(s.chars@),
            HeapObject::HeapFunction(f) => spec_function_text(objs, f),
            HeapObject::HeapClosure(_) => match closure_function(objs, p) {
                Some(f) => spec_function_text(objs, f),
                None => None,
            },
            HeapObject::HeapBoundMethod(b) => match closure_function(objs, b.method_gc_ptr.0) {
                Some(f) => spec_function_text(objs, f),
                None => None,
            },
            HeapObject::HeapClass(c) => text_at(objs, c.name_gc_ptr.0),
            HeapObject::HeapObjInstance(i) => match class_name(objs, i.class_gc_ptr.0) {
                Some(t) => Some(t + seq![' ', 'i', 'n', 's', 't', 'a', 'n', 'c', 'e']),
                None => None,
            },
            HeapObject::HeapNativeFn(_) => Some(seq!['<', 'n', 'a', 't', 'i', 'v', 'e', ' ', 'f', 'n', '>']),
            HeapObject::HeapUpvalue(_) => Some(seq!['u', 'p', 'v', 'a', 'l', 'u', 'e']),
        }
    } else {
        None
    }
}

/// How objects that stand for others are shown: a closure over a live
/// function exactly as that function; a bound method whose method is a
/// closure exactly as that closure; an instance of a class as the class
/// followed by ` instance`. A string is shown as its text, a class as its
/// name's text, a function as `<fn name>` with its name's text inside, or
/// `<script>` at the top level.
pub proof fn law_shown_through(objs: Seq<Option<GcObject>>, p: usize)
    requires
        live(objs, p),
    ensures
        obj(objs, p) matches HeapObject::HeapClosure(c) ==> (live(objs, c.function_gc_ptr.0) && obj(
            objs,
            c.function_gc_ptr.0,
        ) is HeapFunction ==> spec_object_text(objs, p) == spec_object_text(objs, c.function_gc_ptr.0)),
        obj(objs, p) matches HeapObject::HeapBoundMethod(b) ==> (live(objs, b.method_gc_ptr.0) && obj(
            objs,
            b.method_gc_ptr.0,
        ) is HeapClosure ==> spec_object_text(objs, p) == spec_object_text(objs, b.method_gc_ptr.0)),
        obj(objs, p) matches HeapObject::HeapObjInstance(i) ==> (live(objs, i.class_gc_ptr.0) && obj(
            objs,
            i.class_gc_ptr.0,
        ) is HeapClass ==> spec_object_text(objs, p) == match spec_object_text(objs, i.class_gc_ptr.0) {
            Some(t) => Some(t + seq![' ', 'i', 'n', 's', 't', 'a', 'n', 'c', 'e']),
            None => None,
        }),
        obj(objs, p) matches HeapObject::HeapString(st) ==> spec_object_text(objs, p) == Some(st.chars@),
        obj(objs, p) matches HeapObject::HeapClass(c) ==> (live(objs, c.name_gc_ptr.0) && obj(
            objs,
            c.name_gc_ptr.0,
        ) is HeapString ==> spec_object_text(objs, p) == Some(obj(objs, c.name_gc_ptr.0)->HeapString_0.chars@)),
        obj(objs, p) matches HeapObject::HeapFunction(f) ==> spec_object_text(objs, p) == match f {
            FunctionObj::MainScript { .. } => Some(seq!['<', 's', 'c', 'r', 'i', 'p', 't', '>']),
            FunctionObj::UserDefined { name_gc_ptr, .. } => if live(objs, name_gc_ptr.0) && obj(
                objs,
                name_gc_ptr.0,
            ) is HeapString {
                Some(seq!['<', 'f', 'n', ' '] + obj(objs, name_gc_ptr.0)->HeapString_0.chars@ + seq!['>'])
            } else {
                None
            },
        },
{
}

/// The text of the string in slot `p`, if it holds one.
fn string_text(heap: &Heap, p: GcPtr) -> (res: Option<Vec<char>>)
    ensures
        match res {
            Some(t) => text_at(heap.objs(), p.0) == Some(t@),
            None => text_at(heap.objs(), p.0) is None,
        },
{
    if !heap.is_live(p) {
        return None;
    }
    match heap.object(p) {
        HeapObject::HeapString(s) => Some(copy_chars(&s.chars)),
        _ => None,
    }
}

/// How a function is shown.
pub fn function_text(heap: &Heap, f: &FunctionObj) -> (res: Option<Vec<char>>)
    ensures
        match res {
            Some(t) => spec_function_text(heap.objs(), *f) == Some(t@),
            None => spec_function_text(heap.objs(), *f) is None,
        },
{
    match f {
        FunctionObj::MainScript { .. } => {
            let t = vec!['<', 's', 'c', 'r', 'i', 'p', 't', '>'];
            assert(t@ =~= seq!['<', 's', 'c', 'r', 'i', 'p', 't', '>']);
            Some(t)
        },
        FunctionObj::UserDefined { name_gc_ptr, .. } => match string_text(heap, *name_gc_ptr) {
            Some(name) => {
                let mut t = vec!['<', 'f', 'n', ' '];
                append_chars(&mut t, &name);
                t.push('>');
                assert(t@ =~= seq!['<', 'f', 'n', ' '] + name@ + seq!['>']);
                Some(t)
            },
            None => None,
        },
    }
}

/// The function that the closure in slot `p` wraps.
fn closure_function_text(heap: &Heap, p: GcPtr) -> (res: Option<Vec<char>>)
    ensures
        match res {
            Some(t) => closure_function(heap.objs(), p.0) matches Some(f) && spec_function_text(heap.objs(), f)
                == Some(t@),
            None => closure_function(heap.objs(), p.0) matches Some(f) ==> spec_function_text(heap.objs(), f)
                is None,
        },
{
    if !heap.is_live(p) {
        return None;
    }
    match heap.object(p) {
        HeapObject::HeapClosure(c) => {
            if !heap.is_live(c.function_gc_ptr) {
                return None;
            }
            match heap.object(c.function_gc_ptr) {
                HeapObject::HeapFunction(f) => function_text(heap, f),
                _ => None,
            }
        },
        _ => None,
    }
}

/// How the object in slot `p` is shown, if it can be.
pub fn object_text(heap: &Heap, p: GcPtr) -> (res: Option<Vec<char>>)
    ensures
        match res {
            Some(t) => spec_object_text(heap.objs(), p.0) == Some(t@),
            None => spec_object_text(heap.objs(), p.0) is None,
        },
{
    if !heap.is_live(p) {
        return None;
    }
    match heap.object(p) {
        HeapObject::HeapString(s) => Some(copy_chars(&s.chars)),
        HeapObject::HeapFunction(f) => function_text(heap, f),
        HeapObject::HeapClosure(_) => closure_function_text(heap, p),
        HeapObject::HeapBoundMethod(b) => closure_function_text(heap, b.method_gc_ptr),
        HeapObject::HeapClass(c) => string_text(heap, c.name_gc_ptr),
        HeapObject::HeapObjInstance(i) => {
            let class_ptr = i.class_gc_ptr;
            if !heap.is_live(class_ptr) {
                return None;
            }
            match heap.object(class_ptr) {
                HeapObject::HeapClass(c) => match string_text(heap, c.name_gc_ptr) {
                    Some(name) => {
                        let mut t = name;
                        let suffix = vec![' ', 'i', 'n', 's', 't', 'a', 'n', 'c', 'e'];
                        let ghost before = t@;
                        append_chars(&mut t, &suffix);
                        assert(t@ =~= before + seq![' ', 'i', 'n', 's', 't', 'a', 'n', 'c', 'e']);
                        Some(t)
                    },
                    None => None,
                },
                _ => None,
            }
        },
        HeapObject::HeapNativeFn(_) => {
            let t = vec!['<', 'n', 'a', 't', 'i', 'v', 'e', ' ', 'f', 'n', '>'];
            assert(t@ =~= seq!['<', 'n', 'a', 't', 'i', 'v', 'e', ' ', 'f', 'n', '>']);
            Some(t)
        },
        HeapObject::HeapUpvalue(_) => {
            let t = vec!['u', 'p', 'v', 'a', 'l', 'u', 'e'];
            assert(t@ =~= seq!['u', 'p', 'v', 'a', 'l', 'u', 'e']);
            Some(t)
        },
    }
}

/// How a value is shown: `true`, `false`, `nil`, an object by
/// `object_text`, and a number by `number_text`, which is given the text
/// of its literal and formats the floating-point number it denotes.
pub fn stringify_value<F: Fn(&Vec<char>) -> Vec<char>>(heap: &Heap, value: &Value, number_text: F) -> (res: Option<
    Vec<char>,
>)
    requires
        forall|t: &Vec<char>| number_text.requires((t,)),
    ensures
        match value {
            Value::Double(t) => res matches Some(s) && number_text.ensures((t,), s),
            Value::Boolean(b) => res matches Some(s) && s@ == if *b {
                seq!['t', 'r', 'u', 'e']
            } else {
                seq!['f', 'a', 'l', 's', 'e']
            },
            Value::Nil => res matches Some(s) && s@ == seq!['n', 'i', 'l'],
            Value::Reference(p) => match res {
                Some(s) => spec_object_text(heap.objs(), p.0) == Some(s@),
                None => spec_object_text(heap.objs(), p.0) is None,
            },
        },
{
    match value {
        Value::Double(t) => Some(number_text(t)),
        Value::Boolean(b) => {
            if *b {
                let s = vec!['t', 'r', 'u', 'e'];
                assert(s@ =~= seq!['t', 'r', 'u', 'e']);
                Some(s)
            } else {
                let s = vec!['f', 'a', 'l', 's', 'e'];
                assert(s@ =~= seq!['f', 'a', 'l', 's', 'e']);
                Some(s)
            }
        },
        Value::Nil => {
            let s = vec!['n', 'i', 'l'];
            assert(s@ =~= seq!['n', 'i', 'l']);
            Some(s)
        },
        Value::Reference(p) => object_text(heap, *p),
    }
}

} // verus!

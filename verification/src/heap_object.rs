use vstd::prelude::*;

use crate::chunk::Chunk;
use crate::hash_table::HashTable;
use crate::value::{GcPtr, Value, ValueView};

verus! {

/// The UTF-8 encoding of a character.
pub open spec fn utf8_of(c: char) -> Seq<u8> {
    let v = c as u32;
    if v < 0x80 {
        seq![v as u8]
    } else if v < 0x800 {
        seq![(0xC0 | (v >> 6)) as u8, (0x80 | (v & 0x3F)) as u8]
    } else if v < 0x10000 {
        seq![(0xE0 | (v >> 12)) as u8, (0x80 | ((v >> 6) & 0x3F)) as u8, (0x80 | (v & 0x3F)) as u8]
    } else {
        seq![
            (0xF0 | (v >> 18)) as u8,
            (0x80 | ((v >> 12) & 0x3F)) as u8,
            (0x80 | ((v >> 6) & 0x3F)) as u8,
            (0x80 | (v & 0x3F)) as u8,
        ]
    }
}

/// One FNV-1a step: mix in a byte, then multiply by the FNV prime.
pub open spec fn fnv_step(h: u32, b: u8) -> u32 {
    (((h ^ (b as u32)) as nat * 16777619nat) % 0x1_0000_0000) as u32
}

/// FNV-1a steps over the bytes, from the hash `h`.
pub open spec fn fnv_bytes(h: u32, bytes: Seq<u8>) -> u32
    decreases bytes.len(),
{
    if bytes.len() == 0 {
        h
    } else {
        fnv_step(fnv_bytes(h, bytes.drop_last()), bytes.last())
    }
}

/// The FNV-1a hash of the UTF-8 bytes of a string.
pub open spec fn spec_hash_string(s: Seq<char>) -> u32
    decreases s.len(),
{
    if s.len() == 0 {
        2166136261u32
    } else {
        fnv_bytes(spec_hash_string(s.drop_last()), utf8_of(s.last()))
    }
}

/// Mixes one byte into the hash.
fn fnv_mix(h: u32, b: u8) -> (res: u32)
    ensures
        res == fnv_step(h, b),
{
    (h ^ (b as u32)).wrapping_mul(16777619)
}

/// Mixes the UTF-8 bytes of a character into the hash.
fn fnv_char(h: u32, c: char) -> (res: u32)
    ensures
        res == fnv_bytes(h, utf8_of(c)),
{
    let v = c as u32;
    let ghost bytes = utf8_of(c);
    proof {
        reveal_with_fuel(fnv_bytes, 5);
    }
    if v < 0x80 {
        assert(bytes.drop_last() =~= Seq::<u8>::empty());
        fnv_mix(h, v as u8)
    } else if v < 0x800 {
        assert(bytes.drop_last().drop_last() =~= Seq::<u8>::empty());
        let h1 = fnv_mix(h, (0xC0 | (v >> 6)) as u8);
        fnv_mix(h1, (0x80 | (v & 0x3F)) as u8)
    } else if v < 0x10000 {
        assert(bytes.drop_last().drop_last().drop_last() =~= Seq::<u8>::empty());
        let h1 = fnv_mix(h, (0xE0 | (v >> 12)) as u8);
        let h2 = fnv_mix(h1, (0x80 | ((v >> 6) & 0x3F)) as u8);
        fnv_mix(h2, (0x80 | (v & 0x3F)) as u8)
    } else {
        assert(bytes.drop_last().drop_last().drop_last().drop_last() =~= Seq::<u8>::empty());
        let h1 = fnv_mix(h, (0xF0 | (v >> 18)) as u8);
        let h2 = fnv_mix(h1, (0x80 | ((v >> 12) & 0x3F)) as u8);
        let h3 = fnv_mix(h2, (0x80 | ((v >> 6) & 0x3F)) as u8);
        fnv_mix(h3, (0x80 | (v & 0x3F)) as u8)
    }
}

/// The FNV-1a hash of the UTF-8 bytes of the characters of `chars`.
pub fn hash_string(chars: &Vec<char>) -> (res: u32)
    ensures
        res == spec_hash_string(chars@),
{
    let mut hash: u32 = 2166136261;
    let mut i: usize = 0;
    while i < chars.len()
        invariant
            i <= chars.len(),
            hash == spec_hash_string(chars@.subrange(0, i as int)),
        decreases chars.len() - i,
    {
        proof {
            let next = chars@.subrange(0, i + 1);
            assert(next.drop_last() =~= chars@.subrange(0, i as int));
            assert(next.last() == chars@[i as int]);
        }
        hash = fnv_char(hash, chars[i]);
        i = i + 1;
    }
    assert(chars@.subrange(0, chars.len() as int) =~= chars@);
    hash
}

/// An interned string and its hash.
pub struct StringObj {
    pub chars: Vec<char>,
    pub hash: u32,
}

impl StringObj {
    /// The text of the string.
    pub fn to_text(&self) -> (res: Vec<char>)
        ensures
            res@ == self.chars@,
    {
        crate::text::copy_chars(&self.chars)
    }
}

/// A method closure bound to the instance it was read from.
pub struct BoundMethodObj {
    pub receiver: Value,
    pub method_gc_ptr: GcPtr,
}

/// A class: its name and its methods, keyed by name.
pub struct ClassObj {
    pub name_gc_ptr: GcPtr,
    pub methods: HashTable,
}

impl ClassObj {
    /// A class with no methods yet.
    pub fn new(name_gc_ptr: GcPtr) -> (res: ClassObj)
        ensures
            res.name_gc_ptr == name_gc_ptr,
            res.methods.wf(),
            res.methods@ == Map::<usize, ValueView>::empty(),
    {
        ClassObj { name_gc_ptr, methods: HashTable::new() }
    }
}

/// A function together with the upvalues that it captured (not yet filled
/// in when the closure is made).
pub struct ClosureObj {
    pub function_gc_ptr: GcPtr,
    pub upvalues: Vec<Option<GcPtr>>,
    pub upvalue_count: u16,
}

/// A compiled function: the top-level script or a declared function.
pub enum FunctionObj {
    MainScript { arity: u32, chunk: Chunk, upvalue_count: u16 },
    UserDefined { arity: u32, chunk: Chunk, name_gc_ptr: GcPtr, upvalue_count: u16 },
}

impl FunctionObj {
    pub open spec fn spec_arity(&self) -> u32 {
        match self {
            FunctionObj::MainScript { arity, .. } => *arity,
            FunctionObj::UserDefined { arity, .. } => *arity,
        }
    }

    pub open spec fn spec_chunk(&self) -> &Chunk {
        match self {
            FunctionObj::MainScript { chunk, .. } => chunk,
            FunctionObj::UserDefined { chunk, .. } => chunk,
        }
    }

    pub open spec fn spec_upvalue_count(&self) -> u16 {
        match self {
            FunctionObj::MainScript { upvalue_count, .. } => *upvalue_count,
            FunctionObj::UserDefined { upvalue_count, .. } => *upvalue_count,
        }
    }

    pub open spec fn spec_name(&self) -> Option<GcPtr> {
        match self {
            FunctionObj::MainScript { .. } => None,
            FunctionObj::UserDefined { name_gc_ptr, .. } => Some(*name_gc_ptr),
        }
    }

    /// The number of parameters.
    pub fn arity(&self) -> (res: u32)
        ensures
            res == self.spec_arity(),
    {
        match self {
            FunctionObj::MainScript { arity, .. } => *arity,
            FunctionObj::UserDefined { arity, .. } => *arity,
        }
    }

    /// The function's bytecode.
    pub fn chunk(&self) -> (res: &Chunk)
        ensures
            res == self.spec_chunk(),
    {
        match self {
            FunctionObj::MainScript { chunk, .. } => chunk,
            FunctionObj::UserDefined { chunk, .. } => chunk,
        }
    }

    /// The number of upvalues that the function captures.
    pub fn upvalue_count(&self) -> (res: u16)
        ensures
            res == self.spec_upvalue_count(),
    {
        match self {
            FunctionObj::MainScript { upvalue_count, .. } => *upvalue_count,
            FunctionObj::UserDefined { upvalue_count, .. } => *upvalue_count,
        }
    }

    /// Counts one more captured upvalue.
    pub fn increment_upvalue_count(&mut self)
        requires
            old(self).spec_upvalue_count() < u16::MAX,
        ensures
            final(self).spec_upvalue_count() == old(self).spec_upvalue_count() + 1,
            final(self).spec_arity() == old(self).spec_arity(),
            final(self).spec_chunk() == old(self).spec_chunk(),
            final(self).spec_name() == old(self).spec_name(),
    {
        match self {
            FunctionObj::MainScript { upvalue_count, .. } => {
                *upvalue_count = *upvalue_count + 1;
            },
            FunctionObj::UserDefined { upvalue_count, .. } => {
                *upvalue_count = *upvalue_count + 1;
            },
        }
    }

    /// The function's bytecode, for writing.
    pub fn chunk_mut(&mut self) -> (res: &mut Chunk)
        ensures
            *res == old(self).spec_chunk(),
            final(self).spec_chunk() == *final(res),
            final(self).spec_arity() == old(self).spec_arity(),
            final(self).spec_upvalue_count() == old(self).spec_upvalue_count(),
            final(self).spec_name() == old(self).spec_name(),
    {
        match self {
            FunctionObj::MainScript { chunk, .. } => chunk,
            FunctionObj::UserDefined { chunk, .. } => chunk,
        }
    }

    /// Sets the number of parameters.
    pub fn set_arity(&mut self, new_arity: u32)
        ensures
            final(self).spec_arity() == new_arity,
            final(self).spec_upvalue_count() == old(self).spec_upvalue_count(),
            final(self).spec_chunk() == old(self).spec_chunk(),
            final(self).spec_name() == old(self).spec_name(),
    {
        match self {
            FunctionObj::MainScript { arity, .. } => {
                *arity = new_arity;
            },
            FunctionObj::UserDefined { arity, .. } => {
                *arity = new_arity;
            },
        }
    }
}

/// A function of the host, known by its number in the host's table.
pub struct NativeFnObj(pub u32);

/// An instance of a class with its fields, keyed by name.
pub struct ObjInstanceObj {
    pub class_gc_ptr: GcPtr,
    pub fields: HashTable,
}

impl ObjInstanceObj {
    /// An instance of a class, with no fields yet.
    pub fn new(class_gc_ptr: GcPtr) -> (res: ObjInstanceObj)
        ensures
            res.class_gc_ptr == class_gc_ptr,
            res.fields.wf(),
            res.fields@ == Map::<usize, ValueView>::empty(),
    {
        ObjInstanceObj { class_gc_ptr, fields: HashTable::new() }
    }
}

/// Where an upvalue's variable lives: in a slot of the value stack while it
/// is open, in the upvalue itself once closed.
#[derive(Clone, Copy, Debug, PartialEq, Eq, Structural)]
pub enum UpvalueSlot {
    Stack(usize),
    Closed,
}

/// A captured variable, linked into the list of open upvalues.
pub struct UpvalueObj {
    pub closed_value: Value,
    pub next_gc_opt: Option<GcPtr>,
    pub slot: UpvalueSlot,
}

/// An object that the heap holds.
pub enum HeapObject {
    HeapBoundMethod(BoundMethodObj),
    HeapClass(ClassObj),
    HeapClosure(ClosureObj),
    HeapFunction(FunctionObj),
    HeapNativeFn(NativeFnObj),
    HeapObjInstance(ObjInstanceObj),
    HeapString(StringObj),
    HeapUpvalue(UpvalueObj),
}

/// A heap object with its mark for the collector.
pub struct GcObject {
    pub object: HeapObject,
    pub is_marked: bool,
}

/// The text of the string in slot `k` of the heap, if it holds a string.
pub open spec fn string_at(objects: Seq<Option<GcObject>>, k: int) -> Option<Seq<char>> {
    if 0 <= k < objects.len() {
        match objects[k] {
            Some(o) => match o.object {
                HeapObject::HeapString(s) => Some(s.chars@),
                _ => None,
            },
            None => None,
        }
    } else {
        None
    }
}

/// The slot holds a string whose stored hash is the hash of its text.
pub open spec fn string_hash_ok(objects: Seq<Option<GcObject>>, k: int) -> bool {
    0 <= k < objects.len() && objects[k] is Some && match objects[k]->0.object {
        HeapObject::HeapString(so) => so.hash == spec_hash_string(so.chars@),
        _ => false,
    }
}

/// Whether two heap objects are the same string or the same class or bound
/// method object.
pub fn objs_are_equal(a: GcPtr, a_obj: &HeapObject, b: GcPtr, b_obj: &HeapObject) -> (res: bool)
    ensures
        res == (a == b && (a_obj is HeapString || a_obj is HeapClass || a_obj is HeapBoundMethod)),
{
    match a_obj {
        HeapObject::HeapString(_) | HeapObject::HeapClass(_) | HeapObject::HeapBoundMethod(_) => a
            == b,
        _ => false,
    }
}

} // verus!

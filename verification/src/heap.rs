use vstd::prelude::*;

use crate::hash_table::{is_marked_at, lemma_hashes_dom, HashTable};
use crate::heap_object::{
    hash_string, spec_hash_string, string_at, string_hash_ok, BoundMethodObj, ClassObj,
    ClosureObj, FunctionObj, GcObject, HeapObject, NativeFnObj, ObjInstanceObj, StringObj,
    UpvalueObj, UpvalueSlot,
};
use crate::memory::Freeable;
use crate::source_loc::{spec_extract, SourceLoc};
use crate::text::{append_chars, copy_chars};
use crate::value::{value_ref, GcPtr, Value, ValueArray, ValueView};

verus! {

// ---------------------------------------------------------------------------
// The shape of the heap: which slots hold objects and what they point to.
// ---------------------------------------------------------------------------

/// Slot `p` holds an object.
pub open spec fn live(objs: Seq<Option<GcObject>>, p: usize) -> bool {
    p < objs.len() && objs[p as int] is Some
}

/// The object in slot `p`.
pub open spec fn obj(objs: Seq<Option<GcObject>>, p: usize) -> HeapObject {
    objs[p as int]->0.object
}

/// The slot that a value refers to, as a set.
pub open spec fn value_refs(v: ValueView) -> Set<usize> {
    match v {
        ValueView::Reference(p) => set![p],
        _ => Set::empty(),
    }
}

/// The keys of a table and the slots that its values refer to.
pub open spec fn map_refs(m: Map<usize, ValueView>) -> Set<usize> {
    Set::new(
        |p: usize|
            m.contains_key(p) || exists|k: usize|
                m.contains_key(k) && #[trigger] m[k] == ValueView::Reference(p),
    )
}

/// The slots that a run of values refers to.
pub open spec fn seq_refs(s: Seq<ValueView>) -> Set<usize> {
    Set::new(|p: usize| exists|i: int| 0 <= i < s.len() && #[trigger] s[i] == ValueView::Reference(p))
}

/// The slots that an object points to: what the collector traces through.
pub open spec fn children(o: HeapObject) -> Set<usize> {
    match o {
        HeapObject::HeapBoundMethod(b) => value_refs(b.receiver@).insert(b.method_gc_ptr.0),
        HeapObject::HeapClass(c) => map_refs(c.methods@).insert(c.name_gc_ptr.0),
        HeapObject::HeapClosure(c) => Set::new(
            |p: usize|
                p == c.function_gc_ptr.0 || exists|i: int|
                    0 <= i < c.upvalues.len() && #[trigger] c.upvalues@[i] == Some(GcPtr(p)),
        ),
        HeapObject::HeapFunction(f) => match f.spec_name() {
            Some(n) => seq_refs(f.spec_chunk().constants@).insert(n.0),
            None => seq_refs(f.spec_chunk().constants@),
        },
        HeapObject::HeapNativeFn(_) => Set::empty(),
        HeapObject::HeapObjInstance(i) => map_refs(i.fields@).insert(i.class_gc_ptr.0),
        HeapObject::HeapString(_) => Set::empty(),
        HeapObject::HeapUpvalue(u) => value_refs(u.closed_value@),
    }
}

/// The tables inside an object are well formed.
pub open spec fn tables_ok(o: HeapObject) -> bool {
    match o {
        HeapObject::HeapClass(c) => c.methods.wf(),
        HeapObject::HeapObjInstance(i) => i.fields.wf(),
        _ => true,
    }
}

/// Every slot in `s` holds an object.
pub open spec fn all_live(objs: Seq<Option<GcObject>>, s: Set<usize>) -> bool {
    forall|q: usize| s.contains(q) ==> live(objs, q)
}

/// No live object points to an empty slot.
pub open spec fn closed_under_children(objs: Seq<Option<GcObject>>) -> bool {
    forall|p: usize, q: usize|
        live(objs, p) && #[trigger] children(obj(objs, p)).contains(q) ==> live(objs, q)
}

/// The text that slot `k` holds, if it holds a string.
pub open spec fn text_at(objs: Seq<Option<GcObject>>, k: usize) -> Option<Seq<char>> {
    string_at(objs, k as int)
}

/// Two live strings never share their text.
pub open spec fn strings_distinct(objs: Seq<Option<GcObject>>) -> bool {
    forall|a: usize, b: usize|
        #[trigger] text_at(objs, a) is Some && text_at(objs, a) == #[trigger] text_at(objs, b) ==> a
            == b
}

/// The largest number of slots the heap may hand out.
pub open spec fn heap_limit() -> nat {
    (usize::MAX / 64) as nat
}

/// The heap of the Lox runtime: its objects by slot, the global variables,
/// the table that interns every string, and the gray list of the collector.
pub struct Heap {
    globals: HashTable,
    grays: Vec<GcPtr>,
    pub head_open_upvalue_gc_opt: Option<GcPtr>,
    objects: Vec<Option<GcObject>>,
    strings: HashTable,
    pub init_str_gc_ptr: GcPtr,
    pub super_str_gc_ptr: GcPtr,
    pub this_str_gc_ptr: GcPtr,
}

impl Heap {
    /// The heap's slots.
    pub closed spec fn objs(&self) -> Seq<Option<GcObject>> {
        self.objects@
    }

    /// The global variables, by the slot of their name.
    pub closed spec fn globals_view(&self) -> Map<usize, ValueView> {
        self.globals@
    }

    /// The cells of the globals table ever filled (a machine limit).
    pub closed spec fn globals_filled(&self) -> nat {
        self.globals.filled()
    }

    /// The slots that the string table interns.
    pub closed spec fn interned(&self) -> Set<usize> {
        self.strings@.dom()
    }

    /// Everything but the collector's state and the three names: tables
    /// well formed, every pointer to a live object, every live string
    /// interned once, and the global names interned strings.
    pub closed spec fn core_ok(&self) -> bool {
        let objs = self.objects@;
        &&& self.globals.wf()
        &&& self.strings.wf()
        &&& self.objects.len() < heap_limit()
        &&& self.strings.filled() <= self.objects.len()
        &&& closed_under_children(objs)
        &&& forall|p: usize| live(objs, p) ==> tables_ok(#[trigger] obj(objs, p))
        &&& forall|k: usize| #[trigger]
            self.strings@.contains_key(k) == (text_at(objs, k) is Some)
        &&& forall|k: usize|
            #[trigger] self.strings@.contains_key(k) ==> self.strings.hashes()[k]
                == spec_hash_string(text_at(objs, k)->0) && string_hash_ok(objs, k as int)
        &&& strings_distinct(objs)
        &&& forall|k: usize|
            #[trigger] self.globals@.contains_key(k) ==> text_at(objs, k) is Some
                && self.globals.hashes()[k] == spec_hash_string(text_at(objs, k)->0) && all_live(
                objs,
                value_refs(self.globals@[k]),
            )
    }

    /// The three names are interned strings.
    pub closed spec fn names_ok(&self) -> bool {
        let objs = self.objects@;
        &&& text_at(objs, self.init_str_gc_ptr.0) == Some(seq!['i', 'n', 'i', 't'])
        &&& text_at(objs, self.this_str_gc_ptr.0) == Some(seq!['t', 'h', 'i', 's'])
        &&& text_at(objs, self.super_str_gc_ptr.0) == Some(seq!['s', 'u', 'p', 'e', 'r'])
    }

    /// The heap's invariant between collections: its shape is sound, no
    /// object is marked and the gray list is empty.
    pub closed spec fn wf(&self) -> bool {
        &&& self.core_ok()
        &&& self.names_ok()
        &&& self.grays.len() == 0
        &&& forall|p: usize| live(self.objects@, p) ==> !(#[trigger] self.objects@[p as int])->0.is_marked
    }

    /// A well-formed heap has no marked object.
    pub proof fn lemma_none_marked(&self)
        requires
            self.wf(),
        ensures
            marked_set(self.objs()) == Set::<usize>::empty(),
    {
        assert(marked_set(self.objs()) =~= Set::<usize>::empty());
    }

    /// In a well-formed heap, and so after every collection, whatever a
    /// live object names is live too: a class's name, and each key of its
    /// method table and each object that a method refers to; an instance's
    /// class, and each key and referred object of its fields; a bound
    /// method's method and receiver; a closure's function and the upvalues
    /// it captured; a function's name and the objects its constants refer
    /// to; the object that a closed upvalue holds.
    pub proof fn law_named_objects_live(&self, p: usize)
        requires
            self.wf(),
            live(self.objs(), p),
        ensures
            obj(self.objs(), p) matches HeapObject::HeapClass(c) ==> {
                &&& live(self.objs(), c.name_gc_ptr.0)
                &&& forall|k: usize| #[trigger] c.methods@.contains_key(k) ==> live(self.objs(), k) && (
                c.methods@[k] matches ValueView::Reference(q) ==> live(self.objs(), q))
            },
            obj(self.objs(), p) matches HeapObject::HeapObjInstance(i) ==> {
                &&& live(self.objs(), i.class_gc_ptr.0)
                &&& forall|k: usize| #[trigger] i.fields@.contains_key(k) ==> live(self.objs(), k) && (
                i.fields@[k] matches ValueView::Reference(q) ==> live(self.objs(), q))
            },
            obj(self.objs(), p) matches HeapObject::HeapBoundMethod(b) ==> {
                &&& live(self.objs(), b.method_gc_ptr.0)
                &&& b.receiver@ matches ValueView::Reference(q) ==> live(self.objs(), q)
            },
            obj(self.objs(), p) matches HeapObject::HeapClosure(c) ==> {
                &&& live(self.objs(), c.function_gc_ptr.0)
                &&& forall|j: int| 0 <= j < c.upvalues@.len() && (#[trigger] c.upvalues@[j]) is Some ==> live(
                    self.objs(),
                    (c.upvalues@[j]->0).0,
                )
            },
            obj(self.objs(), p) matches HeapObject::HeapFunction(f) ==> {
                &&& (f.spec_name() matches Some(n) ==> live(self.objs(), n.0))
                &&& forall|j: int| 0 <= j < f.spec_chunk().constants@.len() ==> (
                #[trigger] f.spec_chunk().constants@[j] matches ValueView::Reference(q) ==> live(self.objs(), q))
            },
            obj(self.objs(), p) matches HeapObject::HeapUpvalue(u) ==> (u.closed_value@ matches ValueView::Reference(
                q,
            ) ==> live(self.objs(), q)),
    {
        let objs = self.objs();
        let o = obj(objs, p);
        let ch = children(o);
        assert(closed_under_children(objs));
        assert forall|q: usize| ch.contains(q) implies live(objs, q) by {
            assert(children(obj(objs, p)).contains(q));
        }
        match o {
            HeapObject::HeapClass(c) => {
                assert(ch.contains(c.name_gc_ptr.0));
                assert forall|k: usize| #[trigger] c.methods@.contains_key(k) implies live(objs, k) && (
                c.methods@[k] matches ValueView::Reference(q) ==> live(objs, q)) by {
                    assert(ch.contains(k));
                    if let ValueView::Reference(q) = c.methods@[k] {
                        assert(map_refs(c.methods@).contains(q));
                        assert(ch.contains(q));
                    }
                }
            },
            HeapObject::HeapObjInstance(i) => {
                assert(ch.contains(i.class_gc_ptr.0));
                assert forall|k: usize| #[trigger] i.fields@.contains_key(k) implies live(objs, k) && (
                i.fields@[k] matches ValueView::Reference(q) ==> live(objs, q)) by {
                    assert(ch.contains(k));
                    if let ValueView::Reference(q) = i.fields@[k] {
                        assert(map_refs(i.fields@).contains(q));
                        assert(ch.contains(q));
                    }
                }
            },
            HeapObject::HeapBoundMethod(b) => {
                assert(ch.contains(b.method_gc_ptr.0));
                if let ValueView::Reference(q) = b.receiver@ {
                    assert(ch.contains(q));
                }
            },
            HeapObject::HeapClosure(c) => {
                assert(ch.contains(c.function_gc_ptr.0));
                assert forall|j: int| 0 <= j < c.upvalues@.len() && (#[trigger] c.upvalues@[j]) is Some implies live(
                    objs,
                    (c.upvalues@[j]->0).0,
                ) by {
                    let u = c.upvalues@[j]->0;
                    assert(c.upvalues@[j] == Some(GcPtr(u.0)));
                    assert(ch.contains(u.0));
                }
            },
            HeapObject::HeapFunction(f) => {
                if let Some(n) = f.spec_name() {
                    assert(ch.contains(n.0));
                }
                assert forall|j: int| 0 <= j < f.spec_chunk().constants@.len() implies (
                #[trigger] f.spec_chunk().constants@[j] matches ValueView::Reference(q) ==> live(objs, q)) by {
                    if let ValueView::Reference(q) = f.spec_chunk().constants@[j] {
                        assert(seq_refs(f.spec_chunk().constants@).contains(q));
                        assert(ch.contains(q));
                    }
                }
            },
            HeapObject::HeapUpvalue(u) => {
                if let ValueView::Reference(q) = u.closed_value@ {
                    assert(ch.contains(q));
                }
            },
            _ => {},
        }
    }

    /// A slot that holds a string is live.
    pub proof fn lemma_text_live(&self, k: usize)
        requires
            text_at(self.objs(), k) is Some,
        ensures
            live(self.objs(), k),
    {
    }

    /// Two distinct live strings have distinct texts.
    pub proof fn lemma_strings_distinct(&self, a: usize, b: usize)
        requires
            self.wf(),
            a != b,
            text_at(self.objs(), a) is Some,
            text_at(self.objs(), b) is Some,
        ensures
            text_at(self.objs(), a) != text_at(self.objs(), b),
    {
    }

    /// The slot of the interned name `init`.
    pub closed spec fn init_name(&self) -> usize {
        self.init_str_gc_ptr.0
    }

    /// The slot of the interned name `this`.
    pub closed spec fn this_name(&self) -> usize {
        self.this_str_gc_ptr.0
    }

    /// The slot of the interned name `super`.
    pub closed spec fn super_name(&self) -> usize {
        self.super_str_gc_ptr.0
    }

    /// The three names are live strings.
    pub proof fn lemma_names(&self)
        requires
            self.wf(),
        ensures
            text_at(self.objs(), self.init_name()) == Some(seq!['i', 'n', 'i', 't']),
            text_at(self.objs(), self.this_name()) == Some(seq!['t', 'h', 'i', 's']),
            text_at(self.objs(), self.super_name()) == Some(seq!['s', 'u', 'p', 'e', 'r']),
    {
    }

    /// The interned name `init`.
    pub fn init_ptr(&self) -> (res: GcPtr)
        ensures
            res.0 == self.init_name(),
    {
        self.init_str_gc_ptr
    }

    /// The interned name `this`.
    pub fn this_ptr(&self) -> (res: GcPtr)
        ensures
            res.0 == self.this_name(),
    {
        self.this_str_gc_ptr
    }

    /// The interned name `super`.
    pub fn super_ptr(&self) -> (res: GcPtr)
        ensures
            res.0 == self.super_name(),
    {
        self.super_str_gc_ptr
    }

    /// Room for `n` more slots.
    pub open spec fn has_room(&self, n: nat) -> bool {
        self.objs().len() + n < heap_limit()
    }

    /// The slot of the live string whose text is `s`, if there is one.
    pub open spec fn string_slot(&self, s: Seq<char>) -> Option<usize> {
        if exists|k: usize| #[trigger] text_at(self.objs(), k) == Some(s) {
            Some(choose|k: usize| #[trigger] text_at(self.objs(), k) == Some(s))
        } else {
            None
        }
    }

    /// A new heap, with the names `init`, `this` and `super` interned.
    pub fn new() -> (res: Heap)
        ensures
            res.wf(),
            res.objs().len() == 3,
            res.globals_view() == Map::<usize, ValueView>::empty(),
    {
        let mut this = Heap {
            globals: HashTable::new(),
            grays: Vec::new(),
            head_open_upvalue_gc_opt: None,
            objects: Vec::new(),
            strings: HashTable::new(),
            init_str_gc_ptr: GcPtr(0),
            this_str_gc_ptr: GcPtr(0),
            super_str_gc_ptr: GcPtr(0),
        };
        proof {
            assert forall|k: usize| #[trigger]
                this.strings@.contains_key(k) == (text_at(this.objects@, k) is Some) by {}
            assert(closed_under_children(this.objects@));
            assert(strings_distinct(this.objects@));
        }
        let init_name = vec!['i', 'n', 'i', 't'];
        let h = hash_string(&init_name);
        let p = this.allocate_string(init_name, h);
        this.init_str_gc_ptr = p;
        let this_name = vec!['t', 'h', 'i', 's'];
        let h = hash_string(&this_name);
        proof {
            assert(seq!['t', 'h', 'i', 's'] != seq!['i', 'n', 'i', 't']) by {
                assert(seq!['t', 'h', 'i', 's'][0] != seq!['i', 'n', 'i', 't'][0]);
            }
        }
        let p = this.allocate_string(this_name, h);
        this.this_str_gc_ptr = p;
        let super_name = vec!['s', 'u', 'p', 'e', 'r'];
        let h = hash_string(&super_name);
        let p = this.allocate_string(super_name, h);
        this.super_str_gc_ptr = p;
        this
    }

    /// Whether `n` more slots can be handed out.
    pub fn has_room_for(&self, n: usize) -> (res: bool)
        ensures
            res == self.has_room(n as nat),
    {
        let limit: usize = usize::MAX / 64;
        self.objects.len() < limit && n < limit - self.objects.len()
    }

    /// The number of slots handed out so far.
    pub fn slot_count(&self) -> (res: usize)
        ensures
            res == self.objs().len(),
    {
        self.objects.len()
    }

    /// Puts an object in a new slot.
    fn allocate_on_heap(&mut self, object: HeapObject) -> (res: GcPtr)
        requires
            old(self).core_ok(),
            old(self).has_room(1),
            !(object is HeapString),
            all_live(old(self).objs(), children(object)),
            tables_ok(object),
        ensures
            final(self).core_ok(),
            final(self).objs() == old(self).objs().push(Some(GcObject { object, is_marked: false })),
            res.0 == old(self).objs().len(),
            final(self).globals_view() == old(self).globals_view(),
            final(self).interned() == old(self).interned(),
            final(self).grays == old(self).grays,
            final(self).init_str_gc_ptr == old(self).init_str_gc_ptr,
            final(self).this_str_gc_ptr == old(self).this_str_gc_ptr,
            final(self).super_str_gc_ptr == old(self).super_str_gc_ptr,
    {
        let ghost objs = self.objects@;
        let ghost o = GcObject { object, is_marked: false };
        let ptr = GcPtr(self.objects.len());
        self.objects.push(Some(GcObject { object, is_marked: false }));
        proof {
            lemma_push_preserves(objs, o);
            let n = self.objects@;
            assert forall|p: usize, q: usize|
                live(n, p) && #[trigger] children(obj(n, p)).contains(q) implies live(n, q) by {
                if p < objs.len() {
                    assert(live(objs, p));
                }
            }
            assert forall|k: usize| #[trigger]
                self.strings@.contains_key(k) == (text_at(n, k) is Some) by {
                assert(text_at(objs, k) == text_at(n, k) || k == objs.len());
            }
            assert forall|k: usize|
                #[trigger] self.strings@.contains_key(k) implies self.strings.hashes()[k]
                    == spec_hash_string(text_at(n, k)->0) && string_hash_ok(n, k as int) by {
                assert(text_at(objs, k) is Some);
            }
            assert forall|a: usize, b: usize|
                #[trigger] text_at(n, a) is Some && text_at(n, a) == #[trigger] text_at(n, b)
                    implies a == b by {
                assert(text_at(objs, a) == text_at(n, a));
                assert(text_at(objs, b) == text_at(n, b));
            }
            assert forall|k: usize| #[trigger] self.globals@.contains_key(k) implies text_at(n, k) is Some
                && self.globals.hashes()[k] == spec_hash_string(text_at(n, k)->0) && all_live(
                n,
                value_refs(self.globals@[k]),
            ) by {
                assert(text_at(objs, k) is Some);
            }
        }
        ptr
    }

    /// Puts a new string in a new slot and interns it.
    fn allocate_string(&mut self, chars: Vec<char>, hash: u32) -> (res: GcPtr)
        requires
            old(self).core_ok(),
            old(self).has_room(1),
            hash == spec_hash_string(chars@),
            forall|k: usize| text_at(old(self).objs(), k) != Some(chars@),
        ensures
            final(self).core_ok(),
            final(self).objs() == old(self).objs().push(
                Some(GcObject { object: HeapObject::HeapString(StringObj { chars, hash }), is_marked: false }),
            ),
            res.0 == old(self).objs().len(),
            final(self).globals_view() == old(self).globals_view(),
            final(self).grays == old(self).grays,
            final(self).init_str_gc_ptr == old(self).init_str_gc_ptr,
            final(self).this_str_gc_ptr == old(self).this_str_gc_ptr,
            final(self).super_str_gc_ptr == old(self).super_str_gc_ptr,
    {
        let ghost objs = self.objects@;
        let ghost text = chars@;
        let ghost o = GcObject { object: HeapObject::HeapString(StringObj { chars, hash }), is_marked: false };
        let ptr = GcPtr(self.objects.len());
        self.objects.push(Some(GcObject { object: HeapObject::HeapString(StringObj { chars, hash }), is_marked: false }));
        proof {
            lemma_push_preserves(objs, o);
            lemma_hashes_dom(&self.strings);
            assert(!self.strings@.contains_key(ptr.0)) by {
                assert(text_at(objs, ptr.0) is None);
            }
        }
        let _ = self.strings.set(ptr, hash, Value::Nil);
        proof {
            let n = self.objects@;
            assert(text_at(n, ptr.0) == Some(text));
            assert forall|p: usize, q: usize|
                live(n, p) && #[trigger] children(obj(n, p)).contains(q) implies live(n, q) by {
                if p < objs.len() {
                    assert(live(objs, p));
                }
            }
            assert forall|k: usize| #[trigger]
                self.strings@.contains_key(k) == (text_at(n, k) is Some) by {
                if k != ptr.0 {
                    assert(text_at(objs, k) == text_at(n, k));
                }
            }
            assert forall|k: usize|
                #[trigger] self.strings@.contains_key(k) implies self.strings.hashes()[k]
                    == spec_hash_string(text_at(n, k)->0) && string_hash_ok(n, k as int) by {
                if k != ptr.0 {
                    assert(text_at(objs, k) is Some);
                    assert(old(self).strings@.contains_key(k));
                }
            }
            assert forall|a: usize, b: usize|
                #[trigger] text_at(n, a) is Some && text_at(n, a) == #[trigger] text_at(n, b)
                    implies a == b by {
                if a != ptr.0 && b != ptr.0 {
                    assert(text_at(objs, a) == text_at(n, a));
                    assert(text_at(objs, b) == text_at(n, b));
                } else if a == ptr.0 && b != ptr.0 {
                    assert(text_at(objs, b) == text_at(n, b));
                } else if b == ptr.0 && a != ptr.0 {
                    assert(text_at(objs, a) == text_at(n, a));
                }
            }
            assert forall|k: usize| #[trigger] self.globals@.contains_key(k) implies text_at(n, k) is Some
                && self.globals.hashes()[k] == spec_hash_string(text_at(n, k)->0) && all_live(
                n,
                value_refs(self.globals@[k]),
            ) by {
                assert(text_at(objs, k) is Some);
            }
        }
        ptr
    }

    /// Puts a new object in a new slot; every object it points to is live.
    fn allocate(&mut self, object: HeapObject) -> (res: GcPtr)
        requires
            old(self).wf(),
            old(self).has_room(1),
            !(object is HeapString),
            all_live(old(self).objs(), children(object)),
            tables_ok(object),
        ensures
            final(self).wf(),
            final(self).objs() == old(self).objs().push(Some(GcObject { object, is_marked: false })),
            res.0 == old(self).objs().len(),
            final(self).globals_view() == old(self).globals_view(),
    {
        let ghost objs = self.objects@;
        let ghost o = GcObject { object, is_marked: false };
        let res = self.allocate_on_heap(object);
        proof {
            lemma_push_preserves(objs, o);
            assert forall|p: usize| live(self.objects@, p) implies !(
            #[trigger] self.objects@[p as int])->0.is_marked by {
                if p < objs.len() {
                    assert(self.objects@[p as int] == objs[p as int]);
                }
            }
        }
        res
    }

    /// Allocates a bound method.
    pub fn allocate_bound_method(&mut self, bound_method_obj: BoundMethodObj) -> (res: GcPtr)
        requires
            old(self).wf(),
            old(self).has_room(1),
            all_live(old(self).objs(), children(HeapObject::HeapBoundMethod(bound_method_obj))),
        ensures
            final(self).wf(),
            final(self).objs() == old(self).objs().push(
                Some(GcObject { object: HeapObject::HeapBoundMethod(bound_method_obj), is_marked: false }),
            ),
            res.0 == old(self).objs().len(),
            final(self).globals_view() == old(self).globals_view(),
    {
        self.allocate(HeapObject::HeapBoundMethod(bound_method_obj))
    }

    /// Allocates a class.
    pub fn allocate_class(&mut self, class_obj: ClassObj) -> (res: GcPtr)
        requires
            old(self).wf(),
            old(self).has_room(1),
            all_live(old(self).objs(), children(HeapObject::HeapClass(class_obj))),
            tables_ok(HeapObject::HeapClass(class_obj)),
        ensures
            final(self).wf(),
            final(self).objs() == old(self).objs().push(
                Some(GcObject { object: HeapObject::HeapClass(class_obj), is_marked: false }),
            ),
            res.0 == old(self).objs().len(),
            final(self).globals_view() == old(self).globals_view(),
    {
        self.allocate(HeapObject::HeapClass(class_obj))
    }

    /// Allocates a closure over the function in slot `function_gc_ptr`, with
    /// one empty place for each upvalue that the function captures.
    pub fn allocate_closure(&mut self, function_gc_ptr: GcPtr) -> (res: GcPtr)
        requires
            old(self).wf(),
            old(self).has_room(1),
            live(old(self).objs(), function_gc_ptr.0),
            obj(old(self).objs(), function_gc_ptr.0) is HeapFunction,
        ensures
            final(self).wf(),
            final(self).objs().len() == old(self).objs().len() + 1,
            final(self).objs().subrange(0, old(self).objs().len() as int) == old(self).objs(),
            res.0 == old(self).objs().len(),
            live(final(self).objs(), res.0),
            ({
                let f = obj(old(self).objs(), function_gc_ptr.0)->HeapFunction_0;
                match obj(final(self).objs(), res.0) {
                    HeapObject::HeapClosure(c) => c.function_gc_ptr == function_gc_ptr
                        && c.upvalue_count == f.spec_upvalue_count() && c.upvalues@.len()
                        == f.spec_upvalue_count() && forall|i: int|
                        0 <= i < c.upvalues@.len() ==> c.upvalues@[i] is None,
                    _ => false,
                }
            }),
            final(self).globals_view() == old(self).globals_view(),
    {
        let upvalue_count = match &self.objects[function_gc_ptr.0] {
            Some(o) => match &o.object {
                HeapObject::HeapFunction(f) => f.upvalue_count(),
                _ => 0,
            },
            None => 0,
        };
        let mut upvalues: Vec<Option<GcPtr>> = Vec::new();
        let mut i: u16 = 0;
        while i < upvalue_count
            invariant
                i <= upvalue_count,
                upvalues.len() == i,
                forall|j: int| 0 <= j < i ==> upvalues@[j] is None,
            decreases upvalue_count - i,
        {
            upvalues.push(None);
            i = i + 1;
        }
        let closure = ClosureObj { function_gc_ptr, upvalues, upvalue_count };
        proof {
            assert forall|q: usize| #[trigger]
                children(HeapObject::HeapClosure(closure)).contains(q) implies live(
                self.objects@,
                q,
            ) by {
                if q != function_gc_ptr.0 {
                    let j = choose|j: int|
                        0 <= j < closure.upvalues.len() && #[trigger] closure.upvalues@[j] == Some(
                            GcPtr(q),
                        );
                }
            }
        }
        let res = self.allocate(HeapObject::HeapClosure(closure));
        assert(self.objects@.subrange(0, old(self).objects.len() as int) =~= old(self).objects@);
        res
    }

    /// Allocates a function.
    pub fn allocate_function(&mut self, function_obj: FunctionObj) -> (res: GcPtr)
        requires
            old(self).wf(),
            old(self).has_room(1),
            all_live(old(self).objs(), children(HeapObject::HeapFunction(function_obj))),
        ensures
            final(self).wf(),
            final(self).objs() == old(self).objs().push(
                Some(GcObject { object: HeapObject::HeapFunction(function_obj), is_marked: false }),
            ),
            res.0 == old(self).objs().len(),
            final(self).globals_view() == old(self).globals_view(),
    {
        self.allocate(HeapObject::HeapFunction(function_obj))
    }

    /// Allocates a native function.
    pub fn allocate_native_fn(&mut self, native_fn_obj: NativeFnObj) -> (res: GcPtr)
        requires
            old(self).wf(),
            old(self).has_room(1),
        ensures
            final(self).wf(),
            final(self).objs() == old(self).objs().push(
                Some(GcObject { object: HeapObject::HeapNativeFn(native_fn_obj), is_marked: false }),
            ),
            res.0 == old(self).objs().len(),
            final(self).globals_view() == old(self).globals_view(),
    {
        self.allocate(HeapObject::HeapNativeFn(native_fn_obj))
    }

    /// Allocates an instance.
    pub fn allocate_obj_instance(&mut self, obj_instance_obj: ObjInstanceObj) -> (res: GcPtr)
        requires
            old(self).wf(),
            old(self).has_room(1),
            all_live(old(self).objs(), children(HeapObject::HeapObjInstance(obj_instance_obj))),
            tables_ok(HeapObject::HeapObjInstance(obj_instance_obj)),
        ensures
            final(self).wf(),
            final(self).objs() == old(self).objs().push(
                Some(GcObject { object: HeapObject::HeapObjInstance(obj_instance_obj), is_marked: false }),
            ),
            res.0 == old(self).objs().len(),
            final(self).globals_view() == old(self).globals_view(),
    {
        self.allocate(HeapObject::HeapObjInstance(obj_instance_obj))
    }

    /// Allocates an upvalue.
    pub fn allocate_upvalue(&mut self, upvalue_obj: UpvalueObj) -> (res: GcPtr)
        requires
            old(self).wf(),
            old(self).has_room(1),
            all_live(old(self).objs(), children(HeapObject::HeapUpvalue(upvalue_obj))),
        ensures
            final(self).wf(),
            final(self).objs() == old(self).objs().push(
                Some(GcObject { object: HeapObject::HeapUpvalue(upvalue_obj), is_marked: false }),
            ),
            res.0 == old(self).objs().len(),
            final(self).globals_view() == old(self).globals_view(),
    {
        self.allocate(HeapObject::HeapUpvalue(upvalue_obj))
    }

    /// Whether slot `p` holds an object.
    pub fn is_live(&self, p: GcPtr) -> (res: bool)
        ensures
            res == live(self.objs(), p.0),
    {
        p.0 < self.objects.len() && self.objects[p.0].is_some()
    }

    /// The object in a live slot.
    pub fn object(&self, p: GcPtr) -> (res: &HeapObject)
        requires
            live(self.objs(), p.0),
        ensures
            *res == obj(self.objs(), p.0),
    {
        match &self.objects[p.0] {
            Some(o) => &o.object,
            None => {
                proof {
                    assert(false);
                }
                &self.objects[p.0].as_ref().unwrap().object
            },
        }
    }

    /// The live string whose text is `chars`, if there is one.
    fn find_string(&self, chars: &Vec<char>, hash: u32) -> (res: Option<GcPtr>)
        requires
            self.core_ok(),
            hash == spec_hash_string(chars@),
        ensures
            match res {
                Some(k) => text_at(self.objs(), k.0) == Some(chars@),
                None => forall|k: usize| text_at(self.objs(), k) != Some(chars@),
            },
    {
        let res = self.strings.find_string(&self.objects, chars, hash);
        proof {
            if res is None {
                assert forall|k: usize| text_at(self.objects@, k) != Some(chars@) by {
                    if text_at(self.objects@, k) == Some(chars@) {
                        assert(self.strings@.contains_key(k));
                    }
                }
            }
        }
        res
    }

    /// The interned string whose text is `text`: the one already on the
    /// heap, or a new one.
    pub fn copy_string_simple(&mut self, text: &Vec<char>) -> (res: GcPtr)
        requires
            old(self).wf(),
            old(self).has_room(1),
        ensures
            final(self).wf(),
            text_at(final(self).objs(), res.0) == Some(text@),
            match old(self).string_slot(text@) {
                Some(k) => res.0 == k && final(self).objs() == old(self).objs(),
                None => res.0 == old(self).objs().len() && final(self).objs() == old(self).objs().push(
                    Some(GcObject { object: HeapObject::HeapString(StringObj { chars: obj(final(self).objs(), res.0)->HeapString_0.chars, hash: spec_hash_string(text@) }), is_marked: false }),
                ),
            },
            old(self).objs().len() <= final(self).objs().len() <= old(self).objs().len() + 1,
            final(self).objs().subrange(0, old(self).objs().len() as int) == old(self).objs(),
            final(self).globals_view() == old(self).globals_view(),
    {
        let hash = hash_string(text);
        match self.find_string(text, hash) {
            Some(p) => {
                proof {
                    let k = choose|k: usize| #[trigger] text_at(self.objs(), k) == Some(text@);
                    assert(text_at(self.objects@, p.0) == Some(text@));
                    assert(k == p.0);
                    assert(self.objects@.subrange(0, self.objects.len() as int) =~= self.objects@);
                }
                p
            },
            None => {
                let chars = copy_chars(text);
                let ghost objs = self.objects@;
                let res = self.allocate_string(chars, hash);
                proof {
                    assert(!(exists|k: usize| #[trigger] text_at(objs, k) == Some(text@)));
                    lemma_push_preserves(
                        objs,
                        GcObject { object: HeapObject::HeapString(StringObj { chars, hash }), is_marked: false },
                    );
                    assert forall|p: usize| live(self.objects@, p) implies !(
                    #[trigger] self.objects@[p as int])->0.is_marked by {
                        if p < objs.len() {
                            assert(self.objects@[p as int] == objs[p as int]);
                        }
                    }
                    assert(self.objects@.subrange(0, objs.len() as int) =~= objs);
                }
                res
            },
        }
    }

    /// The interned string for the text that a token covers in the source.
    pub fn copy_string(&mut self, source: &Vec<char>, loc: &SourceLoc) -> (res: GcPtr)
        requires
            old(self).wf(),
            old(self).has_room(1),
        ensures
            final(self).wf(),
            text_at(final(self).objs(), res.0) == Some(spec_extract(*loc, source@)),
            old(self).objs().len() <= final(self).objs().len() <= old(self).objs().len() + 1,
            final(self).objs().subrange(0, old(self).objs().len() as int) == old(self).objs(),
            final(self).globals_view() == old(self).globals_view(),
            old(self).string_slot(spec_extract(*loc, source@)) matches Some(k) ==> res.0 == k,
    {
        let text = loc.extract(source);
        self.copy_string_simple(&text)
    }

    /// The interned string for the text of two strings put together.
    pub fn concatenate_strings(&mut self, string1: GcPtr, string2: GcPtr) -> (res: GcPtr)
        requires
            old(self).wf(),
            old(self).has_room(1),
            text_at(old(self).objs(), string1.0) is Some,
            text_at(old(self).objs(), string2.0) is Some,
        ensures
            final(self).wf(),
            text_at(final(self).objs(), res.0) == Some(
                text_at(old(self).objs(), string1.0)->0 + text_at(old(self).objs(), string2.0)->0,
            ),
            old(self).objs().len() <= final(self).objs().len() <= old(self).objs().len() + 1,
            final(self).objs().subrange(0, old(self).objs().len() as int) == old(self).objs(),
            final(self).globals_view() == old(self).globals_view(),
    {
        let mut text: Vec<char> = match self.object(string1) {
            HeapObject::HeapString(s) => copy_chars(&s.chars),
            _ => Vec::new(),
        };
        match self.object(string2) {
            HeapObject::HeapString(s) => append_chars(&mut text, &s.chars),
            _ => {},
        }
        self.copy_string_simple(&text)
    }

    /// The value of the global variable named by the string in `name`.
    pub fn get_global(&self, name: GcPtr) -> (res: Option<Value>)
        requires
            self.wf(),
            text_at(self.objs(), name.0) is Some,
        ensures
            match res {
                Some(v) => self.globals_view().contains_key(name.0) && v@ == self.globals_view()[name.0],
                None => !self.globals_view().contains_key(name.0),
            },
    {
        let hash = match self.object(name) {
            HeapObject::HeapString(s) => s.hash,
            _ => 0,
        };
        proof {
            lemma_hashes_dom(&self.globals);
            assert(self.strings@.contains_key(name.0));
        }
        self.globals.get(name, hash)
    }

    /// Binds the global variable named by the string in `name`; whether the
    /// name is new.
    pub fn set_global(&mut self, name: GcPtr, value: Value) -> (res: bool)
        requires
            old(self).wf(),
            text_at(old(self).objs(), name.0) is Some,
            all_live(old(self).objs(), value_refs(value@)),
            old(self).globals_filled() < HashTable::filled_limit(),
        ensures
            final(self).wf(),
            final(self).objs() == old(self).objs(),
            final(self).globals_view() == old(self).globals_view().insert(name.0, value@),
            res == !old(self).globals_view().contains_key(name.0),
    {
        let hash = match self.object(name) {
            HeapObject::HeapString(s) => s.hash,
            _ => 0,
        };
        proof {
            lemma_hashes_dom(&self.globals);
            assert(self.strings@.contains_key(name.0));
        }
        self.globals.set(name, hash, value)
    }

    /// Removes the global variable named by the string in `name`; whether
    /// there was one.
    pub fn delete_global(&mut self, name: GcPtr) -> (res: bool)
        requires
            old(self).wf(),
            text_at(old(self).objs(), name.0) is Some,
        ensures
            final(self).wf(),
            final(self).objs() == old(self).objs(),
            final(self).globals_view() == old(self).globals_view().remove(name.0),
            res == old(self).globals_view().contains_key(name.0),
    {
        let hash = match self.object(name) {
            HeapObject::HeapString(s) => s.hash,
            _ => 0,
        };
        proof {
            lemma_hashes_dom(&self.globals);
            assert(self.strings@.contains_key(name.0));
        }
        self.globals.delete(name, hash)
    }

    // -----------------------------------------------------------------------
    // The collector.
    // -----------------------------------------------------------------------

    /// The gray list as a sequence of slots.
    pub closed spec fn gray_seq(&self) -> Seq<usize> {
        self.grays@.map_values(|g: GcPtr| g.0)
    }

    /// The collector's invariant between steps: the heap's shape is sound,
    /// and the gray list holds distinct live marked objects.
    pub closed spec fn gc_ok(&self) -> bool {
        &&& self.core_ok()
        &&& self.names_ok()
        &&& self.gray_seq().no_duplicates()
        &&& forall|i: int|
            0 <= i < self.gray_seq().len() ==> live(self.objects@, #[trigger] self.gray_seq()[i])
                && self.objects@[self.gray_seq()[i] as int]->0.is_marked
    }

    /// A marked object that is no longer gray points only to marked objects.
    pub closed spec fn black_ok(&self) -> bool {
        forall|p: usize, q: usize|
            #![trigger marked_set(self.objects@).contains(p), children(obj(self.objects@, p)).contains(q)]
            marked_set(self.objects@).contains(p) && !self.gray_seq().contains(p) && children(
                obj(self.objects@, p),
            ).contains(q) ==> marked_set(self.objects@).contains(q)
    }

    /// The slots that the heap itself keeps alive: the global variables
    /// (names and values) and the three interned names.
    pub closed spec fn heap_roots(&self) -> Set<usize> {
        map_refs(self.globals@).insert(self.init_str_gc_ptr.0).insert(self.this_str_gc_ptr.0).insert(
            self.super_str_gc_ptr.0,
        )
    }

    pub proof fn lemma_wf_gc_ok(&self)
        requires
            self.wf(),
        ensures
            self.gc_ok(),
            self.black_ok(),
            marked_set(self.objs()) == Set::<usize>::empty(),
            self.gray_seq().len() == 0,
    {
        assert(self.gray_seq().len() == 0);
        assert(marked_set(self.objects@) =~= Set::<usize>::empty());
    }

    /// Sets the mark of a live slot.
    fn set_mark(&mut self, p: usize)
        requires
            live(old(self).objects@, p),
        ensures
            final(self).objects@ == old(self).objects@.update(
                p as int,
                Some(GcObject { object: obj(old(self).objects@, p), is_marked: true }),
            ),
            final(self).grays == old(self).grays,
            final(self).globals == old(self).globals,
            final(self).strings == old(self).strings,
            final(self).init_str_gc_ptr == old(self).init_str_gc_ptr,
            final(self).this_str_gc_ptr == old(self).this_str_gc_ptr,
            final(self).super_str_gc_ptr == old(self).super_str_gc_ptr,
    {
        match &mut self.objects[p] {
            Some(o) => {
                o.is_marked = true;
            },
            None => {},
        }
    }

    /// Marks an object and, when it was not marked yet, adds it to the gray
    /// list.
    pub fn mark_object(&mut self, gc_ptr: GcPtr)
        requires
            old(self).gc_ok(),
            live(old(self).objs(), gc_ptr.0),
        ensures
            final(self).gc_ok(),
            same_shape(old(self).objs(), final(self).objs()),
            marked_set(final(self).objs()) == marked_set(old(self).objs()).insert(gc_ptr.0),
            if marked_set(old(self).objs()).contains(gc_ptr.0) {
                final(self).gray_seq() == old(self).gray_seq() && unmarked_count(final(self).objs())
                    == unmarked_count(old(self).objs())
            } else {
                final(self).gray_seq() == old(self).gray_seq().push(gc_ptr.0) && unmarked_count(
                    final(self).objs(),
                ) + 1 == unmarked_count(old(self).objs())
            },
            old(self).black_ok() ==> final(self).black_ok(),
            final(self).globals_view() == old(self).globals_view(),
            final(self).heap_roots() == old(self).heap_roots(),
    {
        let already = match &self.objects[gc_ptr.0] {
            Some(o) => o.is_marked,
            None => true,
        };
        if !already {
            let ghost objs = self.objects@;
            self.set_mark(gc_ptr.0);
            self.grays.push(gc_ptr);
            proof {
                let n = self.objects@;
                lemma_mark_shape(objs, gc_ptr.0);
                lemma_shape_core(old(self), self);
                assert(self.gray_seq() =~= old(self).gray_seq().push(gc_ptr.0));
                assert(marked_set(n) =~= marked_set(objs).insert(gc_ptr.0));
                lemma_unmarked_count_mark(objs, gc_ptr.0);
                assert forall|i: int|
                    0 <= i < self.gray_seq().len() implies live(n, #[trigger] self.gray_seq()[i])
                        && n[self.gray_seq()[i] as int]->0.is_marked by {
                    if i < old(self).gray_seq().len() {
                        assert(self.gray_seq()[i] == old(self).gray_seq()[i]);
                    }
                }
                assert(!old(self).gray_seq().contains(gc_ptr.0));
                if old(self).black_ok() {
                    assert forall|r: usize, q: usize|
                        #![trigger marked_set(n).contains(r), children(obj(n, r)).contains(q)]
                        marked_set(n).contains(r) && !self.gray_seq().contains(r) && children(
                            obj(n, r),
                        ).contains(q) implies marked_set(n).contains(q) by {
                        assert(r != gc_ptr.0) by {
                            assert(self.gray_seq()[self.gray_seq().len() - 1] == gc_ptr.0);
                        }
                        assert(!old(self).gray_seq().contains(r)) by {
                            if old(self).gray_seq().contains(r) {
                                let j = choose|j: int| 0 <= j < old(self).gray_seq().len() && old(self).gray_seq()[j] == r;
                                assert(self.gray_seq()[j] == r);
                            }
                        }
                        assert(marked_set(objs).contains(r));
                        assert(obj(n, r) == obj(objs, r));
                        assert(marked_set(objs).contains(q));
                    }
                }
            }
        } else {
            proof {
                assert(marked_set(self.objects@) =~= marked_set(old(self).objects@).insert(
                    gc_ptr.0,
                ));
            }
        }
    }

    /// Marks the object that a value refers to, if any.
    pub fn mark_value(&mut self, value: &Value)
        requires
            old(self).gc_ok(),
            all_live(old(self).objs(), value_refs(value@)),
        ensures
            final(self).gc_ok(),
            same_shape(old(self).objs(), final(self).objs()),
            marked_set(final(self).objs()) == marked_set(old(self).objs()).union(value_refs(value@)),
            unmarked_count(final(self).objs()) + final(self).gray_seq().len() == unmarked_count(
                old(self).objs(),
            ) + old(self).gray_seq().len(),
            final(self).gray_seq().len() >= old(self).gray_seq().len(),
            forall|q: usize| #[trigger] final(self).gray_seq().contains(q) ==> old(self).gray_seq().contains(q)
                || !marked_set(old(self).objs()).contains(q),
            old(self).black_ok() ==> final(self).black_ok(),
            final(self).globals_view() == old(self).globals_view(),
            final(self).heap_roots() == old(self).heap_roots(),
    {
        match value {
            Value::Reference(p) => {
                self.mark_object(*p);
                proof {
                    assert(value_refs(value@) =~= set![p.0]);
                    assert(marked_set(self.objects@) =~= marked_set(old(self).objects@).union(
                        value_refs(value@),
                    ));
                }
            },
            _ => {
                proof {
                    assert(marked_set(self.objects@) =~= marked_set(old(self).objects@).union(
                        value_refs(value@),
                    ));
                }
            },
        }
    }

    /// Marks every slot in a list of slots.
    fn mark_ptrs(&mut self, ptrs: &Vec<GcPtr>)
        requires
            old(self).gc_ok(),
            all_live(old(self).objs(), ptr_set(ptrs@)),
        ensures
            final(self).gc_ok(),
            same_shape(old(self).objs(), final(self).objs()),
            marked_set(final(self).objs()) == marked_set(old(self).objs()).union(ptr_set(ptrs@)),
            unmarked_count(final(self).objs()) + final(self).gray_seq().len() == unmarked_count(
                old(self).objs(),
            ) + old(self).gray_seq().len(),
            final(self).gray_seq().len() >= old(self).gray_seq().len(),
            forall|q: usize| #[trigger] final(self).gray_seq().contains(q) ==> old(self).gray_seq().contains(q)
                || !marked_set(old(self).objs()).contains(q),
            old(self).black_ok() ==> final(self).black_ok(),
            final(self).globals_view() == old(self).globals_view(),
            final(self).heap_roots() == old(self).heap_roots(),
    {
        let mut i: usize = 0;
        while i < ptrs.len()
            invariant
                self.gc_ok(),
                i <= ptrs.len(),
                all_live(old(self).objs(), ptr_set(ptrs@)),
                same_shape(old(self).objs(), self.objs()),
                marked_set(self.objs()) == marked_set(old(self).objs()).union(
                    ptr_set(ptrs@.subrange(0, i as int)),
                ),
                unmarked_count(self.objs()) + self.gray_seq().len() == unmarked_count(
                    old(self).objs(),
                ) + old(self).gray_seq().len(),
                self.gray_seq().len() >= old(self).gray_seq().len(),
                forall|q: usize| #[trigger] self.gray_seq().contains(q) ==> old(self).gray_seq().contains(q)
                    || !marked_set(old(self).objs()).contains(q),
                old(self).black_ok() ==> self.black_ok(),
                self.globals_view() == old(self).globals_view(),
                self.heap_roots() == old(self).heap_roots(),
            decreases ptrs.len() - i,
        {
            proof {
                assert(ptr_set(ptrs@).contains(ptrs@[i as int].0));
                assert(live(self.objs(), ptrs@[i as int].0));
            }
            let ghost before = self.gray_seq();
            let ghost mbefore = marked_set(self.objs());
            self.mark_object(ptrs[i]);
            proof {
                assert(ptr_set(ptrs@.subrange(0, i + 1)) =~= ptr_set(ptrs@.subrange(0, i as int)).insert(
                    ptrs@[i as int].0,
                )) by {
                    assert forall|q: usize| #[trigger] ptr_set(ptrs@.subrange(0, i + 1)).contains(q)
                        == ptr_set(ptrs@.subrange(0, i as int)).insert(ptrs@[i as int].0).contains(q) by {
                        if ptr_set(ptrs@.subrange(0, i + 1)).contains(q) {
                            let j = choose|j: int|
                                0 <= j < ptrs@.subrange(0, i + 1).len() && #[trigger] ptrs@.subrange(0, i + 1)[j].0 == q;
                            if j < i {
                                assert(ptrs@.subrange(0, i as int)[j].0 == q);
                            }
                        }
                        if ptr_set(ptrs@.subrange(0, i as int)).contains(q) {
                            let j = choose|j: int|
                                0 <= j < ptrs@.subrange(0, i as int).len() && #[trigger] ptrs@.subrange(0, i as int)[j].0 == q;
                            assert(ptrs@.subrange(0, i + 1)[j].0 == q);
                        }
                        if q == ptrs@[i as int].0 {
                            assert(ptrs@.subrange(0, i + 1)[i as int].0 == q);
                        }
                    }
                }
                assert(marked_set(self.objs()) =~= marked_set(old(self).objs()).union(
                    ptr_set(ptrs@.subrange(0, i + 1)),
                ));
                assert forall|q: usize| #[trigger] self.gray_seq().contains(q) implies old(self).gray_seq().contains(q)
                    || !marked_set(old(self).objs()).contains(q) by {
                    if !before.contains(q) {
                        assert(q == ptrs@[i as int].0);
                        assert(!mbefore.contains(q));
                    }
                }
            }
            i = i + 1;
        }
        assert(ptrs@.subrange(0, ptrs.len() as int) =~= ptrs@);
    }

    /// Marks the roots that the heap keeps: the global variables and the
    /// three interned names.
    pub fn mark_roots(&mut self)
        requires
            old(self).gc_ok(),
        ensures
            final(self).gc_ok(),
            same_shape(old(self).objs(), final(self).objs()),
            marked_set(final(self).objs()) == marked_set(old(self).objs()).union(
                old(self).heap_roots(),
            ),
            unmarked_count(final(self).objs()) + final(self).gray_seq().len() == unmarked_count(
                old(self).objs(),
            ) + old(self).gray_seq().len(),
            forall|q: usize| #[trigger] final(self).gray_seq().contains(q) ==> old(self).gray_seq().contains(q)
                || !marked_set(old(self).objs()).contains(q),
            old(self).black_ok() ==> final(self).black_ok(),
            final(self).globals_view() == old(self).globals_view(),
            final(self).heap_roots() == old(self).heap_roots(),
    {
        let mut ptrs: Vec<GcPtr> = Vec::new();
        push_table_refs(&mut ptrs, &self.globals);
        push_ptr(&mut ptrs, self.init_str_gc_ptr);
        push_ptr(&mut ptrs, self.super_str_gc_ptr);
        push_ptr(&mut ptrs, self.this_str_gc_ptr);
        proof {
            assert(ptr_set(Seq::<GcPtr>::empty()) =~= Set::<usize>::empty());
            assert(ptr_set(ptrs@) =~= self.heap_roots());
            assert forall|q: usize| ptr_set(ptrs@).contains(q) implies live(self.objs(), q) by {
                if map_refs(self.globals@).contains(q) {
                    if self.globals@.contains_key(q) {
                        assert(text_at(self.objects@, q) is Some);
                    } else {
                        let k = choose|k: usize| self.globals@.contains_key(k) && #[trigger] self.globals@[k] == ValueView::Reference(q);
                        assert(all_live(self.objects@, value_refs(self.globals@[k])));
                        assert(value_refs(self.globals@[k]).contains(q));
                    }
                }
            }
        }
        self.mark_ptrs(&ptrs);
    }

    /// Marks everything that the gray objects point to, until no object is
    /// gray: then every marked object points only to marked objects.
    pub fn trace_references(&mut self)
        requires
            old(self).gc_ok(),
            old(self).black_ok(),
        ensures
            final(self).gc_ok(),
            final(self).black_ok(),
            final(self).gray_seq().len() == 0,
            same_shape(old(self).objs(), final(self).objs()),
            marked_set(old(self).objs()).subset_of(marked_set(final(self).objs())),
            forall|q: usize|
                #[trigger] marked_set(final(self).objs()).contains(q) ==> reachable(
                    old(self).objs(),
                    marked_set(old(self).objs()),
                    q,
                ),
            final(self).globals_view() == old(self).globals_view(),
            final(self).heap_roots() == old(self).heap_roots(),
    {
        let ghost objs0 = self.objects@;
        let ghost m0 = marked_set(objs0);
        proof {
            assert forall|q: usize| #[trigger] marked_set(objs0).contains(q) implies reachable(objs0, m0, q) by {
                assert(reach_n(objs0, m0, 0).contains(q));
            }
        }
        loop
            invariant
                self.gc_ok(),
                self.black_ok(),
                same_shape(objs0, self.objs()),
                m0.subset_of(marked_set(self.objs())),
                forall|q: usize|
                    #[trigger] marked_set(self.objs()).contains(q) ==> reachable(objs0, m0, q),
                self.globals_view() == old(self).globals_view(),
                self.heap_roots() == old(self).heap_roots(),
            ensures
                self.gc_ok(),
                self.black_ok(),
                self.gray_seq().len() == 0,
                same_shape(objs0, self.objs()),
                m0.subset_of(marked_set(self.objs())),
                forall|q: usize|
                    #[trigger] marked_set(self.objs()).contains(q) ==> reachable(objs0, m0, q),
                self.globals_view() == old(self).globals_view(),
                self.heap_roots() == old(self).heap_roots(),
            decreases unmarked_count(self.objs()), self.gray_seq().len(),
        {
            let ghost u0 = unmarked_count(self.objs());
            let ghost g0 = self.gray_seq();
            let ghost mk = marked_set(self.objs());
            match self.grays.pop() {
                None => {
                    proof {
                        assert(self.gray_seq().len() == 0);
                    }
                    break ;
                },
                Some(p) => {
                    proof {
                        assert(g0 =~= self.gray_seq().push(p.0));
                        assert(g0[g0.len() - 1] == p.0);
                        lemma_no_dup_pop(g0);
                        assert(self.gray_seq() =~= g0.drop_last());
                        assert(live(self.objects@, g0[g0.len() - 1]));
                        assert(self.objects@[p.0 as int]->0.is_marked);
                        assert(marked_set(self.objs()).contains(p.0));
                        assert(!self.gray_seq().contains(p.0));
                        assert forall|i: int|
                            0 <= i < self.gray_seq().len() implies live(self.objects@, #[trigger] self.gray_seq()[i])
                                && self.objects@[self.gray_seq()[i] as int]->0.is_marked by {
                            assert(self.gray_seq()[i] == g0[i]);
                        }
                    }
                    let kids = children_of(self.object(p));
                    proof {
                        assert forall|q: usize| ptr_set(kids@).contains(q) implies live(self.objs(), q) by {
                            assert(children(obj(self.objs(), p.0)).contains(q));
                        }
                        assert(reachable(objs0, m0, p.0));
                    }
                    let ghost before_kids = self.objects@;
                    let ghost before_grays = self.gray_seq();
                    proof {
                        assert forall|r: usize, q: usize|
                            #![trigger marked_set(self.objects@).contains(r), children(obj(self.objects@, r)).contains(q)]
                            marked_set(self.objects@).contains(r) && !self.gray_seq().contains(r) && r != p.0
                                && children(obj(self.objects@, r)).contains(q) implies marked_set(self.objects@).contains(q) by {
                            assert(!g0.contains(r)) by {
                                if g0.contains(r) {
                                    let j = choose|j: int| 0 <= j < g0.len() && g0[j] == r;
                                    if j < g0.len() - 1 {
                                        assert(self.gray_seq()[j] == r);
                                    }
                                }
                            }
                        }
                    }
                    self.mark_ptrs_partial(&kids, p.0);
                    proof {
                        let n = self.objects@;
                        lemma_same_shape_trans(objs0, before_kids, n);
                        assert(m0.subset_of(marked_set(n)));
                        assert forall|q: usize| #[trigger] marked_set(n).contains(q) implies reachable(objs0, m0, q) by {
                            if !mk.contains(q) {
                                assert(ptr_set(kids@).contains(q));
                                assert(children(obj(objs0, p.0)).contains(q));
                                lemma_reach_child(objs0, m0, p.0, q);
                            }
                        }
                    }
                },
            }
        }
    }

    /// Marks the children of a popped gray object `p`; afterwards `p` is
    /// black like every other marked object outside the gray list.
    fn mark_ptrs_partial(&mut self, ptrs: &Vec<GcPtr>, p: usize)
        requires
            old(self).gc_ok(),
            all_live(old(self).objs(), ptr_set(ptrs@)),
            live(old(self).objs(), p),
            marked_set(old(self).objs()).contains(p),
            !old(self).gray_seq().contains(p),
            ptr_set(ptrs@) == children(obj(old(self).objs(), p)),
            forall|r: usize, q: usize|
                #![trigger marked_set(old(self).objs()).contains(r), children(obj(old(self).objs(), r)).contains(q)]
                marked_set(old(self).objs()).contains(r) && !old(self).gray_seq().contains(r) && r != p
                    && children(obj(old(self).objs(), r)).contains(q) ==> marked_set(old(self).objs()).contains(q),
        ensures
            final(self).gc_ok(),
            final(self).black_ok(),
            same_shape(old(self).objs(), final(self).objs()),
            marked_set(final(self).objs()) == marked_set(old(self).objs()).union(ptr_set(ptrs@)),
            unmarked_count(final(self).objs()) + final(self).gray_seq().len() == unmarked_count(
                old(self).objs(),
            ) + old(self).gray_seq().len(),
            final(self).gray_seq().len() >= old(self).gray_seq().len(),
            final(self).globals_view() == old(self).globals_view(),
            final(self).heap_roots() == old(self).heap_roots(),
    {
        let ghost o0 = old(self).objects@;
        let ghost m_old = marked_set(o0);
        let mut i: usize = 0;
        while i < ptrs.len()
            invariant
                self.gc_ok(),
                i <= ptrs.len(),
                all_live(o0, ptr_set(ptrs@)),
                live(o0, p),
                ptr_set(ptrs@) == children(obj(o0, p)),
                m_old.contains(p),
                !self.gray_seq().contains(p),
                same_shape(o0, self.objs()),
                marked_set(self.objs()) == m_old.union(ptr_set(ptrs@.subrange(0, i as int))),
                unmarked_count(self.objs()) + self.gray_seq().len() == unmarked_count(o0)
                    + old(self).gray_seq().len(),
                self.gray_seq().len() >= old(self).gray_seq().len(),
                forall|r: usize| #[trigger] self.gray_seq().contains(r) ==> old(self).gray_seq().contains(r)
                    || !m_old.contains(r),
                forall|r: usize, q: usize|
                    #![trigger marked_set(self.objects@).contains(r), children(obj(self.objects@, r)).contains(q)]
                    marked_set(self.objects@).contains(r) && !self.gray_seq().contains(r) && r != p
                        && children(obj(self.objects@, r)).contains(q) ==> marked_set(self.objects@).contains(q),
                self.globals_view() == old(self).globals_view(),
                self.heap_roots() == old(self).heap_roots(),
            decreases ptrs.len() - i,
        {
            proof {
                assert(ptr_set(ptrs@).contains(ptrs@[i as int].0));
            }
            let ghost before = self.gray_seq();
            let ghost mbefore = marked_set(self.objs());
            let ghost ob = self.objects@;
            self.mark_object(ptrs[i]);
            proof {
                let n = self.objects@;
                let q0 = ptrs@[i as int].0;
                lemma_ptr_set_extend(ptrs@, i as int);
                assert(marked_set(n) =~= m_old.union(ptr_set(ptrs@.subrange(0, i + 1))));
                assert forall|r: usize| #[trigger] self.gray_seq().contains(r) implies old(self).gray_seq().contains(r)
                    || !m_old.contains(r) by {
                    if !before.contains(r) {
                        assert(r == q0);
                        assert(!mbefore.contains(r));
                    }
                }
                assert(!self.gray_seq().contains(p)) by {
                    if !before.contains(p) && self.gray_seq().contains(p) {
                        assert(p == q0);
                        assert(mbefore.contains(p));
                    }
                }
                assert forall|r: usize, q: usize|
                    #![trigger marked_set(n).contains(r), children(obj(n, r)).contains(q)]
                    marked_set(n).contains(r) && !self.gray_seq().contains(r) && r != p
                        && children(obj(n, r)).contains(q) implies marked_set(n).contains(q) by {
                    assert(obj(n, r) == obj(ob, r));
                    assert(!before.contains(r)) by {
                        if before.contains(r) {
                            let j = choose|j: int| 0 <= j < before.len() && before[j] == r;
                            assert(self.gray_seq()[j] == r);
                        }
                    }
                    assert(mbefore.contains(r)) by {
                        if !mbefore.contains(r) {
                            assert(r == q0);
                            assert(self.gray_seq()[self.gray_seq().len() - 1] == r);
                        }
                    }
                }
            }
            i = i + 1;
        }
        proof {
            assert(ptrs@.subrange(0, ptrs.len() as int) =~= ptrs@);
            let n = self.objects@;
            assert forall|r: usize, q: usize|
                #![trigger marked_set(n).contains(r), children(obj(n, r)).contains(q)]
                marked_set(n).contains(r) && !self.gray_seq().contains(r)
                    && children(obj(n, r)).contains(q) implies marked_set(n).contains(q) by {
                if r == p {
                    assert(obj(n, p) == obj(o0, p));
                    assert(ptr_set(ptrs@).contains(q));
                }
            }
        }
    }

    /// Frees every unmarked object and clears the marks of the rest; the
    /// string table forgets the strings that are freed.
    pub fn sweep(&mut self)
        requires
            old(self).gc_ok(),
            old(self).black_ok(),
            old(self).gray_seq().len() == 0,
            old(self).heap_roots().subset_of(marked_set(old(self).objs())),
        ensures
            final(self).wf(),
            marked_set(final(self).objs()) == Set::<usize>::empty(),
            final(self).objs().len() == old(self).objs().len(),
            forall|p: usize|
                #[trigger] live(final(self).objs(), p) == (live(old(self).objs(), p) && marked_set(
                    old(self).objs(),
                ).contains(p)),
            forall|p: usize|
                live(final(self).objs(), p) ==> #[trigger] obj(final(self).objs(), p) == obj(
                    old(self).objs(),
                    p,
                ),
            final(self).globals_view() == old(self).globals_view(),
    {
        let ghost o0 = self.objects@;
        let ghost m0 = marked_set(o0);
        self.strings.delete_unmarked(&self.objects);
        let ghost st = self.strings;
        let mut i: usize = 0;
        while i < self.objects.len()
            invariant
                self.objects.len() == o0.len(),
                i <= self.objects.len(),
                forall|p: usize|
                    p < i ==> #[trigger] live(self.objects@, p) == (live(o0, p) && m0.contains(p)),
                forall|p: usize|
                    i <= p < o0.len() ==> #[trigger] self.objects@[p as int] == o0[p as int],
                forall|p: usize|
                    p < i && live(self.objects@, p) ==> #[trigger] self.objects@[p as int] == Some(
                        GcObject { object: obj(o0, p), is_marked: false },
                    ),
                self.globals == old(self).globals,
                self.init_str_gc_ptr == old(self).init_str_gc_ptr,
                self.this_str_gc_ptr == old(self).this_str_gc_ptr,
                self.super_str_gc_ptr == old(self).super_str_gc_ptr,
                self.grays == old(self).grays,
                self.strings == st,
                m0 == marked_set(o0),
            decreases o0.len() - i,
        {
            let ghost prev = self.objects@;
            let keep = match &self.objects[i] {
                Some(o) => o.is_marked,
                None => false,
            };
            if keep {
                match &mut self.objects[i] {
                    Some(o) => {
                        o.is_marked = false;
                    },
                    None => {},
                }
            } else {
                self.objects.set(i, None);
            }
            proof {
                assert forall|p: usize| p < i + 1 implies #[trigger] live(self.objects@, p) == (live(o0, p) && m0.contains(p)) by {
                    if p < i {
                        assert(self.objects@[p as int] == prev[p as int]);
                    } else {
                        assert(prev[p as int] == o0[p as int]);
                        if keep {
                            assert(self.objects@[p as int] is Some);
                            assert(m0.contains(p));
                        } else {
                            assert(self.objects@[p as int] is None);
                            assert(!m0.contains(p));
                        }
                    }
                }
                assert forall|p: usize| p < i + 1 && live(self.objects@, p) implies #[trigger] self.objects@[p as int] == Some(
                        GcObject { object: obj(o0, p), is_marked: false },
                    ) by {
                    if p < i {
                        assert(self.objects@[p as int] == prev[p as int]);
                    } else {
                        assert(prev[p as int] == o0[p as int]);
                    }
                }
            }
            i = i + 1;
        }
        proof {
            let n = self.objects@;
            assert forall|p: usize| #[trigger] live(n, p) == (live(o0, p) && m0.contains(p)) by {}
            assert forall|p: usize| live(n, p) implies #[trigger] obj(n, p) == obj(o0, p) by {}
            assert forall|k: usize| #[trigger] text_at(n, k) == (if m0.contains(k) {
                text_at(o0, k)
            } else {
                None
            }) by {
                if k < n.len() && live(n, k) {
                    assert(obj(n, k) == obj(o0, k));
                }
            }
            lemma_hashes_dom(&old(self).strings);
            assert forall|k: usize| #[trigger]
                self.strings@.contains_key(k) == (text_at(n, k) is Some) by {
                assert(self.strings@.contains_key(k) == (old(self).strings@.contains_key(k)
                    && is_marked_at(o0, k as int)));
                if is_marked_at(o0, k as int) {
                    assert(m0.contains(k));
                }
                if m0.contains(k) {
                    assert(is_marked_at(o0, k as int));
                }
            }
            assert forall|k: usize|
                #[trigger] self.strings@.contains_key(k) implies self.strings.hashes()[k]
                    == spec_hash_string(text_at(n, k)->0) && string_hash_ok(n, k as int) by {
                assert(old(self).strings@.contains_key(k));
                assert(is_marked_at(o0, k as int));
                assert(m0.contains(k));
                assert(string_hash_ok(o0, k as int));
                assert(n[k as int] == Some(GcObject { object: obj(o0, k), is_marked: false }));
            }
            assert forall|p: usize, q: usize|
                live(n, p) && #[trigger] children(obj(n, p)).contains(q) implies live(n, q) by {
                assert(m0.contains(p));
                assert(children(obj(o0, p)).contains(q));
                assert(marked_set(o0).contains(p));
                assert(marked_set(o0).contains(q));
            }
            assert forall|a: usize, b: usize|
                #[trigger] text_at(n, a) is Some && text_at(n, a) == #[trigger] text_at(n, b)
                    implies a == b by {
                assert(text_at(o0, a) == text_at(n, a));
                assert(text_at(o0, b) == text_at(n, b));
            }
            assert forall|k: usize| #[trigger] self.globals@.contains_key(k) implies text_at(n, k) is Some
                && self.globals.hashes()[k] == spec_hash_string(text_at(n, k)->0) && all_live(
                n,
                value_refs(self.globals@[k]),
            ) by {
                assert(map_refs(self.globals@).contains(k));
                assert(old(self).heap_roots().contains(k));
                assert(m0.contains(k));
                assert forall|q: usize| value_refs(self.globals@[k]).contains(q) implies live(n, q) by {
                    assert(self.globals@[k] == ValueView::Reference(q));
                    assert(map_refs(self.globals@).contains(q));
                    assert(old(self).heap_roots().contains(q));
                }
            }
            assert(old(self).heap_roots().contains(self.init_str_gc_ptr.0));
            assert(old(self).heap_roots().contains(self.this_str_gc_ptr.0));
            assert(old(self).heap_roots().contains(self.super_str_gc_ptr.0));
            assert(self.grays@.len() == 0) by {
                assert(old(self).gray_seq().len() == old(self).grays@.len());
            }
        }
        proof {
            assert(marked_set(self.objs()) =~= Set::<usize>::empty());
        }
    }

    /// A full collection: marks what the heap and `roots` keep alive and
    /// everything reachable from there, then frees the rest. Afterwards the
    /// live objects are exactly those reachable from the roots, unchanged.
    pub fn collect_garbage(&mut self, roots: &Vec<GcPtr>)
        requires
            old(self).wf(),
            all_live(old(self).objs(), ptr_set(roots@)),
        ensures
            final(self).wf(),
            marked_set(final(self).objs()) == Set::<usize>::empty(),
            final(self).objs().len() == old(self).objs().len(),
            forall|p: usize|
                #[trigger] live(final(self).objs(), p) == (live(old(self).objs(), p) && reachable(
                    old(self).objs(),
                    old(self).heap_roots().union(ptr_set(roots@)),
                    p,
                )),
            forall|p: usize|
                live(final(self).objs(), p) ==> #[trigger] obj(final(self).objs(), p) == obj(
                    old(self).objs(),
                    p,
                ),
            final(self).globals_view() == old(self).globals_view(),
    {
        let ghost objs0 = self.objects@;
        let ghost r = self.heap_roots().union(ptr_set(roots@));
        proof {
            self.lemma_wf_gc_ok();
        }
        self.mark_roots();
        self.mark_ptrs(roots);
        let ghost m1 = marked_set(self.objects@);
        proof {
            assert(m1 =~= r);
            assert forall|p: usize, q: usize|
                #![trigger marked_set(self.objects@).contains(p), children(obj(self.objects@, p)).contains(q)]
                marked_set(self.objects@).contains(p) && !self.gray_seq().contains(p) && children(
                    obj(self.objects@, p),
                ).contains(q) implies marked_set(self.objects@).contains(q) by {
                assert(!marked_set(objs0).contains(p));
            }
            assert(self.black_ok());
        }
        let ghost objs1 = self.objects@;
        self.trace_references();
        let ghost objs2 = self.objects@;
        let ghost m2 = marked_set(objs2);
        proof {
            lemma_same_shape_trans(objs0, objs1, objs2);
            assert forall|q: usize| #[trigger] m2.contains(q) == reachable(objs0, r, q) by {
                if m2.contains(q) {
                    assert(reachable(objs1, m1, q));
                    lemma_reachable_shape(objs1, objs0, m1, q);
                }
                if reachable(objs0, r, q) {
                    let n = choose|n: nat| #[trigger] reach_n(objs0, r, n).contains(q);
                    lemma_reach_closed(objs0, r, m2, n);
                }
            }
            assert(self.heap_roots().subset_of(m2));
        }
        self.sweep();
        proof {
            assert forall|p: usize| #[trigger] live(self.objects@, p) == (live(objs0, p) && reachable(objs0, r, p)) by {
                assert(live(objs2, p) == live(objs0, p));
            }
            assert forall|p: usize| live(self.objects@, p) implies #[trigger] obj(self.objects@, p) == obj(objs0, p) by {
                assert(live(objs2, p));
            }
        }
    }
}


/// The slots listed.
pub open spec fn ptr_set(v: Seq<GcPtr>) -> Set<usize> {
    Set::new(|q: usize| exists|i: int| 0 <= i < v.len() && #[trigger] v[i].0 == q)
}

/// The live slots whose objects are marked.
pub open spec fn marked_set(objs: Seq<Option<GcObject>>) -> Set<usize> {
    Set::new(|p: usize| live(objs, p) && objs[p as int]->0.is_marked)
}

/// Two heaps hold the same objects in the same slots (marks aside).
pub open spec fn same_shape(a: Seq<Option<GcObject>>, b: Seq<Option<GcObject>>) -> bool {
    &&& a.len() == b.len()
    &&& forall|p: usize| #[trigger] live(a, p) == live(b, p)
    &&& forall|p: usize| live(a, p) ==> #[trigger] obj(a, p) == obj(b, p)
}

/// One step of tracing: the set and what its live members point to.
pub open spec fn step(objs: Seq<Option<GcObject>>, s: Set<usize>) -> Set<usize> {
    s.union(
        Set::new(
            |q: usize|
                exists|p: usize|
                    #![trigger s.contains(p), children(obj(objs, p)).contains(q)]
                    s.contains(p) && live(objs, p) && children(obj(objs, p)).contains(q),
        ),
    )
}

/// What `n` steps of tracing reach from `s`.
pub open spec fn reach_n(objs: Seq<Option<GcObject>>, s: Set<usize>, n: nat) -> Set<usize>
    decreases n,
{
    if n == 0 {
        s
    } else {
        step(objs, reach_n(objs, s, (n - 1) as nat))
    }
}

/// `q` is reachable from the set `s` by following pointers.
pub open spec fn reachable(objs: Seq<Option<GcObject>>, s: Set<usize>, q: usize) -> bool {
    exists|n: nat| #[trigger] reach_n(objs, s, n).contains(q)
}

/// The number of live unmarked objects.
pub open spec fn unmarked_count(objs: Seq<Option<GcObject>>) -> nat
    decreases objs.len(),
{
    if objs.len() == 0 {
        0
    } else {
        unmarked_count(objs.drop_last()) + if objs.last() is Some && !objs.last()->0.is_marked {
            1nat
        } else {
            0nat
        }
    }
}

pub proof fn lemma_unmarked_count_update(objs: Seq<Option<GcObject>>, i: int, o: GcObject)
    requires
        0 <= i < objs.len(),
        objs[i] is Some,
        !objs[i]->0.is_marked,
        o.is_marked,
    ensures
        unmarked_count(objs.update(i, Some(o))) + 1 == unmarked_count(objs),
    decreases objs.len(),
{
    let u = objs.update(i, Some(o));
    if i == objs.len() - 1 {
        assert(u.drop_last() =~= objs.drop_last());
    } else {
        lemma_unmarked_count_update(objs.drop_last(), i, o);
        assert(u.drop_last() =~= objs.drop_last().update(i, Some(o)));
    }
}

/// Marking an unmarked live slot takes one from the unmarked count.
pub proof fn lemma_unmarked_count_mark(objs: Seq<Option<GcObject>>, p: usize)
    requires
        live(objs, p),
        !objs[p as int]->0.is_marked,
    ensures
        unmarked_count(
            objs.update(p as int, Some(GcObject { object: obj(objs, p), is_marked: true })),
        ) + 1 == unmarked_count(objs),
{
    lemma_unmarked_count_update(objs, p as int, GcObject { object: obj(objs, p), is_marked: true });
}

/// Marking a slot keeps the shape.
pub proof fn lemma_mark_shape(objs: Seq<Option<GcObject>>, p: usize)
    requires
        live(objs, p),
    ensures
        same_shape(
            objs,
            objs.update(p as int, Some(GcObject { object: obj(objs, p), is_marked: true })),
        ),
{
}

pub proof fn lemma_same_shape_trans(
    a: Seq<Option<GcObject>>,
    b: Seq<Option<GcObject>>,
    c: Seq<Option<GcObject>>,
)
    requires
        same_shape(a, b),
        same_shape(b, c),
    ensures
        same_shape(a, c),
{
}

/// Tracing depends on the shape of the heap alone.
pub proof fn lemma_reach_n_shape(
    a: Seq<Option<GcObject>>,
    b: Seq<Option<GcObject>>,
    s: Set<usize>,
    n: nat,
)
    requires
        same_shape(a, b),
    ensures
        reach_n(a, s, n) == reach_n(b, s, n),
    decreases n,
{
    if n > 0 {
        lemma_reach_n_shape(a, b, s, (n - 1) as nat);
        let r = reach_n(a, s, (n - 1) as nat);
        assert forall|q: usize| #[trigger] step(a, r).contains(q) == step(b, r).contains(q) by {
            if step(a, r).contains(q) && !r.contains(q) {
                let p = choose|p: usize|
                    #![trigger r.contains(p), children(obj(a, p)).contains(q)]
                    r.contains(p) && live(a, p) && children(obj(a, p)).contains(q);
                assert(obj(a, p) == obj(b, p));
                assert(r.contains(p) && live(b, p) && children(obj(b, p)).contains(q));
            }
            if step(b, r).contains(q) && !r.contains(q) {
                let p = choose|p: usize|
                    #![trigger r.contains(p), children(obj(b, p)).contains(q)]
                    r.contains(p) && live(b, p) && children(obj(b, p)).contains(q);
                assert(live(a, p));
                assert(obj(a, p) == obj(b, p));
                assert(r.contains(p) && live(a, p) && children(obj(a, p)).contains(q));
            }
        }
        assert(step(a, r) =~= step(b, r));
    }
}

pub proof fn lemma_reachable_shape(
    a: Seq<Option<GcObject>>,
    b: Seq<Option<GcObject>>,
    s: Set<usize>,
    q: usize,
)
    requires
        same_shape(a, b),
        reachable(a, s, q),
    ensures
        reachable(b, s, q),
{
    let n = choose|n: nat| #[trigger] reach_n(a, s, n).contains(q);
    lemma_reach_n_shape(a, b, s, n);
    assert(reach_n(b, s, n).contains(q));
}

/// A child of a reachable live object is reachable.
pub proof fn lemma_reach_child(objs: Seq<Option<GcObject>>, s: Set<usize>, p: usize, q: usize)
    requires
        reachable(objs, s, p),
        live(objs, p),
        children(obj(objs, p)).contains(q),
    ensures
        reachable(objs, s, q),
{
    let n = choose|n: nat| #[trigger] reach_n(objs, s, n).contains(p);
    assert(reach_n(objs, s, n + 1) == step(objs, reach_n(objs, s, n)));
    assert(reach_n(objs, s, n + 1).contains(q));
}

/// A set that holds `s` and is closed under pointers holds all that tracing
/// reaches from `s`.
pub proof fn lemma_reach_closed(objs: Seq<Option<GcObject>>, s: Set<usize>, m: Set<usize>, n: nat)
    requires
        s.subset_of(m),
        forall|p: usize, q: usize|
            #![trigger m.contains(p), children(obj(objs, p)).contains(q)]
            m.contains(p) && live(objs, p) && children(obj(objs, p)).contains(q) ==> m.contains(q),
    ensures
        reach_n(objs, s, n).subset_of(m),
    decreases n,
{
    if n > 0 {
        lemma_reach_closed(objs, s, m, (n - 1) as nat);
    }
}

/// Taking the last element off a list without duplicates.
pub proof fn lemma_no_dup_pop(s: Seq<usize>)
    requires
        s.no_duplicates(),
        s.len() > 0,
    ensures
        s.drop_last().no_duplicates(),
        !s.drop_last().contains(s.last()),
{
    assert forall|i: int| 0 <= i < s.drop_last().len() implies s.drop_last()[i] != s.last() by {
        assert(s[i] == s.drop_last()[i]);
    }
}

pub proof fn lemma_ptr_set_extend(v: Seq<GcPtr>, i: int)
    requires
        0 <= i < v.len(),
    ensures
        ptr_set(v.subrange(0, i + 1)) =~= ptr_set(v.subrange(0, i)).insert(v[i].0),
{
    assert forall|q: usize| #[trigger] ptr_set(v.subrange(0, i + 1)).contains(q)
        == ptr_set(v.subrange(0, i)).insert(v[i].0).contains(q) by {
        if ptr_set(v.subrange(0, i + 1)).contains(q) {
            let j = choose|j: int|
                0 <= j < v.subrange(0, i + 1).len() && #[trigger] v.subrange(0, i + 1)[j].0 == q;
            if j < i {
                assert(v.subrange(0, i)[j].0 == q);
            }
        }
        if ptr_set(v.subrange(0, i)).contains(q) {
            let j = choose|j: int| 0 <= j < v.subrange(0, i).len() && #[trigger] v.subrange(0, i)[j].0 == q;
            assert(v.subrange(0, i + 1)[j].0 == q);
        }
        if q == v[i].0 {
            assert(v.subrange(0, i + 1)[i].0 == q);
        }
    }
}

/// Two heaps of the same shape and the same tables satisfy the same core
/// invariant.
proof fn lemma_shape_core(a: &Heap, b: &Heap)
    requires
        a.core_ok(),
        a.names_ok(),
        same_shape(a.objects@, b.objects@),
        a.globals == b.globals,
        a.strings == b.strings,
        a.init_str_gc_ptr == b.init_str_gc_ptr,
        a.this_str_gc_ptr == b.this_str_gc_ptr,
        a.super_str_gc_ptr == b.super_str_gc_ptr,
    ensures
        b.core_ok(),
        b.names_ok(),
{
    assert forall|k: usize| #[trigger] text_at(b.objects@, k) == text_at(a.objects@, k) by {
        if live(a.objects@, k) {
            assert(obj(a.objects@, k) == obj(b.objects@, k));
        }
    }
    assert forall|k: usize| #[trigger] string_hash_ok(b.objects@, k as int) == string_hash_ok(a.objects@, k as int) by {
        if live(a.objects@, k) {
            assert(obj(a.objects@, k) == obj(b.objects@, k));
        }
    }
    assert forall|p: usize, q: usize|
        live(b.objects@, p) && #[trigger] children(obj(b.objects@, p)).contains(q) implies live(b.objects@, q) by {
        assert(obj(a.objects@, p) == obj(b.objects@, p));
    }
    assert forall|p: usize| live(b.objects@, p) implies tables_ok(#[trigger] obj(b.objects@, p)) by {
        assert(obj(a.objects@, p) == obj(b.objects@, p));
    }
    assert forall|a2: usize, b2: usize|
        #[trigger] text_at(b.objects@, a2) is Some && text_at(b.objects@, a2) == #[trigger] text_at(b.objects@, b2)
            implies a2 == b2 by {
        assert(text_at(a.objects@, a2) == text_at(b.objects@, a2));
        assert(text_at(a.objects@, b2) == text_at(b.objects@, b2));
    }
}

/// The slots that an object points to, as a list.
pub fn children_of(o: &HeapObject) -> (res: Vec<GcPtr>)
    requires
        tables_ok(*o),
    ensures
        ptr_set(res@) == children(*o),
{
    let mut out: Vec<GcPtr> = Vec::new();
    proof {
        assert(ptr_set(out@) =~= Set::<usize>::empty());
    }
    match o {
        HeapObject::HeapBoundMethod(b) => {
            push_value_ref(&mut out, &b.receiver);
            push_ptr(&mut out, b.method_gc_ptr);
            proof {
                assert(ptr_set(out@) =~= children(*o));
            }
        },
        HeapObject::HeapClass(c) => {
            push_table_refs(&mut out, &c.methods);
            push_ptr(&mut out, c.name_gc_ptr);
            proof {
                assert(ptr_set(out@) =~= children(*o));
            }
        },
        HeapObject::HeapClosure(c) => {
            push_ptr(&mut out, c.function_gc_ptr);
            let mut i: usize = 0;
            while i < c.upvalues.len()
                invariant
                    i <= c.upvalues.len(),
                    ptr_set(out@) == Set::new(
                        |p: usize|
                            p == c.function_gc_ptr.0 || exists|j: int|
                                0 <= j < i && #[trigger] c.upvalues@[j] == Some(GcPtr(p)),
                    ),
                decreases c.upvalues.len() - i,
            {
                let ghost before = ptr_set(out@);
                match c.upvalues[i] {
                    Some(u) => {
                        push_ptr(&mut out, u);
                    },
                    None => {},
                }
                proof {
                    let target = Set::new(
                        |p: usize|
                            p == c.function_gc_ptr.0 || exists|j: int|
                                0 <= j < i + 1 && #[trigger] c.upvalues@[j] == Some(GcPtr(p)),
                    );
                    assert forall|p: usize| #[trigger] ptr_set(out@).contains(p) == target.contains(p) by {
                        if target.contains(p) && p != c.function_gc_ptr.0 {
                            let j = choose|j: int| 0 <= j < i + 1 && #[trigger] c.upvalues@[j] == Some(GcPtr(p));
                            if j < i {
                                assert(before.contains(p));
                            }
                        }
                    }
                    assert(ptr_set(out@) =~= target);
                }
                i = i + 1;
            }
            proof {
                assert(ptr_set(out@) =~= children(*o));
            }
        },
        HeapObject::HeapFunction(f) => {
            push_array_refs(&mut out, &f.chunk().constants);
            match f {
                FunctionObj::UserDefined { name_gc_ptr, .. } => {
                    push_ptr(&mut out, *name_gc_ptr);
                },
                FunctionObj::MainScript { .. } => {},
            }
            proof {
                assert(ptr_set(out@) =~= children(*o));
            }
        },
        HeapObject::HeapNativeFn(_) => {},
        HeapObject::HeapObjInstance(i) => {
            push_table_refs(&mut out, &i.fields);
            push_ptr(&mut out, i.class_gc_ptr);
            proof {
                assert(ptr_set(out@) =~= children(*o));
            }
        },
        HeapObject::HeapString(_) => {},
        HeapObject::HeapUpvalue(u) => {
            push_value_ref(&mut out, &u.closed_value);
            proof {
                assert(ptr_set(out@) =~= children(*o));
            }
        },
    }
    out
}

/// The slots that a function points to, as a list.
pub fn children_of_function(f: &FunctionObj) -> (res: Vec<GcPtr>)
    ensures
        ptr_set(res@) == children(HeapObject::HeapFunction(*f)),
{
    let mut out: Vec<GcPtr> = Vec::new();
    proof {
        assert(ptr_set(out@) =~= Set::<usize>::empty());
    }
    push_array_refs(&mut out, &f.chunk().constants);
    match f {
        FunctionObj::UserDefined { name_gc_ptr, .. } => {
            push_ptr(&mut out, *name_gc_ptr);
        },
        FunctionObj::MainScript { .. } => {},
    }
    proof {
        assert(ptr_set(out@) =~= children(HeapObject::HeapFunction(*f)));
    }
    out
}

/// Appends a list of slots to another.
pub fn append_ptrs(out: &mut Vec<GcPtr>, more: &Vec<GcPtr>)
    ensures
        ptr_set(final(out)@) == ptr_set(old(out)@).union(ptr_set(more@)),
{
    let mut i: usize = 0;
    while i < more.len()
        invariant
            i <= more.len(),
            ptr_set(out@) == ptr_set(old(out)@).union(ptr_set(more@.subrange(0, i as int))),
        decreases more.len() - i,
    {
        let ghost before = out@;
        push_ptr(out, more[i]);
        proof {
            lemma_ptr_set_extend(more@, i as int);
            assert(ptr_set(out@) =~= ptr_set(old(out)@).union(ptr_set(more@.subrange(0, i + 1))));
        }
        i = i + 1;
    }
    assert(more@.subrange(0, more.len() as int) =~= more@);
}

/// Appends one slot to a list of slots.
fn push_ptr(out: &mut Vec<GcPtr>, g: GcPtr)
    ensures
        final(out)@ == old(out)@.push(g),
        ptr_set(final(out)@) == ptr_set(old(out)@).insert(g.0),
{
    out.push(g);
    proof {
        lemma_ptr_set_push(old(out)@, g);
    }
}

/// Appends the slot that a value refers to, if any.
fn push_value_ref(out: &mut Vec<GcPtr>, v: &Value)
    ensures
        ptr_set(final(out)@) == ptr_set(old(out)@).union(value_refs(v@)),
{
    match v {
        Value::Reference(p) => {
            push_ptr(out, *p);
            proof {
                assert(ptr_set(out@) =~= ptr_set(old(out)@).union(value_refs(v@)));
            }
        },
        _ => {
            proof {
                assert(ptr_set(out@) =~= ptr_set(old(out)@).union(value_refs(v@)));
            }
        },
    }
}

/// Appends the keys of a table and the slots that its values refer to.
fn push_table_refs(out: &mut Vec<GcPtr>, table: &HashTable)
    requires
        table.wf(),
    ensures
        ptr_set(final(out)@) == ptr_set(old(out)@).union(map_refs(table@)),
{
    let entries = table.entries();
    let mut i: usize = 0;
    while i < entries.len()
        invariant
            i <= entries.len(),
            forall|m: int|
                0 <= m < entries.len() ==> table@.contains_key((#[trigger] entries@[m]).0.0)
                    && entries@[m].2@ == table@[entries@[m].0.0],
            forall|k: usize|
                table@.contains_key(k) ==> exists|m: int|
                    0 <= m < entries.len() && (#[trigger] entries@[m]).0.0 == k,
            ptr_set(out@) == ptr_set(old(out)@).union(
                Set::new(
                    |q: usize|
                        exists|m: int|
                            0 <= m < i && (#[trigger] entries@[m].0.0 == q || entries@[m].2@
                                == ValueView::Reference(q)),
                ),
            ),
        decreases entries.len() - i,
    {
        let ghost before = ptr_set(out@);
        push_ptr(out, entries[i].0);
        push_value_ref(out, &entries[i].2);
        proof {
            let done = Set::new(
                |q: usize|
                    exists|m: int|
                        0 <= m < i && (#[trigger] entries@[m].0.0 == q || entries@[m].2@
                            == ValueView::Reference(q)),
            );
            let target = Set::new(
                |q: usize|
                    exists|m: int|
                        0 <= m < i + 1 && (#[trigger] entries@[m].0.0 == q || entries@[m].2@
                            == ValueView::Reference(q)),
            );
            assert forall|q: usize| #[trigger] ptr_set(out@).contains(q) == ptr_set(old(out)@).union(target).contains(q) by {
                if done.contains(q) {
                    let m = choose|m: int|
                        0 <= m < i && (#[trigger] entries@[m].0.0 == q || entries@[m].2@
                            == ValueView::Reference(q));
                    assert(target.contains(q));
                }
                if target.contains(q) {
                    let m = choose|m: int|
                        0 <= m < i + 1 && (#[trigger] entries@[m].0.0 == q || entries@[m].2@
                            == ValueView::Reference(q));
                    if m < i {
                        assert(done.contains(q));
                    } else if entries@[m].2@ == ValueView::Reference(q) {
                        assert(value_refs(entries@[i as int].2@).contains(q));
                    }
                }
                if q == entries@[i as int].0.0 {
                    assert(target.contains(q));
                }
                if value_refs(entries@[i as int].2@).contains(q) {
                    assert(entries@[i as int].2@ == ValueView::Reference(q));
                    assert(target.contains(q));
                }
            }
            assert(ptr_set(out@) =~= ptr_set(old(out)@).union(target));
        }
        i = i + 1;
    }
    proof {
        let done = Set::new(
            |q: usize|
                exists|m: int|
                    0 <= m < entries.len() && (#[trigger] entries@[m].0.0 == q || entries@[m].2@
                        == ValueView::Reference(q)),
        );
        assert forall|q: usize| #[trigger] done.contains(q) == map_refs(table@).contains(q) by {
            if done.contains(q) {
                let m = choose|m: int|
                    0 <= m < entries.len() && (#[trigger] entries@[m].0.0 == q || entries@[m].2@
                        == ValueView::Reference(q));
                if entries@[m].0.0 != q {
                    assert(table@[entries@[m].0.0] == ValueView::Reference(q));
                }
            }
            if map_refs(table@).contains(q) {
                if table@.contains_key(q) {
                    let m = choose|m: int| 0 <= m < entries.len() && (#[trigger] entries@[m]).0.0 == q;
                    assert(entries@[m].0.0 == q);
                } else {
                    let k = choose|k: usize| table@.contains_key(k) && #[trigger] table@[k] == ValueView::Reference(q);
                    let m = choose|m: int| 0 <= m < entries.len() && (#[trigger] entries@[m]).0.0 == k;
                    assert(entries@[m].2@ == ValueView::Reference(q));
                }
            }
        }
        assert(done =~= map_refs(table@));
    }
}

/// Appends the slots that the values of an array refer to.
fn push_array_refs(out: &mut Vec<GcPtr>, values: &ValueArray)
    ensures
        ptr_set(final(out)@) == ptr_set(old(out)@).union(seq_refs(values@)),
{
    let mut i: usize = 0;
    while i < values.count()
        invariant
            i <= values@.len(),
            ptr_set(out@) == ptr_set(old(out)@).union(seq_refs(values@.subrange(0, i as int))),
        decreases values@.len() - i,
    {
        let ghost before = ptr_set(out@);
        push_value_ref(out, values.get(i));
        proof {
            let s0 = values@.subrange(0, i as int);
            let s1 = values@.subrange(0, i + 1);
            assert forall|q: usize| #[trigger] seq_refs(s1).contains(q) == seq_refs(s0).union(value_refs(values@[i as int])).contains(q) by {
                if seq_refs(s1).contains(q) {
                    let j = choose|j: int| 0 <= j < s1.len() && #[trigger] s1[j] == ValueView::Reference(q);
                    if j < i {
                        assert(s0[j] == ValueView::Reference(q));
                    }
                }
                if seq_refs(s0).contains(q) {
                    let j = choose|j: int| 0 <= j < s0.len() && #[trigger] s0[j] == ValueView::Reference(q);
                    assert(s1[j] == ValueView::Reference(q));
                }
                if value_refs(values@[i as int]).contains(q) {
                    assert(s1[i as int] == ValueView::Reference(q));
                }
            }
            assert(seq_refs(s1) =~= seq_refs(s0).union(value_refs(values@[i as int])));
            assert(ptr_set(out@) =~= ptr_set(old(out)@).union(seq_refs(s1)));
        }
        i = i + 1;
    }
    assert(values@.subrange(0, values@.len() as int) =~= values@);
}

/// Appending a slot adds it to the set of slots listed.
pub proof fn lemma_ptr_set_push(v: Seq<GcPtr>, g: GcPtr)
    ensures
        ptr_set(v.push(g)) =~= ptr_set(v).insert(g.0),
{
    assert forall|q: usize| #[trigger] ptr_set(v.push(g)).contains(q) == ptr_set(v).insert(g.0).contains(q) by {
        if ptr_set(v.push(g)).contains(q) {
            let j = choose|j: int| 0 <= j < v.push(g).len() && #[trigger] v.push(g)[j].0 == q;
            if j < v.len() {
                assert(v[j].0 == q);
            }
        }
        if ptr_set(v).contains(q) {
            let j = choose|j: int| 0 <= j < v.len() && #[trigger] v[j].0 == q;
            assert(v.push(g)[j].0 == q);
        }
        if q == g.0 {
            assert(v.push(g)[v.len() as int].0 == q);
        }
    }
}

/// Appending a value to a run adds what the value refers to.
pub proof fn lemma_seq_refs_push(s: Seq<ValueView>, v: ValueView)
    ensures
        seq_refs(s.push(v)) =~= seq_refs(s).union(value_refs(v)),
{
    assert forall|q: usize| #[trigger] seq_refs(s.push(v)).contains(q) == seq_refs(s).union(value_refs(v)).contains(q) by {
        if seq_refs(s.push(v)).contains(q) {
            let j = choose|j: int| 0 <= j < s.push(v).len() && #[trigger] s.push(v)[j] == ValueView::Reference(q);
            if j < s.len() {
                assert(s[j] == ValueView::Reference(q));
            }
        }
        if seq_refs(s).contains(q) {
            let j = choose|j: int| 0 <= j < s.len() && #[trigger] s[j] == ValueView::Reference(q);
            assert(s.push(v)[j] == ValueView::Reference(q));
        }
        if value_refs(v).contains(q) {
            assert(s.push(v)[s.len() as int] == ValueView::Reference(q));
        }
    }
}

/// What is live in a heap stays live when the heap only grows.
pub proof fn lemma_all_live_grow(a: Seq<Option<GcObject>>, b: Seq<Option<GcObject>>, s: Set<usize>)
    requires
        a.len() <= b.len(),
        b.subrange(0, a.len() as int) == a,
        all_live(a, s),
    ensures
        all_live(b, s),
{
    assert forall|q: usize| s.contains(q) implies live(b, q) by {
        assert(b.subrange(0, a.len() as int)[q as int] == a[q as int]);
    }
}

/// Pushing a slot keeps every earlier slot as it was.
pub proof fn lemma_push_preserves(objs: Seq<Option<GcObject>>, o: GcObject)
    requires
        objs.len() < usize::MAX,
    ensures
        forall|k: usize|
            k < objs.len() ==> #[trigger] text_at(objs.push(Some(o)), k) == text_at(objs, k),
        forall|k: usize| k >= objs.len() + 1 ==> #[trigger] text_at(objs.push(Some(o)), k) is None,
        forall|k: usize| k >= objs.len() ==> #[trigger] text_at(objs, k) is None,
        forall|k: usize|
            k < objs.len() ==> #[trigger] live(objs.push(Some(o)), k) == live(objs, k) && obj(
                objs.push(Some(o)),
                k,
            ) == obj(objs, k),
        live(objs.push(Some(o)), objs.len() as usize),
        obj(objs.push(Some(o)), objs.len() as usize) == o.object,
{
    let n = objs.push(Some(o));
    assert forall|k: usize| k < objs.len() implies #[trigger] text_at(n, k) == text_at(objs, k) by {
        assert(n[k as int] == objs[k as int]);
    }
    assert forall|k: usize| k < objs.len() implies #[trigger] live(n, k) == live(objs, k) && obj(
        n,
        k,
    ) == obj(objs, k) by {
        assert(n[k as int] == objs[k as int]);
    }
}

/// The stack slot and the next upvalue of the open upvalue in slot `p`, if
/// `p` holds one whose stack slot is at least `from` and below `n`.
pub open spec fn open_upvalue_at(objs: Seq<Option<GcObject>>, p: usize, from: usize, n: nat) -> Option<
    (usize, Option<GcPtr>),
> {
    if live(objs, p) {
        match obj(objs, p) {
            HeapObject::HeapUpvalue(u) => match u.slot {
                UpvalueSlot::Stack(i) => if from <= i && i < n {
                    Some((i, u.next_gc_opt))
                } else {
                    None
                },
                UpvalueSlot::Closed => None,
            },
            _ => None,
        }
    } else {
        None
    }
}

/// The walk along the list of open upvalues from `head`: after the slots
/// `seen`, each slot passed while it holds an open upvalue at or above
/// `from` that was not passed before; and where the walk stops.
pub open spec fn upvalue_run(
    objs: Seq<Option<GcObject>>,
    head: Option<GcPtr>,
    from: usize,
    n: nat,
    seen: Seq<usize>,
    fuel: nat,
) -> (Seq<usize>, Option<GcPtr>)
    decreases fuel,
{
    match head {
        Some(p) => if fuel > 0 && !seen.contains(p.0) && open_upvalue_at(objs, p.0, from, n) is Some {
            let (_, next) = open_upvalue_at(objs, p.0, from, n)->0;
            upvalue_run(objs, next, from, n, seen.push(p.0), (fuel - 1) as nat)
        } else {
            (seen, head)
        },
        None => (seen, head),
    }
}

/// The upvalues that closing the stack from slot `from` on closes, in the
/// order of the list, and the new head of the list.
pub open spec fn closing_run(objs: Seq<Option<GcObject>>, head: Option<GcPtr>, from: usize, n: nat) -> (
    Seq<usize>,
    Option<GcPtr>,
) {
    upvalue_run(objs, head, from, n, Seq::empty(), objs.len() as nat)
}

/// Slot `p` of `after` holds the upvalue of slot `p` of `before` closed:
/// it keeps the value that was in its stack slot and its place in the list.
pub open spec fn closed_upvalue(
    after: Seq<Option<GcObject>>,
    before: Seq<Option<GcObject>>,
    p: usize,
    stack: Seq<Value>,
) -> bool {
    let (i, next) = open_upvalue_at(before, p, 0, stack.len())->0;
    &&& live(after, p)
    &&& !after[p as int]->0.is_marked
    &&& obj(after, p) matches HeapObject::HeapUpvalue(u)
    &&& u.slot == UpvalueSlot::Closed
    &&& u.next_gc_opt == next
    &&& u.closed_value@ == stack[i as int]@
}

/// A list of distinct slots below `bound` is no longer than `bound`.
pub proof fn lemma_distinct_below(s: Seq<usize>, bound: nat)
    requires
        s.no_duplicates(),
        forall|i: int| 0 <= i < s.len() ==> s[i] < bound,
    ensures
        s.len() <= bound,
{
    let m = s.map_values(|x: usize| x as int);
    assert forall|i: int, j: int| 0 <= i < m.len() && 0 <= j < m.len() && i != j implies m[i] != m[j] by {
        assert(s[i] != s[j]);
    }
    assert(m.no_duplicates());
    m.unique_seq_to_set();
    vstd::set_lib::lemma_int_range(0, bound as int);
    assert forall|x: int| m.to_set().contains(x) implies vstd::set_lib::set_int_range(0, bound as int).contains(x) by {
        let i = choose|i: int| 0 <= i < m.len() && m[i] == x;
        assert(s[i] < bound);
    }
    vstd::set_lib::lemma_len_subset(m.to_set(), vstd::set_lib::set_int_range(0, bound as int));
}

impl Heap {
    /// The first upvalue of the list of open upvalues.
    pub closed spec fn open_head(&self) -> Option<GcPtr> {
        self.head_open_upvalue_gc_opt
    }

    /// The first upvalue of the list of open upvalues.
    pub fn first_open_upvalue(&self) -> (res: Option<GcPtr>)
        ensures
            res == self.open_head(),
    {
        self.head_open_upvalue_gc_opt
    }

    /// Replaces the upvalue in slot `p` by `u`.
    fn replace_upvalue(&mut self, p: GcPtr, u: UpvalueObj)
        requires
            old(self).wf(),
            live(old(self).objs(), p.0),
            obj(old(self).objs(), p.0) is HeapUpvalue,
            all_live(old(self).objs(), children(HeapObject::HeapUpvalue(u))),
        ensures
            final(self).wf(),
            final(self).objs() == old(self).objs().update(
                p.0 as int,
                Some(GcObject { object: HeapObject::HeapUpvalue(u), is_marked: false }),
            ),
            final(self).globals_view() == old(self).globals_view(),
            final(self).head_open_upvalue_gc_opt == old(self).head_open_upvalue_gc_opt,
    {
        let ghost o0 = self.objects@;
        self.objects.set(p.0, Some(GcObject { object: HeapObject::HeapUpvalue(u), is_marked: false }));
        proof {
            let o1 = self.objects@;
            assert forall|q: usize| #[trigger] live(o1, q) == live(o0, q) by {}
            assert forall|k: usize| #[trigger] text_at(o1, k) == text_at(o0, k) by {
                if k == p.0 {
                    assert(obj(o0, p.0) is HeapUpvalue);
                }
            }
            assert forall|k: int| #[trigger] string_hash_ok(o1, k) == string_hash_ok(o0, k) by {
                if k == p.0 {
                    assert(obj(o0, p.0) is HeapUpvalue);
                }
            }
            assert forall|a: usize, b: usize|
                live(o1, a) && #[trigger] children(obj(o1, a)).contains(b) implies live(o1, b) by {
                assert(live(o1, b) == live(o0, b));
                if a != p.0 {
                    assert(o1[a as int] == o0[a as int]);
                    assert(obj(o1, a) == obj(o0, a));
                    assert(live(o0, a));
                    assert(closed_under_children(o0));
                    assert(live(o0, b));
                } else {
                    assert(obj(o1, a) == HeapObject::HeapUpvalue(u));
                    assert(all_live(o0, children(HeapObject::HeapUpvalue(u))));
                    assert(live(o0, b));
                }
            }
            assert forall|q: usize| live(o1, q) implies tables_ok(#[trigger] obj(o1, q)) by {
                if q != p.0 {
                    assert(o1[q as int] == o0[q as int]);
                    assert(obj(o1, q) == obj(o0, q));
                    assert(live(o0, q));
                    assert(tables_ok(obj(o0, q)));
                } else {
                    assert(obj(o1, q) == HeapObject::HeapUpvalue(u));
                }
            }
            assert forall|q: usize| live(o1, q) implies !(#[trigger] o1[q as int])->0.is_marked by {
                if q != p.0 {
                    assert(o1[q as int] == o0[q as int]);
                }
            }
            assert forall|a: usize, b: usize|
                #[trigger] text_at(o1, a) is Some && text_at(o1, a) == #[trigger] text_at(o1, b) implies a == b by {
                assert(text_at(o0, a) == text_at(o1, a));
                assert(text_at(o0, b) == text_at(o1, b));
            }
            assert forall|k: usize| #[trigger] self.globals@.contains_key(k) implies all_live(o1, value_refs(self.globals@[k])) by {
                assert(all_live(o0, value_refs(self.globals@[k])));
            }
        }
    }

    /// Closes the open upvalues at the head of the list whose stack slot is
    /// `from` or above: each takes the value in its stack slot and leaves the
    /// list, which then begins after them. Stops at the first upvalue of the
    /// list below `from`, or one that is not an open upvalue of the stack.
    pub fn close_upvalues(&mut self, stack: &Vec<Value>, from: usize)
        requires
            old(self).wf(),
            forall|i: int| 0 <= i < stack@.len() ==> all_live(old(self).objs(), value_refs(#[trigger] stack@[i]@)),
        ensures
            final(self).wf(),
            final(self).objs().len() == old(self).objs().len(),
            final(self).globals_view() == old(self).globals_view(),
            ({
                let (run, new_head) = closing_run(old(self).objs(), old(self).open_head(), from, stack@.len());
                &&& final(self).open_head() == new_head
                &&& forall|k: usize|
                    k < old(self).objs().len() && !run.contains(k) ==> #[trigger] final(self).objs()[k as int]
                        == old(self).objs()[k as int]
                &&& forall|j: int| 0 <= j < run.len() ==> closed_upvalue(final(self).objs(), old(self).objs(), #[trigger] run[j], stack@)
            }),
    {
        let ghost o0 = self.objects@;
        let ghost h0 = self.head_open_upvalue_gc_opt;
        let ghost len0 = o0.len();
        let ghost n = stack@.len();
        let ghost mut run: Seq<usize> = Seq::empty();
        loop
            invariant
                self.wf(),
                self.objs().len() == len0,
                o0 == old(self).objs(),
                h0 == old(self).head_open_upvalue_gc_opt,
                n == stack@.len(),
                self.globals_view() == old(self).globals_view(),
                forall|q: usize| #[trigger] live(self.objs(), q) == live(o0, q),
                forall|i: int| 0 <= i < stack@.len() ==> all_live(o0, value_refs(#[trigger] stack@[i]@)),
                run.len() <= len0,
                run.no_duplicates(),
                forall|j: int| 0 <= j < run.len() ==> #[trigger] run[j] < len0,
                closing_run(o0, h0, from, n) == upvalue_run(o0, self.head_open_upvalue_gc_opt, from, n, run, (len0 - run.len()) as nat),
                forall|k: usize| k < len0 && !run.contains(k) ==> #[trigger] self.objs()[k as int] == o0[k as int],
                forall|j: int| 0 <= j < run.len() ==> closed_upvalue(self.objs(), o0, #[trigger] run[j], stack@),
                forall|j: int| 0 <= j < run.len() ==> open_upvalue_at(o0, #[trigger] run[j], from, n) is Some,
            ensures
                self.wf(),
                self.objs().len() == len0,
                self.globals_view() == old(self).globals_view(),
                closing_run(o0, h0, from, n) == (run, self.head_open_upvalue_gc_opt),
                forall|k: usize| k < len0 && !run.contains(k) ==> #[trigger] self.objs()[k as int] == o0[k as int],
                forall|j: int| 0 <= j < run.len() ==> closed_upvalue(self.objs(), o0, #[trigger] run[j], stack@),
            decreases len0 - run.len(),
        {
            let p = match self.head_open_upvalue_gc_opt {
                Some(p) => p,
                None => {
                    break;
                },
            };
            let ghost fuel = (len0 - run.len()) as nat;
            if !self.is_live(p) {
                proof {
                    if !run.contains(p.0) {
                        assert(open_upvalue_at(o0, p.0, from, n) is None);
                    }
                }
                break;
            }
            let ghost in_run = run.contains(p.0);
            proof {
                if in_run {
                    let j = choose|j: int| 0 <= j < run.len() && run[j] == p.0;
                    assert(closed_upvalue(self.objs(), o0, run[j], stack@));
                } else {
                    assert(self.objs()[p.0 as int] == o0[p.0 as int]);
                }
            }
            let (i, next) = match self.object(p) {
                HeapObject::HeapUpvalue(u) => match u.slot {
                    UpvalueSlot::Stack(i) => {
                        if from <= i && i < stack.len() {
                            (i, u.next_gc_opt)
                        } else {
                            break;
                        }
                    },
                    UpvalueSlot::Closed => {
                        break;
                    },
                },
                _ => {
                    break;
                },
            };
            proof {
                assert(!in_run);
                assert(open_upvalue_at(o0, p.0, from, n) == Some((i, next)));
                assert(run.push(p.0).no_duplicates()) by {
                    assert forall|a: int, b: int| 0 <= a < b < run.push(p.0).len() implies run.push(p.0)[a] != run.push(p.0)[b] by {
                        if b == run.len() {
                            assert(run.push(p.0)[a] == run[a]);
                        }
                    }
                }
                lemma_distinct_below(run.push(p.0), len0 as nat);
                assert(fuel > 0);
                assert(open_upvalue_at(o0, p.0, 0, n) == Some((i, next)));
            }
            let v = stack[i].duplicate();
            proof {
                assert(all_live(o0, value_refs(stack@[i as int]@)));
                assert(children(HeapObject::HeapUpvalue(UpvalueObj { closed_value: v, next_gc_opt: next, slot: UpvalueSlot::Closed })) =~= value_refs(v@));
            }
            let ghost before = self.objs();
            self.replace_upvalue(p, UpvalueObj { closed_value: v, next_gc_opt: next, slot: UpvalueSlot::Closed });
            self.head_open_upvalue_gc_opt = next;
            proof {
                assert forall|q: usize| #[trigger] live(self.objs(), q) == live(o0, q) by {
                    assert(live(before, q) == live(o0, q));
                }
                let old_run = run;
                run = run.push(p.0);
                assert forall|j: int| 0 <= j < run.len() implies closed_upvalue(self.objs(), o0, #[trigger] run[j], stack@) by {
                    if j < old_run.len() {
                        assert(run[j] == old_run[j]);
                        assert(old_run[j] != p.0);
                        assert(self.objs()[run[j] as int] == before[run[j] as int]);
                        assert(closed_upvalue(before, o0, old_run[j], stack@));
                    }
                }
                assert forall|j: int| 0 <= j < run.len() implies open_upvalue_at(o0, #[trigger] run[j], from, n) is Some by {
                    if j < old_run.len() {
                        assert(run[j] == old_run[j]);
                    }
                }
                assert forall|k: usize| k < len0 && !run.contains(k) implies #[trigger] self.objs()[k as int] == o0[k as int] by {
                    assert(!old_run.contains(k)) by {
                        if old_run.contains(k) {
                            let j = choose|j: int| 0 <= j < old_run.len() && old_run[j] == k;
                            assert(run[j] == k);
                        }
                    }
                    assert(k != p.0) by {
                        assert(run[old_run.len() as int] == p.0);
                    }
                }
                assert forall|j: int| 0 <= j < run.len() implies #[trigger] run[j] < len0 by {
                    if j < old_run.len() {
                        assert(run[j] == old_run[j]);
                    }
                }
            }
        }
    }
}

} // verus!

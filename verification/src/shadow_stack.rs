use vstd::prelude::*;

verus! {

/// What kind of value sits in a slot of the WebAssembly value stack, as far
/// as the code generator knows it.
#[derive(Clone, Copy, Debug, PartialEq, Eq, Structural)]
pub enum StackValueType {
    Boolean,
    BoundMethod,
    Class,
    Closure,
    NativeFn,
    Nil,
    Number,
    Object,
    Raw,
    String,
    Upvalue,
    TypeTag,
    Any,
}

/// The kinds of the values that the generated code leaves on the stack,
/// bottom first.
pub struct ShadowStack {
    stack: Vec<StackValueType>,
}

impl View for ShadowStack {
    type V = Seq<StackValueType>;

    closed spec fn view(&self) -> Seq<StackValueType> {
        self.stack@
    }
}

/// The kind `n` places below the top, if there is one.
pub open spec fn spec_peek(s: Seq<StackValueType>, n: int) -> Option<StackValueType> {
    if 0 <= n < s.len() {
        Some(s[s.len() - 1 - n])
    } else {
        None
    }
}

impl ShadowStack {
    /// An empty stack.
    pub fn new() -> (res: ShadowStack)
        ensures
            res@ == Seq::<StackValueType>::empty(),
    {
        ShadowStack { stack: Vec::new() }
    }

    /// Whether nothing is on the stack.
    pub fn is_empty(&self) -> (res: bool)
        ensures
            res == (self@.len() == 0),
    {
        self.stack.len() == 0
    }

    /// The kind `n` places below the top.
    pub fn peek(&self, n: usize) -> (res: Option<StackValueType>)
        requires
            n < self@.len(),
        ensures
            res == spec_peek(self@, n as int),
    {
        let len = self.stack.len();
        Some(self.stack[len - 1 - n])
    }

    /// Whether the value `n` places below the top is a type tag.
    pub fn peek_any(&self, n: usize) -> (res: bool)
        requires
            n < self@.len(),
        ensures
            res == (spec_peek(self@, n as int) == Some(StackValueType::TypeTag)),
    {
        self.peek(n) == Some(StackValueType::TypeTag)
    }

    /// Whether the value `n` places below the top is a boolean.
    pub fn peek_boolean(&self, n: usize) -> (res: bool)
        requires
            n < self@.len(),
        ensures
            res == (spec_peek(self@, n as int) == Some(StackValueType::Boolean)),
    {
        self.peek(n) == Some(StackValueType::Boolean)
    }

    /// Whether the value `n` places below the top is nil.
    pub fn peek_nil(&self, n: usize) -> (res: bool)
        requires
            n < self@.len(),
        ensures
            res == (spec_peek(self@, n as int) == Some(StackValueType::Nil)),
    {
        self.peek(n) == Some(StackValueType::Nil)
    }

    /// Whether the value `n` places below the top is a number.
    pub fn peek_number(&self, n: usize) -> (res: bool)
        requires
            n < self@.len(),
        ensures
            res == (spec_peek(self@, n as int) == Some(StackValueType::Number)),
    {
        self.peek(n) == Some(StackValueType::Number)
    }

    /// Whether the value `n` places below the top is a string. Strings are
    /// not generated yet, so no slot ever holds one.
    pub fn peek_string(&self, n: usize) -> (res: bool)
        ensures
            !res,
    {
        false
    }

    /// Takes the top value off, if there is one.
    pub fn pop(&mut self)
        ensures
            final(self)@ == (if old(self)@.len() == 0 {
                old(self)@
            } else {
                old(self)@.drop_last()
            }),
    {
        let _ = self.stack.pop();
    }

    /// Pushes a type tag.
    pub fn push_any(&mut self)
        ensures
            final(self)@ == old(self)@.push(StackValueType::TypeTag),
    {
        self.stack.push(StackValueType::TypeTag);
    }

    /// Pushes a boolean.
    pub fn push_boolean(&mut self)
        ensures
            final(self)@ == old(self)@.push(StackValueType::Boolean),
    {
        self.stack.push(StackValueType::Boolean);
    }

    /// Pushes a bound method.
    pub fn push_bound_method(&mut self)
        ensures
            final(self)@ == old(self)@.push(StackValueType::BoundMethod),
    {
        self.stack.push(StackValueType::BoundMethod);
    }

    /// Pushes a class.
    pub fn push_class(&mut self)
        ensures
            final(self)@ == old(self)@.push(StackValueType::Class),
    {
        self.stack.push(StackValueType::Class);
    }

    /// Pushes a closure.
    pub fn push_closure(&mut self)
        ensures
            final(self)@ == old(self)@.push(StackValueType::Closure),
    {
        self.stack.push(StackValueType::Closure);
    }

    /// Pushes a native function.
    pub fn push_native_fn(&mut self)
        ensures
            final(self)@ == old(self)@.push(StackValueType::NativeFn),
    {
        self.stack.push(StackValueType::NativeFn);
    }

    /// Pushes nil.
    pub fn push_nil(&mut self)
        ensures
            final(self)@ == old(self)@.push(StackValueType::Nil),
    {
        self.stack.push(StackValueType::Nil);
    }

    /// Pushes a number.
    pub fn push_number(&mut self)
        ensures
            final(self)@ == old(self)@.push(StackValueType::Number),
    {
        self.stack.push(StackValueType::Number);
    }

    /// Pushes an object.
    pub fn push_object(&mut self)
        ensures
            final(self)@ == old(self)@.push(StackValueType::Object),
    {
        self.stack.push(StackValueType::Object);
    }

    /// Pushes a raw byte.
    pub fn push_raw(&mut self)
        ensures
            final(self)@ == old(self)@.push(StackValueType::Raw),
    {
        self.stack.push(StackValueType::Raw);
    }

    /// Pushes a string.
    pub fn push_string(&mut self)
        ensures
            final(self)@ == old(self)@.push(StackValueType::String),
    {
        self.stack.push(StackValueType::String);
    }

    /// Pushes an upvalue.
    pub fn push_upvalue(&mut self)
        ensures
            final(self)@ == old(self)@.push(StackValueType::Upvalue),
    {
        self.stack.push(StackValueType::Upvalue);
    }
}

/// A push followed by a pop leaves the stack as it was.
pub proof fn lemma_push_pop(s: Seq<StackValueType>, t: StackValueType)
    ensures
        s.push(t).drop_last() == s,
        spec_peek(s.push(t), 0) == Some(t),
{
    assert(s.push(t).drop_last() =~= s);
}

} // verus!

use vstd::prelude::*;

use crate::text::copy_chars;

verus! {

/// A handle on an object of the heap: its slot number.
#[derive(Clone, Copy, Debug, PartialEq, Eq, Structural)]
pub struct GcPtr(pub usize);

/// A Lox value. A number is kept as the text of its literal; reading it as
/// a float is left to the host.
#[derive(Clone, Debug)]
pub enum Value {
    Boolean(bool),
    Double(Vec<char>),
    Nil,
    Reference(GcPtr),
}

/// A value with its number literal taken by its view.
pub enum ValueView {
    Boolean(bool),
    Double(Seq<char>),
    Nil,
    Reference(usize),
}

impl View for Value {
    type V = ValueView;

    open spec fn view(&self) -> ValueView {
        match self {
            Value::Boolean(b) => ValueView::Boolean(*b),
            Value::Double(s) => ValueView::Double(s@),
            Value::Nil => ValueView::Nil,
            Value::Reference(p) => ValueView::Reference(p.0),
        }
    }
}

/// The heap slot that a value refers to, if it refers to one.
pub open spec fn value_ref(v: ValueView) -> Option<usize> {
    match v {
        ValueView::Reference(p) => Some(p),
        _ => None,
    }
}

impl Value {
    /// A copy of this value.
    pub fn duplicate(&self) -> (res: Value)
        ensures
            res@ == self@,
    {
        match self {
            Value::Boolean(b) => Value::Boolean(*b),
            Value::Double(s) => Value::Double(copy_chars(s)),
            Value::Nil => Value::Nil,
            Value::Reference(p) => Value::Reference(*p),
        }
    }
}

/// The growing list of constants of a chunk.
pub struct ValueArray {
    pub values: Vec<Value>,
}

impl View for ValueArray {
    type V = Seq<ValueView>;

    open spec fn view(&self) -> Seq<ValueView> {
        self.values@.map_values(|v: Value| v@)
    }
}

impl ValueArray {
    /// An empty array.
    pub fn default() -> (res: ValueArray)
        ensures
            res@ == Seq::<ValueView>::empty(),
    {
        ValueArray { values: Vec::new() }
    }

    /// The number of values held.
    pub fn count(&self) -> (res: usize)
        ensures
            res == self@.len(),
    {
        self.values.len()
    }

    /// Appends a value.
    pub fn write(&mut self, value: Value)
        ensures
            final(self)@ == old(self)@.push(value@),
    {
        self.values.push(value);
        assert(self@ =~= old(self)@.push(value@));
    }

    /// The value at `i`.
    pub fn get(&self, i: usize) -> (res: &Value)
        requires
            i < self@.len(),
        ensures
            res@ == self@[i as int],
    {
        &self.values[i]
    }

    /// Releases the values; the array is empty again.
    pub fn free(&mut self)
        ensures
            final(self)@ == Seq::<ValueView>::empty(),
    {
        self.values = Vec::new();
        assert(self@ =~= Seq::<ValueView>::empty());
    }
}

} // verus!

use vstd::prelude::*;

verus! {

/// The capacity that a growing buffer moves to: eight at first, then double.
pub open spec fn spec_next_capacity(old_capacity: int) -> int {
    if old_capacity < 8 {
        8
    } else {
        old_capacity * 2
    }
}

/// Next capacity of a growing buffer (eight, then doubling).
pub fn next_capacity(old_capacity: usize) -> (res: usize)
    requires
        old_capacity * 2 <= usize::MAX,
    ensures
        res == spec_next_capacity(old_capacity as int),
        res > old_capacity,
{
    if old_capacity < 8 {
        8
    } else {
        old_capacity * 2
    }
}

/// Something that releases what it owns and returns to its empty state.
pub trait Freeable {
    fn free(&mut self);
}

} // verus!

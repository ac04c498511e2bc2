use vstd::prelude::*;

use crate::opcode::Byte;
use crate::value::{Value, ValueArray, ValueView};

verus! {

/// A run of bytecode: the bytes, the source line of each, and the
/// constants that the bytes refer to.
pub struct Chunk {
    pub code: Vec<Byte>,
    pub line_nums: Vec<u32>,
    pub constants: ValueArray,
}

impl Chunk {
    /// The chunk's invariant: one line number per byte.
    pub open spec fn wf(&self) -> bool {
        self.code.len() == self.line_nums.len()
    }

    /// An empty chunk.
    pub fn default() -> (res: Chunk)
        ensures
            res.wf(),
            res.code@ == Seq::<Byte>::empty(),
            res.line_nums@ == Seq::<u32>::empty(),
            res.constants@ == Seq::<ValueView>::empty(),
    {
        Chunk { code: Vec::new(), line_nums: Vec::new(), constants: ValueArray::default() }
    }

    /// The number of bytes written.
    pub fn count(&self) -> (res: usize)
        ensures
            res == self.code.len(),
    {
        self.code.len()
    }

    /// Adds a constant and returns its index.
    pub fn add_constant(&mut self, value: Value) -> (res: u8)
        requires
            old(self).constants@.len() < 256,
        ensures
            final(self).constants@ == old(self).constants@.push(value@),
            final(self).code@ == old(self).code@,
            final(self).line_nums@ == old(self).line_nums@,
            res == old(self).constants@.len(),
    {
        self.constants.write(value);
        (self.constants.count() - 1) as u8
    }

    /// Releases the chunk's contents; it is empty again.
    pub fn free(&mut self)
        ensures
            final(self).wf(),
            final(self).code@ == Seq::<Byte>::empty(),
            final(self).line_nums@ == Seq::<u32>::empty(),
            final(self).constants@ == Seq::<ValueView>::empty(),
    {
        self.code = Vec::new();
        self.line_nums = Vec::new();
        self.constants.free();
    }

    /// Appends a byte with the line it comes from.
    pub fn write(&mut self, byte: Byte, line_num: u32)
        requires
            old(self).wf(),
        ensures
            final(self).wf(),
            final(self).code@ == old(self).code@.push(byte),
            final(self).line_nums@ == old(self).line_nums@.push(line_num),
            final(self).constants@ == old(self).constants@,
    {
        self.code.push(byte);
        self.line_nums.push(line_num);
    }

    /// Overwrites the byte at `offset`.
    pub fn patch(&mut self, offset: usize, byte: Byte)
        requires
            offset < old(self).code.len(),
            old(self).wf(),
        ensures
            final(self).wf(),
            final(self).code@ == old(self).code@.update(offset as int, byte),
            final(self).line_nums@ == old(self).line_nums@,
            final(self).constants@ == old(self).constants@,
    {
        self.code.set(offset, byte);
    }
}

} // verus!

use vstd::prelude::*;

verus! {

/// Where a token sits in the source: its first character, its line, its
/// column and its length, all counted in characters.
#[derive(Clone, Copy, Debug, PartialEq, Eq, Structural)]
pub struct SourceLoc {
    pub start_index: u32,
    pub line_num: u32,
    pub column: u32,
    pub length: u32,
}

/// `min(a, b)` over integers.
pub open spec fn min_int(a: int, b: int) -> int {
    if a <= b {
        a
    } else {
        b
    }
}

/// The characters that a location covers: `length` characters from
/// `start_index`, cut short at the end of the source.
pub open spec fn spec_extract(loc: SourceLoc, source: Seq<char>) -> Seq<char> {
    source.subrange(
        min_int(loc.start_index as int, source.len() as int),
        min_int(loc.start_index as int + loc.length as int, source.len() as int),
    )
}

impl SourceLoc {
    /// The text of the source that this location covers.
    pub fn extract(&self, source: &Vec<char>) -> (res: Vec<char>)
        ensures
            res@ == spec_extract(*self, source@),
    {
        let len = source.len();
        let start: usize = if (self.start_index as usize) < len {
            self.start_index as usize
        } else {
            len
        };
        let wanted: u64 = self.start_index as u64 + self.length as u64;
        let end: usize = if wanted < len as u64 {
            wanted as usize
        } else {
            len
        };
        let mut out: Vec<char> = Vec::new();
        let mut i: usize = start;
        while i < end
            invariant
                start <= i <= end,
                end <= source.len(),
                out@ == source@.subrange(start as int, i as int),
            decreases end - i,
        {
            out.push(source[i]);
            i = i + 1;
            assert(out@ =~= source@.subrange(start as int, i as int));
        }
        out
    }
}

} // verus!

use vstd::prelude::*;

verus! {

/// Identifier of a block of the graph.
#[derive(Clone, Copy, Debug, PartialEq, Eq, Structural, PartialOrd, Ord, Hash)]
pub struct BlockId(pub usize);

/// Identifier of an instruction; after flattening it is also a position in
/// the linear order of the program.
#[derive(Clone, Copy, Debug, PartialEq, Eq, Structural, PartialOrd, Ord, Hash)]
pub struct InstrId(pub usize);

/// Identifier of a live interval.
#[derive(Clone, Copy, Debug, PartialEq, Eq, Structural, PartialOrd, Ord, Hash)]
pub struct IntervalId(pub usize);

/// Identifier of a stack slot.
#[derive(Clone, Copy, Debug, PartialEq, Eq, Structural, PartialOrd, Ord, Hash)]
pub struct StackId(pub usize);

/// Every identifier is a plain number.
pub trait GraphId {
    fn to_uint(&self) -> usize;
}

impl GraphId for BlockId {
    fn to_uint(&self) -> (r: usize)
        ensures
            r == self.0,
    {
        self.0
    }
}

impl GraphId for InstrId {
    fn to_uint(&self) -> (r: usize)
        ensures
            r == self.0,
    {
        self.0
    }
}

impl GraphId for IntervalId {
    fn to_uint(&self) -> (r: usize)
        ensures
            r == self.0,
    {
        self.0
    }
}

impl GraphId for StackId {
    fn to_uint(&self) -> (r: usize)
        ensures
            r == self.0,
    {
        self.0
    }
}

impl InstrId {
    /// The position right before this one.
    pub fn prev(&self) -> (r: InstrId)
        requires
            self.0 > 0,
        ensures
            r.0 == self.0 - 1,
    {
        InstrId(self.0 - 1)
    }

    /// The position right after this one.
    pub fn next(&self) -> (r: InstrId)
        requires
            self.0 < usize::MAX,
        ensures
            r.0 == self.0 + 1,
    {
        InstrId(self.0 + 1)
    }
}

} // verus!

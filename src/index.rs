use vstd::prelude::*;
use crate::text::{decimal, push_decimal};

verus! {

/// The position of a node in a graph's node sequence.
///
/// It names a node only until a removal moves that node into another slot.
#[derive(Debug, Clone, Copy, PartialEq, Eq, Structural, Default, PartialOrd, Ord, Hash)]
pub struct NodeIndex(pub usize);

impl NodeIndex {
    pub fn new(index: usize) -> (r: NodeIndex)
        ensures
            r.0 == index,
    {
        NodeIndex(index)
    }

    /// From a signed count; a negative one is a caller's error.
    pub fn from_i32(value: i32) -> (r: NodeIndex)
        requires
            value >= 0,
        ensures
            r.0 == value,
    {
        NodeIndex(value as usize)
    }

    /// The position in decimal.
    pub fn render(&self) -> (r: String)
        ensures
            r@ == decimal(self.0 as nat),
    {
        let mut out = String::new();
        push_decimal(&mut out, self.0);
        proof {
            assert(out@ =~= decimal(self.0 as nat));
        }
        out
    }
}

impl From<usize> for NodeIndex {
    fn from(value: usize) -> (r: NodeIndex) {
        NodeIndex(value)
    }
}

impl vstd::std_specs::convert::FromSpecImpl<usize> for NodeIndex {
    open spec fn obeys_from_spec() -> bool {
        true
    }

    open spec fn from_spec(v: usize) -> NodeIndex {
        NodeIndex(v)
    }
}

} // verus!

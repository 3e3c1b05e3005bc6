use vstd::prelude::*;
use crate::index::NodeIndex;

verus! {

/// A directed relation between two node positions. It holds no node data.
#[derive(Debug, PartialEq, Eq)]
pub struct Edge {
    pub relation: String,
    pub from: NodeIndex,
    pub to: NodeIndex,
}

/// An edge as mathematical values.
pub struct EdgeView {
    pub relation: Seq<char>,
    pub from: NodeIndex,
    pub to: NodeIndex,
}

impl View for Edge {
    type V = EdgeView;

    open spec fn view(&self) -> EdgeView {
        EdgeView { relation: self.relation@, from: self.from, to: self.to }
    }
}

impl Edge {
    /// An edge from `from` to `to` named `relation`.
    pub fn new(relation: &str, from: NodeIndex, to: NodeIndex) -> (r: Edge)
        ensures
            r@ == (EdgeView { relation: relation@, from, to }),
    {
        Edge { relation: relation.to_owned(), from, to }
    }

    /// A second edge with the same relation and endpoints.
    pub fn duplicate(&self) -> (r: Edge)
        ensures
            r@ == self@,
    {
        Edge { relation: self.relation.clone(), from: self.from, to: self.to }
    }
}

} // verus!

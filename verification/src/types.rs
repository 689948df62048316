use vstd::prelude::*;

verus! {

/// A named location in the graph, identified by a unique integer id and
/// declaring its outgoing connections in a fixed order.
#[derive(Debug, Clone)]
pub struct Node {
    pub id: usize,
    pub name: String,
    pub connections: Vec<Connection>,
}

/// A directed edge to the node with identifier `to`, carrying a distance
/// and a free-form direction label.
#[derive(Debug, Clone)]
pub struct Connection {
    pub to: usize,
    pub distance: u32,
    pub direction: String,
}

/// One hop of a computed route. All fields are copied out of the graph at
/// construction time, so a step stays valid on its own.
#[derive(Debug, Clone, PartialEq)]
pub struct Step {
    pub from: String,
    pub to: String,
    pub direction: String,
    pub distance: u32,
}

} // verus!

use vstd::prelude::*;

verus! {

/// The kind of a control-flow edge in a rendered graph.
#[derive(Debug, Clone)]
pub enum EdgeType {
    /// Conditional jumps
    Jump,
    /// Normal control flow path
    Normal,
    /// Cyclic aka loops
    Backedge,
    /// Marks start of a function subgraph
    NewFunction,
    /// Finally
    Finalize,
    /// Unreachable code
    Unreachable,
    /// Marks the end of a finalizer
    Join,
}

} // verus!

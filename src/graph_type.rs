use vstd::prelude::*;

verus! {

/// Capability descriptor of a graph: whether self loops and repeated edges
/// are allowed. The storage of a graph is the same for every descriptor; only
/// the mutation methods consult it.
pub trait GraphType {
    spec fn allows_self_loops() -> bool;

    spec fn allows_multi_edges() -> bool;

    fn self_loops() -> (r: bool)
        ensures
            r == Self::allows_self_loops(),
    ;

    fn multi_edges() -> (r: bool)
        ensures
            r == Self::allows_multi_edges(),
    ;
}

/// Graphs with neither self loops nor repeated edges.
pub struct Simple;

impl GraphType for Simple {
    open spec fn allows_self_loops() -> bool {
        false
    }

    open spec fn allows_multi_edges() -> bool {
        false
    }

    fn self_loops() -> (r: bool) {
        false
    }

    fn multi_edges() -> (r: bool) {
        false
    }
}

/// Graphs that may repeat an edge.
pub struct Multigraph;

impl GraphType for Multigraph {
    open spec fn allows_self_loops() -> bool {
        true
    }

    open spec fn allows_multi_edges() -> bool {
        true
    }

    fn self_loops() -> (r: bool) {
        true
    }

    fn multi_edges() -> (r: bool) {
        true
    }
}

/// The most permissive descriptor, used to hide the concrete one from callers
/// once a search is over.
pub struct Erased;

impl GraphType for Erased {
    open spec fn allows_self_loops() -> bool {
        true
    }

    open spec fn allows_multi_edges() -> bool {
        true
    }

    fn self_loops() -> (r: bool) {
        true
    }

    fn multi_edges() -> (r: bool) {
        true
    }
}


} // verus!

//! The mathematical model of a layout and of the rules it has to obey.
//!
//! Every contract in this crate speaks about a layout through
//! [`LayoutView`]: ids are sequences of characters, nodes and edges are
//! sequences in the order in which they were given.

use vstd::prelude::*;
use crate::error::Error;

verus! {

/// A node as the contracts see it.
///
/// `position` holds the two coordinates as the bit patterns of
/// single-precision numbers, see [`coordinate`].
pub struct NodeView {
    pub id: Seq<char>,
    pub position: (u32, u32),
}

/// A directed edge as the contracts see it.
pub struct EdgeView {
    pub id: Seq<char>,
    pub source: Seq<char>,
    pub sink: Seq<char>,
}

/// A layout as the contracts see it.
pub struct LayoutView {
    pub id: Seq<char>,
    pub nodes: Seq<NodeView>,
    pub edges: Seq<EdgeView>,
}

/// The number a coordinate's bit pattern is compared by: negative zero is
/// folded into zero, so that the two zeros of the number format are one place.
pub open spec fn coordinate(bits: u32) -> u32 {
    if bits == 0x8000_0000u32 {
        0u32
    } else {
        bits
    }
}

/// Two positions coincide when both coordinates do.
pub open spec fn same_place(p: (u32, u32), q: (u32, u32)) -> bool {
    coordinate(p.0) == coordinate(q.0) && coordinate(p.1) == coordinate(q.1)
}

/// How many ends of `edges` touch the node `id`; an edge from a node to
/// itself counts twice.
pub open spec fn count_ends(edges: Seq<EdgeView>, id: Seq<char>) -> nat
    decreases edges.len(),
{
    if edges.len() == 0 {
        0
    } else {
        let last = edges.last();
        count_ends(edges.drop_last(), id) + (if last.source == id {
            1nat
        } else {
            0nat
        }) + (if last.sink == id {
            1nat
        } else {
            0nat
        })
    }
}

impl LayoutView {
    /// Some node of the layout has this id.
    pub open spec fn has_node(self, id: Seq<char>) -> bool {
        exists|i: int| 0 <= i < self.nodes.len() && (#[trigger] self.nodes[i]).id == id
    }

    /// No two nodes share an id.
    pub open spec fn node_ids_unique(self) -> bool {
        forall|i: int, j: int|
            0 <= i < j < self.nodes.len() ==> (#[trigger] self.nodes[i]).id != (
            #[trigger] self.nodes[j]).id
    }

    /// No two nodes lie at the same place.
    pub open spec fn places_unique(self) -> bool {
        forall|i: int, j: int|
            0 <= i < j < self.nodes.len() ==> !same_place(
                (#[trigger] self.nodes[i]).position,
                (#[trigger] self.nodes[j]).position,
            )
    }

    /// No two edges share an id.
    pub open spec fn edge_ids_unique(self) -> bool {
        forall|i: int, j: int|
            0 <= i < j < self.edges.len() ==> (#[trigger] self.edges[i]).id != (
            #[trigger] self.edges[j]).id
    }

    /// Both ends of every edge name a node of the layout.
    pub open spec fn endpoints_known(self) -> bool {
        forall|e: int|
            0 <= e < self.edges.len() ==> self.has_node((#[trigger] self.edges[e]).source)
                && self.has_node(self.edges[e].sink)
    }

    /// The number of edge ends at the node `id`.
    pub open spec fn driveways(self, id: Seq<char>) -> nat {
        count_ends(self.edges, id)
    }

    /// Every node that an edge touches has at least two edge ends. Nodes that
    /// no edge touches are not asked anything.
    pub open spec fn enough_driveways(self) -> bool {
        forall|e: int|
            0 <= e < self.edges.len() ==> self.driveways((#[trigger] self.edges[e]).source) >= 2
                && self.driveways(self.edges[e].sink) >= 2
    }

    /// What validation answers: the error of the first rule that the layout
    /// breaks, the rules taken in their fixed order, or `Ok` when it breaks none.
    pub open spec fn verdict(self) -> Result<(), Error> {
        if !self.node_ids_unique() {
            Err(Error::NodesMustBeUnique)
        } else if !self.places_unique() {
            Err(Error::NodesMustBeUnique)
        } else if !self.edge_ids_unique() {
            Err(Error::EdgesMustBeUnique)
        } else if !self.endpoints_known() {
            Err(Error::InvalidNodeInEdge)
        } else if !self.enough_driveways() {
            Err(Error::NodeNeedsMoreDriveways)
        } else {
            Ok(())
        }
    }

    /// The layout breaks no rule.
    pub open spec fn is_valid(self) -> bool {
        self.verdict() is Ok
    }
}

} // verus!

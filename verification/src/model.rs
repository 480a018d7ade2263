//! The layout as it is kept, and the store that holds the current one.
//!
//! The store keeps at most one layout behind a reader/writer lock. A reader
//! takes a shared handle to the layout that is current at that moment and
//! works on it for as long as it likes; a writer swaps in a whole new layout.
//! Only layouts that passed validation are ever kept.

use std::sync::Arc;
use std::sync::RwLock;
use vstd::prelude::*;
use crate::error::Error;
use crate::graph::{EdgeView, LayoutView, NodeView};
use crate::routes::{InputEdge, InputLayout, InputNode};

verus! {

/// A directed edge of a layout.
#[derive(Debug)]
pub struct Edge {
    pub id: String,
    pub source: String,
    pub sink: String,
}

/// A node of a layout. The position holds the two coordinates as the
/// IEEE-754 bit patterns of single-precision numbers.
#[derive(Debug)]
pub struct Node {
    pub id: String,
    pub position: (u32, u32),
}

/// A layout: nodes and directed edges, in the order in which they were given.
#[derive(Debug)]
pub struct Layout {
    pub id: String,
    pub nodes: Vec<Node>,
    pub edges: Vec<Edge>,
}

impl View for Edge {
    type V = EdgeView;

    open spec fn view(&self) -> EdgeView {
        EdgeView { id: self.id@, source: self.source@, sink: self.sink@ }
    }
}

impl View for Node {
    type V = NodeView;

    open spec fn view(&self) -> NodeView {
        NodeView { id: self.id@, position: self.position }
    }
}

impl View for Layout {
    type V = LayoutView;

    open spec fn view(&self) -> LayoutView {
        LayoutView {
            id: self.id@,
            nodes: self.nodes@.map_values(|n: Node| n@),
            edges: self.edges@.map_values(|e: Edge| e@),
        }
    }
}

impl Clone for Edge {
    fn clone(&self) -> (copy: Self)
        ensures
            copy@ == self@,
    {
        Edge { id: self.id.clone(), source: self.source.clone(), sink: self.sink.clone() }
    }
}

impl Clone for Node {
    fn clone(&self) -> (copy: Self)
        ensures
            copy@ == self@,
    {
        Node { id: self.id.clone(), position: (self.position.0, self.position.1) }
    }
}

impl Clone for Layout {
    fn clone(&self) -> (copy: Self)
        ensures
            copy@ == self@,
    {
        let mut nodes: Vec<Node> = Vec::new();
        let mut i: usize = 0;
        while i < self.nodes.len()
            invariant
                i <= self.nodes.len(),
                nodes.len() == i,
                forall|k: int| 0 <= k < i ==> (#[trigger] nodes[k])@ == self.nodes[k]@,
            decreases self.nodes.len() - i,
        {
            nodes.push(self.nodes[i].clone());
            i += 1;
        }
        let mut edges: Vec<Edge> = Vec::new();
        let mut j: usize = 0;
        while j < self.edges.len()
            invariant
                j <= self.edges.len(),
                edges.len() == j,
                forall|k: int| 0 <= k < j ==> (#[trigger] edges[k])@ == self.edges[k]@,
            decreases self.edges.len() - j,
        {
            edges.push(self.edges[j].clone());
            j += 1;
        }
        let copy = Layout { id: self.id.clone(), nodes, edges };
        assert(copy@.nodes =~= self@.nodes);
        assert(copy@.edges =~= self@.edges);
        copy
    }
}

impl Edge {
    /// The edge that a candidate's edge describes.
    pub fn from_input(edge: &InputEdge) -> (made: Edge)
        ensures
            made@ == edge@,
    {
        Edge { id: edge.id.clone(), source: edge.source.clone(), sink: edge.sink.clone() }
    }
}

impl Node {
    /// The node that a candidate's node describes.
    pub fn from_input(node: &InputNode) -> (made: Node)
        ensures
            made@ == node@,
    {
        Node { id: node.id.clone(), position: (node.position.x, node.position.y) }
    }
}

impl Layout {
    /// The layout that a candidate describes: the same id, nodes and edges,
    /// in the same order.
    pub fn from_input(input: &InputLayout) -> (made: Layout)
        ensures
            made@ == input@,
    {
        let mut nodes: Vec<Node> = Vec::new();
        let mut i: usize = 0;
        while i < input.nodes.len()
            invariant
                i <= input.nodes.len(),
                nodes.len() == i,
                forall|k: int| 0 <= k < i ==> (#[trigger] nodes[k])@ == input.nodes[k]@,
            decreases input.nodes.len() - i,
        {
            nodes.push(Node::from_input(&input.nodes[i]));
            i += 1;
        }
        let mut edges: Vec<Edge> = Vec::new();
        let mut j: usize = 0;
        while j < input.edges.len()
            invariant
                j <= input.edges.len(),
                edges.len() == j,
                forall|k: int| 0 <= k < j ==> (#[trigger] edges[k])@ == input.edges[k]@,
            decreases input.edges.len() - j,
        {
            edges.push(Edge::from_input(&input.edges[j]));
            j += 1;
        }
        let made = Layout { id: input.id.clone(), nodes, edges };
        assert(made@.nodes =~= input@.nodes);
        assert(made@.edges =~= input@.edges);
        made
    }
}

/// What the store holds: the current layout, or nothing yet. A layout that is
/// held has passed validation.
pub struct Model(Option<Arc<Layout>>);

impl Model {
    #[verifier::type_invariant]
    spec fn holds_only_valid(self) -> bool {
        match self.0 {
            Some(layout) => layout@.is_valid(),
            None => true,
        }
    }

    /// The layout that is held, if any.
    pub closed spec fn current(self) -> Option<LayoutView> {
        match self.0 {
            Some(layout) => Some(layout@),
            None => None,
        }
    }

    /// What is held where `layout` has been installed.
    pub fn holding(layout: Layout) -> (model: Model)
        requires
            layout@.is_valid(),
        ensures
            model.current() == Some(layout@),
    {
        Model(Some(Arc::new(layout)))
    }

    /// A shared handle to the layout that is held, if any.
    pub fn snapshot(self) -> (handle: Option<Arc<Layout>>)
        ensures
            match handle {
                Some(layout) => self.current() == Some(layout@) && layout@.is_valid(),
                None => self.current() is None,
            },
    {
        proof {
            use_type_invariant(&self);
        }
        self.0
    }
}

impl Default for Model {
    /// What is held before anything has been installed: nothing.
    fn default() -> (model: Model)
        ensures
            model.current() is None,
    {
        Model(None)
    }
}

/// `std::sync::RwLock`, taken as a type of which nothing is known: what a
/// lock holds can change between any two looks at it.
#[verifier::external_type_specification]
#[verifier::external_body]
#[verifier::reject_recursive_types(T)]
pub struct ExRwLock<T: ?Sized>(RwLock<T>);

/// `std::sync::RwLock::new`: a lock that holds `model`. Nothing is claimed
/// of the lock.
#[verifier::external_body]
fn new_cell(model: Model) -> RwLock<Model> {
    RwLock::new(model)
}

/// `std::sync::RwLock::read`: waits for shared access and hands out what the
/// lock holds at that moment, with one more handle to the layout if there is
/// one, or `None` where the lock is poisoned. What it holds depends on the
/// writers that came before, so nothing is claimed of it.
#[verifier::external_body]
fn read_cell(cell: &RwLock<Model>) -> Option<Model> {
    match cell.read() {
        Ok(held) => Some(Model(held.0.clone())),
        Err(_) => None,
    }
}

/// `std::sync::RwLock::write`: waits for exclusive access and puts `model` in
/// the place of what the lock held. Returns whether the lock could be taken:
/// `false` where it is poisoned, and then nothing was replaced.
#[verifier::external_body]
fn write_cell(cell: &RwLock<Model>, model: Model) -> bool {
    match cell.write() {
        Ok(mut held) => {
            *held = model;
            true
        },
        Err(_) => false,
    }
}

/// What a reader gets from what the lock gave: the layout that was held; an
/// error where none was held yet, and another where the lock was poisoned.
pub fn snapshot_of(read: Option<Model>) -> (r: Result<Arc<Layout>, Error>)
    ensures
        match read {
            None => r matches Err(e) && e == Error::LayoutUpdateFailureDetected,
            Some(model) => match model.current() {
                None => r matches Err(e) && e == Error::NoValidMapDefined,
                Some(view) => r matches Ok(layout) && layout@ == view && view.is_valid(),
            },
        },
{
    match read {
        None => Err(Error::LayoutUpdateFailureDetected),
        Some(model) => match model.snapshot() {
            None => Err(Error::NoValidMapDefined),
            Some(layout) => Ok(layout),
        },
    }
}

/// What a writer reports: success where the lock could be taken, an error
/// where it was poisoned.
pub fn install_outcome(taken: bool) -> (r: Result<(), Error>)
    ensures
        r == (if taken {
            Ok::<(), Error>(())
        } else {
            Err::<(), Error>(Error::LayoutUpdateFailureDetected)
        }),
{
    if taken {
        Ok(())
    } else {
        Err(Error::LayoutUpdateFailureDetected)
    }
}

/// The store: a handle, cheap to clone, to the one place where the current
/// layout is kept. All clones of a handle share that place.
#[derive(Clone)]
pub struct ModelController {
    layout: Arc<RwLock<Model>>,
}

impl ModelController {
    /// A store of its own that holds no layout yet: the lock is made around
    /// [`Model::default`]. It always succeeds. What the store holds is seen
    /// through [`layout`](Self::layout) alone, so no more is said of it here.
    pub fn new() -> (r: Result<Self, Error>)
        ensures
            r is Ok,
    {
        Ok(ModelController { layout: Arc::new(new_cell(Model::default())) })
    }

    /// A shared handle to the current layout. The lock is held only while the
    /// handle is copied; the layout behind the handle does not change when
    /// the store is updated later.
    pub fn layout(&self) -> (r: Result<Arc<Layout>, Error>)
        ensures
            match r {
                Ok(layout) => layout@.is_valid(),
                Err(e) => e == Error::NoValidMapDefined || e
                    == Error::LayoutUpdateFailureDetected,
            },
    {
        snapshot_of(read_cell(&self.layout))
    }

    /// Makes the layout that `input_layout` describes the current one. The
    /// layout is built before the lock is taken; under the lock only the
    /// handle is swapped. What is put under the lock is
    /// [`Model::holding`] of [`Layout::from_input`] of the candidate; whether
    /// the lock can be taken is for the lock to say, and
    /// [`install_outcome`] turns its answer into the result.
    pub fn update(&self, input_layout: InputLayout) -> (r: Result<(), Error>)
        requires
            input_layout@.is_valid(),
        ensures
            r is Ok || r == Err::<(), Error>(Error::LayoutUpdateFailureDetected),
    {
        let model = Model::holding(Layout::from_input(&input_layout));
        install_outcome(write_cell(&self.layout, model))
    }
}

} // verus!

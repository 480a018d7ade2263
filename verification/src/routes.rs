//! What a request carries, and what the service does with it: a candidate
//! layout is checked and, where it passes, installed; a path query is answered
//! from the layout that is current when it arrives.

use std::sync::Arc;
use vstd::prelude::*;
use crate::error::Error;
use crate::graph::{EdgeView, LayoutView, NodeView};
use crate::model::{Layout, ModelController};
use crate::search::{find_path, named};
use crate::validate::validate;
use crate::walk::answer;

verus! {

/// An edge of a candidate layout.
#[derive(Debug)]
pub struct InputEdge {
    pub id: String,
    pub source: String,
    pub sink: String,
}

/// Where a node of a candidate layout lies.
///
/// Each coordinate is the IEEE-754 bit pattern of a single-precision number
/// (what `f32::to_bits` gives).
#[derive(Debug, Clone, Copy)]
pub struct InputPosition {
    pub x: u32,
    pub y: u32,
}

/// A node of a candidate layout.
#[derive(Debug)]
pub struct InputNode {
    pub id: String,
    pub position: InputPosition,
}

/// A candidate layout, as submitted and not yet checked.
#[derive(Debug)]
pub struct InputLayout {
    pub id: String,
    pub nodes: Vec<InputNode>,
    pub edges: Vec<InputEdge>,
}

/// The two ends of a path query.
#[derive(Debug)]
pub struct PathQueryParams {
    pub start: String,
    pub goal: String,
}

impl View for InputEdge {
    type V = EdgeView;

    open spec fn view(&self) -> EdgeView {
        EdgeView { id: self.id@, source: self.source@, sink: self.sink@ }
    }
}

impl View for InputNode {
    type V = NodeView;

    open spec fn view(&self) -> NodeView {
        NodeView { id: self.id@, position: (self.position.x, self.position.y) }
    }
}

impl View for InputLayout {
    type V = LayoutView;

    open spec fn view(&self) -> LayoutView {
        LayoutView {
            id: self.id@,
            nodes: self.nodes@.map_values(|n: InputNode| n@),
            edges: self.edges@.map_values(|e: InputEdge| e@),
        }
    }
}

impl Clone for InputEdge {
    fn clone(&self) -> (copy: Self)
        ensures
            copy@ == self@,
    {
        InputEdge { id: self.id.clone(), source: self.source.clone(), sink: self.sink.clone() }
    }
}

impl Clone for InputNode {
    fn clone(&self) -> (copy: Self)
        ensures
            copy@ == self@,
    {
        InputNode { id: self.id.clone(), position: self.position }
    }
}

/// Checks a candidate and, where it breaks no rule, makes it the current
/// layout. A candidate that breaks a rule leaves the store as it is, and the
/// rule's error is returned.
pub fn handler_validate(mc: &ModelController, layout: InputLayout) -> (r: Result<(), Error>)
    ensures
        match layout@.verdict() {
            Err(e) => r == Err::<(), Error>(e),
            Ok(_) => r is Ok || r == Err::<(), Error>(Error::LayoutUpdateFailureDetected),
        },
{
    match validate(&layout) {
        Err(e) => Err(e),
        Ok(_) => mc.update(layout),
    }
}

/// Answers a path query from what the store gave: the store's error where it
/// gave one, and else what the search finds in the snapshot.
pub fn answer_from(snapshot: Result<Arc<Layout>, Error>, params: &PathQueryParams) -> (r: Result<
    Vec<String>,
    Error,
>)
    ensures
        match snapshot {
            Err(e) => r matches Err(f) && f == e,
            Ok(layout) => named(r) == answer(layout@, params.start@, params.goal@),
        },
{
    match snapshot {
        Err(e) => Err(e),
        Ok(layout) => find_path(&layout, params.start.as_str(), params.goal.as_str()),
    }
}

/// Answers a path query from the layout that is current. The search runs on
/// a snapshot: a layout that is installed while it runs does not touch it.
pub fn handler_query(mc: &ModelController, params: &PathQueryParams) -> (r: Result<
    Vec<String>,
    Error,
>)
    ensures
        (r matches Err(e) && (e == Error::NoValidMapDefined || e
            == Error::LayoutUpdateFailureDetected)) || (exists|layout: LayoutView|
            layout.is_valid() && named(r) == #[trigger] answer(
                layout,
                params.start@,
                params.goal@,
            )),
{
    let snapshot = mc.layout();
    let ghost given = snapshot;
    let r = answer_from(snapshot, params);
    proof {
        if let Ok(layout) = given {
            assert(layout@.is_valid() && named(r) == answer(
                layout@,
                params.start@,
                params.goal@,
            ));
        }
    }
    r
}

/// The reply to a liveness probe: the text that came with it, or `pong`.
pub fn handler_ping(echo: Option<String>) -> (reply: String)
    ensures
        reply@ == (match echo {
            Some(text) => text@,
            None => "pong"@,
        }),
{
    match echo {
        Some(text) => text,
        None => "pong".to_owned(),
    }
}

} // verus!

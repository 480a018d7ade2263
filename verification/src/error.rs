//! The failures that validation, the store and path queries report.

use vstd::prelude::*;
use vstd::string::*;

verus! {

/// Everything that can go wrong while a layout is checked, stored or searched.
#[derive(Debug, Clone, Copy, PartialEq, Eq, Structural)]
pub enum Error {
    /// No layout has been installed yet.
    NoValidMapDefined,
    /// The lock around the current layout was found poisoned.
    LayoutUpdateFailureDetected,
    /// Two nodes share an id or a position.
    NodesMustBeUnique,
    /// Two edges share an id.
    EdgesMustBeUnique,
    /// An edge names a node that the layout does not have.
    InvalidNodeInEdge,
    /// Reserved: an edge lacks one of its ends.
    EdgeMissingSourceOrSink,
    /// A node that edges touch has fewer than two edge ends.
    NodeNeedsMoreDriveways,
    /// The start or the goal of a query is not a node of the layout.
    NodesNotFound,
    /// The goal cannot be reached from the start.
    PathNotFound,
}

impl Error {
    /// The HTTP status that stands for this error: 400 for a candidate that
    /// breaks a rule, 404 for a query about nodes that are not there, 500 for
    /// everything else, a search that finds no path among it.
    pub open spec fn status(self) -> int {
        match self {
            Error::NodesMustBeUnique
            | Error::EdgesMustBeUnique
            | Error::InvalidNodeInEdge
            | Error::EdgeMissingSourceOrSink
            | Error::NodeNeedsMoreDriveways => 400,
            Error::NodesNotFound => 404,
            Error::NoValidMapDefined
            | Error::LayoutUpdateFailureDetected
            | Error::PathNotFound => 500,
        }
    }

    /// The words that tell a client what went wrong. The faults of the
    /// service itself all read the same.
    pub open spec fn message(self) -> Seq<char> {
        match self {
            Error::NodesMustBeUnique => "nodes must be unique"@,
            Error::EdgesMustBeUnique => "Edges must be unique"@,
            Error::InvalidNodeInEdge => "invalid node in edge"@,
            Error::EdgeMissingSourceOrSink => "edge is missing a source or sink"@,
            Error::NodeNeedsMoreDriveways => "node does not have enough number of driveways"@,
            Error::NodesNotFound => "the provided nodes were not found"@,
            Error::NoValidMapDefined
            | Error::LayoutUpdateFailureDetected
            | Error::PathNotFound => "internal server error"@,
        }
    }

    /// The body of the response that reports this error: a JSON object with
    /// the message under `error.details`.
    pub fn response_body(&self) -> (body: String)
        ensures
            body@ == envelope(self.message()),
    {
        let mut body = String::from_str("{\"error\":{\"details\":\"");
        body.append(self.as_ref());
        body.append("\"}}");
        body
    }

    /// The HTTP status code under which this error is reported.
    pub fn status_code(&self) -> (code: u16)
        ensures
            code == self.status(),
    {
        match self {
            Error::NodesMustBeUnique
            | Error::EdgesMustBeUnique
            | Error::InvalidNodeInEdge
            | Error::EdgeMissingSourceOrSink
            | Error::NodeNeedsMoreDriveways => 400,
            Error::NodesNotFound => 404,
            _ => 500,
        }
    }
}

/// The response body that carries `details`.
pub open spec fn envelope(details: Seq<char>) -> Seq<char> {
    "{\"error\":{\"details\":\""@ + details + "\"}}"@
}

impl AsRef<str> for Error {
    fn as_ref(&self) -> (text: &str)
        ensures
            text@ == self.message(),
    {
        match self {
            Error::NodesMustBeUnique => "nodes must be unique",
            Error::EdgesMustBeUnique => "Edges must be unique",
            Error::InvalidNodeInEdge => "invalid node in edge",
            Error::EdgeMissingSourceOrSink => "edge is missing a source or sink",
            Error::NodeNeedsMoreDriveways => "node does not have enough number of driveways",
            Error::NodesNotFound => "the provided nodes were not found",
            _ => "internal server error",
        }
    }
}

} // verus!

use road_layout::error::Error;

const ALL: [Error; 9] = [
    Error::NoValidMapDefined,
    Error::LayoutUpdateFailureDetected,
    Error::NodesMustBeUnique,
    Error::EdgesMustBeUnique,
    Error::InvalidNodeInEdge,
    Error::EdgeMissingSourceOrSink,
    Error::NodeNeedsMoreDriveways,
    Error::NodesNotFound,
    Error::PathNotFound,
];

#[test]
fn status_codes() {
    assert_eq!(Error::NodesMustBeUnique.status_code(), 400);
    assert_eq!(Error::EdgesMustBeUnique.status_code(), 400);
    assert_eq!(Error::InvalidNodeInEdge.status_code(), 400);
    assert_eq!(Error::EdgeMissingSourceOrSink.status_code(), 400);
    assert_eq!(Error::NodeNeedsMoreDriveways.status_code(), 400);
    assert_eq!(Error::NodesNotFound.status_code(), 404);
    assert_eq!(Error::NoValidMapDefined.status_code(), 500);
    assert_eq!(Error::LayoutUpdateFailureDetected.status_code(), 500);
    assert_eq!(Error::PathNotFound.status_code(), 500);
}

#[test]
fn messages() {
    assert_eq!(Error::NodesMustBeUnique.as_ref(), "nodes must be unique");
    assert_eq!(Error::EdgesMustBeUnique.as_ref(), "Edges must be unique");
    assert_eq!(Error::InvalidNodeInEdge.as_ref(), "invalid node in edge");
    assert_eq!(Error::EdgeMissingSourceOrSink.as_ref(), "edge is missing a source or sink");
    assert_eq!(
        Error::NodeNeedsMoreDriveways.as_ref(),
        "node does not have enough number of driveways"
    );
    assert_eq!(Error::NodesNotFound.as_ref(), "the provided nodes were not found");
    assert_eq!(Error::NoValidMapDefined.as_ref(), "internal server error");
    assert_eq!(Error::LayoutUpdateFailureDetected.as_ref(), "internal server error");
    assert_eq!(Error::PathNotFound.as_ref(), "internal server error");
}

#[test]
fn response_body_is_the_exact_envelope() {
    assert_eq!(
        Error::NodesMustBeUnique.response_body(),
        "{\"error\":{\"details\":\"nodes must be unique\"}}"
    );
    assert_eq!(
        Error::NoValidMapDefined.response_body(),
        "{\"error\":{\"details\":\"internal server error\"}}"
    );
}

#[test]
fn response_body_is_json_with_the_message_under_error_details() {
    for error in ALL {
        let body: serde_json::Value = serde_json::from_str(&error.response_body()).unwrap();
        let mut inner = serde_json::Map::new();
        inner.insert(
            "details".to_string(),
            serde_json::Value::String(error.as_ref().to_string()),
        );
        let mut outer = serde_json::Map::new();
        outer.insert("error".to_string(), serde_json::Value::Object(inner));
        assert_eq!(body, serde_json::Value::Object(outer));
        assert_eq!(serde_json::to_string(&body).unwrap(), error.response_body());
    }
}

#[test]
fn errors_compare_and_copy() {
    let one = Error::PathNotFound;
    let two = one;
    assert_eq!(one, two);
    assert_ne!(Error::PathNotFound, Error::NodesNotFound);
    assert_eq!(format!("{:?}", Error::NodeNeedsMoreDriveways), "NodeNeedsMoreDriveways");
}

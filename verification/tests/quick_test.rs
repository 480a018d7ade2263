use road_layout::error::Error;
use road_layout::model::ModelController;
use road_layout::routes::{
    handler_ping, handler_query, handler_validate, InputEdge, InputLayout, InputNode,
    InputPosition, PathQueryParams,
};

fn node(id: &str, x: f32, y: f32) -> InputNode {
    InputNode { id: id.to_string(), position: InputPosition { x: x.to_bits(), y: y.to_bits() } }
}

fn edge(id: &str, source: &str, sink: &str) -> InputEdge {
    InputEdge { id: id.to_string(), source: source.to_string(), sink: sink.to_string() }
}

fn layout(nodes: Vec<InputNode>, edges: Vec<InputEdge>) -> InputLayout {
    InputLayout { id: "valid_map".to_string(), nodes, edges }
}

fn query(start: &str, goal: &str) -> PathQueryParams {
    PathQueryParams { start: start.to_string(), goal: goal.to_string() }
}

fn details_of(body: &str) -> serde_json::Value {
    serde_json::from_str(body).unwrap()
}

fn error_value(details: &str) -> serde_json::Value {
    let mut inner = serde_json::Map::new();
    inner.insert("details".to_string(), serde_json::Value::String(details.to_string()));
    let mut outer = serde_json::Map::new();
    outer.insert("error".to_string(), serde_json::Value::Object(inner));
    serde_json::Value::Object(outer)
}

#[test]
fn quick_test() {
    assert_eq!(handler_ping(Some("HelloWorld".to_string())), "HelloWorld");
    assert_eq!(handler_ping(None), "pong");
}

#[test]
fn test_duplicate_id() {
    let mc = ModelController::new().unwrap();
    let err = handler_validate(
        &mc,
        layout(
            vec![node("node1", 1.0, 1.0), node("node1", 1.0, 1.0)],
            vec![edge("BL_2_BC", "Node_BL", "Node_BC")],
        ),
    )
    .unwrap_err();
    assert_eq!(err.status_code(), 400);
    assert_eq!(details_of(&err.response_body()), error_value("nodes must be unique"));
}

#[test]
fn test_invalid_node_in_edge() {
    let mc = ModelController::new().unwrap();
    let err = handler_validate(
        &mc,
        layout(vec![node("node1", 1.0, 1.0)], vec![edge("BL_2_BC", "Node_BL", "Node_BC")]),
    )
    .unwrap_err();
    assert_eq!(err.status_code(), 400);
    assert_eq!(details_of(&err.response_body()), error_value("invalid node in edge"));
}

#[test]
fn test_invalid_number_of_nodes() {
    let mc = ModelController::new().unwrap();
    let err = handler_validate(
        &mc,
        layout(
            vec![node("node1", 1.0, 1.0), node("node2", 2.0, 1.0)],
            vec![edge("BL_2_BC", "node2", "node1")],
        ),
    )
    .unwrap_err();
    assert_eq!(err.status_code(), 400);
    assert_eq!(
        details_of(&err.response_body()),
        error_value("node does not have enough number of driveways")
    );
}

#[test]
fn test_invalid_nodes_in_query() {
    let mc = ModelController::new().unwrap();
    let first = handler_validate(
        &mc,
        layout(
            vec![node("node1", 1.0, 1.0), node("node2", 2.0, 1.0)],
            vec![edge("2 to 1", "node2", "node1"), edge("1 to 2", "node1", "node2")],
        ),
    );
    assert_eq!(first, Ok(()));

    let found = handler_query(&mc, &query("node1", "node2"));
    assert!(found.is_ok());

    let second = handler_validate(
        &mc,
        layout(
            vec![node("A", 1.0, 1.0), node("B", 2.0, 1.0)],
            vec![edge("2 to 1", "A", "B"), edge("1 to 2", "B", "A")],
        ),
    );
    assert_eq!(second, Ok(()));

    let err = handler_query(&mc, &query("node1", "node2")).unwrap_err();
    assert_eq!(
        details_of(&err.response_body()),
        error_value("the provided nodes were not found")
    );
    assert_eq!(err.status_code(), 404);
}

#[test]
fn test_query_invalid_nodes() {
    let mc = ModelController::new().unwrap();
    let installed = handler_validate(
        &mc,
        layout(
            vec![node("A", 1.0, 1.0), node("B", 2.0, 1.0)],
            vec![edge("2 to 1", "A", "B"), edge("1 to 2", "B", "A")],
        ),
    );
    assert_eq!(installed, Ok(()));

    let err = handler_query(&mc, &query("node1", "B")).unwrap_err();
    assert_eq!(
        details_of(&err.response_body()),
        error_value("the provided nodes were not found")
    );
    assert_eq!(err.status_code(), 404);
    assert_eq!(err, Error::NodesNotFound);
}

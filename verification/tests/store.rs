use road_layout::error::Error;
use road_layout::model::{install_outcome, snapshot_of, Layout, Model, ModelController};
use road_layout::routes::{
    answer_from, handler_query, handler_validate, InputEdge, InputLayout, InputNode,
    InputPosition, PathQueryParams,
};
use road_layout::search::find_path;

fn node(id: &str, x: f32, y: f32) -> InputNode {
    InputNode { id: id.to_string(), position: InputPosition { x: x.to_bits(), y: y.to_bits() } }
}

fn edge(id: &str, source: &str, sink: &str) -> InputEdge {
    InputEdge { id: id.to_string(), source: source.to_string(), sink: sink.to_string() }
}

fn pair(id: &str, one: &str, two: &str) -> InputLayout {
    InputLayout {
        id: id.to_string(),
        nodes: vec![node(one, 1.0, 1.0), node(two, 2.0, 1.0)],
        edges: vec![edge("there", one, two), edge("back", two, one)],
    }
}

fn query(start: &str, goal: &str) -> PathQueryParams {
    PathQueryParams { start: start.to_string(), goal: goal.to_string() }
}

fn ids(path: &[&str]) -> Vec<String> {
    path.iter().map(|id| id.to_string()).collect()
}

#[test]
fn new_store_holds_no_layout() {
    let mc = ModelController::new().unwrap();
    assert_eq!(mc.layout().unwrap_err(), Error::NoValidMapDefined);
}

#[test]
fn query_before_any_layout_fails() {
    let mc = ModelController::new().unwrap();
    let err = handler_query(&mc, &query("node1", "node2")).unwrap_err();
    assert_eq!(err, Error::NoValidMapDefined);
    assert_eq!(err.status_code(), 500);
    assert_eq!(err.response_body(), "{\"error\":{\"details\":\"internal server error\"}}");
}

#[test]
fn refused_layout_is_not_installed() {
    let mc = ModelController::new().unwrap();
    let broken = InputLayout {
        id: "broken".to_string(),
        nodes: vec![node("a", 1.0, 1.0), node("b", 2.0, 1.0)],
        edges: vec![edge("only", "a", "b")],
    };
    assert_eq!(handler_validate(&mc, broken), Err(Error::NodeNeedsMoreDriveways));
    assert_eq!(mc.layout().unwrap_err(), Error::NoValidMapDefined);

    assert_eq!(handler_validate(&mc, pair("good", "a", "b")), Ok(()));
    let again = InputLayout {
        id: "broken".to_string(),
        nodes: vec![node("x", 1.0, 1.0), node("x", 2.0, 1.0)],
        edges: vec![],
    };
    assert_eq!(handler_validate(&mc, again), Err(Error::NodesMustBeUnique));
    assert_eq!(mc.layout().unwrap().id, "good");
}

#[test]
fn installed_layout_answers_queries() {
    let mc = ModelController::new().unwrap();
    assert_eq!(handler_validate(&mc, pair("valid_map", "node1", "node2")), Ok(()));
    assert_eq!(handler_query(&mc, &query("node1", "node2")), Ok(ids(&["node1", "node2"])));
    assert_eq!(handler_query(&mc, &query("node2", "node1")), Ok(ids(&["node2", "node1"])));
    assert_eq!(handler_query(&mc, &query("node1", "nowhere")), Err(Error::NodesNotFound));
    assert_eq!(handler_query(&mc, &query("nowhere", "node2")), Err(Error::NodesNotFound));
}

#[test]
fn update_keeps_what_the_candidate_says() {
    let mc = ModelController::new().unwrap();
    let candidate = InputLayout {
        id: "site".to_string(),
        nodes: vec![node("a", 1.5, -2.0), node("b", 0.25, 8.0)],
        edges: vec![edge("e1", "a", "b"), edge("e2", "b", "a")],
    };
    assert_eq!(mc.update(candidate), Ok(()));
    let kept = mc.layout().unwrap();
    assert_eq!(kept.id, "site");
    assert_eq!(kept.nodes.len(), 2);
    assert_eq!(kept.nodes[0].id, "a");
    assert_eq!(kept.nodes[0].position, (1.5f32.to_bits(), (-2.0f32).to_bits()));
    assert_eq!(kept.nodes[1].id, "b");
    assert_eq!(kept.nodes[1].position, (0.25f32.to_bits(), 8.0f32.to_bits()));
    assert_eq!(kept.edges.len(), 2);
    assert_eq!(kept.edges[0].id, "e1");
    assert_eq!(kept.edges[0].source, "a");
    assert_eq!(kept.edges[0].sink, "b");
    assert_eq!(kept.edges[1].id, "e2");
    assert_eq!(kept.edges[1].source, "b");
    assert_eq!(kept.edges[1].sink, "a");
}

#[test]
fn installing_the_same_layout_twice_changes_nothing() {
    let mc = ModelController::new().unwrap();
    assert_eq!(handler_validate(&mc, pair("valid_map", "node1", "node2")), Ok(()));
    let first = mc.layout().unwrap();
    let answer = handler_query(&mc, &query("node1", "node2"));

    assert_eq!(handler_validate(&mc, pair("valid_map", "node1", "node2")), Ok(()));
    let second = mc.layout().unwrap();
    assert_eq!(first.id, second.id);
    assert_eq!(first.nodes.len(), second.nodes.len());
    for (a, b) in first.nodes.iter().zip(second.nodes.iter()) {
        assert_eq!(a.id, b.id);
        assert_eq!(a.position, b.position);
    }
    assert_eq!(first.edges.len(), second.edges.len());
    for (a, b) in first.edges.iter().zip(second.edges.iter()) {
        assert_eq!((&a.id, &a.source, &a.sink), (&b.id, &b.source, &b.sink));
    }
    assert_eq!(handler_query(&mc, &query("node1", "node2")), answer);
}

#[test]
fn snapshot_outlives_a_replacement() {
    let mc = ModelController::new().unwrap();
    assert_eq!(handler_validate(&mc, pair("old", "node1", "node2")), Ok(()));
    let snapshot = mc.layout().unwrap();

    assert_eq!(handler_validate(&mc, pair("new", "A", "B")), Ok(()));

    assert_eq!(snapshot.id, "old");
    assert_eq!(
        find_path(&snapshot, "node1", "node2"),
        Ok(ids(&["node1", "node2"]))
    );
    assert_eq!(
        find_path(&snapshot, "A", "B"),
        Err(Error::NodesNotFound)
    );
    assert_eq!(mc.layout().unwrap().id, "new");
    assert_eq!(handler_query(&mc, &query("A", "B")), Ok(ids(&["A", "B"])));
    assert_eq!(handler_query(&mc, &query("node1", "node2")), Err(Error::NodesNotFound));
}

#[test]
fn handles_to_one_store_see_the_same_layout() {
    let mc = ModelController::new().unwrap();
    let other = mc.clone();
    assert_eq!(handler_validate(&other, pair("shared", "a", "b")), Ok(()));
    assert_eq!(mc.layout().unwrap().id, "shared");

    let apart = ModelController::new().unwrap();
    assert_eq!(apart.layout().unwrap_err(), Error::NoValidMapDefined);
}

#[test]
fn two_snapshots_of_one_layout_are_one_layout() {
    let mc = ModelController::new().unwrap();
    assert_eq!(handler_validate(&mc, pair("kept", "a", "b")), Ok(()));
    let one = mc.layout().unwrap();
    let two = mc.layout().unwrap();
    assert!(std::sync::Arc::ptr_eq(&one, &two));
}

#[test]
fn what_a_reader_gets_from_what_the_lock_gave() {
    assert_eq!(snapshot_of(None).unwrap_err(), Error::LayoutUpdateFailureDetected);
    assert_eq!(snapshot_of(Some(Model::default())).unwrap_err(), Error::NoValidMapDefined);
    let held = Model::holding(Layout::from_input(&pair("held", "a", "b")));
    assert_eq!(snapshot_of(Some(held)).unwrap().id, "held");
    let again = Model::holding(Layout::from_input(&pair("again", "a", "b")));
    assert_eq!(again.snapshot().unwrap().id, "again");
    assert!(Model::default().snapshot().is_none());
}

#[test]
fn what_a_writer_reports() {
    assert_eq!(install_outcome(true), Ok(()));
    assert_eq!(install_outcome(false), Err(Error::LayoutUpdateFailureDetected));
}

#[test]
fn answer_from_hands_on_the_store_error() {
    let params = query("a", "b");
    assert_eq!(
        answer_from(Err(Error::NoValidMapDefined), &params),
        Err(Error::NoValidMapDefined)
    );
    assert_eq!(
        answer_from(Err(Error::LayoutUpdateFailureDetected), &params),
        Err(Error::LayoutUpdateFailureDetected)
    );
    let layout = std::sync::Arc::new(Layout::from_input(&pair("held", "a", "b")));
    assert_eq!(answer_from(Ok(layout), &params), Ok(ids(&["a", "b"])));
}

#[test]
fn layout_clone_keeps_everything() {
    let layout = Layout::from_input(&pair("site", "a", "b"));
    let copy = layout.clone();
    assert_eq!(copy.id, "site");
    assert_eq!(copy.nodes.len(), 2);
    assert_eq!(copy.nodes[1].id, "b");
    assert_eq!(copy.nodes[1].position, (2.0f32.to_bits(), 1.0f32.to_bits()));
    assert_eq!(copy.edges.len(), 2);
    assert_eq!(copy.edges[1].id, "back");
    assert_eq!(copy.edges[1].source, "b");
    assert_eq!(copy.edges[1].sink, "a");
}

#[test]
fn query_between_two_islands_finds_no_path() {
    let mc = ModelController::new().unwrap();
    let islands = InputLayout {
        id: "islands".to_string(),
        nodes: vec![
            node("a", 0.0, 0.0),
            node("b", 1.0, 0.0),
            node("c", 5.0, 5.0),
            node("d", 6.0, 5.0),
        ],
        edges: vec![
            edge("ab", "a", "b"),
            edge("ba", "b", "a"),
            edge("cd", "c", "d"),
            edge("dc", "d", "c"),
        ],
    };
    assert_eq!(handler_validate(&mc, islands), Ok(()));
    let err = handler_query(&mc, &query("a", "d")).unwrap_err();
    assert_eq!(err, Error::PathNotFound);
    assert_eq!(err.status_code(), 500);
    assert_eq!(err.as_ref(), "internal server error");
    assert_eq!(handler_query(&mc, &query("c", "d")), Ok(ids(&["c", "d"])));
}

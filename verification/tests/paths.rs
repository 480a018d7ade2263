use road_layout::error::Error;
use road_layout::model::{Edge, Layout, Node};
use road_layout::search::find_path;

fn node(id: &str, x: f32, y: f32) -> Node {
    Node { id: id.to_string(), position: (x.to_bits(), y.to_bits()) }
}

fn edge(id: &str, source: &str, sink: &str) -> Edge {
    Edge { id: id.to_string(), source: source.to_string(), sink: sink.to_string() }
}

fn layout(ids: &[&str], edges: &[(&str, &str)]) -> Layout {
    let nodes = ids.iter().enumerate().map(|(i, id)| node(id, i as f32, 0.0)).collect();
    let edges = edges
        .iter()
        .enumerate()
        .map(|(i, (source, sink))| edge(&format!("e{}", i), source, sink))
        .collect();
    Layout { id: "map".to_string(), nodes, edges }
}

fn path(layout: &Layout, start: &str, goal: &str) -> Result<Vec<String>, Error> {
    find_path(layout, start, goal)
}

fn ids(path: &[&str]) -> Result<Vec<String>, Error> {
    Ok(path.iter().map(|id| id.to_string()).collect())
}

#[test]
fn path_across_one_edge() {
    let l = layout(&["node1", "node2"], &[("node2", "node1"), ("node1", "node2")]);
    assert_eq!(path(&l, "node1", "node2"), ids(&["node1", "node2"]));
    assert_eq!(path(&l, "node2", "node1"), ids(&["node2", "node1"]));
}

#[test]
fn path_from_a_node_to_itself_is_that_node() {
    let l = layout(&["a", "b"], &[("a", "b"), ("b", "a")]);
    assert_eq!(path(&l, "a", "a"), ids(&["a"]));
}

#[test]
fn unknown_start_is_refused() {
    let l = layout(&["a", "b"], &[("a", "b"), ("b", "a")]);
    assert_eq!(path(&l, "x", "b"), Err(Error::NodesNotFound));
}

#[test]
fn unknown_goal_is_refused() {
    let l = layout(&["a", "b"], &[("a", "b"), ("b", "a")]);
    assert_eq!(path(&l, "a", "x"), Err(Error::NodesNotFound));
}

#[test]
fn unknown_ends_are_refused_even_when_edges_name_them() {
    let l = layout(&["a"], &[("x", "y")]);
    assert_eq!(path(&l, "x", "y"), Err(Error::NodesNotFound));
}

#[test]
fn no_path_between_two_islands() {
    let l = layout(&["a", "b", "c", "d"], &[("a", "b"), ("b", "a"), ("c", "d"), ("d", "c")]);
    assert_eq!(path(&l, "a", "c"), Err(Error::PathNotFound));
    assert_eq!(path(&l, "d", "b"), Err(Error::PathNotFound));
}

#[test]
fn edges_are_followed_in_their_direction_only() {
    let l = layout(&["a", "b", "c"], &[("a", "b"), ("b", "c")]);
    assert_eq!(path(&l, "a", "c"), ids(&["a", "b", "c"]));
    assert_eq!(path(&l, "c", "a"), Err(Error::PathNotFound));
}

#[test]
fn node_without_outgoing_edges_ends_a_branch() {
    let l = layout(&["a", "b", "c"], &[("a", "c"), ("a", "b")]);
    // b is tried first and leads nowhere
    assert_eq!(path(&l, "a", "c"), ids(&["a", "c"]));
    assert_eq!(path(&l, "b", "c"), Err(Error::PathNotFound));
}

#[test]
fn the_edge_that_stands_later_is_tried_first() {
    // both a -> b -> d and a -> c -> d lead to d; the edge a -> c stands later
    let l = layout(&["a", "b", "c", "d"], &[("a", "b"), ("a", "c"), ("b", "d"), ("c", "d")]);
    assert_eq!(path(&l, "a", "d"), ids(&["a", "c", "d"]));

    let swapped =
        layout(&["a", "b", "c", "d"], &[("a", "c"), ("a", "b"), ("b", "d"), ("c", "d")]);
    assert_eq!(path(&swapped, "a", "d"), ids(&["a", "b", "d"]));
}

#[test]
fn the_path_need_not_be_the_shortest() {
    // a -> d directly, and a -> b -> c -> d; the edge a -> b stands later
    let l = layout(&["a", "b", "c", "d"], &[("a", "d"), ("a", "b"), ("b", "c"), ("c", "d")]);
    assert_eq!(path(&l, "a", "d"), ids(&["a", "b", "c", "d"]));
}

#[test]
fn a_cycle_on_the_way_does_not_hold_the_search() {
    // a -> b -> a is tried before a -> c
    let l = layout(&["a", "b", "c"], &[("a", "c"), ("a", "b"), ("b", "a")]);
    assert_eq!(path(&l, "a", "c"), ids(&["a", "c"]));
}

#[test]
fn a_cycle_without_the_goal_ends_in_path_not_found() {
    let l = layout(&["a", "b", "c", "z"], &[("a", "b"), ("b", "c"), ("c", "a")]);
    assert_eq!(path(&l, "a", "z"), Err(Error::PathNotFound));
}

#[test]
fn a_node_tried_in_vain_is_not_tried_again() {
    // from a the search goes to c first (dead end: c -> a only), then to b, which also leads to c
    let l = layout(
        &["a", "b", "c", "d"],
        &[("a", "d"), ("a", "b"), ("b", "c"), ("a", "c"), ("c", "a")],
    );
    assert_eq!(path(&l, "a", "d"), ids(&["a", "d"]));
}

#[test]
fn an_edge_to_itself_is_no_obstacle() {
    let l = layout(&["a", "b"], &[("a", "b"), ("a", "a")]);
    assert_eq!(path(&l, "a", "b"), ids(&["a", "b"]));
}

#[test]
fn two_edges_between_the_same_nodes() {
    let l = layout(&["a", "b", "c"], &[("a", "b"), ("a", "b"), ("b", "c")]);
    assert_eq!(path(&l, "a", "c"), ids(&["a", "b", "c"]));
}

#[test]
fn a_ring_is_walked_around() {
    let l = layout(
        &["n0", "n1", "n2", "n3", "n4"],
        &[("n0", "n1"), ("n1", "n2"), ("n2", "n3"), ("n3", "n4"), ("n4", "n0")],
    );
    assert_eq!(path(&l, "n2", "n1"), ids(&["n2", "n3", "n4", "n0", "n1"]));
}

#[test]
fn a_dense_layout_is_searched_in_reasonable_time() {
    let names: Vec<String> = (0..40).map(|i| format!("n{}", i)).collect();
    let mut nodes = Vec::new();
    let mut edges = Vec::new();
    for (i, name) in names.iter().enumerate() {
        nodes.push(node(name, i as f32, 1.0));
    }
    for a in 0..40 {
        for b in 0..40 {
            if a != b {
                edges.push(edge(&format!("{}-{}", a, b), &names[a], &names[b]));
            }
        }
    }
    nodes.push(node("far", 100.0, 100.0));
    let l = Layout { id: "dense".to_string(), nodes, edges };
    assert_eq!(path(&l, "n0", "far"), Err(Error::PathNotFound));
    let found = path(&l, "n0", "n1").unwrap();
    assert_eq!(found.first().unwrap(), "n0");
    assert_eq!(found.last().unwrap(), "n1");
}

#[test]
fn layouts_with_the_same_nodes_and_edges_answer_alike() {
    let one = layout(&["a", "b", "c", "d"], &[("a", "b"), ("a", "c"), ("b", "d"), ("c", "d")]);
    let mut two = one.clone();
    two.id = "another".to_string();
    for (start, goal) in [("a", "d"), ("d", "a"), ("b", "c"), ("a", "x"), ("c", "c")] {
        assert_eq!(path(&one, start, goal), path(&two, start, goal));
    }
}

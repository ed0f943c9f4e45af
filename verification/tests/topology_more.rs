use lau_penrose_v2::spline::{Spline, SplineType};
use lau_penrose_v2::topology::CorrelationTopology;

fn link(a: &str, b: &str) -> Spline<f64> {
    Spline {
        id: format!("{}-{}", a, b),
        room_a: a.to_string(),
        room_b: b.to_string(),
        coefficient: 0.9,
        spline_type: SplineType::Predictive,
        detected_at: 0,
        confidence: 0.9,
        prediction_accuracy: 0.0,
    }
}

fn rooms(names: &[&str]) -> Vec<String> {
    names.iter().map(|s| s.to_string()).collect()
}

#[test]
fn clusters_keep_room_order_and_group_by_connection() {
    let t = CorrelationTopology::new(rooms(&["a", "b", "c", "d", "e"]), vec![link("d", "a"), link("c", "e")]);
    let clusters = t.clusters();
    assert_eq!(clusters, vec![rooms(&["a", "d"]), rooms(&["b"]), rooms(&["c", "e"])]);
}

#[test]
fn clusters_of_no_rooms_is_empty() {
    let t = CorrelationTopology::<f64>::new(vec![], vec![]);
    assert!(t.clusters().is_empty());
}

#[test]
fn clusters_follow_long_chains() {
    let t = CorrelationTopology::new(
        rooms(&["a", "b", "c", "d", "e"]),
        vec![link("e", "d"), link("a", "b"), link("c", "d"), link("b", "c")],
    );
    assert_eq!(t.clusters(), vec![rooms(&["a", "b", "c", "d", "e"])]);
}

#[test]
fn clusters_put_repeated_names_together() {
    let t = CorrelationTopology::<f64>::new(rooms(&["a", "b", "a"]), vec![]);
    assert_eq!(t.clusters(), vec![rooms(&["a", "a"]), rooms(&["b"])]);
}

#[test]
fn clusters_with_self_loop() {
    let t = CorrelationTopology::new(rooms(&["a", "b"]), vec![link("a", "a")]);
    assert_eq!(t.clusters().len(), 2);
}

#[test]
fn neighbors_lists_touching_splines_in_order() {
    let t = CorrelationTopology::new(rooms(&["a", "b", "c"]), vec![link("a", "b"), link("b", "c"), link("c", "a")]);
    let n = t.neighbors("c");
    assert_eq!(n.len(), 2);
    assert_eq!(n[0].id, "b-c");
    assert_eq!(n[1].id, "c-a");
}

#[test]
fn degree_counts_touching_splines() {
    let t = CorrelationTopology::new(rooms(&["a", "b", "c", "d"]), vec![link("a", "b"), link("b", "c"), link("b", "d")]);
    assert_eq!(t.degree("b"), 3);
    assert_eq!(t.degree("a"), 1);
    assert_eq!(t.degree("z"), 0);
}

#[test]
fn most_central_prefers_the_last_of_equals() {
    let t = CorrelationTopology::new(rooms(&["a", "b", "c"]), vec![link("a", "b")]);
    assert_eq!(t.most_central(), Some("b".to_string()));
}

#[test]
fn most_central_of_single_room() {
    let t = CorrelationTopology::<f64>::new(rooms(&["solo"]), vec![]);
    assert_eq!(t.most_central(), Some("solo".to_string()));
}

#[test]
fn bridge_rooms_of_a_path() {
    let t = CorrelationTopology::new(rooms(&["a", "b", "c"]), vec![link("a", "b"), link("b", "c")]);
    assert_eq!(t.bridge_rooms(), rooms(&["b"]));
}

#[test]
fn isolated_room_is_not_a_bridge() {
    let t = CorrelationTopology::new(rooms(&["a", "b", "c"]), vec![link("a", "b")]);
    assert!(t.bridge_rooms().is_empty());
}

#[test]
fn bridge_room_of_a_star() {
    let t = CorrelationTopology::new(
        rooms(&["hub", "s1", "s2", "s3"]),
        vec![link("hub", "s1"), link("hub", "s2"), link("hub", "s3")],
    );
    assert_eq!(t.bridge_rooms(), rooms(&["hub"]));
}

#[test]
fn set_prediction_accuracy_touches_only_neighbours() {
    let mut t = CorrelationTopology::new(rooms(&["a", "b", "c"]), vec![link("a", "b"), link("b", "c")]);
    t.set_prediction_accuracy("a", 0.75);
    assert_eq!(t.splines[0].prediction_accuracy, 0.75);
    assert_eq!(t.splines[1].prediction_accuracy, 0.0);
    assert_eq!(t.rooms, rooms(&["a", "b", "c"]));
}

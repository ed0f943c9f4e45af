use lau_penrose_v2::spline::{Spline, SplineType};
use lau_penrose_v2::topology::CorrelationTopology;

#[test]
fn test_topology_neighbors() {
    let topology = CorrelationTopology::new(
        vec!["a".into(), "b".into(), "c".into()],
        vec![Spline {
            id: "a-b".into(),
            room_a: "a".into(),
            room_b: "b".into(),
            coefficient: 0.9,
            spline_type: SplineType::Predictive,
            detected_at: 0,
            confidence: 0.9,
            prediction_accuracy: 0.0,
        }],
    );
    assert_eq!(topology.neighbors("a").len(), 1);
    assert_eq!(topology.neighbors("c").len(), 0);
}

#[test]
fn test_topology_clusters_single() {
    let topology = CorrelationTopology::new(
        vec!["a".into(), "b".into(), "c".into()],
        vec![
            Spline {
                id: "a-b".into(),
                room_a: "a".into(),
                room_b: "b".into(),
                coefficient: 0.9,
                spline_type: SplineType::Predictive,
                detected_at: 0,
                confidence: 0.9,
                prediction_accuracy: 0.0,
            },
            Spline {
                id: "b-c".into(),
                room_a: "b".into(),
                room_b: "c".into(),
                coefficient: 0.8,
                spline_type: SplineType::Predictive,
                detected_at: 0,
                confidence: 0.8,
                prediction_accuracy: 0.0,
            },
        ],
    );
    let clusters = topology.clusters();
    assert_eq!(clusters.len(), 1);
    assert_eq!(clusters[0].len(), 3);
}

#[test]
fn test_topology_clusters_separate() {
    let topology = CorrelationTopology::new(
        vec!["a".into(), "b".into(), "c".into(), "d".into()],
        vec![Spline {
            id: "a-b".into(),
            room_a: "a".into(),
            room_b: "b".into(),
            coefficient: 0.9,
            spline_type: SplineType::Predictive,
            detected_at: 0,
            confidence: 0.9,
            prediction_accuracy: 0.0,
        }],
    );
    let clusters = topology.clusters();
    assert_eq!(clusters.len(), 3);
}

#[test]
fn test_topology_most_central() {
    let topology = CorrelationTopology::new(
        vec!["a".into(), "b".into(), "c".into()],
        vec![
            Spline {
                id: "a-b".into(),
                room_a: "a".into(),
                room_b: "b".into(),
                coefficient: 0.9,
                spline_type: SplineType::Predictive,
                detected_at: 0,
                confidence: 0.9,
                prediction_accuracy: 0.0,
            },
            Spline {
                id: "a-c".into(),
                room_a: "a".into(),
                room_b: "c".into(),
                coefficient: 0.8,
                spline_type: SplineType::Predictive,
                detected_at: 0,
                confidence: 0.8,
                prediction_accuracy: 0.0,
            },
        ],
    );
    assert_eq!(topology.most_central().unwrap(), "a");
}

#[test]
fn test_topology_bridge_rooms() {
    let topology = CorrelationTopology::new(
        vec!["a".into(), "b".into(), "c".into(), "d".into(), "e".into(), "f".into()],
        vec![
            Spline { id: "a-b".into(), room_a: "a".into(), room_b: "b".into(), coefficient: 0.9, spline_type: SplineType::Predictive, detected_at: 0, confidence: 0.9, prediction_accuracy: 0.0 },
            Spline { id: "b-c".into(), room_a: "b".into(), room_b: "c".into(), coefficient: 0.9, spline_type: SplineType::Predictive, detected_at: 0, confidence: 0.9, prediction_accuracy: 0.0 },
            Spline { id: "d-e".into(), room_a: "d".into(), room_b: "e".into(), coefficient: 0.9, spline_type: SplineType::Predictive, detected_at: 0, confidence: 0.9, prediction_accuracy: 0.0 },
            Spline { id: "e-f".into(), room_a: "e".into(), room_b: "f".into(), coefficient: 0.9, spline_type: SplineType::Predictive, detected_at: 0, confidence: 0.9, prediction_accuracy: 0.0 },
            Spline { id: "b-e".into(), room_a: "b".into(), room_b: "e".into(), coefficient: 0.5, spline_type: SplineType::Causal, detected_at: 0, confidence: 0.5, prediction_accuracy: 0.0 },
        ],
    );
    let bridges = topology.bridge_rooms();
    assert!(bridges.contains(&"b".to_string()));
    assert!(bridges.contains(&"e".to_string()));
}

#[test]
fn test_topology_bridge_no_bridges_single_cluster() {
    // Triangle: fully connected, no bridge
    let topology = CorrelationTopology::new(
        vec!["a".into(), "b".into(), "c".into()],
        vec![
            Spline { id: "a-b".into(), room_a: "a".into(), room_b: "b".into(), coefficient: 0.9, spline_type: SplineType::Predictive, detected_at: 0, confidence: 0.9, prediction_accuracy: 0.0 },
            Spline { id: "b-c".into(), room_a: "b".into(), room_b: "c".into(), coefficient: 0.9, spline_type: SplineType::Predictive, detected_at: 0, confidence: 0.9, prediction_accuracy: 0.0 },
            Spline { id: "a-c".into(), room_a: "a".into(), room_b: "c".into(), coefficient: 0.9, spline_type: SplineType::Predictive, detected_at: 0, confidence: 0.9, prediction_accuracy: 0.0 },
        ],
    );
    assert!(topology.bridge_rooms().is_empty());
}

#[test]
fn test_topology_most_central_empty() {
    let topology = CorrelationTopology::<f64>::new(vec![], vec![]);
    assert!(topology.most_central().is_none());
}

#[test]
fn test_theorem_6_centrality_most_connected() {
    let topology = CorrelationTopology::new(
        vec!["hub".into(), "s1".into(), "s2".into(), "s3".into()],
        vec![
            Spline { id: "h-s1".into(), room_a: "hub".into(), room_b: "s1".into(), coefficient: 0.9, spline_type: SplineType::Predictive, detected_at: 0, confidence: 0.9, prediction_accuracy: 0.0 },
            Spline { id: "h-s2".into(), room_a: "hub".into(), room_b: "s2".into(), coefficient: 0.9, spline_type: SplineType::Predictive, detected_at: 0, confidence: 0.9, prediction_accuracy: 0.0 },
            Spline { id: "h-s3".into(), room_a: "hub".into(), room_b: "s3".into(), coefficient: 0.9, spline_type: SplineType::Predictive, detected_at: 0, confidence: 0.9, prediction_accuracy: 0.0 },
        ],
    );
    assert_eq!(topology.most_central().unwrap(), "hub");
}

#[test]
fn test_theorem_7_clusters_group_correlated() {
    let topology = CorrelationTopology::new(
        vec!["a".into(), "b".into(), "c".into(), "d".into(), "e".into(), "f".into()],
        vec![
            Spline { id: "a-b".into(), room_a: "a".into(), room_b: "b".into(), coefficient: 0.9, spline_type: SplineType::Predictive, detected_at: 0, confidence: 0.9, prediction_accuracy: 0.0 },
            Spline { id: "b-c".into(), room_a: "b".into(), room_b: "c".into(), coefficient: 0.9, spline_type: SplineType::Predictive, detected_at: 0, confidence: 0.9, prediction_accuracy: 0.0 },
            Spline { id: "d-e".into(), room_a: "d".into(), room_b: "e".into(), coefficient: 0.9, spline_type: SplineType::Predictive, detected_at: 0, confidence: 0.9, prediction_accuracy: 0.0 },
        ],
    );
    assert_eq!(topology.clusters().len(), 3);
}

#[test]
fn test_theorem_8_bridge_connects_clusters() {
    let topology = CorrelationTopology::new(
        vec!["a".into(), "b".into(), "c".into(), "d".into()],
        vec![
            Spline { id: "a-b".into(), room_a: "a".into(), room_b: "b".into(), coefficient: 0.9, spline_type: SplineType::Predictive, detected_at: 0, confidence: 0.9, prediction_accuracy: 0.0 },
            Spline { id: "c-d".into(), room_a: "c".into(), room_b: "d".into(), coefficient: 0.9, spline_type: SplineType::Predictive, detected_at: 0, confidence: 0.9, prediction_accuracy: 0.0 },
            Spline { id: "b-c".into(), room_a: "b".into(), room_b: "c".into(), coefficient: 0.5, spline_type: SplineType::Causal, detected_at: 0, confidence: 0.5, prediction_accuracy: 0.0 },
        ],
    );
    let bridges = topology.bridge_rooms();
    assert!(bridges.contains(&"b".to_string()));
    assert!(bridges.contains(&"c".to_string()));
}

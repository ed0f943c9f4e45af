use lau_penrose_v2::detector::PenroseDetector;
use lau_penrose_v2::predictor::PenrosePredictor;
use lau_penrose_v2::spline::{Spline, SplineType};
use lau_penrose_v2::topology::CorrelationTopology;

fn link(a: &str, b: &str, coefficient: f64) -> Spline<f64> {
    Spline {
        id: format!("{}-{}", a, b),
        room_a: a.to_string(),
        room_b: b.to_string(),
        coefficient,
        spline_type: SplineType::Predictive,
        detected_at: 0,
        confidence: 0.5,
        prediction_accuracy: 0.0,
    }
}

#[test]
fn detector_new_is_empty() {
    let det = PenroseDetector::new(3, 0.3);
    assert!(det.series.is_empty());
    assert_eq!(det.min_samples, 3);
    assert_eq!(det.threshold, 0.3);
}

#[test]
fn observe_groups_values_by_room() {
    let mut det = PenroseDetector::new(2, 0.3);
    det.observe("a", 1, 1.0);
    det.observe("b", 1, 5.0);
    det.observe("a", 2, 2.0);
    assert_eq!(det.series.len(), 2);
    assert_eq!(det.series_of("a").unwrap().values, vec![(1, 1.0), (2, 2.0)]);
    assert_eq!(det.series_of("b").unwrap().values, vec![(1, 5.0)]);
    assert!(det.series_of("c").is_none());
}

#[test]
fn room_ids_in_order_of_first_observation() {
    let mut det = PenroseDetector::new(2, 0.3);
    det.observe("z", 1, 1.0);
    det.observe("a", 1, 1.0);
    det.observe("z", 2, 1.0);
    assert_eq!(det.room_ids(), vec!["z".to_string(), "a".to_string()]);
}

#[test]
fn neighbor_readings_take_latest_values() {
    let mut det = PenroseDetector::new(2, 0.3);
    det.observe("a", 1, 1.0);
    det.observe("b", 1, 10.0);
    det.observe("b", 2, 20.0);
    det.observe("c", 1, 7.0);
    let topology = CorrelationTopology::new(
        vec!["a".into(), "b".into(), "c".into(), "d".into()],
        vec![link("b", "a", 0.8), link("c", "d", 0.6), link("a", "c", -0.7), link("a", "d", 0.9)],
    );
    let predictor = PenrosePredictor::new(det, topology);
    let readings = predictor.neighbor_readings("a");
    assert_eq!(readings.len(), 2);
    assert_eq!(readings[0].room_id, "b");
    assert_eq!(readings[0].coefficient, 0.8);
    assert_eq!(readings[0].confidence, 0.5);
    assert_eq!(readings[0].last_value, 20.0);
    assert_eq!(readings[1].room_id, "c");
    assert_eq!(readings[1].coefficient, -0.7);
    assert_eq!(readings[1].last_value, 7.0);
}

#[test]
fn neighbor_readings_of_room_without_splines() {
    let mut det = PenroseDetector::new(2, 0.3);
    det.observe("a", 1, 1.0);
    let topology = CorrelationTopology::new(vec!["a".into()], vec![]);
    let predictor = PenrosePredictor::new(det, topology);
    assert!(predictor.neighbor_readings("a").is_empty());
}

#[test]
fn paired_tails_align_on_the_shorter_signal() {
    let mut det = PenroseDetector::new(2, 0.3);
    for i in 0..5u64 {
        det.observe("a", i, i as f64);
    }
    for i in 0..3u64 {
        det.observe("b", i, 10.0 + i as f64);
    }
    let (ta, tb) = det.paired_tails("a", "b").unwrap();
    assert_eq!(ta, vec![(2, 2.0), (3, 3.0), (4, 4.0)]);
    assert_eq!(tb, vec![(0, 10.0), (1, 11.0), (2, 12.0)]);
    let (ub, ua) = det.paired_tails("b", "a").unwrap();
    assert_eq!(ua, ta);
    assert_eq!(ub, tb);
}

#[test]
fn paired_tails_need_min_samples_and_known_rooms() {
    let mut det = PenroseDetector::new(3, 0.3);
    det.observe("a", 1, 1.0);
    det.observe("a", 2, 1.0);
    det.observe("a", 3, 1.0);
    det.observe("b", 1, 2.0);
    assert!(det.paired_tails("a", "b").is_none());
    assert!(det.paired_tails("a", "z").is_none());
    assert!(det.paired_tails("a", "a").is_some());
}

#[test]
fn paired_tails_of_a_room_with_itself_agree() {
    let mut det = PenroseDetector::new(1, 0.3);
    det.observe("a", 1, 4.0);
    det.observe("a", 2, 5.0);
    let (x, y) = det.paired_tails("a", "a").unwrap();
    assert_eq!(x, y);
    assert_eq!(x, vec![(1, 4.0), (2, 5.0)]);
}

#[test]
fn sorted_room_ids_follow_string_order() {
    let mut det = PenroseDetector::new(1, 0.3);
    for room in ["room_b", "room_a", "Room", "room", "ä", "room_ab"] {
        det.observe(room, 0, 0.0);
    }
    let mut expected = det.room_ids();
    expected.sort();
    assert_eq!(det.sorted_room_ids(), expected);
    assert_eq!(
        det.sorted_room_ids(),
        vec!["Room", "room", "room_a", "room_ab", "room_b", "ä"]
    );
}

use lau_penrose_v2::series::TimeSeries;

#[test]
fn test_timeseries_push_and_len() {
    let mut ts = TimeSeries::new("room_a");
    assert!(ts.is_empty());
    ts.push(1, 10.0);
    ts.push(2, 20.0);
    ts.push(3, 30.0);
    assert_eq!(ts.len(), 3);
    assert!(!ts.is_empty());
}

#[test]
fn test_timeseries_last_n() {
    let mut ts = TimeSeries::new("room_a");
    for i in 0..10u64 {
        ts.push(i, i as f64);
    }
    let last = ts.last_n(3);
    assert_eq!(last.len(), 3);
    assert_eq!(last[0], (7, 7.0));
    assert_eq!(last[2], (9, 9.0));
}

#[test]
fn test_timeseries_last_n_more_than_len() {
    let mut ts = TimeSeries::new("room_a");
    ts.push(1, 1.0);
    ts.push(2, 2.0);
    let last = ts.last_n(10);
    assert_eq!(last.len(), 2);
}

#[test]
fn timeseries_new_keeps_room_id() {
    let ts: TimeSeries<f64> = TimeSeries::new("kitchen");
    assert_eq!(ts.room_id, "kitchen");
    assert!(ts.values.is_empty());
}

#[test]
fn timeseries_push_keeps_arrival_order() {
    let mut ts = TimeSeries::new("a");
    ts.push(5, 1.5);
    ts.push(3, -2.0);
    assert_eq!(ts.values, vec![(5, 1.5), (3, -2.0)]);
}

#[test]
fn timeseries_last_n_zero_is_empty() {
    let mut ts = TimeSeries::new("a");
    ts.push(1, 1.0);
    assert!(ts.last_n(0).is_empty());
}

#[test]
fn timeseries_last_n_exact_length_is_everything() {
    let mut ts = TimeSeries::new("a");
    ts.push(1, 1.0);
    ts.push(2, 2.0);
    assert_eq!(ts.last_n(2), vec![(1, 1.0), (2, 2.0)]);
}

#[test]
fn timeseries_last_n_of_empty_series() {
    let ts: TimeSeries<f64> = TimeSeries::new("a");
    assert!(ts.last_n(4).is_empty());
}

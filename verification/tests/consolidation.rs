use route_stops::merge::{merge_trips, stops_by_route};
use route_stops::types::{Args, Direction, DirectionType, RouteDir, StopTime, Trip};

fn visit(stop: u64) -> StopTime {
    StopTime { stop, arrival_time: None, departure_time: None }
}

fn trip(route: &str, stops: &[u64]) -> Trip {
    Trip {
        route_id: route.to_string(),
        direction_id: None,
        trip_short_name: None,
        stop_times: stops.iter().map(|&s| visit(s)).collect(),
    }
}

fn trip_with_direction(route: &str, direction: DirectionType, stops: &[u64]) -> Trip {
    Trip {
        route_id: route.to_string(),
        direction_id: Some(direction),
        trip_short_name: None,
        stop_times: stops.iter().map(|&s| visit(s)).collect(),
    }
}

fn all(n: usize) -> Vec<usize> {
    (0..n).collect()
}

#[test]
fn single_trip_identity() {
    let trips = vec![trip("r", &[10, 20, 30, 40])];
    let group = all(1);
    let merged = merge_trips(&trips, &group).expect("single trip is consistent");
    assert_eq!(merged, vec![10, 20, 30, 40]);
}

#[test]
fn single_trip_one_stop() {
    let trips = vec![trip("r", &[7])];
    let merged = merge_trips(&trips, &all(1)).expect("one stop is consistent");
    assert_eq!(merged, vec![7]);
}

#[test]
fn order_consistency() {
    let trips = vec![trip("r", &[1, 2, 3]), trip("r", &[1, 3, 5]), trip("r", &[2, 5])];
    let merged = merge_trips(&trips, &all(3)).expect("orders are consistent");
    for t in &trips {
        let positions: Vec<usize> = t
            .stop_times
            .iter()
            .map(|st| merged.iter().position(|&s| s == st.stop).expect("stop in output"))
            .collect();
        for w in positions.windows(2) {
            assert!(w[0] < w[1], "trip order kept in {merged:?}");
        }
    }
}

#[test]
fn determinism() {
    let trips = vec![
        trip("b", &[1, 2]),
        trip("a", &[1, 3]),
        trip("a", &[3, 4]),
        trip("b", &[2, 9]),
    ];
    let args = Args::default();
    let r1 = stops_by_route(&trips, &args).expect("consistent");
    let r2 = stops_by_route(&trips, &args).expect("consistent");
    assert_eq!(r1.map.len(), r2.map.len());
    for (a, b) in r1.map.iter().zip(r2.map.iter()) {
        assert_eq!(a.0, b.0);
        assert_eq!(a.1, b.1);
    }
}

#[test]
fn cycle_detection() {
    let trips = vec![trip("r", &[1, 2, 1])];
    assert!(merge_trips(&trips, &all(1)).is_err());
}

#[test]
fn cycle_across_trips() {
    let trips = vec![trip("r", &[1, 2]), trip("r", &[2, 1])];
    assert!(merge_trips(&trips, &all(2)).is_err());
}

#[test]
fn self_loop_fails() {
    let trips = vec![trip("r", &[5, 5])];
    assert!(merge_trips(&trips, &all(1)).is_err());
}

#[test]
fn cycle_aborts_whole_run() {
    let trips = vec![trip("a", &[1, 2]), trip("b", &[3, 4, 3])];
    let err = stops_by_route(&trips, &Args::default()).expect_err("second group cycles");
    assert_eq!(err.route.route_id.as_deref(), Some("b"));
    assert_eq!(err.route.direction, Direction::Unspecified);
}

#[test]
fn branch_merge_example() {
    // Trip2 forces D between B and C; Trip1 forces A, B, C in order.
    let a = 1;
    let b = 2;
    let c = 3;
    let d = 4;
    let trips = vec![trip("r", &[a, b, c]), trip("r", &[a, b, d, c])];
    let merged = merge_trips(&trips, &all(2)).expect("branches are consistent");
    assert_eq!(merged, vec![a, b, d, c]);
}

#[test]
fn disjoint_branches_deterministic() {
    // B and C are unordered relative to each other: either output is valid,
    // but repeated runs must agree. This library emits the most recently
    // discovered head first.
    let a = 1;
    let b = 2;
    let c = 3;
    let trips = vec![trip("r", &[a, b]), trip("r", &[a, c])];
    let merged = merge_trips(&trips, &all(2)).expect("consistent");
    assert!(merged == vec![a, b, c] || merged == vec![a, c, b]);
    assert_eq!(merged, vec![a, c, b]);
    let again = merge_trips(&trips, &all(2)).expect("consistent");
    assert_eq!(merged, again);
}

#[test]
fn grouping_order() {
    // Groups come out sorted by (route id, direction) whatever the trip order.
    let trips = vec![
        trip_with_direction("b", DirectionType::Outbound, &[1, 2]),
        trip("c", &[3]),
        trip_with_direction("a", DirectionType::Inbound, &[4, 5]),
        trip_with_direction("b", DirectionType::Inbound, &[2, 6]),
        trip("a", &[7]),
    ];
    let mm = stops_by_route(&trips, &Args::default()).expect("consistent");
    let keys: Vec<(Option<String>, Direction)> = mm
        .map
        .iter()
        .map(|(rd, _)| (rd.route_id.clone(), rd.direction))
        .collect();
    assert_eq!(
        keys,
        vec![
            (Some("a".to_string()), Direction::Unspecified),
            (Some("a".to_string()), Direction::Inbound),
            (Some("b".to_string()), Direction::Inbound),
            (Some("b".to_string()), Direction::Outbound),
            (Some("c".to_string()), Direction::Unspecified),
        ]
    );
}

#[test]
fn merge_routes_collapses_groups() {
    let trips = vec![trip("a", &[1, 2]), trip("b", &[2, 3])];
    let args = Args { merge_routes: true, direction_from_trip_name: false };
    let mm = stops_by_route(&trips, &args).expect("consistent");
    assert_eq!(mm.map.len(), 1);
    assert_eq!(mm.map[0].0.route_id, None);
    assert_eq!(mm.map[0].1, vec![1, 2, 3]);
}

#[test]
fn empty_input_gives_no_groups() {
    let trips: Vec<Trip> = Vec::new();
    let mm = stops_by_route(&trips, &Args::default()).expect("nothing to do");
    assert!(mm.map.is_empty());
}

#[test]
fn shared_stop_one_node() {
    // The same stop visited by many trips appears once in the output.
    let trips = vec![trip("r", &[1, 2, 9]), trip("r", &[1, 9]), trip("r", &[2, 9])];
    let merged = merge_trips(&trips, &all(3)).expect("consistent");
    assert_eq!(merged, vec![1, 2, 9]);
}

#[test]
fn direction_groups_are_separate() {
    let trips = vec![
        trip_with_direction("r", DirectionType::Inbound, &[1, 2]),
        trip_with_direction("r", DirectionType::Outbound, &[2, 1]),
    ];
    let mm = stops_by_route(&trips, &Args::default()).expect("opposite directions do not clash");
    assert_eq!(mm.map.len(), 2);
    assert_eq!(mm.map[0].1, vec![1, 2]);
    assert_eq!(mm.map[1].1, vec![2, 1]);
}

#[test]
fn direction_from_trip_name_parity() {
    let mut t_even = trip("r", &[1, 2]);
    t_even.trip_short_name = Some("42".to_string());
    let mut t_odd = trip("r", &[1, 2]);
    t_odd.trip_short_name = Some("7".to_string());
    let mut t_none = trip("r", &[1, 2]);
    t_none.trip_short_name = Some("x7".to_string());
    let mut t_signed = trip("r", &[1, 2]);
    t_signed.trip_short_name = Some("+2".to_string());
    let args = Args { merge_routes: false, direction_from_trip_name: true };
    assert_eq!(Direction::from_trip(&t_even, true), Direction::Inbound);
    assert_eq!(Direction::from_trip(&t_odd, true), Direction::Outbound);
    assert_eq!(Direction::from_trip(&t_none, true), Direction::Unspecified);
    assert_eq!(Direction::from_trip(&t_signed, true), Direction::Inbound);
    let rd = RouteDir::from_trip(&t_even, &args);
    assert_eq!(rd.route_id.as_deref(), Some("r"));
    assert_eq!(rd.direction, Direction::Inbound);
}

#[test]
fn explicit_direction_used_without_flag() {
    let t = trip_with_direction("r", DirectionType::Inbound, &[1]);
    assert_eq!(Direction::from_trip(&t, false), Direction::Inbound);
    let t = trip_with_direction("r", DirectionType::Outbound, &[1]);
    assert_eq!(Direction::from_trip(&t, false), Direction::Outbound);
    let t = trip("r", &[1]);
    assert_eq!(Direction::from_trip(&t, false), Direction::Unspecified);
}

use route_stops::bitvec::BitVec;
use route_stops::merge::dag::Dag;
use route_stops::multimap::MultiMap;
use route_stops::report::{count_patterns, fill_column, format_time_optional, project_pattern};
use route_stops::table::Table;
use route_stops::types::{parse_u32, Args, Direction, RouteDir, StopTime};

fn rd(route: Option<&str>, direction: Direction) -> RouteDir {
    RouteDir { route_id: route.map(|s| s.to_string()), direction }
}

#[test]
fn parse_u32_digits() {
    assert_eq!(parse_u32("0"), Some(0));
    assert_eq!(parse_u32("123"), Some(123));
    assert_eq!(parse_u32("007"), Some(7));
    assert_eq!(parse_u32("4294967295"), Some(u32::MAX));
    assert_eq!(parse_u32("+2"), Some(2));
    assert_eq!(parse_u32("+0"), Some(0));
    assert_eq!(parse_u32("+4294967295"), Some(u32::MAX));
}

#[test]
fn parse_u32_rejects() {
    assert_eq!(parse_u32(""), None);
    assert_eq!(parse_u32("12a"), None);
    assert_eq!(parse_u32("-3"), None);
    assert_eq!(parse_u32(" 3"), None);
    assert_eq!(parse_u32("4294967296"), None);
    assert_eq!(parse_u32("99999999999999999999"), None);
    assert_eq!(parse_u32("+"), None);
    assert_eq!(parse_u32("++2"), None);
    assert_eq!(parse_u32("2+"), None);
}

#[test]
fn route_dir_ordering() {
    let a = rd(None, Direction::Outbound);
    let b = rd(Some("a"), Direction::Unspecified);
    let c = rd(Some("a"), Direction::Inbound);
    let d = rd(Some("ab"), Direction::Unspecified);
    let e = rd(Some("b"), Direction::Unspecified);
    assert!(a.cmp_key(&b) < 0);
    assert!(b.cmp_key(&c) < 0);
    assert!(c.cmp_key(&d) < 0);
    assert!(d.cmp_key(&e) < 0);
    assert!(e.cmp_key(&a) > 0);
    assert_eq!(c.cmp_key(&rd(Some("a"), Direction::Inbound)), 0);
}

#[test]
fn multimap_appends_and_sorts() {
    let mut mm: MultiMap<u32> = MultiMap::new();
    mm.insert(rd(Some("b"), Direction::Unspecified), 1);
    mm.insert(rd(Some("a"), Direction::Unspecified), 2);
    mm.insert(rd(Some("b"), Direction::Unspecified), 3);
    mm.insert_bulk(rd(Some("a"), Direction::Unspecified), vec![4, 5]);
    mm.insert_bulk(rd(Some("c"), Direction::Unspecified), vec![6]);
    let flat: Vec<(Option<String>, Vec<u32>)> =
        mm.map.iter().map(|(k, v)| (k.route_id.clone(), v.clone())).collect();
    assert_eq!(
        flat,
        vec![
            (Some("a".to_string()), vec![2, 4, 5]),
            (Some("b".to_string()), vec![1, 3]),
            (Some("c".to_string()), vec![6]),
        ]
    );
}

#[test]
fn bitvec_set_and_read() {
    let mut bv = BitVec::with_size(11);
    bv.set(0);
    bv.set(8);
    bv.set(10);
    let bits = bv.to_vec();
    let expected = vec![
        true, false, false, false, false, false, false, false, true, false, true,
    ];
    assert_eq!(bits, expected);
    assert_eq!(bv.len(), 11);
}

#[test]
fn bitvec_empty() {
    let bv = BitVec::with_size(0);
    assert_eq!(bv.to_vec(), Vec::<bool>::new());
}

#[test]
fn bitvec_same_bits() {
    let mut a = BitVec::with_size(9);
    let mut b = BitVec::with_size(9);
    a.set(3);
    assert!(!a.same_bits(&b));
    b.set(3);
    assert!(a.same_bits(&b));
    assert!(!a.same_bits(&BitVec::with_size(8)));
}

#[test]
fn pattern_projection() {
    let stops = vec![1, 2, 3, 4];
    let bv = project_pattern(&stops, &vec![1, 3]);
    assert_eq!(bv.to_vec(), vec![true, false, true, false]);
    let bv = project_pattern(&stops, &vec![2, 4]);
    assert_eq!(bv.to_vec(), vec![false, true, false, true]);
}

#[test]
fn pattern_projection_is_forward_only() {
    // A visit that points backwards cannot be placed: the scan stops there.
    let stops = vec![1, 2, 3];
    let bv = project_pattern(&stops, &vec![3, 1]);
    assert_eq!(bv.to_vec(), vec![false, false, true]);
}

#[test]
fn pattern_counting() {
    let stops = vec![1, 2, 3];
    let full = project_pattern(&stops, &vec![1, 2, 3]);
    let express = project_pattern(&stops, &vec![1, 3]);
    let patterns = vec![full.clone(), express, full.clone(), full];
    // Tallies come out in ascending pattern order: the express pattern's
    // packed byte (0b1010_0000) sorts below the full pattern's
    // (0b1110_0000).
    let counts = count_patterns(patterns);
    assert_eq!(counts.len(), 2);
    assert_eq!(counts[0].0.to_vec(), vec![true, false, true]);
    assert_eq!(counts[0].1, 1);
    assert_eq!(counts[1].0.to_vec(), vec![true, true, true]);
    assert_eq!(counts[1].1, 3);
}

#[test]
fn column_filling() {
    let stops = vec![1, 2, 3];
    let times = vec![
        StopTime { stop: 1, arrival_time: Some(60), departure_time: Some(70) },
        StopTime { stop: 3, arrival_time: None, departure_time: Some(200) },
    ];
    let col = fill_column(&stops, &times);
    assert_eq!(col, vec![Some(60), None, Some(200)]);
}

#[test]
fn time_formatting() {
    assert_eq!(format_time_optional(None), "");
    assert_eq!(format_time_optional(Some(0)), "00:00:00");
    assert_eq!(format_time_optional(Some(3661)), "01:01:01");
    assert_eq!(format_time_optional(Some(86399)), "23:59:59");
    assert_eq!(format_time_optional(Some(90000)), "25:00:00");
    assert_eq!(format_time_optional(Some(360_061)), "100:01:01");
}

#[test]
fn table_cells() {
    let mut t: Table<String, u64, Option<u32>> = Table::new(vec![10, 20]);
    t.add_column("x".to_string(), None);
    t.add_column("y".to_string(), None);
    t.set_cell(0, 1, Some(5));
    t.set_cell(1, 0, Some(9));
    assert_eq!(t.col_headers(), &vec!["x".to_string(), "y".to_string()]);
    assert_eq!(t.row_headers(), &vec![10, 20]);
    assert_eq!(*t.cell(0, 0), None);
    assert_eq!(*t.cell(0, 1), Some(5));
    let rows = t.rows();
    assert_eq!(rows, vec![vec![None, Some(9)], vec![Some(5), None]]);
}

#[test]
fn args_default_groups_by_route() {
    let args = Args::default();
    assert!(!args.merge_routes);
    assert!(!args.direction_from_trip_name);
}

#[test]
fn dag_flatten_single_chain() {
    let mut dag = Dag::new();
    dag.insert_child(None, 10).unwrap();
    dag.insert_child(Some(10), 20).unwrap();
    dag.insert_child(Some(20), 30).unwrap();
    assert_eq!(dag.flatten().unwrap(), vec![10, 20, 30]);
}

#[test]
fn dag_missing_parent() {
    let mut dag = Dag::new();
    assert!(dag.insert_child(Some(99), 1).is_err());
}

#[test]
fn dag_duplicate_edges_collapse() {
    let mut dag = Dag::new();
    for _ in 0..3 {
        dag.insert_child(None, 1).unwrap();
        dag.insert_child(Some(1), 2).unwrap();
    }
    assert_eq!(dag.flatten().unwrap(), vec![1, 2]);
}

#[test]
fn dag_cycle_reported() {
    let mut dag = Dag::new();
    dag.insert_child(None, 1).unwrap();
    dag.insert_child(Some(1), 2).unwrap();
    dag.insert_child(Some(2), 1).unwrap();
    assert!(dag.flatten().is_err());
}

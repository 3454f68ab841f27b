use hyperpaths_rs::{intern, verbose, Graph};
use std::sync::atomic::{AtomicBool, Ordering};

fn names(v: &[&str]) -> Vec<String> {
    v.iter().map(|s| s.to_string()).collect()
}

fn ends(v: &[(&str, &str)]) -> Vec<(String, String)> {
    v.iter().map(|(a, b)| (a.to_string(), b.to_string())).collect()
}

/// The network of the paper's worked example.
fn paper() -> Graph<u32> {
    let stops = names(&["A", "X", "X2", "Y", "Y3", "B"]);
    let e = ends(&[
        ("A", "B"),
        ("A", "X2"),
        ("X2", "X"),
        ("X", "X2"),
        ("X2", "Y"),
        ("Y3", "Y"),
        ("Y", "B"),
        ("X", "Y3"),
        ("Y", "Y3"),
        ("Y3", "B"),
    ]);
    Graph::new(&stops, &e, (0..10).collect())
}

#[test]
fn stops_get_the_first_ids() {
    let g = paper();
    assert_eq!(g.num_nodes(), 6);
    assert_eq!(g.num_links(), 10);
    for (id, name) in ["A", "X", "X2", "Y", "Y3", "B"].iter().enumerate() {
        assert_eq!(g.node_index(name), Some(id));
        assert_eq!(g.node_name(id), *name);
    }
    assert_eq!(g.node_index("Z"), None);
}

#[test]
fn links_know_their_ends_and_payload() {
    let g = paper();
    assert_eq!(g.link_from(0), 0);
    assert_eq!(g.link_to(0), 5);
    assert_eq!(g.link_from(7), 1);
    assert_eq!(g.link_to(7), 4);
    assert_eq!(*g.link_payload(9), 9);
}

#[test]
fn incoming_links_are_exactly_those_entering() {
    let g = paper();
    assert_eq!(g.incoming_links(5).clone(), vec![0, 6, 9]);
    assert_eq!(g.incoming_links(3).clone(), vec![4, 5]);
    assert_eq!(g.incoming_links(0).clone(), Vec::<usize>::new());
    assert_eq!(g.incoming_links(4).clone(), vec![7, 8]);
}

#[test]
fn endpoints_outside_the_stops_are_appended() {
    let stops = names(&["S1", "S2"]);
    let e = ends(&[("S1", "P1"), ("P1", "P2"), ("P2", "S2"), ("S2", "P1")]);
    let g = Graph::new(&stops, &e, vec![(); 4]);
    assert_eq!(g.num_nodes(), 4);
    assert_eq!(g.node_index("P1"), Some(2));
    assert_eq!(g.node_index("P2"), Some(3));
    assert_eq!(g.node_name(3), "P2");
    assert_eq!(g.incoming_links(2).clone(), vec![0, 3]);
}

#[test]
fn repeated_stops_are_interned_once() {
    let stops = names(&["A", "B", "A"]);
    let g = Graph::new(&stops, &ends(&[("B", "A")]), vec![1u8]);
    assert_eq!(g.num_nodes(), 2);
    assert_eq!(g.node_index("A"), Some(0));
    assert_eq!(g.link_from(0), 1);
    assert_eq!(g.link_to(0), 0);
}

#[test]
fn empty_network() {
    let g: Graph<u8> = Graph::new(&Vec::new(), &Vec::new(), Vec::new());
    assert_eq!(g.num_nodes(), 0);
    assert_eq!(g.num_links(), 0);
    assert_eq!(g.node_index(""), None);
}

#[test]
fn intern_gives_dense_ids_and_is_idempotent() {
    let mut ids = vstd::hash_map::StringHashMap::new();
    let mut table: Vec<String> = Vec::new();
    assert_eq!(intern("B", &mut ids, &mut table), 0);
    assert_eq!(intern("A", &mut ids, &mut table), 1);
    assert_eq!(intern("B", &mut ids, &mut table), 0);
    assert_eq!(table, names(&["B", "A"]));
    assert_eq!(ids.len(), 2);
}

#[test]
fn verbose_reads_the_flag() {
    let flag = AtomicBool::new(false);
    assert!(!verbose(&flag));
    flag.store(true, Ordering::Relaxed);
    assert!(verbose(&flag));
}

#[test]
fn od_entries_go_to_their_destination_column() {
    let g = paper();
    let mut cols: Vec<Vec<(usize, f64)>> = vec![vec![(9, 9.0)]; g.num_nodes()];
    hyperpaths_rs::clear_columns(&mut cols);
    assert!(cols.iter().all(|c| c.is_empty()));
    assert_eq!(cols.len(), 6);
    g.route_to_destination(0, "B", 1.0, &mut cols);
    g.route_to_destination(3, "B", 2.5, &mut cols);
    g.route_to_destination(0, "Y", 4.0, &mut cols);
    g.route_to_destination(1, "nowhere", 7.0, &mut cols);
    assert_eq!(cols[5], vec![(0, 1.0), (3, 2.5)]);
    assert_eq!(cols[3], vec![(0, 4.0)]);
    assert_eq!(cols.iter().map(|c| c.len()).sum::<usize>(), 3);
}

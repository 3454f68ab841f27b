//! End-to-end runs of the optimal-strategy search and the demand loading on
//! the arena, the heap and the attractive set of the library, with the
//! floating-point label arithmetic written out here.

use hyperpaths_rs::{Admission, AttractiveSet, Graph, PriorityQueue};

const SIGN: u64 = 1 << 63;
const EPS: f64 = 1e-9;

fn key_of(x: f64) -> u64 {
    let bits = (x + 0.0).to_bits();
    if bits & SIGN != 0 {
        !bits
    } else {
        bits | SIGN
    }
}

fn value_of(key: u64) -> f64 {
    let bits = if key & SIGN != 0 { key & !SIGN } else { !key };
    f64::from_bits(bits)
}

#[derive(Clone, Copy)]
struct Costs {
    cost: f64,
    head: f64,
}

struct Solved {
    labels: Vec<f64>,
    freqs: Vec<f64>,
    a_set: Vec<usize>,
}

fn network(stops: &[&str], links: &[(&str, &str, f64, f64)]) -> Graph<Costs> {
    let stops: Vec<String> = stops.iter().map(|s| s.to_string()).collect();
    let ends: Vec<(String, String)> = links
        .iter()
        .map(|l| (l.0.to_string(), l.1.to_string()))
        .collect();
    let costs: Vec<Costs> = links
        .iter()
        .map(|l| Costs {
            cost: l.2,
            head: l.3,
        })
        .collect();
    Graph::new(&stops, &ends, costs)
}

fn solve(g: &Graph<Costs>, dest: usize) -> Solved {
    let n = g.num_nodes();
    let m = g.num_links();
    let mut u = vec![f64::INFINITY; n];
    let mut f: Vec<f64> = vec![0.0; n];
    u[dest] = 0.0;
    let mut set = AttractiveSet::new(n, m / 2);
    let mut pq = PriorityQueue::with_capacity(m);
    for k in 0..m {
        pq.push(k, key_of(u[g.link_to(k)] + g.link_payload(k).cost));
    }
    pq.init();
    while pq.len() > 0 {
        let id = pq.pop().unwrap();
        let priority = value_of(pq.priority(id));
        if priority.is_infinite() && priority > 0.0 {
            break;
        }
        let k = pq.link(id);
        let (i, j) = (g.link_from(k), g.link_to(k));
        let Costs { cost, head } = *g.link_payload(k);
        let sum_uc = u[j] + cost;
        match set.offer(i, k, f[i].is_infinite(), !(u[i] <= sum_uc), head <= 0.0) {
            Admission::NodeClosed | Admission::NotImproving => continue,
            Admission::ReplacedBasket => {
                u[i] = sum_uc;
                f[i] = f64::INFINITY;
            }
            Admission::JoinedBasket => {
                let freq = 1.0 / head;
                u[i] = if f[i] == 0.0 {
                    (1.0 + freq * sum_uc) / freq
                } else {
                    (f[i] * u[i] + freq * sum_uc) / (f[i] + freq)
                };
                f[i] += freq;
            }
        }
        for &kk in g.incoming_links(i) {
            pq.update(kk, key_of(u[i] + g.link_payload(kk).cost));
        }
    }
    let mut a_set = Vec::new();
    set.collect_links(&mut a_set);
    Solved {
        labels: u,
        freqs: f,
        a_set,
    }
}

/// Loads `demand` (per node, heading to `dest`) in reverse acceptance order;
/// returns link and node volumes.
fn load(g: &Graph<Costs>, s: &Solved, dest: usize, demand: &[f64]) -> (Vec<f64>, Vec<f64>) {
    let mut node_vol = vec![0.0; g.num_nodes()];
    let mut total = 0.0;
    for (id, &d) in demand.iter().enumerate() {
        if id != dest && d != 0.0 {
            node_vol[id] = d;
            total += d;
        }
    }
    node_vol[dest] = -total;
    let mut link_vol = vec![0.0; g.num_links()];
    for &k in s.a_set.iter().rev() {
        let i = g.link_from(k);
        let va = if s.freqs[i].is_infinite() {
            node_vol[i]
        } else {
            (1.0 / g.link_payload(k).head / s.freqs[i]) * node_vol[i]
        };
        link_vol[k] = va;
        node_vol[g.link_to(k)] += va;
    }
    (link_vol, node_vol)
}

fn paper() -> Graph<Costs> {
    network(
        &["A", "X", "X2", "Y", "Y3", "B"],
        &[
            ("A", "B", 25.0, 6.0),
            ("A", "X2", 7.0, 6.0),
            ("X2", "X", 0.0, 0.0),
            ("X", "X2", 0.0, 6.0),
            ("X2", "Y", 6.0, 0.0),
            ("Y3", "Y", 0.0, 15.0),
            ("Y", "B", 10.0, 3.0),
            ("X", "Y3", 4.0, 15.0),
            ("Y", "Y3", 0.0, 15.0),
            ("Y3", "B", 4.0, 0.0),
        ],
    )
}

fn label(g: &Graph<Costs>, s: &Solved, name: &str) -> f64 {
    s.labels[g.node_index(name).unwrap()]
}

fn freq(g: &Graph<Costs>, s: &Solved, name: &str) -> f64 {
    s.freqs[g.node_index(name).unwrap()]
}

#[test]
fn paper_network_labels_and_attractive_set() {
    let g = paper();
    let s = solve(&g, g.node_index("B").unwrap());
    let want = [
        ("A", 27.75),
        ("X", 19.071428571428573),
        ("X2", 17.5),
        ("Y", 11.5),
        ("Y3", 4.0),
        ("B", 0.0),
    ];
    for (name, v) in want {
        assert!((label(&g, &s, name) - v).abs() <= EPS, "label {}", name);
    }
    assert!((freq(&g, &s, "A") - 1.0 / 3.0).abs() <= EPS);
    assert!((freq(&g, &s, "X") - 7.0 / 30.0).abs() <= EPS);
    assert!(freq(&g, &s, "X2").is_infinite());
    assert!((freq(&g, &s, "Y") - 0.4).abs() <= EPS);
    assert!(freq(&g, &s, "Y3").is_infinite());
    assert_eq!(freq(&g, &s, "B"), 0.0);
    // the paper's order (Spiess & Florian 1989, p. 93-94)
    assert_eq!(s.a_set, vec![9, 8, 7, 6, 4, 3, 1, 0]);
}

#[test]
fn paper_network_demand_loading() {
    let g = paper();
    let dest = g.node_index("B").unwrap();
    let s = solve(&g, dest);
    let mut demand = vec![0.0; g.num_nodes()];
    demand[g.node_index("A").unwrap()] = 1.0;
    let (links, nodes) = load(&g, &s, dest, &demand);
    let want = [0.5, 0.5, 0.0, 0.0, 0.5, 0.0, 5.0 / 12.0, 0.0, 1.0 / 12.0, 1.0 / 12.0];
    for (k, v) in want.iter().enumerate() {
        assert!((links[k] - v).abs() <= EPS, "link {}", k);
    }
    let want_nodes = [
        ("A", 1.0),
        ("X2", 0.5),
        ("X", 0.0),
        ("Y3", 1.0 / 12.0),
        ("Y", 0.5),
        ("B", 0.0),
    ];
    for (name, v) in want_nodes {
        assert!((nodes[g.node_index(name).unwrap()] - v).abs() <= EPS, "node {}", name);
    }
}

#[test]
fn no_wait_link_replaces_a_boarding_basket() {
    let g = network(
        &["I", "W", "D"],
        &[("I", "D", 4.0, 6.0), ("I", "W", 3.0, 0.0), ("W", "D", 2.0, 0.0)],
    );
    let s = solve(&g, g.node_index("D").unwrap());
    assert!((label(&g, &s, "I") - 5.0).abs() <= 1e-12);
    assert!((label(&g, &s, "W") - 2.0).abs() <= 1e-12);
    assert!(freq(&g, &s, "I").is_infinite());
    assert!(freq(&g, &s, "W").is_infinite());
    assert_eq!(s.a_set.len(), 2);
    for &k in &s.a_set {
        assert_eq!(g.link_payload(k).head, 0.0);
    }
}

#[test]
fn zero_cost_chain_loads_inflow_before_outflow() {
    let g = network(
        &["S1", "B0", "B1", "S2", "S3"],
        &[
            ("S1", "B0", 0.0, 5.0),
            ("B0", "B1", 10.0, 0.0),
            ("B1", "S2", 0.0, 0.0),
            ("S2", "S3", 4.0, 0.0),
        ],
    );
    let dest = g.node_index("S3").unwrap();
    let s = solve(&g, dest);
    assert!((label(&g, &s, "S1") - 19.0).abs() <= 1e-12);
    let mut demand = vec![0.0; g.num_nodes()];
    demand[g.node_index("S1").unwrap()] = 100.0;
    let (links, _) = load(&g, &s, dest, &demand);
    for k in 0..4 {
        assert!((links[k] - 100.0).abs() <= 1e-12, "link {}", k);
    }
}

#[test]
fn unreachable_nodes_keep_infinite_labels() {
    let g = network(&["A", "B", "C"], &[("A", "B", 1.0, 2.0)]);
    let s = solve(&g, g.node_index("A").unwrap());
    assert!(label(&g, &s, "B").is_infinite());
    assert!(label(&g, &s, "C").is_infinite());
    assert_eq!(label(&g, &s, "A"), 0.0);
    assert!(s.a_set.is_empty());
}

/// The expanded route grid: an eastbound line per row and a southbound line
/// per column, each with boarding, riding and alighting links.
fn grid(rows: usize, cols: usize, headway: f64, seg_time: f64) -> Graph<Costs> {
    let stop = |r: usize, c: usize| format!("s_{}_{}", r, c);
    let mut stops = Vec::new();
    for r in 0..rows {
        for c in 0..cols {
            stops.push(stop(r, c));
        }
    }
    let mut links: Vec<(String, String, f64, f64)> = Vec::new();
    let mut add_line = |id: &str, seq: &[String]| {
        let platform = |i: usize| format!("{}#{}", id, i);
        for i in 0..seq.len() {
            if i < seq.len() - 1 {
                links.push((seq[i].clone(), platform(i), 0.0, headway));
                links.push((platform(i), platform(i + 1), seg_time, 0.0));
            }
            if i > 0 {
                links.push((platform(i), seq[i].clone(), 0.0, 0.0));
            }
        }
    };
    for r in 0..rows {
        let seq: Vec<String> = (0..cols).map(|c| stop(r, c)).collect();
        add_line(&format!("R{}", r), &seq);
    }
    for c in 0..cols {
        let seq: Vec<String> = (0..rows).map(|r| stop(r, c)).collect();
        add_line(&format!("C{}", c), &seq);
    }
    let ends = links.iter().map(|l| (l.0.clone(), l.1.clone())).collect();
    let costs = links
        .iter()
        .map(|l| Costs {
            cost: l.2,
            head: l.3,
        })
        .collect();
    Graph::new(&stops, &ends, costs)
}

#[test]
fn grid_network_reference_values() {
    let g = grid(4, 4, 6.0, 3.0);
    let dest = g.node_index("s_3_3").unwrap();
    let s = solve(&g, dest);
    assert!((label(&g, &s, "s_0_0") - 27.0).abs() < EPS);
    assert!((label(&g, &s, "s_2_1") - 18.0).abs() < EPS);
    assert!((freq(&g, &s, "s_0_0") - 1.0 / 3.0).abs() < EPS);
    assert_eq!(s.a_set.len(), 56);
    let mut demand = vec![0.0; g.num_nodes()];
    for r in 0..4 {
        for c in 0..4 {
            demand[g.node_index(&format!("s_{}_{}", r, c)).unwrap()] = 1.0;
        }
    }
    let (links, _) = load(&g, &s, dest, &demand);
    let total: f64 = links.iter().sum();
    assert!((total - 96.0).abs() < EPS, "total volume {}", total);
}

#[test]
fn time_keys_keep_the_order_of_times() {
    let times = [
        f64::NEG_INFINITY,
        -1e300,
        -2.5,
        -1.0,
        -0.0,
        0.0,
        1e-300,
        0.5,
        1.0,
        4.0,
        27.75,
        1e300,
        f64::INFINITY,
    ];
    for a in times {
        assert_eq!(value_of(key_of(a)), a);
        for b in times {
            assert_eq!(a <= b, key_of(a) <= key_of(b), "{} {}", a, b);
        }
    }
}

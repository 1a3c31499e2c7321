use std::collections::HashSet;
use std::f64::consts::PI;

use rand::rngs::StdRng;
use rand::{Rng, SeedableRng};

use sim_server::connectivity::ConnectivityScratch;
use sim_server::forest::Forest;
use sim_server::link_detection::{
    brute_force_edge_keys, compute_grid_edges, ordered_pair, wire_pair_key, Candidate, Edge,
    NodeKey,
};
use sim_server::mesh_depth::{census, depths_from_towers, Neighbors};
use sim_server::spatial_grid::{Cell, SpatialGrid, Window};
use sim_server::tower::Tower;
use sim_server::union_find::UnionFind;

#[test]
fn unions_and_finds() {
    let mut uf = UnionFind::new();
    let a = NodeKey::Balloon(0);
    let b = NodeKey::Balloon(1);
    let c = NodeKey::Balloon(2);
    uf.make_set(a);
    uf.make_set(b);
    uf.make_set(c);
    uf.union(a, b);
    assert_eq!(uf.find(a), uf.find(b));
    assert_ne!(uf.find(a), uf.find(c));
    uf.union(b, c);
    assert_eq!(uf.find(a), uf.find(c));
}

#[test]
fn clearing_a_union_find_forgets_every_union() {
    let mut uf = UnionFind::new();
    uf.union(NodeKey::Balloon(3), NodeKey::Tower(3));
    assert_eq!(uf.find(NodeKey::Balloon(3)), NodeKey::Tower(3));
    uf.clear();
    assert_eq!(uf.find(NodeKey::Balloon(3)), NodeKey::Balloon(3));
    assert_eq!(uf.find(NodeKey::Tower(3)), NodeKey::Tower(3));
}

#[test]
fn a_forest_joins_and_resets() {
    let mut f = Forest::new(6);
    f.union(0, 1);
    f.union(2, 3);
    f.union(1, 3);
    assert_eq!(f.find(0), f.find(2));
    assert_eq!(f.find(0), 3);
    assert_ne!(f.find(0), f.find(4));
    f.reset();
    for i in 0..6 {
        assert_eq!(f.find(i), i);
    }
    assert_eq!(f.size(), 6);
}

#[test]
fn wire_forms() {
    assert_eq!(NodeKey::Balloon(12).to_wire(), "b12");
    assert_eq!(NodeKey::Tower(3).to_wire(), "t3");
    assert_eq!(wire_pair_key(NodeKey::Tower(3), NodeKey::Balloon(12)), "b12|t3");
    assert_eq!(wire_pair_key(NodeKey::Balloon(12), NodeKey::Tower(3)), "b12|t3");
    assert_eq!(wire_pair_key(NodeKey::Balloon(10), NodeKey::Balloon(9)), "b9|b10");
    assert_eq!(
        ordered_pair(NodeKey::Tower(1), NodeKey::Tower(0)),
        (NodeKey::Tower(0), NodeKey::Tower(1))
    );
}

// The geometry that the library leaves to its callers.

const EARTH_KM: f64 = 6371.0;
const CELL_DEG: f64 = 6.0;

#[derive(Clone, Copy)]
struct Node {
    key: NodeKey,
    lon: f64,
    lat: f64,
    horizon: f64,
}

fn horizon(height_m: f64, coeff: f64) -> f64 {
    coeff * height_m.max(0.0).sqrt()
}

fn near(a: &Node, b: &Node) -> bool {
    let (p, q) = (a.lat.to_radians(), b.lat.to_radians());
    let s = ((q - p) / 2.0).sin();
    let t = ((b.lon.to_radians() - a.lon.to_radians()) / 2.0).sin();
    let h = s * s + p.cos() * q.cos() * t * t;
    2.0 * EARTH_KM * h.sqrt().asin() <= a.horizon + b.horizon
}

fn normal(lon: f64) -> f64 {
    ((lon + 180.0) % 360.0 + 360.0) % 360.0 - 180.0
}

fn cell(lon: f64, lat: f64) -> Cell {
    Cell { x: (normal(lon) / CELL_DEG).floor() as i64, y: (lat / CELL_DEG).floor() as i64 }
}

fn window(lon: f64, lat: f64, range: f64) -> Window {
    let angle = range / EARTH_KM;
    let step = CELL_DEG.to_radians();
    let rows = ((angle / step).ceil() as i64).max(1);
    let half_width = if lat.abs().to_radians() + angle >= PI / 2.0 {
        PI
    } else {
        (angle.sin() / lat.to_radians().cos()).min(1.0).asin()
    };
    let cols = ((half_width / step).ceil() as i64).max(1);
    let base = normal(lon);
    let columns = (-cols..=cols)
        .map(|dx| (normal(base + dx as f64 * CELL_DEG) / CELL_DEG).floor() as i64)
        .collect();
    let row = (lat / CELL_DEG).floor() as i64;
    Window { columns, first_row: row - rows, last_row: row + rows }
}

fn field(towers: u32) -> Vec<Node> {
    let mut rng = StdRng::seed_from_u64(7);
    let mut nodes: Vec<Node> = Vec::new();
    for i in 0..300 {
        let lon = rng.gen::<f64>() * 360.0 - 180.0;
        let lat = rng.gen::<f64>() * 180.0 - 90.0;
        let alt = 15000.0 + rng.gen::<f64>() * 10000.0;
        nodes.push(Node { key: NodeKey::Balloon(i), lon, lat, horizon: horizon(alt, 4.12) });
    }
    for i in 0..towers {
        let lon = rng.gen::<f64>() * 360.0 - 180.0;
        let lat = rng.gen::<f64>() * 180.0 - 90.0;
        nodes.push(Node { key: NodeKey::Tower(i), lon, lat, horizon: horizon(30.0, 4.12) });
    }
    nodes
}

fn rows_of(nodes: &[Node]) -> Vec<Vec<Candidate>> {
    let range = 2.0 * horizon(25000.0, 4.12);
    let mut grid = SpatialGrid::new();
    grid.clear();
    for (i, n) in nodes.iter().enumerate() {
        grid.insert(i, cell(n.lon, n.lat));
    }
    nodes
        .iter()
        .map(|n| {
            grid.neighbors(&window(n.lon, n.lat, range))
                .into_iter()
                .map(|j| Candidate { index: j, in_range: near(n, &nodes[j]) })
                .collect()
        })
        .collect()
}

fn pairs(edges: &[Edge]) -> HashSet<(NodeKey, NodeKey)> {
    edges.iter().map(|e| ordered_pair(e.a, e.b)).collect()
}

fn truth(nodes: &[Node]) -> HashSet<(NodeKey, NodeKey)> {
    let keys: Vec<NodeKey> = nodes.iter().map(|n| n.key).collect();
    let table: Vec<Vec<bool>> =
        nodes.iter().map(|a| nodes.iter().map(|b| near(a, b)).collect()).collect();
    brute_force_edge_keys(&keys, &table).into_iter().collect()
}

#[test]
fn grid_matches_brute_force_ground_truth() {
    let nodes = field(12);
    let keys: Vec<NodeKey> = nodes.iter().map(|n| n.key).collect();
    let edges = compute_grid_edges(&keys, &rows_of(&nodes));
    let found = pairs(&edges);
    let truth = truth(&nodes);
    let missed: Vec<_> = truth.difference(&found).collect();
    let spurious: Vec<_> = found.difference(&truth).collect();
    assert!(missed.is_empty(), "grid algorithm missed real edges: {missed:?}");
    assert!(spurious.is_empty(), "grid algorithm found edges that aren't real: {spurious:?}");
    assert_eq!(edges.len(), found.len());
    assert!(found.len() > 100);
}

#[test]
fn pole_wraparound_edges_are_not_missed() {
    let nodes = field(0);
    let keys: Vec<NodeKey> = nodes.iter().map(|n| n.key).collect();
    let found = pairs(&compute_grid_edges(&keys, &rows_of(&nodes)));
    let truth = truth(&nodes);
    let missed: Vec<_> = truth.difference(&found).collect();
    assert!(missed.is_empty(), "reproduces the polar gap: {missed:?}");
}

/// Just below the latitude where the window goes all the way round it has to
/// reach far to the sides.
#[test]
fn wide_links_at_high_latitudes_are_not_missed() {
    let mut nodes: Vec<Node> = Vec::new();
    for k in 0..120u32 {
        let lat = 70.0 + (k % 12) as f64 * 0.5;
        let lon = -180.0 + (k / 12) as f64 * 36.0 + (k % 12) as f64 * 7.0;
        let key = NodeKey::Balloon(k);
        nodes.push(Node { key, lon, lat, horizon: horizon(25000.0, 4.12) });
    }
    let keys: Vec<NodeKey> = nodes.iter().map(|n| n.key).collect();
    let found = pairs(&compute_grid_edges(&keys, &rows_of(&nodes)));
    assert_eq!(found, truth(&nodes));
}

/// The index-based search grounds exactly those balloons that a search over
/// the links reaches from a tower, and depth says the same.
#[test]
fn grounded_balloons_are_those_with_a_depth() {
    let nodes = field(12);
    let keys: Vec<NodeKey> = nodes.iter().map(|n| n.key).collect();
    let rows = rows_of(&nodes);
    let edges = compute_grid_edges(&keys, &rows);
    let ids: Vec<u32> = (0..300).collect();
    let towers: Vec<Tower> = (0..12).map(|i| Tower::new(i, 0, 0, 0)).collect();

    let mut scratch = ConnectivityScratch::new(300, 12);
    let grounded = scratch.grounded_balloon_ids(&ids, 12, &rows);
    let again = scratch.grounded_balloon_ids(&ids, 12, &rows);
    assert_eq!(grounded, again);

    let depths = depths_from_towers(&edges, &towers, &keys);
    for id in &ids {
        assert_eq!(grounded.contains(id), depths.get(NodeKey::Balloon(*id)).is_some());
    }
    let adj = Neighbors::of(&edges);
    let c = census(&ids, &adj, &depths);
    assert_eq!(c.reached.len(), grounded.len());
    assert_eq!(c.unreachable as usize, 300 - grounded.len());
    assert!(c.reached.windows(2).all(|w| w[0] <= w[1]));
    let ends: usize = edges
        .iter()
        .map(|e| {
            matches!(e.a, NodeKey::Balloon(_)) as usize
                + matches!(e.b, NodeKey::Balloon(_)) as usize
        })
        .sum();
    assert_eq!(c.deg_total, ends as u128);
}

#[test]
fn depth_counts_hops_along_a_chain() {
    let b = NodeKey::Balloon;
    let edges = vec![
        Edge { a: NodeKey::Tower(0), b: b(0) },
        Edge { a: b(0), b: b(1) },
        Edge { a: b(2), b: b(1) },
        Edge { a: b(3), b: b(4) },
    ];
    let towers = vec![Tower::new(0, 0, 0, 0)];
    let keys = vec![NodeKey::Tower(0), b(0), b(1), b(2), b(3), b(4)];
    let depths = depths_from_towers(&edges, &towers, &keys);
    assert_eq!(depths.get(NodeKey::Tower(0)), Some(0));
    assert_eq!(depths.get(b(0)), Some(1));
    assert_eq!(depths.get(b(1)), Some(2));
    assert_eq!(depths.get(b(2)), Some(3));
    assert_eq!(depths.get(b(3)), None);
    let adj = Neighbors::of(&edges);
    assert_eq!(adj.degree(b(1)), 2);
    assert_eq!(adj.degree(b(9)), 0);
    let c = census(&vec![0, 1, 2, 3, 4, 5], &adj, &depths);
    assert_eq!(c.reached, vec![1, 2, 3]);
    assert_eq!(c.unreachable, 3);
    assert_eq!(c.isolated, 1);
    assert_eq!(c.deg_total, 7);
}

#[test]
fn each_pair_is_looked_at_once() {
    let keys = vec![NodeKey::Balloon(0), NodeKey::Balloon(1)];
    let yes = Candidate { index: 1, in_range: true };
    let back = Candidate { index: 0, in_range: false };
    let own = Candidate { index: 0, in_range: true };
    let edges = compute_grid_edges(&keys, &vec![vec![own, yes, yes], vec![back]]);
    assert_eq!(edges, vec![Edge { a: keys[0], b: keys[1] }]);
    let none = compute_grid_edges(&keys, &vec![vec![], vec![back]]);
    assert!(none.is_empty());
}

#[test]
fn a_window_shows_its_cells_in_order() {
    let mut grid = SpatialGrid::new();
    grid.insert(4, Cell { x: -1, y: 0 });
    grid.insert(5, Cell { x: 0, y: 1 });
    grid.insert(6, Cell { x: 0, y: 0 });
    grid.insert(7, Cell { x: 0, y: 0 });
    grid.insert(8, Cell { x: 0, y: 5 });
    let w = Window { columns: vec![0, -1], first_row: -1, last_row: 1 };
    assert_eq!(grid.neighbors(&w), vec![6, 7, 5, 4]);
    let empty = Window { columns: vec![0, -1], first_row: 1, last_row: 0 };
    assert!(grid.neighbors(&empty).is_empty());
    grid.soft_clear();
    assert!(grid.neighbors(&w).is_empty());
    grid.insert(9, Cell { x: -1, y: -1 });
    assert_eq!(grid.neighbors(&w), vec![9]);
}

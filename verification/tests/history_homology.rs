use lau_plato_nervous::history_homology::{persistence_barcode_dim0, EventComplex, HistoryEvent};

fn make_event(id: &str, ts: f64) -> HistoryEvent {
    HistoryEvent {
        id: id.into(),
        timestamp: ts.to_bits(),
        event_type: "test".into(),
        payload: "".into(),
    }
}

/// The proximity matrix of the events at threshold `epsilon`.
fn within(events: &[HistoryEvent], epsilon: f64) -> Vec<Vec<bool>> {
    events
        .iter()
        .map(|a| {
            events
                .iter()
                .map(|b| (f64::from_bits(a.timestamp) - f64::from_bits(b.timestamp)).abs() <= epsilon)
                .collect()
        })
        .collect()
}

fn rips(events: Vec<HistoryEvent>, epsilon: f64, max_dim: usize) -> EventComplex {
    let w = within(&events, epsilon);
    EventComplex::build_rips(events, &w, max_dim)
}

#[test]
fn test_empty_complex() {
    let c = EventComplex::new();
    assert!(c.is_empty());
    let betti = c.betti_numbers();
    assert!(betti.is_empty() || betti[0] == 0);
}

#[test]
fn test_single_event() {
    let events = vec![make_event("e1", 0.0)];
    let c = rips(events, 1.0, 2);
    assert_eq!(c.len(), 1);
    let betti = c.betti_numbers();
    assert_eq!(betti[0], 1); // one component
}

#[test]
fn test_two_events_connected() {
    let events = vec![make_event("e1", 0.0), make_event("e2", 0.5)];
    let c = rips(events, 1.0, 2);
    assert_eq!(c.connected_components(), 1);
}

#[test]
fn test_two_events_disconnected() {
    let events = vec![make_event("e1", 0.0), make_event("e2", 10.0)];
    let c = rips(events, 1.0, 2);
    assert_eq!(c.connected_components(), 2);
}

#[test]
fn test_triangle_complex() {
    let events = vec![make_event("e1", 0.0), make_event("e2", 1.0), make_event("e3", 2.0)];
    let c = rips(events, 2.5, 2);
    assert!(c.simplices[1].len() >= 2); // at least 2 edges
    assert!(c.connected_components() >= 1);
}

#[test]
fn test_boundary_matrix_dim1() {
    let events = vec![make_event("e1", 0.0), make_event("e2", 1.0), make_event("e3", 2.0)];
    let c = rips(events, 2.5, 2);
    let b1 = c.boundary_matrix(1);
    assert!(b1.nrows() > 0 || c.simplices[0].len() == 0);
}

#[test]
fn test_betti_numbers_single_point() {
    let events = vec![make_event("e1", 0.0)];
    let c = rips(events, 1.0, 2);
    let betti = c.betti_numbers();
    assert_eq!(betti[0], 1);
}

#[test]
fn test_persistence_barcode() {
    let events = vec![make_event("e1", 0.0), make_event("e2", 1.0), make_event("e3", 5.0)];
    let epsilons = vec![0.5, 1.5, 3.0, 6.0];
    let ws: Vec<Vec<Vec<bool>>> = epsilons.iter().map(|&e| within(&events, e)).collect();
    let eps_bits: Vec<u64> = epsilons.iter().map(|e: &f64| e.to_bits()).collect();
    let barcode = persistence_barcode_dim0(&events, &eps_bits, &ws);
    assert!(!barcode.is_empty());
}

#[test]
fn rips_triangle_levels_and_boundaries() {
    let events = vec![make_event("e1", 0.0), make_event("e2", 1.0), make_event("e3", 2.0)];
    let c = rips(events, 2.5, 2);
    assert_eq!(c.simplices.len(), 3);
    assert_eq!(c.simplices[0], vec![vec![0], vec![1], vec![2]]);
    assert_eq!(c.simplices[1], vec![vec![0, 1], vec![0, 2], vec![1, 2]]);
    assert_eq!(c.simplices[2], vec![vec![0, 1, 2]]);
    // ∂1: columns are edges, rows vertices; face p of [i, j] signed (-1)^p
    let b1 = c.boundary_matrix(1).to_rows();
    assert_eq!(b1, vec![vec![-1, -1, 0], vec![1, 0, -1], vec![0, 1, 1]]);
    // ∂2 of [0,1,2]: faces [1,2] (+), [0,2] (-), [0,1] (+)
    let b2 = c.boundary_matrix(2).to_rows();
    assert_eq!(b2, vec![vec![1], vec![-1], vec![1]]);
    assert_eq!(c.boundary_matrix(0).nrows(), 0);
    assert_eq!(c.boundary_matrix(3).ncols(), 0);
    // a filled triangle: one component, no holes
    assert_eq!(c.betti_numbers(), vec![1, 0, 0]);
}

#[test]
fn rips_path_has_no_triangle() {
    let events = vec![make_event("e1", 0.0), make_event("e2", 1.0), make_event("e3", 2.0)];
    let c = rips(events, 1.0, 3);
    assert_eq!(c.simplices.len(), 4);
    assert_eq!(c.simplices[1], vec![vec![0, 1], vec![1, 2]]);
    assert!(c.simplices[2].is_empty());
    assert!(c.simplices[3].is_empty());
    assert_eq!(c.connected_components(), 1);
    // a path: one component, no cycle
    assert_eq!(c.betti_numbers(), vec![1, 0, 0, 0]);
}

#[test]
fn rips_four_points_two_clusters() {
    let events = vec![
        make_event("a", 0.0),
        make_event("b", 0.4),
        make_event("c", 9.0),
        make_event("d", 9.3),
    ];
    let c = rips(events, 0.5, 1);
    assert_eq!(c.simplices[1], vec![vec![0, 1], vec![2, 3]]);
    assert_eq!(c.connected_components(), 2);
}

#[test]
fn max_dim_zero_without_close_pairs() {
    let events = vec![make_event("a", 0.0), make_event("b", 5.0)];
    let c = rips(events, 1.0, 0);
    assert_eq!(c.simplices.len(), 1);
    assert_eq!(c.connected_components(), 2);
    assert_eq!(c.betti_numbers(), vec![2]);
}

#[test]
fn barcode_merges_and_survivors() {
    let events = vec![make_event("e1", 0.0), make_event("e2", 1.0), make_event("e3", 5.0)];
    let epsilons = vec![0.5, 1.5, 3.0, 6.0];
    let ws: Vec<Vec<Vec<bool>>> = epsilons.iter().map(|&e| within(&events, e)).collect();
    let eps_bits: Vec<u64> = epsilons.iter().map(|e: &f64| e.to_bits()).collect();
    let barcode = persistence_barcode_dim0(&events, &eps_bits, &ws);
    let decoded: Vec<(f64, Option<f64>)> = barcode
        .iter()
        .map(|&(b, d)| (f64::from_bits(b), d.map(f64::from_bits)))
        .collect();
    assert_eq!(decoded, vec![(0.5, Some(1.5)), (3.0, Some(6.0)), (0.0, None)]);
}

/// The product of two integer matrices given as rows.
fn product(a: &[Vec<i32>], b: &[Vec<i32>]) -> Vec<Vec<i32>> {
    let cols = if b.is_empty() { 0 } else { b[0].len() };
    a.iter()
        .map(|row| (0..cols).map(|j| row.iter().zip(b.iter()).map(|(x, r)| x * r[j]).sum()).collect())
        .collect()
}

#[test]
fn boundary_of_boundary_vanishes() {
    let events = vec![
        make_event("e1", 0.0),
        make_event("e2", 0.5),
        make_event("e3", 1.0),
        make_event("e4", 1.5),
    ];
    let c = rips(events, 2.0, 3);
    assert_eq!(c.simplices[1].len(), 6);
    assert_eq!(c.simplices[2].len(), 4);
    assert_eq!(c.simplices[3], vec![vec![0, 1, 2, 3]]);
    let b1 = c.boundary_matrix(1).to_rows();
    let b2 = c.boundary_matrix(2).to_rows();
    let b3 = c.boundary_matrix(3).to_rows();
    assert_eq!(product(&b1, &b2), vec![vec![0; 4]; 4]);
    assert_eq!(product(&b2, &b3), vec![vec![0]; 6]);
    assert!(b2.iter().any(|row| row.iter().any(|&v| v != 0)));
    // each column of ∂k has k + 1 entries, each +1 or -1
    for (m, k) in [(&b2, 2usize), (&b3, 3usize)] {
        for j in 0..m[0].len() {
            let nonzero: Vec<i32> = m.iter().map(|row| row[j]).filter(|&v| v != 0).collect();
            assert_eq!(nonzero.len(), k + 1);
            assert!(nonzero.iter().all(|&v| v == 1 || v == -1));
        }
    }
    // the triangles are exactly the 3-cliques: all four triples
    assert_eq!(c.simplices[2], vec![vec![0, 1, 2], vec![0, 1, 3], vec![0, 2, 3], vec![1, 2, 3]]);
}

fn barcode_of(events: &[HistoryEvent], epsilons: &[f64]) -> Vec<(u64, Option<u64>)> {
    let ws: Vec<Vec<Vec<bool>>> = epsilons.iter().map(|&e| within(events, e)).collect();
    let eps_bits: Vec<u64> = epsilons.iter().map(|e: &f64| e.to_bits()).collect();
    persistence_barcode_dim0(&events.to_vec(), &eps_bits, &ws)
}

#[test]
fn barcode_has_one_bar_per_event_for_growing_thresholds() {
    let events = vec![
        make_event("e1", 0.0),
        make_event("e2", 0.4),
        make_event("e3", 2.0),
        make_event("e4", 2.5),
        make_event("e5", 9.0),
    ];
    assert_eq!(barcode_of(&events, &[0.1, 0.5, 1.0, 2.0, 10.0]).len(), 5);
    assert_eq!(barcode_of(&events, &[]).len(), 5);
    assert!(barcode_of(&[], &[1.0]).is_empty());
}

#[test]
fn barcode_with_shrinking_thresholds_counts_survivors_again() {
    // 3.0 joins e1 and e2 (one bar), then 0.5 splits them again: 1 + 3 bars
    let events = vec![make_event("e1", 0.0), make_event("e2", 1.0), make_event("e3", 5.0)];
    assert_eq!(barcode_of(&events, &[3.0, 0.5]).len(), 4);
}

#[test]
fn betti_numbers_are_homology_ranks() {
    // two events within the threshold: one component
    let c = rips(vec![make_event("e1", 0.0), make_event("e2", 0.5)], 1.0, 2);
    assert_eq!(c.betti_numbers(), vec![1, 0, 0]);
    assert_eq!(c.betti_numbers()[0], c.connected_components());
    // a triangle cut at dimension 1 is a hollow cycle: β1 = 3 - 2 = 1
    let events = vec![make_event("e1", 0.0), make_event("e2", 1.0), make_event("e3", 2.0)];
    assert_eq!(rips(events.clone(), 2.5, 1).betti_numbers(), vec![1, 1]);
    // a filled tetrahedron cut at dimension 2 is a hollow sphere: β2 = 4 - 3 = 1
    let four = vec![
        make_event("e1", 0.0),
        make_event("e2", 0.5),
        make_event("e3", 1.0),
        make_event("e4", 1.5),
    ];
    assert_eq!(rips(four.clone(), 2.0, 2).betti_numbers(), vec![1, 0, 1]);
    assert_eq!(rips(four, 2.0, 3).betti_numbers(), vec![1, 0, 0, 0]);
    // two clusters
    let two = vec![make_event("a", 0.0), make_event("b", 0.4), make_event("c", 9.0)];
    assert_eq!(rips(two, 0.5, 1).betti_numbers(), vec![2, 0]);
}

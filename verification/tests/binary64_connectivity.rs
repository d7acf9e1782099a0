use lau_plato_nervous::binary64::less_than;
use lau_plato_nervous::connectivity::{component_labels, count_components};

#[test]
fn less_than_matches_binary64_comparison() {
    let values = [
        -f64::INFINITY,
        -3.5,
        -0.0,
        0.0,
        1e-300,
        2.0,
        f64::INFINITY,
        f64::NAN,
    ];
    for &a in &values {
        for &b in &values {
            assert_eq!(less_than(a.to_bits(), b.to_bits()), a < b, "{} < {}", a, b);
        }
    }
}

#[test]
fn components_of_small_graphs() {
    assert_eq!(count_components(0, &Vec::new()), 0);
    assert_eq!(count_components(4, &Vec::new()), 4);
    assert_eq!(count_components(4, &vec![(0, 1), (2, 3)]), 2);
    assert_eq!(count_components(5, &vec![(4, 0), (1, 4), (3, 3)]), 3);
    let labels = component_labels(5, &vec![(4, 0), (1, 4), (3, 3)]);
    assert_eq!(labels[0], labels[1]);
    assert_eq!(labels[0], labels[4]);
    assert_ne!(labels[0], labels[2]);
    assert_ne!(labels[2], labels[3]);
}

#[test]
fn more_edges_never_more_components() {
    let fewer = vec![(0, 1)];
    let more = vec![(1, 0), (2, 3), (3, 4)];
    assert_eq!(count_components(5, &fewer), 4);
    assert_eq!(count_components(5, &more), 2);
    let all = vec![(0, 1), (1, 2), (2, 3), (3, 4)];
    assert_eq!(count_components(5, &all), 1);
}

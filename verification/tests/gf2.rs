use lau_plato_nervous::gf2::gf2_rank;

fn rows(bits: &[&[u8]]) -> Vec<Vec<bool>> {
    bits.iter().map(|r| r.iter().map(|&b| b == 1).collect()).collect()
}

#[test]
fn gf2_rank_of_small_matrices() {
    assert_eq!(gf2_rank(rows(&[&[1, 0, 0], &[0, 1, 0], &[0, 0, 1]]), 3), 3);
    // the third row is the sum of the first two over GF(2)
    assert_eq!(gf2_rank(rows(&[&[1, 1, 0], &[0, 1, 1], &[1, 0, 1]]), 3), 2);
    assert_eq!(gf2_rank(rows(&[&[0, 0], &[0, 0]]), 2), 0);
    assert_eq!(gf2_rank(Vec::new(), 4), 0);
    assert_eq!(gf2_rank(rows(&[&[1, 1], &[1, 1], &[0, 1]]), 2), 2);
    // repeated rows add nothing
    assert_eq!(gf2_rank(rows(&[&[1, 0, 1, 1], &[1, 0, 1, 1], &[1, 0, 1, 1]]), 4), 1);
}

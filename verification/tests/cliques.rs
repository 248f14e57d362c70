use rust4d::clique_cells;

fn complete(n: usize) -> Vec<Vec<usize>> {
    (0..n).map(|i| (0..n).filter(|&j| j != i).collect()).collect()
}

#[test]
fn cliques_of_complete_graph_on_five_vertices() {
    let cells = clique_cells(&complete(5));
    let got: Vec<[usize; 4]> = cells.iter().map(|t| t.indices).collect();
    assert_eq!(
        got,
        vec![[0, 1, 2, 3], [0, 1, 2, 4], [0, 1, 3, 4], [0, 2, 3, 4], [1, 2, 3, 4]]
    );
}

#[test]
fn cliques_of_the_cross_polytope_graph() {
    // 8 vertices, 2a and 2a+1 antipodal: every other pair is an edge
    let adj: Vec<Vec<usize>> = (0..8)
        .map(|i: usize| (0..8).filter(|&j: &usize| j != i && j / 2 != i / 2).collect())
        .collect();
    let cells = clique_cells(&adj);
    assert_eq!(cells.len(), 16);
    for w in cells.windows(2) {
        assert!(w[0].indices < w[1].indices);
    }
    for t in &cells {
        let v = t.indices;
        for a in 0..4 {
            for b in (a + 1)..4 {
                assert_ne!(v[a] / 2, v[b] / 2);
            }
        }
    }
}

#[test]
fn cliques_none_in_a_cycle() {
    let adj = vec![vec![1, 3], vec![0, 2], vec![1, 3], vec![0, 2]];
    assert!(clique_cells(&adj).is_empty());
    assert!(clique_cells(&Vec::new()).is_empty());
}

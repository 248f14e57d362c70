use rust4d::mesh::rebase_cells;
use rust4d::{remap_cells, split_prism, validate_cells, MeshError, Tetrahedron};
use std::collections::HashSet;

fn edges(tets: &[Tetrahedron]) -> HashSet<(usize, usize)> {
    let mut e = HashSet::new();
    for t in tets {
        for i in 0..4 {
            for j in 0..4 {
                if i != j {
                    e.insert((t.indices[i], t.indices[j]));
                }
            }
        }
    }
    e
}

#[test]
fn split_prism_yields_three_proper_cells() {
    let mut out = Vec::new();
    split_prism([0, 1, 2, 3, 4, 5], &mut out);
    assert_eq!(out.len(), 3);
    for t in &out {
        let c = t.canonical();
        assert!(c[0] < c[1] && c[1] < c[2] && c[2] < c[3]);
        assert!(c.iter().all(|&v| v < 6));
    }
    assert!(validate_cells(6, &out).is_ok());
}

#[test]
fn split_prism_uses_lowest_index_diagonals() {
    // min is at position 4 (t1); quads b0 b1 t1 t0 and b1 b2 t2 t1 contain it
    let prism = [10, 11, 12, 13, 2, 14];
    let mut out = Vec::new();
    split_prism(prism, &mut out);
    let e = edges(&out);
    // quad 10 11 2 13: min 2 -> diagonal 10-2
    assert!(e.contains(&(10, 2)) && !e.contains(&(11, 13)));
    // quad 11 12 14 2: min 2 -> diagonal 12-2
    assert!(e.contains(&(12, 2)) && !e.contains(&(11, 14)));
    // quad 12 10 13 14: min 10 -> diagonal 10-14
    assert!(e.contains(&(10, 14)) && !e.contains(&(12, 13)));
}

#[test]
fn adjacent_prisms_agree_on_shared_quad() {
    // two prisms sharing the quad 1 2 5 4 (b1 b2 t2 t1 of the first)
    let mut a = Vec::new();
    split_prism([0, 1, 2, 3, 4, 5], &mut a);
    let mut b = Vec::new();
    split_prism([2, 1, 6, 5, 4, 7], &mut b);
    let ea = edges(&a);
    let eb = edges(&b);
    assert_eq!(ea.contains(&(1, 5)), eb.contains(&(1, 5)));
    assert_eq!(ea.contains(&(2, 4)), eb.contains(&(2, 4)));
}

#[test]
fn split_prism_appends_to_existing_cells() {
    let mut out = vec![Tetrahedron::new([9, 8, 7, 6])];
    split_prism([5, 4, 3, 2, 1, 0], &mut out);
    assert_eq!(out.len(), 4);
    assert_eq!(out[0].indices, [9, 8, 7, 6]);
    assert!(out[1..].iter().all(|t| t.indices[0] == 0));
}

#[test]
fn validate_reports_first_problem() {
    let ok = [Tetrahedron::new([0, 1, 2, 3])];
    assert_eq!(validate_cells(4, &ok), Ok(()));
    let oob = [Tetrahedron::new([0, 1, 2, 3]), Tetrahedron::new([0, 7, 9, 1])];
    assert_eq!(
        validate_cells(4, &oob),
        Err(MeshError::IndexOutOfBounds { tet: 1, index: 7 })
    );
    let degenerate = [Tetrahedron::new([0, 1, 1, 3])];
    assert_eq!(validate_cells(4, &degenerate), Err(MeshError::DegenerateCell { tet: 0 }));
    assert_eq!(
        MeshError::IndexOutOfBounds { tet: 1, index: 7 }.message(),
        "tetrahedron 1 references out-of-bounds vertex 7"
    );
    assert_eq!(
        MeshError::DegenerateCell { tet: 3 }.message(),
        "tetrahedron 3 has repeated vertex indices"
    );
}

#[test]
fn canonical_sorts_indices() {
    assert_eq!(Tetrahedron::new([3, 1, 2, 0]).canonical(), [0, 1, 2, 3]);
    assert_eq!(Tetrahedron::new([5, 5, 1, 9]).canonical(), [1, 5, 5, 9]);
}

#[test]
fn rebase_shifts_every_index() {
    let cells = [Tetrahedron::new([0, 1, 2, 3])];
    let moved = rebase_cells(&cells, 4);
    assert_eq!(moved[0].indices, [4, 5, 6, 7]);
}

#[test]
fn mesh_remap_cells_points_at_kept_vertices() {
    let tets = vec![Tetrahedron::new([0, 1, 2, 3]), Tetrahedron::new([4, 5, 6, 7])];
    let remap = vec![0, 1, 2, 3, 0, 1, 2, 3];
    let out = remap_cells(&tets, &remap);
    assert_eq!(out[0].indices, [0, 1, 2, 3]);
    assert_eq!(out[1].indices, [0, 1, 2, 3]);
}

use rust4d::{compute_tetrahedra, decompose_cell_to_tetrahedra};

#[test]
fn kuhn_tesseract_has_84_distinct_ascending_cells() {
    let tets = compute_tetrahedra();
    assert_eq!(tets.len(), 84);
    for (i, a) in tets.iter().enumerate() {
        let v = a.indices;
        assert!(v[0] < v[1] && v[1] < v[2] && v[2] < v[3]);
        assert!(v[3] < 16);
        for b in &tets[i + 1..] {
            assert_ne!(a.indices, b.indices);
        }
    }
}

#[test]
fn kuhn_first_cells_follow_the_first_axis_order() {
    let tets = compute_tetrahedra();
    assert_eq!(tets[0].indices, [1, 3, 7, 15]);
    assert_eq!(tets[1].indices, [0, 3, 7, 15]);
    assert_eq!(tets[4].indices, [0, 1, 3, 7]);
    assert_eq!(tets[5].indices, [1, 3, 11, 15]);
}

#[test]
fn kuhn_decomposition_offsets_by_base() {
    let plain = compute_tetrahedra();
    let shifted = decompose_cell_to_tetrahedra(32);
    assert_eq!(plain.len(), shifted.len());
    for (a, b) in plain.iter().zip(shifted.iter()) {
        for k in 0..4 {
            assert_eq!(a.indices[k] + 32, b.indices[k]);
        }
    }
}

#[test]
fn kuhn_cells_cover_both_diagonal_ends() {
    let tets = compute_tetrahedra();
    assert!(tets.iter().any(|t| t.indices.contains(&0)));
    assert!(tets.iter().all(|t| t.indices.contains(&0) || t.indices.contains(&15)));
}

use rust4d::{compute_tetrahedra, face_pairing, is_watertight, Tetrahedron};

#[test]
fn test_single_tet_is_not_watertight() {
    let tets = vec![Tetrahedron::new([0, 1, 2, 3])];
    assert!(!is_watertight(&tets));
    let (paired, unpaired) = face_pairing(&tets);
    assert_eq!((paired, unpaired), (0, 4));
}

#[test]
fn faces_pentachoron_boundary_is_watertight() {
    // the five facets of a 4-simplex, each in its own vertex order
    let tets = vec![
        Tetrahedron::new([1, 2, 3, 4]),
        Tetrahedron::new([0, 2, 3, 4]),
        Tetrahedron::new([4, 1, 0, 3]),
        Tetrahedron::new([0, 1, 2, 4]),
        Tetrahedron::new([3, 2, 1, 0]),
    ];
    assert_eq!(face_pairing(&tets), (10, 0));
    assert!(is_watertight(&tets));
}

#[test]
fn faces_duplicated_cell_pairs_with_itself() {
    let tets = vec![Tetrahedron::new([0, 1, 2, 3]), Tetrahedron::new([3, 2, 1, 0])];
    assert_eq!(face_pairing(&tets), (4, 0));
    let three = vec![
        Tetrahedron::new([0, 1, 2, 3]),
        Tetrahedron::new([3, 2, 1, 0]),
        Tetrahedron::new([1, 0, 3, 2]),
    ];
    assert_eq!(face_pairing(&three), (0, 4));
}

#[test]
fn faces_empty_mesh_is_not_watertight() {
    assert_eq!(face_pairing(&[]), (0, 0));
    assert!(!is_watertight(&[]));
}

#[test]
fn faces_of_the_kuhn_triangulation() {
    let tets = compute_tetrahedra();
    assert_eq!(face_pairing(&tets), (24, 86));
    assert!(!is_watertight(&tets));
}

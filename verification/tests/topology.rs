use rust4d::{
    build_cells, cubinder_prisms, duocylinder_prisms, validate_cells, face_pairing, hexadecachoron_cells, is_watertight, pentachoron_cells, subdivide_triangles,
    VertexPool, TET_EDGES, TET_SUBDIVISION,
};

#[test]
fn topology_pentachoron_cells_drop_one_vertex_each() {
    let cells = pentachoron_cells();
    let got: Vec<[usize; 4]> = cells.iter().map(|t| t.indices).collect();
    assert_eq!(
        got,
        vec![[1, 2, 3, 4], [0, 2, 3, 4], [0, 1, 3, 4], [0, 1, 2, 4], [0, 1, 2, 3]]
    );
    assert!(is_watertight(&cells));
}

#[test]
fn topology_hexadecachoron_cells_pick_one_end_per_axis() {
    let cells = hexadecachoron_cells();
    assert_eq!(cells.len(), 16);
    assert_eq!(cells[0].indices, [0, 2, 4, 6]);
    assert_eq!(cells[5].indices, [1, 2, 5, 6]);
    assert_eq!(cells[15].indices, [1, 3, 5, 7]);
    assert_eq!(face_pairing(&cells), (32, 0));
}

#[test]
fn topology_tet_subdivision_tables() {
    assert_eq!(TET_EDGES.len(), 6);
    assert_eq!(TET_SUBDIVISION[0], [0, 4, 5, 6]);
    assert_eq!(TET_SUBDIVISION[7], [4, 9, 7, 5]);
}

#[test]
fn topology_vertex_pool_reuses_indices() {
    let mut pool = VertexPool::new();
    assert_eq!(pool.get((0, 0)), (0, true));
    assert_eq!(pool.get((1, 0)), (1, true));
    assert_eq!(pool.get((0, 0)), (0, false));
    assert_eq!(pool.get((u32::MAX, 3)), (2, true));
    assert_eq!(pool.len(), 3);
}

#[test]
fn topology_subdivide_one_triangle() {
    let (tris, mids) = subdivide_triangles(&[[0, 1, 2]], 3);
    assert_eq!(mids, vec![(0, 1), (1, 2), (0, 2)]);
    assert_eq!(tris, vec![[0, 3, 5], [1, 4, 3], [2, 5, 4], [3, 4, 5]]);
}

#[test]
fn topology_subdivide_shares_midpoints_across_an_edge() {
    let (tris, mids) = subdivide_triangles(&[[0, 1, 2], [2, 1, 3]], 4);
    assert_eq!(mids, vec![(0, 1), (1, 2), (0, 2), (1, 3), (2, 3)]);
    assert_eq!(tris.len(), 8);
    // the second triangle's edge (2, 1) reuses midpoint 5 of edge (1, 2)
    assert_eq!(tris[4], [2, 5, 8]);
    assert_eq!(tris[5], [1, 7, 5]);
}

#[test]
fn topology_cubinder_cells_are_watertight() {
    let prisms = cubinder_prisms(8);
    assert_eq!(prisms.len(), 48);
    let (keys, tets) = build_cells(&prisms);
    assert_eq!(tets.len(), 8 * 2 * 3 + 4 * 8 * 3);
    assert_eq!(keys.len(), 8 * 4 + 4);
    assert!(validate_cells(keys.len(), &tets).is_ok());
    assert!(is_watertight(&tets));
}

#[test]
fn topology_duocylinder_cells_are_watertight() {
    let prisms = duocylinder_prisms(8, 6);
    let (keys, tets) = build_cells(&prisms);
    assert_eq!(tets.len(), 2 * 8 * 6 * 3);
    assert_eq!(keys.len(), 8 * 6 + 8 + 6);
    assert!(validate_cells(keys.len(), &tets).is_ok());
    assert!(is_watertight(&tets));
}

#[test]
fn topology_small_segment_counts_are_raised_to_three() {
    assert_eq!(cubinder_prisms(1).len(), 18);
    assert_eq!(cubinder_prisms(0)[0], [(0, 0), (0, 1), (0, 2), (1, 0), (1, 1), (1, 2)]);
    assert_eq!(duocylinder_prisms(2, 2).len(), 18);
    let p = duocylinder_prisms(3, 3);
    assert_eq!(p[9], [(u32::MAX, 0), (0, 0), (1, 0), (u32::MAX, 1), (0, 1), (1, 1)]);
}

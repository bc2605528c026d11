use space_game::voxel::{append_cell_indices, cell_case, Case};

#[test]
fn from_raw_gives_each_edge_one_vertex() {
    let case = Case::from_raw(&[[0, 8, 3], [3, 8, 11], [11, 2, 3]]);
    assert_eq!(case.edges, vec![0, 8, 3, 11, 2]);
    assert_eq!(case.tris, vec![[0, 1, 2], [2, 1, 3], [3, 4, 2]]);
}

#[test]
fn from_raw_of_no_triangles_is_empty() {
    let case = Case::from_raw(&[]);
    assert!(case.edges.is_empty());
    assert!(case.tris.is_empty());
}

#[test]
fn from_raw_triangle_names_its_edges() {
    let raw = [[1, 2, 1], [5, 5, 5]];
    let case = Case::from_raw(&raw);
    assert_eq!(case.edges, vec![1, 2, 5]);
    for (tri, raw_tri) in case.tris.iter().zip(raw.iter()) {
        for i in 0..3 {
            assert_eq!(case.edges[tri[i]], raw_tri[i]);
        }
    }
}

#[test]
fn cell_case_sets_a_bit_per_inside_corner() {
    assert_eq!(cell_case(&[false; 8]), 0);
    assert_eq!(cell_case(&[true; 8]), 255);
    assert_eq!(cell_case(&[true, false, false, false, false, false, false, false]), 1);
    assert_eq!(cell_case(&[false, true, false, false, false, false, false, true]), 130);
}

#[test]
fn cell_indices_start_at_the_base() {
    let mut indices = vec![7u16];
    append_cell_indices(&mut indices, 10, &[[0, 1, 2], [2, 1, 3]]);
    assert_eq!(indices, vec![7, 10, 11, 12, 12, 11, 13]);
}

#[test]
fn cell_indices_keep_their_low_sixteen_bits() {
    let mut indices = Vec::new();
    append_cell_indices(&mut indices, 65534, &[[0, 1, 2]]);
    assert_eq!(indices, vec![65534, 65535, 0]);
}

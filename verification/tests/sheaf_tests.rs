use sheaf_coherence::sheaf::{line_sheaf, triangle_sheaf, Assignment, Cell, RestrictionMap, Sheaf};

#[test]
fn test_cell_creation() {
    let c = Cell::new(3, 2);
    assert_eq!(c.id, 3);
    assert_eq!(c.dimension, 2);
}

#[test]
fn test_restriction_map_transpose() {
    let m = RestrictionMap::new(0, 1, vec![vec![1.0, 2.0], vec![3.0, 4.0]]);
    let t = m.transpose();
    assert_eq!(t.matrix, vec![vec![1.0, 3.0], vec![2.0, 4.0]]);
    assert_eq!(t.source, 1);
    assert_eq!(t.target, 0);
}

#[test]
fn test_restriction_map_dims() {
    let m = RestrictionMap::new(0, 1, vec![vec![1.0, 0.0, 0.0], vec![0.0, 1.0, 0.0]]);
    assert_eq!(m.output_dim(), 2);
    assert_eq!(m.input_dim(), 3);
}

#[test]
fn test_sheaf_add_cells() {
    let mut s = Sheaf::<f64>::new();
    s.add_cell(Cell::new(0, 0), 3);
    s.add_cell(Cell::new(1, 0), 2);
    assert_eq!(s.num_cells(), 2);
    assert_eq!(s.stalk_dim(0), Some(3));
    assert_eq!(s.stalk_dim(1), Some(2));
}

#[test]
fn test_sheaf_global_dimension() {
    let mut s = Sheaf::<f64>::new();
    s.add_cell(Cell::new(0, 0), 3);
    s.add_cell(Cell::new(1, 0), 2);
    assert_eq!(s.global_dimension(), 5);
}

#[test]
fn test_sheaf_assignment() {
    let mut s = Sheaf::new();
    s.add_cell(Cell::new(0, 0), 2);
    s.assign(Assignment::new(0, vec![1.0, 2.0]));
    let ga = s.global_assignment();
    assert_eq!(ga, vec![1.0, 2.0]);
}

#[test]
fn test_sheaf_maps_from() {
    let mut s = Sheaf::new();
    s.add_cell(Cell::new(0, 0), 2);
    s.add_cell(Cell::new(1, 1), 2);
    s.add_restriction_map(RestrictionMap::new(1, 0, vec![vec![1.0, 0.0], vec![0.0, 1.0]]));
    assert_eq!(s.maps_from(1).len(), 1);
    assert_eq!(s.maps_from(0).len(), 0);
}

#[test]
fn test_line_sheaf() {
    let s = line_sheaf::<f64>(2);
    assert_eq!(s.num_cells(), 3);
    assert_eq!(s.num_maps(), 2);
    assert_eq!(s.global_dimension(), 6);
}

#[test]
fn test_triangle_sheaf() {
    let s = triangle_sheaf::<f64>(2);
    assert_eq!(s.num_cells(), 7);
    assert_eq!(s.num_maps(), 9);
}

#[test]
fn empty_map_has_no_rows_or_columns() {
    let m: RestrictionMap<f64> = RestrictionMap::new(0, 1, vec![]);
    assert_eq!(m.output_dim(), 0);
    assert_eq!(m.input_dim(), 0);
    let t = m.transpose();
    assert!(t.matrix.is_empty());
    assert_eq!((t.source, t.target), (1, 0));
}

#[test]
fn transpose_of_projection_pads_columns() {
    let projection = RestrictionMap::new(0, 1, vec![vec![1.0, 0.0, 0.0], vec![0.0, 1.0, 0.0]]);
    let adjoint = projection.transpose();
    assert_eq!(adjoint.output_dim(), 3);
    assert_eq!(adjoint.input_dim(), 2);
    assert_eq!(adjoint.matrix, vec![vec![1.0, 0.0], vec![0.0, 1.0], vec![0.0, 0.0]]);
}

#[test]
fn transpose_twice_gives_matrix_back() {
    let m = RestrictionMap::new(4, 7, vec![vec![1.0, 2.0, 3.0], vec![4.0, 5.0, 6.0]]);
    let back = m.transpose().transpose();
    assert_eq!(back.matrix, m.matrix);
    assert_eq!((back.source, back.target), (4, 7));
}

#[test]
fn transpose_reads_width_from_first_row() {
    let m = RestrictionMap::new(0, 1, vec![vec![1.0], vec![2.0, 3.0]]);
    let t = m.transpose();
    assert_eq!(t.matrix, vec![vec![1.0, 2.0]]);
}

#[test]
fn assignment_dimension_is_data_length() {
    let a = Assignment::new(5, vec![1.0, 2.0, 3.0]);
    assert_eq!(a.dimension(), 3);
    assert_eq!(a.cell_id, 5);
}

#[test]
fn readme_sheaf_dimensions() {
    let mut sheaf = Sheaf::new();
    sheaf.add_cell(Cell::new(0, 0), 2);
    sheaf.add_cell(Cell::new(1, 0), 2);
    sheaf.add_cell(Cell::new(2, 1), 3);
    sheaf.add_restriction_map(RestrictionMap::new(2, 0, vec![vec![1.0, 0.0], vec![0.0, 1.0], vec![0.0, 0.0]]));
    sheaf.add_restriction_map(RestrictionMap::new(2, 1, vec![vec![1.0, 0.0], vec![0.0, 1.0], vec![0.0, 0.0]]));
    sheaf.assign(Assignment::new(0, vec![1.0, 2.0]));
    sheaf.assign(Assignment::new(1, vec![1.0, 2.0]));
    sheaf.assign(Assignment::new(2, vec![1.0, 2.0, 5.0]));
    assert_eq!(sheaf.global_dimension(), 7);
    assert_eq!(sheaf.num_cells(), 3);
    assert_eq!(sheaf.num_maps(), 2);
    assert!(sheaf.dimension_fits());
    assert_eq!(sheaf.global_assignment(), vec![1.0, 2.0, 1.0, 2.0, 1.0, 2.0, 5.0]);
}

#[test]
fn stalk_dim_of_unknown_cell_is_none() {
    let s = line_sheaf::<f64>(2);
    assert_eq!(s.stalk_dim(9), None);
}

#[test]
fn add_cell_again_replaces_its_stalk() {
    let mut s = Sheaf::<f64>::new();
    s.add_cell(Cell::new(4, 0), 3);
    s.add_cell(Cell::new(4, 1), 5);
    assert_eq!(s.num_cells(), 1);
    assert_eq!(s.stalk_dim(4), Some(5));
    assert_eq!(s.cells.get(&4).unwrap().dimension, 1);
    assert_eq!(s.global_dimension(), 5);
}

#[test]
fn cell_ids_are_sorted() {
    let mut s = Sheaf::<f64>::new();
    for id in [42usize, 7, 19, 0, 3] {
        s.add_cell(Cell::new(id, 0), 1);
    }
    assert_eq!(s.cell_ids(), vec![0, 3, 7, 19, 42]);
}

#[test]
fn global_assignment_fills_missing_cells_with_zeros() {
    let mut s = Sheaf::new();
    s.add_cell(Cell::new(5, 0), 1);
    s.add_cell(Cell::new(1, 0), 2);
    s.add_cell(Cell::new(3, 0), 3);
    s.assign(Assignment::new(3, vec![7.0, 8.0, 9.0]));
    s.assign(Assignment::new(5, vec![4.0]));
    assert_eq!(s.global_assignment(), vec![0.0, 0.0, 7.0, 8.0, 9.0, 4.0]);
}

#[test]
fn global_assignment_ignores_assignments_of_unknown_cells() {
    let mut s = Sheaf::new();
    s.add_cell(Cell::new(0, 0), 1);
    s.assign(Assignment::new(8, vec![3.0]));
    assert_eq!(s.global_assignment(), vec![0.0]);
}

#[test]
fn assign_replaces_previous_data() {
    let mut s = line_sheaf::<f64>(1);
    s.assign(Assignment::new(0, vec![1.0]));
    s.assign(Assignment::new(0, vec![2.0]));
    assert_eq!(s.assignments.len(), 1);
    assert_eq!(s.assignments.get(&0).unwrap().data, vec![2.0]);
}

#[test]
fn maps_to_selects_by_target() {
    let s = triangle_sheaf::<f64>(1);
    let into_one: Vec<(usize, usize)> = s.maps_to(1).iter().map(|m| (m.source, m.target)).collect();
    assert_eq!(into_one, vec![(3, 1), (4, 1)]);
    let from_six: Vec<(usize, usize)> = s.maps_from(6).iter().map(|m| (m.source, m.target)).collect();
    assert_eq!(from_six, vec![(6, 3), (6, 4), (6, 5)]);
}

#[test]
fn line_sheaf_maps_are_identities() {
    let s = line_sheaf::<f64>(3);
    let id = vec![vec![1.0, 0.0, 0.0], vec![0.0, 1.0, 0.0], vec![0.0, 0.0, 1.0]];
    assert_eq!(s.restriction_maps[0].matrix, id);
    assert_eq!(s.restriction_maps[1].matrix, id);
    assert_eq!((s.restriction_maps[0].source, s.restriction_maps[0].target), (2, 0));
    assert_eq!((s.restriction_maps[1].source, s.restriction_maps[1].target), (2, 1));
    assert_eq!(s.cells.get(&2).unwrap().dimension, 1);
}

#[test]
fn triangle_sheaf_global_dimension() {
    let s = triangle_sheaf::<f64>(2);
    assert_eq!(s.global_dimension(), 14);
    assert_eq!(s.cell_ids(), vec![0, 1, 2, 3, 4, 5, 6]);
    assert!(s.assignments.is_empty());
}

#[test]
fn zero_dimensional_line_sheaf() {
    let s = line_sheaf::<f64>(0);
    assert_eq!(s.global_dimension(), 0);
    assert!(s.restriction_maps[0].matrix.is_empty());
    assert!(s.global_assignment().is_empty());
}

#[test]
fn default_sheaf_is_empty() {
    let s: Sheaf<f64> = Sheaf::default();
    assert_eq!(s.num_cells(), 0);
    assert_eq!(s.num_maps(), 0);
    assert_eq!(s.global_dimension(), 0);
    assert!(s.cell_ids().is_empty());
}

#[test]
fn dimension_fits_detects_overflow() {
    let mut s = Sheaf::<f64>::new();
    s.add_cell(Cell::new(0, 0), usize::MAX);
    assert!(s.dimension_fits());
    s.add_cell(Cell::new(1, 0), 1);
    assert!(!s.dimension_fits());
}

#[test]
fn integer_scalars_work_too() {
    let mut s = line_sheaf::<i64>(2);
    s.assign(Assignment::new(1, vec![3, 4]));
    assert_eq!(s.global_assignment(), vec![0, 0, 3, 4, 0, 0]);
    assert_eq!(s.restriction_maps[0].matrix, vec![vec![1, 0], vec![0, 1]]);
}

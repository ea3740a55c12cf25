use sheaf_coherence::coherence::{assigned_incidences, pairwise_incidence};
use sheaf_coherence::laplacian::{cell_offsets, laplacian_blocks};
use sheaf_coherence::sheaf::{line_sheaf, triangle_sheaf, Assignment, Cell, RestrictionMap, Sheaf};
use sheaf_coherence::synchronization::{
    assign_global_vector, assign_to_all_cells, initialize_missing_assignments, is_fully_assigned,
};

#[test]
fn test_is_fully_assigned() {
    let mut s = line_sheaf(1);
    assert!(!is_fully_assigned(&s));
    s.assign(Assignment::new(0, vec![1.0]));
    s.assign(Assignment::new(1, vec![1.0]));
    s.assign(Assignment::new(2, vec![1.0]));
    assert!(is_fully_assigned(&s));
}

#[test]
fn test_initialize_missing() {
    let mut s = line_sheaf(2);
    s.assign(Assignment::new(0, vec![1.0, 2.0]));
    initialize_missing_assignments(&mut s);
    assert!(is_fully_assigned(&s));
    assert_eq!(s.assignments.get(&1).unwrap().data, vec![0.0, 0.0]);
}

#[test]
fn initialize_missing_keeps_existing_data() {
    let mut s = line_sheaf(2);
    s.assign(Assignment::new(0, vec![1.0, 2.0]));
    initialize_missing_assignments(&mut s);
    assert_eq!(s.assignments.get(&0).unwrap().data, vec![1.0, 2.0]);
    assert_eq!(s.assignments.get(&2).unwrap().data, vec![0.0, 0.0]);
    assert_eq!(s.assignments.len(), 3);
}

#[test]
fn readme_initialize_then_fully_assigned() {
    let mut sheaf3 = line_sheaf(2);
    sheaf3.assign(Assignment::new(0, vec![1.0, 2.0]));
    assert!(!is_fully_assigned(&sheaf3));
    initialize_missing_assignments(&mut sheaf3);
    assert!(is_fully_assigned(&sheaf3));
}

#[test]
fn empty_sheaf_is_fully_assigned() {
    let s = Sheaf::<f64>::new();
    assert!(is_fully_assigned(&s));
}

#[test]
fn assign_to_all_cells_gives_consensus() {
    let mut s = line_sheaf(1);
    s.assign(Assignment::new(0, vec![0.0]));
    s.assign(Assignment::new(1, vec![10.0]));
    s.assign(Assignment::new(2, vec![5.0]));
    assign_to_all_cells(&mut s, &[5.0]);
    for id in 0..3usize {
        assert_eq!(s.assignments.get(&id).unwrap().data, vec![5.0]);
    }
    assert!(is_fully_assigned(&s));
}

#[test]
fn write_back_then_read_gives_vector_back() {
    let mut s = line_sheaf(2);
    s.assign(Assignment::new(0, vec![1.0, 2.0]));
    let v = vec![1.5, 2.5, 3.5, 4.5, 5.5, 6.5];
    assert!(assign_global_vector(&mut s, &v));
    assert_eq!(s.global_assignment(), v);
    assert_eq!(s.assignments.get(&1).unwrap().data, vec![3.5, 4.5]);
}

#[test]
fn write_back_refuses_short_vector() {
    let mut s = line_sheaf(2);
    s.assign(Assignment::new(0, vec![1.0, 2.0]));
    assert!(!assign_global_vector(&mut s, &[1.0, 2.0, 3.0]));
    assert_eq!(s.assignments.len(), 1);
    assert_eq!(s.assignments.get(&0).unwrap().data, vec![1.0, 2.0]);
}

#[test]
fn write_back_skips_cells_without_stalk() {
    let mut s = Sheaf::new();
    s.add_cell(Cell::new(0, 0), 0);
    s.add_cell(Cell::new(1, 0), 2);
    assert!(assign_global_vector(&mut s, &[7.0, 8.0, 9.0]));
    assert!(s.assignments.get(&0).is_none());
    assert_eq!(s.assignments.get(&1).unwrap().data, vec![7.0, 8.0]);
}

#[test]
fn cell_offsets_are_prefix_sums() {
    let mut s = Sheaf::<f64>::new();
    s.add_cell(Cell::new(10, 0), 3);
    s.add_cell(Cell::new(2, 0), 1);
    s.add_cell(Cell::new(5, 1), 2);
    let offsets = cell_offsets(&s);
    assert_eq!(offsets.len(), 3);
    assert_eq!(offsets.get(&2), Some(&0));
    assert_eq!(offsets.get(&5), Some(&1));
    assert_eq!(offsets.get(&10), Some(&3));
}

#[test]
fn laplacian_blocks_of_line_sheaf() {
    let s = line_sheaf::<f64>(2);
    let blocks: Vec<(usize, usize, usize, usize)> =
        laplacian_blocks(&s).iter().map(|(a, b, m)| (*a, *b, m.source, m.target)).collect();
    assert_eq!(blocks, vec![(4, 0, 2, 0), (4, 2, 2, 1)]);
}

#[test]
fn laplacian_blocks_skip_unknown_cells_and_empty_maps() {
    let mut s = Sheaf::new();
    s.add_cell(Cell::new(0, 0), 1);
    s.add_cell(Cell::new(1, 1), 1);
    s.add_restriction_map(RestrictionMap::new(1, 9, vec![vec![1.0]]));
    s.add_restriction_map(RestrictionMap::new(1, 0, vec![]));
    s.add_restriction_map(RestrictionMap::new(1, 0, vec![vec![]]));
    s.add_restriction_map(RestrictionMap::new(1, 0, vec![vec![2.0]]));
    let blocks = laplacian_blocks(&s);
    assert_eq!(blocks.len(), 1);
    assert_eq!((blocks[0].0, blocks[0].1), (1, 0));
    assert_eq!(blocks[0].2.matrix, vec![vec![2.0]]);
}

#[test]
fn assigned_incidences_need_both_ends() {
    let mut s = line_sheaf(1);
    s.assign(Assignment::new(2, vec![0.5]));
    s.assign(Assignment::new(1, vec![1.0]));
    let inc = assigned_incidences(&s);
    assert_eq!(inc.len(), 1);
    assert_eq!((inc[0].0.source, inc[0].0.target), (2, 1));
    assert_eq!(inc[0].1.data, vec![0.5]);
    assert_eq!(inc[0].2.data, vec![1.0]);
    s.assign(Assignment::new(0, vec![0.0]));
    assert_eq!(assigned_incidences(&s).len(), 2);
}

#[test]
fn pairwise_incidence_finds_first_map() {
    let mut s = line_sheaf(2);
    s.add_restriction_map(RestrictionMap::new(2, 0, vec![vec![2.0, 0.0], vec![0.0, 2.0]]));
    s.assign(Assignment::new(0, vec![1.0, 0.0]));
    s.assign(Assignment::new(1, vec![0.0, 1.0]));
    s.assign(Assignment::new(2, vec![1.0, 1.0]));
    let (map, src, tgt) = pairwise_incidence(&s, 2, 0).unwrap();
    assert_eq!(map.matrix, vec![vec![1.0, 0.0], vec![0.0, 1.0]]);
    assert_eq!(src.data, vec![1.0, 1.0]);
    assert_eq!(tgt.data, vec![1.0, 0.0]);
    assert!(pairwise_incidence(&s, 0, 2).is_none());
}

#[test]
fn pairwise_incidence_needs_assignments() {
    let mut s = line_sheaf(1);
    s.assign(Assignment::new(2, vec![1.0]));
    assert!(pairwise_incidence(&s, 2, 0).is_none());
}

#[test]
fn triangle_incidences_all_assigned() {
    let mut s = triangle_sheaf(2);
    for id in s.cell_ids() {
        s.assign(Assignment::new(id, vec![3.0, 7.0]));
    }
    assert_eq!(assigned_incidences(&s).len(), 9);
    assert_eq!(laplacian_blocks(&s).len(), 9);
    assert_eq!(s.global_dimension(), 14);
}

#[test]
fn initialize_missing_keeps_global_assignment() {
    let mut s = triangle_sheaf(2);
    s.assign(Assignment::new(4, vec![1.0, -1.0]));
    s.assign(Assignment::new(0, vec![2.5, 3.5]));
    let before = s.global_assignment();
    initialize_missing_assignments(&mut s);
    assert_eq!(s.global_assignment(), before);
    assert_eq!(before.len(), 14);
    assert_eq!(&before[0..2], &[2.5, 3.5]);
    assert_eq!(&before[8..10], &[1.0, -1.0]);
}

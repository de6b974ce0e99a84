use ofposet::poset::{Element, FramedPoset, Sign};
use ofposet::polyvoxel::{Polyvoxel, cylinder, paste, point, shift};
use ofposet::traversal::{permute_cells, traversal_normalisation, traversal_order};
use std::sync::Arc;

use ofposet::embedding::Embedding;
use rand::SeedableRng;
use rand::rngs::SmallRng;
use rand::seq::SliceRandom;

fn arrow() -> Polyvoxel {
    let point = point();
    cylinder(&point, &point).unwrap()
}

fn square() -> Polyvoxel {
    let arrow = arrow();
    cylinder(&arrow, &arrow).unwrap()
}

fn cube() -> Polyvoxel {
    let square = square();
    cylinder(&square, &square).unwrap()
}

fn assert_traversal_normalises(polyvoxel: &Polyvoxel) -> Arc<FramedPoset> {
    let (normal, into_original) = traversal_normalisation(polyvoxel).unwrap();
    assert!(!normal.is_normal());
    assert!(into_original.is_isomorphism());
    assert!(FramedPoset::equal(&normal, &into_original.dom));
    assert!(FramedPoset::equal(polyvoxel.as_framed_poset(), &into_original.cod));
    normal
}

#[test]
fn traverses_a_point_and_an_arrow_input_first() {
    let point = point();
    assert_eq!(traversal_order(&point).unwrap(), vec![Element { dim: 0, pos: 0 }]);

    let arrow = arrow();
    let order = traversal_order(&arrow).unwrap();
    assert_eq!(order.len(), 3);
    let input = order[0];
    let edge = order[1];
    let output = order[2];
    assert_eq!(input.dim, 0);
    assert_eq!(edge.dim, 1);
    assert_eq!(output.dim, 0);
    assert_eq!(arrow.faces_of(Sign::Input, edge.dim, edge.pos), &[input.pos]);
    assert_eq!(arrow.faces_of(Sign::Output, edge.dim, edge.pos), &[output.pos]);

    assert_traversal_normalises(&arrow);
}

#[test]
fn square_uses_increasing_direction_boundaries() {
    let square = square();
    let normal = assert_traversal_normalises(&square);

    assert_eq!(normal.sizes(), vec![4, 4, 1]);
    assert_eq!(
        (0..4).map(|pos| normal.basis_of(1, pos).clone()).collect::<Vec<_>>(),
        vec![vec![1], vec![0], vec![1], vec![0]],
    );
    assert_eq!(normal.faces_of(Sign::Input, 1, 0), &[0]);
    assert_eq!(normal.faces_of(Sign::Output, 1, 0), &[1]);
    assert_eq!(normal.faces_of(Sign::Input, 1, 1), &[0]);
    assert_eq!(normal.faces_of(Sign::Output, 1, 1), &[2]);
    assert_eq!(normal.faces_of(Sign::Input, 1, 2), &[2]);
    assert_eq!(normal.faces_of(Sign::Output, 1, 2), &[3]);
    assert_eq!(normal.faces_of(Sign::Input, 1, 3), &[1]);
    assert_eq!(normal.faces_of(Sign::Output, 1, 3), &[3]);
    assert_eq!(normal.faces_of(Sign::Input, 2, 0), &[0, 1]);
    assert_eq!(normal.faces_of(Sign::Output, 2, 0), &[2, 3]);
}

#[test]
fn traverses_basic_pasted_polyvoxels() {
    let arrow = arrow();
    let square = square();
    let (_, path) = paste(&arrow, &arrow, 0).unwrap();
    let (_, horizontal_rectangle) = paste(&square, &square, 0).unwrap();
    let (_, vertical_rectangle) = paste(&square, &square, 1).unwrap();

    for shape in [&path, &horizontal_rectangle, &vertical_rectangle] {
        assert_traversal_normalises(shape);
    }
}

#[test]
fn traverses_a_cube_and_pastings_in_each_direction() {
    let cube = cube();
    assert_eq!(cube.sizes(), vec![8, 12, 6, 1]);
    assert_traversal_normalises(&cube);

    for direction in 0..3 {
        let (_, pair) = paste(&cube, &cube, direction).unwrap();
        assert_traversal_normalises(&pair);
    }
}

#[test]
fn traversal_is_independent_of_path_parenthesisation() {
    let arrow = arrow();
    let (_, left_pair) = paste(&arrow, &arrow, 0).unwrap();
    let (_, left_associated) = paste(&left_pair, &arrow, 0).unwrap();
    let (_, right_pair) = paste(&arrow, &arrow, 0).unwrap();
    let (_, right_associated) = paste(&arrow, &right_pair, 0).unwrap();

    let left_normal = assert_traversal_normalises(&left_associated);
    let right_normal = assert_traversal_normalises(&right_associated);
    assert!(FramedPoset::equal(&left_normal, &right_normal));
}

fn plain_arrow() -> Arc<FramedPoset> {
    Arc::new(FramedPoset::from_faces(
        vec![vec![vec![], vec![]], vec![vec![0]]],
        vec![vec![vec![], vec![]], vec![vec![0]]],
        vec![vec![vec![], vec![]], vec![vec![1]]],
    ))
}

#[test]
fn permuting_cells_renumbers_faces() {
    let shape = plain_arrow();
    let (permuted, iso) = permute_cells(&shape, vec![vec![1, 0], vec![0]]).unwrap();
    assert_eq!(permuted.sizes(), vec![2, 1]);
    assert_eq!(permuted.faces_of(Sign::Input, 1, 0), &vec![1]);
    assert_eq!(permuted.faces_of(Sign::Output, 1, 0), &vec![0]);
    assert!(!permuted.is_normal());
    assert!(iso.is_isomorphism());
    assert_eq!(iso.map, vec![vec![1, 0], vec![0]]);
    assert_eq!(iso.inv, vec![vec![1, 0], vec![0]]);
    assert!(Arc::ptr_eq(&iso.cod, &shape));
    assert!(Arc::ptr_eq(&iso.dom, &permuted));
}

#[test]
fn permuting_by_the_identity_keeps_the_tables() {
    let shape = plain_arrow();
    let (permuted, _) = permute_cells(&shape, vec![vec![0, 1], vec![0]]).unwrap();
    assert!(FramedPoset::equal(&permuted, &shape));
}

#[test]
fn permuting_cells_refuses_what_is_not_a_permutation() {
    let shape = plain_arrow();
    assert!(permute_cells(&shape, vec![vec![0, 0], vec![0]]).is_none());
    assert!(permute_cells(&shape, vec![vec![0, 2], vec![0]]).is_none());
    assert!(permute_cells(&shape, vec![vec![0], vec![0]]).is_none());
    assert!(permute_cells(&shape, vec![vec![0, 1]]).is_none());
}

fn shuffled(shape: &Arc<FramedPoset>, rng: &mut SmallRng) -> (Arc<FramedPoset>, Embedding) {
    let new_to_old: Vec<Vec<usize>> = shape
        .sizes()
        .iter()
        .map(|&size| {
            let mut level: Vec<usize> = (0..size).collect();
            level.shuffle(rng);
            level
        })
        .collect();
    permute_cells(shape, new_to_old).unwrap()
}

#[test]
fn random_permutation_returns_an_explicit_isomorphism() {
    let arrow = plain_arrow();
    let mut rng = SmallRng::seed_from_u64(0xce_11_0a_de);
    let (permuted, into_arrow) = shuffled(&arrow, &mut rng);
    assert!(into_arrow.is_isomorphism());
    assert!(Arc::ptr_eq(&permuted, &into_arrow.dom));
    assert!(Arc::ptr_eq(&arrow, &into_arrow.cod));
}

#[test]
fn random_permutation_is_the_identity_when_no_reordering_is_possible() {
    let point = Arc::new(FramedPoset::point());
    let mut rng = SmallRng::seed_from_u64(0x0009_01a7);
    let (permuted, into_point) = shuffled(&point, &mut rng);
    assert!(FramedPoset::equal(&point, &permuted));
    assert_eq!(into_point.map, vec![vec![0]]);
    assert!(into_point.is_isomorphism());
}

fn assert_random_permutations_have_same_traversal(polyvoxel: &Polyvoxel, rng: &mut SmallRng) {
    let (expected, _) = traversal_normalisation(polyvoxel).unwrap();
    for _ in 0..32 {
        let (permuted_shape, into_original) = shuffled(polyvoxel.as_framed_poset(), rng);
        let permuted = Polyvoxel::from_isomorphism(permuted_shape, &into_original, polyvoxel);
        let (actual, _) = traversal_normalisation(&permuted).unwrap();
        assert!(FramedPoset::equal(&expected, &actual));
    }
}

#[test]
fn traversal_normalisation_is_invariant_under_random_cell_orders() {
    let square = square();
    let (_, rectangle) = paste(&square, &square, 0).unwrap();
    let cube = cube();
    let mut rng = SmallRng::seed_from_u64(0x7a_a4_3e_25_a1);
    for polyvoxel in [&square, &rectangle, &cube] {
        assert_random_permutations_have_same_traversal(polyvoxel, &mut rng);
    }
}

fn double_degen_example() -> Polyvoxel {
    let p = point();
    let e = cylinder(&p, &p).unwrap();
    let t = cylinder(&e, &p).unwrap();
    let prism = cylinder(&t, &t).unwrap();
    let t2 = shift(&t);
    let u1 = cylinder(&prism, &t2).unwrap();

    let square = cylinder(&e, &e).unwrap();
    let e2 = shift(&e);
    let u2 = cylinder(&square, &e2).unwrap();
    let (_, u) = paste(&u1, &u2, 2).unwrap();

    let v1 = cylinder(&t2, &t2).unwrap();
    let v2 = cylinder(&e2, &e2).unwrap();
    let (_, v) = paste(&v1, &v2, 2).unwrap();

    paste(&u, &v, 0).unwrap().1
}

fn non_uniform_layering_direction_example() -> Polyvoxel {
    let p = point();
    let e = cylinder(&p, &p).unwrap();
    let t = cylinder(&e, &p).unwrap();
    let prism = cylinder(&t, &t).unwrap();

    let double_prism = paste(&prism, &prism, 2).unwrap().1;
    let u = paste(&double_prism, &t, 1).unwrap().1;
    paste(&u, &double_prism, 0).unwrap().1
}

#[test]
fn traversal_handles_the_nonstandard_example_polyvoxels() {
    let double_degen = double_degen_example();
    let non_uniform = non_uniform_layering_direction_example();
    let mut rng = SmallRng::seed_from_u64(0x5ec1_a1ca_5e50_5e70);
    for polyvoxel in [&double_degen, &non_uniform] {
        assert_random_permutations_have_same_traversal(polyvoxel, &mut rng);
    }
}

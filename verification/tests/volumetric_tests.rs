use std::sync::Arc;

use ofposet::cubularity::{CubularityMode, is_cubular};
use ofposet::orthogonal::orthogonal_product;
use ofposet::poset::FramedPoset;
use ofposet::volumetric::{
    is_volumetric, satisfies_convolution_equations, satisfies_left_sign_equations,
    satisfies_right_sign_equations,
};

fn arrow(direction: usize) -> FramedPoset {
    FramedPoset::from_faces(
        vec![vec![vec![], vec![]], vec![vec![direction]]],
        vec![vec![vec![], vec![]], vec![vec![0]]],
        vec![vec![vec![], vec![]], vec![vec![1]]],
    )
}

fn cube(dimension: usize) -> Arc<FramedPoset> {
    let mut result = FramedPoset::point();
    for direction in 0..dimension {
        result = orthogonal_product(&result, &arrow(direction));
    }
    Arc::new(result)
}

fn arrow_with_two_input_vertices() -> Arc<FramedPoset> {
    Arc::new(FramedPoset::from_faces(
        vec![vec![vec![], vec![], vec![]], vec![vec![0]]],
        vec![vec![vec![], vec![], vec![]], vec![vec![0, 1]]],
        vec![vec![vec![], vec![], vec![]], vec![vec![2]]],
    ))
}

fn sign_equation_counterexample() -> Arc<FramedPoset> {
    Arc::new(FramedPoset::from_faces(
        vec![vec![vec![]], vec![vec![0], vec![1]], vec![vec![0, 1]]],
        vec![vec![vec![]], vec![vec![], vec![]], vec![vec![0, 1]]],
        vec![vec![vec![]], vec![vec![0], vec![0]], vec![vec![]]],
    ))
}

#[test]
fn standard_cubes_satisfy_all_three_equation_families() {
    for dimension in 0..=3 {
        let shape = cube(dimension);
        assert!(satisfies_convolution_equations(&shape));
        assert!(satisfies_left_sign_equations(&shape));
        assert!(satisfies_right_sign_equations(&shape));
    }
}

#[test]
fn convolution_detects_a_non_point_extreme_boundary() {
    assert!(!satisfies_convolution_equations(
        &arrow_with_two_input_vertices()
    ));
}

#[test]
fn left_sign_equations_detect_a_failure() {
    assert!(!satisfies_left_sign_equations(
        &sign_equation_counterexample()
    ));
}

#[test]
fn right_sign_equations_detect_a_failure() {
    assert!(!satisfies_right_sign_equations(
        &sign_equation_counterexample()
    ));
}

#[test]
fn standard_cubes_are_volumetric() {
    for dimension in 0..=3 {
        assert!(is_volumetric(&cube(dimension)));
    }
}

#[test]
fn volumetricity_rejects_a_disconnected_zero_dimensional_shape() {
    let two_points = Arc::new(FramedPoset::from_faces(
        vec![vec![vec![], vec![]]],
        vec![vec![vec![], vec![]]],
        vec![vec![vec![], vec![]]],
    ));

    assert!(is_cubular(CubularityMode::Strong, &two_points));
    assert!(satisfies_convolution_equations(&two_points));
    assert!(satisfies_left_sign_equations(&two_points));
    assert!(satisfies_right_sign_equations(&two_points));
    assert!(!is_volumetric(&two_points));
}

#[test]
fn the_arrow_and_the_square_are_volumetric_and_the_half_arrow_is_not() {
    let half_arrow = Arc::new(FramedPoset::from_faces(
        vec![vec![vec![]], vec![vec![0]]],
        vec![vec![vec![]], vec![vec![0]]],
        vec![vec![vec![]], vec![vec![]]],
    ));
    assert!(is_volumetric(&cube(1)));
    assert!(is_volumetric(&cube(2)));
    assert!(!is_volumetric(&half_arrow));
}

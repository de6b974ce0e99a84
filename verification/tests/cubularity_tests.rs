use std::collections::HashMap;
use std::sync::Arc;

use ofposet::cubularity::{CubularityMode, check_last_two, is_cubular};
use ofposet::poset::{BoundaryMode, FramedPoset, Sign, boundary};

fn square() -> Arc<FramedPoset> {
    Arc::new(FramedPoset::from_faces(
        vec![
            vec![vec![], vec![], vec![], vec![]],
            vec![vec![0], vec![0], vec![1], vec![1]],
            vec![vec![0, 1]],
        ],
        vec![
            vec![vec![], vec![], vec![], vec![]],
            vec![vec![0], vec![2], vec![0], vec![1]],
            vec![vec![0, 2]],
        ],
        vec![
            vec![vec![], vec![], vec![], vec![]],
            vec![vec![1], vec![3], vec![2], vec![3]],
            vec![vec![1, 3]],
        ],
    ))
}

fn weakly_but_not_strongly_cubular() -> Arc<FramedPoset> {
    Arc::new(FramedPoset::from_faces(
        vec![
            vec![vec![]],
            vec![vec![0], vec![0], vec![1]],
            vec![vec![0, 1]],
        ],
        vec![vec![vec![]], vec![vec![], vec![0], vec![0]], vec![vec![]]],
        vec![
            vec![vec![]],
            vec![vec![0], vec![], vec![]],
            vec![vec![1, 2]],
        ],
    ))
}

#[derive(Debug, Clone, PartialEq, Eq, Hash)]
struct CubeCell(Vec<Option<bool>>);

fn non_cubular_two_dimensional() -> Arc<FramedPoset> {
    Arc::new(FramedPoset::from_faces(
        vec![
            vec![vec![], vec![]],
            vec![vec![0], vec![0], vec![1], vec![1]],
            vec![vec![0, 1], vec![0, 1], vec![0, 1]],
        ],
        vec![
            vec![vec![], vec![]],
            vec![vec![], vec![1], vec![0], vec![]],
            vec![vec![3], vec![1, 3], vec![0, 1, 2]],
        ],
        vec![
            vec![vec![], vec![]],
            vec![vec![0, 1], vec![], vec![], vec![1]],
            vec![vec![0, 1, 2], vec![0], vec![3]],
        ],
    ))
}

fn is_top_level_cubular(shape: &Arc<FramedPoset>) -> bool {
    let directions = shape.active_directions();
    check_last_two(shape, &directions, CubularityMode::Regular)
}

fn cube(n: usize) -> Arc<FramedPoset> {
    let mut levels = vec![Vec::new(); n + 1];
    for code in 0..3usize.pow(n as u32) {
        let mut code = code;
        let mut coordinates = Vec::with_capacity(n);
        for _ in 0..n {
            coordinates.push(match code % 3 {
                0 => None,
                1 => Some(false),
                2 => Some(true),
                _ => unreachable!(),
            });
            code /= 3;
        }
        let cell = CubeCell(coordinates);
        let dim = cell
            .0
            .iter()
            .filter(|coordinate| coordinate.is_none())
            .count();
        levels[dim].push(cell);
    }

    let index: HashMap<CubeCell, usize> = levels
        .iter()
        .flat_map(|level| {
            level
                .iter()
                .cloned()
                .enumerate()
                .map(|(position, cell)| (cell, position))
        })
        .collect();
    let basis = levels
        .iter()
        .map(|level| {
            level
                .iter()
                .map(|cell| {
                    cell.0
                        .iter()
                        .enumerate()
                        .filter_map(|(direction, coordinate)| {
                            coordinate.is_none().then_some(direction)
                        })
                        .collect()
                })
                .collect()
        })
        .collect();
    let mut faces_in: Vec<Vec<Vec<usize>>> = levels
        .iter()
        .map(|level| vec![vec![]; level.len()])
        .collect();
    let mut faces_out = faces_in.clone();

    for dim in 1..=n {
        for (position, cell) in levels[dim].iter().enumerate() {
            for direction in cell
                .0
                .iter()
                .enumerate()
                .filter_map(|(direction, coordinate)| coordinate.is_none().then_some(direction))
            {
                let mut input = cell.clone();
                input.0[direction] = Some(false);
                let mut output = cell.clone();
                output.0[direction] = Some(true);
                faces_in[dim][position].push(index[&input]);
                faces_out[dim][position].push(index[&output]);
            }
            faces_in[dim][position].sort_unstable();
            faces_out[dim][position].sort_unstable();
        }
    }

    Arc::new(FramedPoset::from_faces(basis, faces_in, faces_out))
}

#[test]
fn standard_square_is_strongly_cubular() {
    let shape = square();
    assert!(is_cubular(CubularityMode::Strong, &shape));
    assert!(is_cubular(CubularityMode::Regular, &shape));
}

#[test]
fn strong_cubularity_is_stricter_than_cubularity() {
    let shape = weakly_but_not_strongly_cubular();
    assert!(is_cubular(CubularityMode::Regular, &shape));
    assert!(!is_cubular(CubularityMode::Strong, &shape));
}

#[test]
fn one_directional_shapes_are_vacuously_strongly_cubular() {
    let arrow = Arc::new(FramedPoset::from_faces(
        vec![vec![vec![], vec![]], vec![vec![0]]],
        vec![vec![vec![], vec![]], vec![vec![0]]],
        vec![vec![vec![], vec![]], vec![vec![1]]],
    ));
    assert!(is_cubular(CubularityMode::Strong, &arrow));
}

#[test]
fn standard_three_cube_and_all_its_boundaries_are_strongly_cubular() {
    let cube = cube(3);
    assert!(is_cubular(CubularityMode::Strong, &cube));

    for direction in 0..3 {
        for sign in [Sign::Input, Sign::Output] {
            let (boundary, _) = boundary(BoundaryMode::Plain, sign, direction, &cube);
            assert!(is_cubular(CubularityMode::Strong, &boundary));
            assert!(is_cubular(CubularityMode::Regular, &boundary));
        }
    }
}

#[test]
fn standard_three_cube_is_cubular() {
    assert!(is_cubular(CubularityMode::Regular, &cube(3)));
}

#[test]
fn shapes_without_directions_are_cubular() {
    let two_points = Arc::new(FramedPoset::from_faces(
        vec![vec![vec![], vec![]]],
        vec![vec![vec![], vec![]]],
        vec![vec![vec![], vec![]]],
    ));
    assert!(is_cubular(CubularityMode::Strong, &two_points));
    assert!(is_cubular(CubularityMode::Regular, &Arc::new(FramedPoset::empty())));
}

#[test]
fn two_dimensional_check_is_exactly_the_top_level_check() {
    for shape in [square(), weakly_but_not_strongly_cubular(), non_cubular_two_dimensional()] {
        assert_eq!(is_cubular(CubularityMode::Regular, &shape), is_top_level_cubular(&shape));
    }
}

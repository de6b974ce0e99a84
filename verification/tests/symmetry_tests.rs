use std::sync::Arc;

use ofposet::embedding::Embedding;
use ofposet::poset::{BoundaryMode, FramedPoset, Sign, boundary};
use ofposet::symmetry::{DirectionImage, SignedPermutation, SymmetryError, transform, transform_embedding};

fn arrow(direction: usize) -> FramedPoset {
    FramedPoset::from_faces(
        vec![vec![vec![], vec![]], vec![vec![direction]]],
        vec![vec![vec![], vec![]], vec![vec![0]]],
        vec![vec![vec![], vec![]], vec![vec![1]]],
    )
}

fn square() -> FramedPoset {
    FramedPoset::from_faces(
        vec![
            vec![vec![], vec![], vec![], vec![]],
            vec![vec![0], vec![0], vec![1], vec![1]],
            vec![vec![0, 1]],
        ],
        vec![
            vec![vec![], vec![], vec![], vec![]],
            vec![vec![0], vec![2], vec![0], vec![1]],
            vec![vec![0, 2]],
        ],
        vec![
            vec![vec![], vec![], vec![], vec![]],
            vec![vec![1], vec![3], vec![2], vec![3]],
            vec![vec![1, 3]],
        ],
    )
}

#[test]
fn rejects_invalid_direction_images() {
    assert_eq!(SignedPermutation::from_permutation(vec![0, 0]), Err(SymmetryError::DuplicateTarget { target: 0 }));
    assert_eq!(
        SignedPermutation::from_permutation(vec![0, 2]),
        Err(SymmetryError::TargetOutOfRange { source: 1, target: 2, dimension: 2 })
    );
}

#[test]
fn identity_preserves_a_poset_without_normalizing_it() {
    let shape = square();
    let transformed = transform(&shape, &SignedPermutation::identity(2)).unwrap();

    assert!(FramedPoset::equal(&shape, &transformed));
    assert!(!transformed.is_normal());
}

#[test]
fn reflection_reverses_only_its_direction() {
    let reflected = transform(&arrow(0), &SignedPermutation::reflection(1, 0).unwrap()).unwrap();

    assert_eq!(reflected.faces_of(Sign::Input, 1, 0), &vec![1]);
    assert_eq!(reflected.faces_of(Sign::Output, 1, 0), &vec![0]);
}

#[test]
fn permutation_relabels_bases_without_moving_cells() {
    let transformed = transform(&square(), &SignedPermutation::from_permutation(vec![1, 0]).unwrap()).unwrap();

    assert_eq!(transformed.basis_of(1, 0), &vec![1]);
    assert_eq!(transformed.basis_of(1, 1), &vec![1]);
    assert_eq!(transformed.basis_of(1, 2), &vec![0]);
    assert_eq!(transformed.basis_of(2, 0), &vec![0, 1]);
    assert_eq!(transformed.faces_of(Sign::Input, 2, 0), square().faces_of(Sign::Input, 2, 0));
}

#[test]
fn composition_matches_successive_actions() {
    let first = SignedPermutation::try_new(vec![
        DirectionImage { direction: 1, reflected: true },
        DirectionImage { direction: 0, reflected: false },
    ])
    .unwrap();
    let second = SignedPermutation::reflection(2, 0).unwrap();
    let composite = SignedPermutation::compose(&first, &second).unwrap();

    let successive = transform(&transform(&square(), &first).unwrap(), &second).unwrap();
    let direct = transform(&square(), &composite).unwrap();

    assert!(FramedPoset::equal(&successive, &direct));
}

#[test]
fn inverse_undoes_the_action() {
    let symmetry = SignedPermutation::try_new(vec![
        DirectionImage { direction: 1, reflected: true },
        DirectionImage { direction: 0, reflected: false },
    ])
    .unwrap();
    let transformed = transform(&square(), &symmetry).unwrap();
    let restored = transform(&transformed, &symmetry.inverse()).unwrap();

    assert!(FramedPoset::equal(&square(), &restored));
    assert_eq!(SignedPermutation::compose(&symmetry, &symmetry.inverse()).unwrap(), SignedPermutation::identity(2));
}

#[test]
fn boundary_is_equivariant_for_direction_permutations() {
    let shape = Arc::new(square());
    let symmetry = SignedPermutation::from_permutation(vec![1, 0]).unwrap();
    let transformed_shape = Arc::new(transform(&shape, &symmetry).unwrap());

    for source_sign in [Sign::Input, Sign::Output] {
        for source_direction in 0..2 {
            let (source_boundary, _) = boundary(BoundaryMode::Plain, source_sign, source_direction, &shape);
            let transformed_boundary = transform(&source_boundary, &symmetry).unwrap();
            let image = symmetry.image_of(source_direction).unwrap();
            let (target_boundary, _) = boundary(BoundaryMode::Plain, source_sign, image.direction, &transformed_shape);

            assert!(FramedPoset::equal(&transformed_boundary, &target_boundary));
        }
    }
}

#[test]
fn ambient_dimension_is_explicit() {
    assert!(transform(&FramedPoset::empty(), &SignedPermutation::identity(4)).is_ok());
    assert!(transform(&FramedPoset::point(), &SignedPermutation::identity(4)).is_ok());
    assert_eq!(
        transform(&arrow(5), &SignedPermutation::identity(5)),
        Err(SymmetryError::DirectionNotCovered { direction: 5, dimension: 5 })
    );
    assert!(transform(&arrow(5), &SignedPermutation::identity(6)).is_ok());
}

#[test]
fn embedding_action_preserves_maps_and_closedness() {
    let square = Arc::new(square());
    let (_, embedding) = boundary(BoundaryMode::Plain, Sign::Input, 0, &square);
    let symmetry = SignedPermutation::try_new(vec![
        DirectionImage { direction: 1, reflected: true },
        DirectionImage { direction: 0, reflected: false },
    ])
    .unwrap();

    let transformed = transform_embedding(&embedding, &symmetry).unwrap();

    assert_eq!(transformed.map, embedding.map);
    assert_eq!(transformed.inv, embedding.inv);
    assert!(FramedPoset::equal(&transformed.dom, &transform(&embedding.dom, &symmetry).unwrap()));
    assert!(FramedPoset::equal(&transformed.cod, &transform(&embedding.cod, &symmetry).unwrap()));
    assert!(embedding.is_closed());
    assert!(transformed.is_closed());
    assert!(!transformed.dom.is_normal());
    assert!(!transformed.cod.is_normal());
}

#[test]
fn embedding_action_respects_composition() {
    let square = Arc::new(square());
    let (edge, edge_into_square) = boundary(BoundaryMode::Plain, Sign::Input, 0, &square);
    let (_, point_into_edge) = boundary(BoundaryMode::Plain, Sign::Output, 1, &edge);
    let point_into_square = Embedding::compose(&point_into_edge, &edge_into_square);
    let symmetry = SignedPermutation::from_permutation(vec![1, 0]).unwrap();

    let transformed_composite = transform_embedding(&point_into_square, &symmetry).unwrap();
    let transformed_point_into_edge = transform_embedding(&point_into_edge, &symmetry).unwrap();
    let transformed_edge_into_square = transform_embedding(&edge_into_square, &symmetry).unwrap();
    let composite_of_transforms = Embedding::compose(&transformed_point_into_edge, &transformed_edge_into_square);

    assert!(FramedPoset::equal(&transformed_composite.dom, &composite_of_transforms.dom));
    assert!(FramedPoset::equal(&transformed_composite.cod, &composite_of_transforms.cod));
    assert_eq!(transformed_composite.map, composite_of_transforms.map);
    assert_eq!(transformed_composite.inv, composite_of_transforms.inv);
}

#[test]
fn inverse_symmetry_restores_an_embedding() {
    let square = Arc::new(square());
    let (_, embedding) = boundary(BoundaryMode::Plain, Sign::Input, 1, &square);
    let symmetry = SignedPermutation::try_new(vec![
        DirectionImage { direction: 1, reflected: false },
        DirectionImage { direction: 0, reflected: true },
    ])
    .unwrap();

    let transformed = transform_embedding(&embedding, &symmetry).unwrap();
    let restored = transform_embedding(&transformed, &symmetry.inverse()).unwrap();

    assert!(FramedPoset::equal(&restored.dom, &embedding.dom));
    assert!(FramedPoset::equal(&restored.cod, &embedding.cod));
    assert_eq!(restored.map, embedding.map);
    assert_eq!(restored.inv, embedding.inv);
}

#[test]
fn constructors_report_dimension_and_images() {
    let reflection = SignedPermutation::reflection(3, 1).unwrap();
    assert_eq!(reflection.dimension(), 3);
    assert_eq!(reflection.image_of(1), Some(DirectionImage { direction: 1, reflected: true }));
    assert_eq!(reflection.image_of(0), Some(DirectionImage { direction: 0, reflected: false }));
    assert_eq!(reflection.image_of(3), None);
    assert_eq!(
        SignedPermutation::reflection(2, 2),
        Err(SymmetryError::TargetOutOfRange { source: 2, target: 2, dimension: 2 })
    );
    assert_eq!(
        SignedPermutation::compose(&SignedPermutation::identity(2), &SignedPermutation::identity(3)),
        Err(SymmetryError::DimensionMismatch { first: 2, second: 3 })
    );
    let cycle = SignedPermutation::from_permutation(vec![1, 2, 0]).unwrap();
    assert_eq!(cycle.inverse().image_of(0), Some(DirectionImage { direction: 2, reflected: false }));
}

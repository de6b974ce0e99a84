use std::sync::Arc;

use ofposet::box_construction::{
    BoxConstruction, BoxFaces, BoxGluing, SignedPair, box_construction, elementary_cylinder,
    rigid_box_construction,
};
use ofposet::embedding::Embedding;
use ofposet::isomorphism::{isomorphic, isomorphisms};
use ofposet::orthogonal::orthogonal_product;
use ofposet::poset::{BoundaryMode, FramedPoset, Sign, boundary};
use ofposet::volumetric::is_volumetric;

fn point() -> Arc<FramedPoset> {
    Arc::new(FramedPoset::point())
}

fn arrow(direction: usize) -> Arc<FramedPoset> {
    Arc::new(FramedPoset::from_faces(
        vec![vec![vec![], vec![]], vec![vec![direction]]],
        vec![vec![vec![], vec![]], vec![vec![0]]],
        vec![vec![vec![], vec![]], vec![vec![1]]],
    ))
}

fn tight_arrow() -> Arc<FramedPoset> {
    arrow(0)
}

fn cube(dimension: usize) -> Arc<FramedPoset> {
    let mut result = FramedPoset::point();
    for direction in 0..dimension {
        result = orthogonal_product(&result, &arrow(direction));
    }
    Arc::new(result)
}

fn signs() -> [Sign; 2] {
    [Sign::Input, Sign::Output]
}

fn unique_gluings(faces: &BoxFaces) -> Vec<BoxGluing> {
    let mut gluings = Vec::new();
    for left in 0..faces.frame.len() {
        for right in left + 1..faces.frame.len() {
            for left_sign in signs() {
                for right_sign in signs() {
                    let (left_boundary, _) = boundary(
                        BoundaryMode::Plain,
                        right_sign,
                        faces.frame[right],
                        faces.by_direction[left].get(left_sign),
                    );
                    let (right_boundary, _) = boundary(
                        BoundaryMode::Plain,
                        left_sign,
                        faces.frame[left],
                        faces.by_direction[right].get(right_sign),
                    );
                    let mut candidates = isomorphisms(&left_boundary, &right_boundary);
                    assert_eq!(candidates.len(), 1);
                    gluings.push(BoxGluing {
                        left_direction: left,
                        left_sign,
                        right_direction: right,
                        right_sign,
                        isomorphism: candidates.pop().unwrap(),
                    });
                }
            }
        }
    }
    gluings
}

fn assert_faces_are_boundaries(construction: &BoxConstruction) {
    for (&direction, embeddings) in construction.frame.iter().zip(&construction.face_embeddings) {
        for sign in signs() {
            let (_, actual) = boundary(BoundaryMode::Plain, sign, direction, &construction.shape);
            assert!(Embedding::equal(&actual, embeddings.get(sign)));
        }
    }
}

fn square_faces() -> BoxFaces {
    BoxFaces {
        frame: vec![0, 1],
        by_direction: vec![
            SignedPair {
                input: arrow(1),
                output: arrow(1),
            },
            SignedPair {
                input: arrow(0),
                output: arrow(0),
            },
        ],
    }
}

#[test]
fn one_direction_rigid_box_is_the_tight_arrow() {
    let construction = rigid_box_construction(&BoxFaces {
        frame: vec![0],
        by_direction: vec![SignedPair {
            input: point(),
            output: point(),
        }],
    })
    .unwrap();
    let expected = tight_arrow();

    assert!(isomorphic(&construction.shape, &expected));
    assert_eq!(construction.shape.sizes(), vec![2, 1]);
    assert_faces_are_boundaries(&construction);
}

#[test]
fn explicit_and_rigid_boxes_of_four_edges_are_the_standard_square() {
    let faces = square_faces();
    let explicit = box_construction(&faces, &unique_gluings(&faces)).unwrap();
    let rigid = rigid_box_construction(&faces).unwrap();
    let expected = cube(2);

    for construction in [explicit, rigid] {
        assert!(isomorphic(&construction.shape, &expected));
        assert_eq!(construction.shape.sizes(), vec![4, 4, 1]);
        assert_faces_are_boundaries(&construction);
    }
}

#[test]
fn elementary_cylinder_advances_standard_cubes_by_one_dimension() {
    for dimension in 0..=2 {
        let shape = cube(dimension);
        let cylinder = elementary_cylinder(&shape, &shape).unwrap();
        let expected = cube(dimension + 1);

        assert!(
            isomorphic(&cylinder, &expected),
            "failed in dimension {dimension}",
        );
    }
}

#[test]
fn elementary_cylinder_allows_a_lower_dimensional_output() {
    let input = arrow(0);
    let output = point();
    let cylinder = elementary_cylinder(&input, &output).unwrap();

    assert_eq!(cylinder.active_directions(), vec![0, 1]);
    assert!(is_volumetric(&cylinder));
}

#[test]
fn gluings_given_in_reverse_order_give_the_same_square() {
    let faces = square_faces();
    let reversed: Vec<BoxGluing> = unique_gluings(&faces)
        .into_iter()
        .map(|gluing| BoxGluing {
            left_direction: gluing.right_direction,
            left_sign: gluing.right_sign,
            right_direction: gluing.left_direction,
            right_sign: gluing.left_sign,
            isomorphism: gluing.isomorphism.inverse_isomorphism(),
        })
        .collect();
    let construction = box_construction(&faces, &reversed).unwrap();

    assert!(isomorphic(&construction.shape, &cube(2)));
    assert_faces_are_boundaries(&construction);
}

#[test]
fn missing_or_repeated_gluings_are_refused() {
    let faces = square_faces();
    let mut gluings = unique_gluings(&faces);
    let last = gluings.pop().unwrap();
    assert!(box_construction(&faces, &gluings).is_none());

    gluings.push(last);
    let again = unique_gluings(&faces).pop().unwrap();
    gluings.push(again);
    assert!(box_construction(&faces, &gluings).is_none());
}

#[test]
fn badly_framed_faces_are_refused() {
    let empty = BoxFaces {
        frame: vec![],
        by_direction: vec![],
    };
    assert!(rigid_box_construction(&empty).is_none());

    let unsorted = BoxFaces {
        frame: vec![1, 0],
        by_direction: square_faces().by_direction,
    };
    assert!(rigid_box_construction(&unsorted).is_none());

    let face_in_own_direction = BoxFaces {
        frame: vec![0, 1],
        by_direction: vec![
            SignedPair {
                input: arrow(0),
                output: arrow(0),
            },
            SignedPair {
                input: arrow(0),
                output: arrow(0),
            },
        ],
    };
    assert!(rigid_box_construction(&face_in_own_direction).is_none());
}

#[test]
fn face_lookup_uses_frame_directions() {
    let faces = BoxFaces {
        frame: vec![2, 5],
        by_direction: vec![
            SignedPair {
                input: arrow(5),
                output: arrow(5),
            },
            SignedPair {
                input: arrow(2),
                output: arrow(2),
            },
        ],
    };
    assert_eq!(faces.face(Sign::Output, 5).unwrap().active_directions(), vec![2]);
    assert!(faces.face(Sign::Input, 3).is_none());

    let construction = rigid_box_construction(&faces).unwrap();
    assert_eq!(construction.shape.active_directions(), vec![2, 5]);
    assert!(construction.face(Sign::Input, 2).is_some());
    assert!(construction.face(Sign::Input, 0).is_none());
}

#[test]
fn cylinder_of_incompatible_shapes_is_refused() {
    // The output frame {1} is not contained in the input frame {0}.
    assert!(elementary_cylinder(&arrow(0), &arrow(1)).is_none());
}

#[test]
fn gluings_outside_the_frame_or_within_one_direction_are_refused() {
    let faces = square_faces();
    let mut outside = unique_gluings(&faces);
    outside[0].right_direction = 2;
    assert!(box_construction(&faces, &outside).is_none());

    let mut same = unique_gluings(&faces);
    same[0].right_direction = same[0].left_direction;
    assert!(box_construction(&faces, &same).is_none());

    assert!(box_construction(&faces, &unique_gluings(&faces)).is_some());
}

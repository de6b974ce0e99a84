use std::collections::HashSet;
use std::sync::Arc;

use ofposet::embedding::{Embedding, NO_PREIMAGE};
use ofposet::poset::{BoundaryMode, FramedPoset, Sign, boundary};

fn point() -> Arc<FramedPoset> {
    Arc::new(FramedPoset::point())
}

fn arrow() -> Arc<FramedPoset> {
    Arc::new(FramedPoset::from_faces(
        vec![vec![vec![], vec![]], vec![vec![0]]],
        vec![vec![vec![], vec![]], vec![vec![0]]],
        vec![vec![vec![], vec![]], vec![vec![1]]],
    ))
}

fn reversed_arrow() -> Arc<FramedPoset> {
    Arc::new(FramedPoset::from_faces(
        vec![vec![vec![], vec![]], vec![vec![0]]],
        vec![vec![vec![], vec![]], vec![vec![1]]],
        vec![vec![vec![], vec![]], vec![vec![0]]],
    ))
}

fn input_half_arrow() -> Arc<FramedPoset> {
    Arc::new(FramedPoset::from_faces(
        vec![vec![vec![], vec![]], vec![vec![0]]],
        vec![vec![vec![], vec![]], vec![vec![0]]],
        vec![vec![vec![], vec![]], vec![vec![]]],
    ))
}

fn open_edge() -> Arc<FramedPoset> {
    Arc::new(FramedPoset::from_faces(
        vec![vec![vec![]], vec![vec![0]]],
        vec![vec![vec![]], vec![vec![0]]],
        vec![vec![vec![]], vec![vec![]]],
    ))
}

fn square() -> Arc<FramedPoset> {
    Arc::new(FramedPoset::from_faces(
        vec![
            vec![vec![], vec![], vec![], vec![]],
            vec![vec![0], vec![0], vec![1], vec![1]],
            vec![vec![0, 1]],
        ],
        vec![
            vec![vec![], vec![], vec![], vec![]],
            vec![vec![0], vec![2], vec![0], vec![1]],
            vec![vec![0, 2]],
        ],
        vec![
            vec![vec![], vec![], vec![], vec![]],
            vec![vec![1], vec![3], vec![2], vec![3]],
            vec![vec![1, 3]],
        ],
    ))
}

fn endpoint_embedding(endpoint: usize, cod: Arc<FramedPoset>) -> Embedding {
    Embedding::from_map(point(), cod, vec![vec![endpoint]])
}

fn bottom_edge_embedding(dom: Arc<FramedPoset>, cod: Arc<FramedPoset>) -> Embedding {
    Embedding::from_map(dom, cod, vec![vec![0, 1], vec![0]])
}

fn image_cells(embedding: &Embedding) -> HashSet<(usize, usize)> {
    let mut cells = HashSet::new();
    for (dim, row) in embedding.map.iter().enumerate() {
        for &pos in row {
            cells.insert((dim, pos));
        }
    }
    cells
}

#[test]
fn from_map_derives_the_partial_inverse() {
    let embedding = Embedding::from_map(point(), arrow(), vec![vec![1]]);

    assert_eq!(embedding.map, vec![vec![1]]);
    assert_eq!(embedding.inv, vec![vec![NO_PREIMAGE, 0], vec![NO_PREIMAGE]]);
}

#[test]
fn equal_compares_images_not_domain_presentations() {
    let cod = arrow();
    let id = Embedding::id(Arc::clone(&cod));
    let reversed = reversed_arrow();
    let reversed_map = vec![vec![1, 0], vec![0]];
    let reversed_inv = reversed_map.clone();
    let reversed_embedding = Embedding::make(reversed, cod, reversed_map, reversed_inv);

    assert!(!FramedPoset::equal(&id.dom, &reversed_embedding.dom));
    assert!(Embedding::equal(&id, &reversed_embedding));
}

#[test]
fn is_empty_checks_the_domain() {
    let cod = arrow();

    assert!(Embedding::empty(Arc::clone(&cod)).is_empty());
    assert!(Embedding::id(Arc::new(FramedPoset::empty())).is_empty());
    assert!(!endpoint_embedding(0, Arc::clone(&cod)).is_empty());
    assert!(!Embedding::id(cod).is_empty());
}

#[test]
fn is_surjective_checks_every_inverse_entry() {
    let cod = arrow();

    assert!(Embedding::id(Arc::clone(&cod)).is_surjective());
    assert!(!endpoint_embedding(0, cod).is_surjective());
}

#[test]
fn is_isomorphism_requires_closedness_and_surjectivity() {
    let cod = arrow();
    let identity = Embedding::id(Arc::clone(&cod));
    let proper_closed_subobject = endpoint_embedding(0, Arc::clone(&cod));
    let bijective_with_missing_incidence = Embedding::make(
        input_half_arrow(),
        cod,
        vec![vec![0, 1], vec![0]],
        vec![vec![0, 1], vec![0]],
    );

    assert!(identity.is_isomorphism());
    assert!(proper_closed_subobject.is_closed());
    assert!(!proper_closed_subobject.is_surjective());
    assert!(!proper_closed_subobject.is_isomorphism());
    assert!(bijective_with_missing_incidence.is_surjective());
    assert!(!bijective_with_missing_incidence.is_closed());
    assert!(!bijective_with_missing_incidence.is_isomorphism());
}

#[test]
fn inverse_isomorphism_swaps_maps_and_undoes_the_original() {
    let dom = arrow();
    let cod = reversed_arrow();
    let isomorphism = Embedding::make(
        Arc::clone(&dom),
        Arc::clone(&cod),
        vec![vec![1, 0], vec![0]],
        vec![vec![1, 0], vec![0]],
    );

    let inverse = isomorphism.inverse_isomorphism();

    assert!(FramedPoset::equal(&inverse.dom, &cod));
    assert!(FramedPoset::equal(&inverse.cod, &dom));
    assert_eq!(inverse.map, isomorphism.inv);
    assert_eq!(inverse.inv, isomorphism.map);
    assert_eq!(Embedding::compose(&isomorphism, &inverse).map, Embedding::id(dom).map);
    assert_eq!(Embedding::compose(&inverse, &isomorphism).map, Embedding::id(cod).map);
}

#[test]
fn equal_sees_signed_image_edges() {
    let cod = arrow();
    let id = Embedding::id(Arc::clone(&cod));
    let same_cells = Embedding::make(
        input_half_arrow(),
        cod,
        vec![vec![0, 1], vec![0]],
        vec![vec![0, 1], vec![0]],
    );

    assert_eq!(image_cells(&id), image_cells(&same_cells));
    assert!(!Embedding::equal(&id, &same_cells));
}

#[test]
fn equal_rejects_different_codomains() {
    let into_arrow = endpoint_embedding(0, arrow());
    let into_square = endpoint_embedding(0, square());

    assert!(!Embedding::equal(&into_arrow, &into_square));
}

#[test]
fn is_closed_accepts_downward_closed_image() {
    assert!(Embedding::id(arrow()).is_closed());
    assert!(endpoint_embedding(0, arrow()).is_closed());
}

#[test]
fn is_closed_rejects_image_missing_faces() {
    let cod = arrow();
    let embedding = Embedding::make(open_edge(), cod, vec![vec![0], vec![0]], vec![vec![0, NO_PREIMAGE], vec![0]]);

    assert!(!embedding.is_closed());
}

#[test]
fn is_closed_rejects_bijective_image_with_missing_incidence() {
    let cod = arrow();
    let embedding = Embedding::make(
        input_half_arrow(),
        cod,
        vec![vec![0, 1], vec![0]],
        vec![vec![0, 1], vec![0]],
    );

    assert_eq!(embedding.map, Embedding::id(Arc::clone(&embedding.cod)).map);
    assert!(!embedding.is_closed());
}

#[test]
fn intersection_returns_maps_to_both_arguments() {
    let cod = square();
    let (_, left) = boundary(BoundaryMode::Plain, Sign::Input, 0, &cod);
    let (_, bottom) = boundary(BoundaryMode::Plain, Sign::Input, 1, &cod);

    let intersection = Embedding::intersection(&left, &bottom);

    assert_eq!(intersection.into_codomain.map, vec![vec![0]]);
    assert_eq!(intersection.into_left.map, vec![vec![0]]);
    assert_eq!(intersection.into_right.map, vec![vec![0]]);
    assert!(intersection.into_codomain.is_closed());
    assert!(intersection.into_left.is_closed());
    assert!(intersection.into_right.is_closed());
    assert!(Embedding::equal(&Embedding::compose(&intersection.into_left, &left), &intersection.into_codomain));
    assert!(Embedding::equal(&Embedding::compose(&intersection.into_right, &bottom), &intersection.into_codomain));
}

#[test]
fn union_returns_maps_from_both_arguments() {
    let cod = square();
    let (_, left) = boundary(BoundaryMode::Plain, Sign::Input, 0, &cod);
    let (_, bottom) = boundary(BoundaryMode::Plain, Sign::Input, 1, &cod);

    let union = Embedding::union(&left, &bottom);

    assert_eq!(union.into_codomain.map, vec![vec![0, 1, 2], vec![0, 2]]);
    assert_eq!(union.left_into_union.map, vec![vec![0, 2], vec![1]]);
    assert_eq!(union.right_into_union.map, vec![vec![0, 1], vec![0]]);
    assert!(union.into_codomain.is_closed());
    assert!(union.left_into_union.is_closed());
    assert!(union.right_into_union.is_closed());
    assert!(Embedding::equal(&Embedding::compose(&union.left_into_union, &union.into_codomain), &left));
    assert!(Embedding::equal(&Embedding::compose(&union.right_into_union, &union.into_codomain), &bottom));
}

#[test]
fn compose_uses_structural_middle_equality() {
    let endpoint = endpoint_embedding(1, arrow());
    let bottom_edge = bottom_edge_embedding(arrow(), square());

    let composite = Embedding::compose(&endpoint, &bottom_edge);

    assert_eq!(composite.map, vec![vec![1]]);
    assert_eq!(
        composite.inv,
        vec![
            vec![NO_PREIMAGE, 0, NO_PREIMAGE, NO_PREIMAGE],
            vec![NO_PREIMAGE, NO_PREIMAGE, NO_PREIMAGE, NO_PREIMAGE],
            vec![NO_PREIMAGE],
        ]
    );
}

#[test]
fn composing_with_identities_changes_nothing() {
    let edge = bottom_edge_embedding(arrow(), square());
    let left = Embedding::compose(&Embedding::id(arrow()), &edge);
    let right = Embedding::compose(&edge, &Embedding::id(square()));
    assert!(Embedding::equal(&left, &edge));
    assert!(Embedding::equal(&right, &edge));
    assert_eq!(left.map, edge.map);
    assert_eq!(right.inv, edge.inv);
}

#[test]
fn well_formed_embeddings_are_recognised() {
    assert!(Embedding::id(square()).well_formed());
    assert!(endpoint_embedding(1, arrow()).well_formed());
    let broken = Embedding::make(point(), point(), vec![vec![1]], vec![vec![0]]);
    assert!(!broken.well_formed());
    let wrong_inverse = Embedding::make(point(), arrow(), vec![vec![0]], vec![vec![0, 0], vec![NO_PREIMAGE]]);
    assert!(!wrong_inverse.well_formed());
}

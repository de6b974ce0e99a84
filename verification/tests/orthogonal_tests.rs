use std::sync::Arc;

use ofposet::embedding::Embedding;
use ofposet::isomorphism::isomorphic;
use ofposet::orthogonal::{
    orthogonal_product, orthogonal_product_associator, orthogonal_product_commutator,
    orthogonal_product_embedding,
};
use ofposet::poset::{FramedPoset, shift};

fn tight_arrow() -> Arc<FramedPoset> {
    Arc::new(FramedPoset::from_faces(
        vec![vec![vec![], vec![]], vec![vec![0]]],
        vec![vec![vec![], vec![]], vec![vec![0]]],
        vec![vec![vec![], vec![]], vec![vec![1]]],
    ))
}

fn square() -> Arc<FramedPoset> {
    Arc::new(FramedPoset::from_faces(
        vec![
            vec![vec![], vec![], vec![], vec![]],
            vec![vec![0], vec![0], vec![1], vec![1]],
            vec![vec![0, 1]],
        ],
        vec![
            vec![vec![], vec![], vec![], vec![]],
            vec![vec![0], vec![2], vec![0], vec![1]],
            vec![vec![0, 2]],
        ],
        vec![
            vec![vec![], vec![], vec![], vec![]],
            vec![vec![1], vec![3], vec![2], vec![3]],
            vec![vec![1, 3]],
        ],
    ))
}

#[test]
fn orthogonal_arrows_form_the_oriented_square() {
    let horizontal = tight_arrow();
    let vertical = Arc::new(shift(&horizontal));
    let product = orthogonal_product(&horizontal, &vertical);

    assert_eq!(product.sizes(), vec![4, 4, 1]);
    assert_eq!(product.active_directions(), vec![0, 1]);
    assert!(isomorphic(&product, &square()));
}

#[test]
fn point_is_the_unit_and_empty_is_absorbing() {
    let empty = FramedPoset::empty();
    let point = FramedPoset::point();
    let arrow = tight_arrow();

    assert!(FramedPoset::equal(&orthogonal_product(&point, &arrow), &arrow));
    assert!(FramedPoset::equal(&orthogonal_product(&arrow, &point), &arrow));
    assert!(orthogonal_product(&empty, &arrow).sizes().is_empty());
    assert!(orthogonal_product(&arrow, &empty).sizes().is_empty());
}

#[test]
fn product_discards_pairs_with_overlapping_bases() {
    let arrow = tight_arrow();
    let product = orthogonal_product(&arrow, &arrow);

    assert_eq!(product.sizes(), vec![4, 4]);
    assert_eq!(product.active_directions(), vec![0]);
    assert_eq!(product.sizes().iter().sum::<usize>(), 8);
    assert!(product.well_formed());
}

#[test]
fn commutator_is_an_isomorphism() {
    let arrow_0 = tight_arrow();
    let arrow_1 = Arc::new(shift(&arrow_0));

    for (left, right) in [
        (arrow_0.as_ref(), arrow_1.as_ref()),
        (arrow_0.as_ref(), arrow_0.as_ref()),
    ] {
        let commutator = orthogonal_product_commutator(left, right);

        assert!(FramedPoset::equal(&commutator.dom, &orthogonal_product(left, right)));
        assert!(FramedPoset::equal(&commutator.cod, &orthogonal_product(right, left)));
        assert!(commutator.is_isomorphism());
    }
}

#[test]
fn product_of_isomorphisms_is_an_isomorphism() {
    let arrow_0 = tight_arrow();
    let arrow_1 = Arc::new(shift(&arrow_0));
    let commutator = orthogonal_product_commutator(&arrow_0, &arrow_1);
    let point_identity = Embedding::id(Arc::new(FramedPoset::point()));
    let product = orthogonal_product_embedding(&commutator, &point_identity);

    assert!(FramedPoset::equal(
        &product.dom,
        &orthogonal_product(&commutator.dom, &point_identity.dom),
    ));
    assert!(FramedPoset::equal(
        &product.cod,
        &orthogonal_product(&commutator.cod, &point_identity.cod),
    ));
    assert!(product.is_isomorphism());
}

#[test]
fn associator_is_an_isomorphism() {
    let point = FramedPoset::point();
    let arrow_0 = tight_arrow();
    let arrow_1 = Arc::new(shift(&arrow_0));
    let arrow_2 = Arc::new(shift(&arrow_1));
    let cases = [
        (&point, arrow_0.as_ref(), arrow_1.as_ref()),
        (arrow_0.as_ref(), arrow_1.as_ref(), arrow_2.as_ref()),
        (arrow_0.as_ref(), arrow_0.as_ref(), arrow_1.as_ref()),
    ];

    for (left, middle, right) in cases {
        let associator = orthogonal_product_associator(left, middle, right);
        let left_middle = orthogonal_product(left, middle);
        let middle_right = orthogonal_product(middle, right);

        assert!(FramedPoset::equal(&associator.dom, &orthogonal_product(&left_middle, right)));
        assert!(FramedPoset::equal(&associator.cod, &orthogonal_product(left, &middle_right)));
        assert!(associator.is_isomorphism());
    }
}

#[test]
fn embedding_product_maps_each_pair_to_its_images() {
    let arrow_0 = tight_arrow();
    let arrow_1 = Arc::new(shift(&arrow_0));
    let identity_0 = Embedding::id(arrow_0.clone());
    let identity_1 = Embedding::id(arrow_1.clone());
    let product = orthogonal_product_embedding(&identity_0, &identity_1);

    assert_eq!(product.dom.sizes(), vec![4, 4, 1]);
    assert!(product.is_isomorphism());
    for level in 0..product.map.len() {
        for (cell, image) in product.map[level].iter().enumerate() {
            assert_eq!(*image, cell);
        }
    }
}

#[test]
fn commutator_sends_the_square_to_its_transpose() {
    let horizontal = tight_arrow();
    let vertical = Arc::new(shift(&horizontal));
    let commutator = orthogonal_product_commutator(&horizontal, &vertical);

    assert_eq!(commutator.dom.sizes(), vec![4, 4, 1]);
    assert_eq!(commutator.map[2], vec![0]);
    let mut seen = commutator.map[1].clone();
    seen.sort();
    assert_eq!(seen, vec![0, 1, 2, 3]);
    assert_eq!(commutator.map[0], vec![0, 2, 1, 3]);
}

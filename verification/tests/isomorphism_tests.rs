use std::collections::HashMap;
use std::sync::Arc;

use ofposet::embedding::Embedding;
use ofposet::isomorphism::{isomorphic, isomorphisms, normalize, normalize_with_labeling, vf2_isomorphic};
use ofposet::poset::{FramedPoset, Sign};
use ofposet::traversal::permute_cells;

fn points(count: usize) -> Arc<FramedPoset> {
    Arc::new(FramedPoset::from_faces(
        vec![vec![vec![]; count]],
        vec![vec![vec![]; count]],
        vec![vec![vec![]; count]],
    ))
}

fn half_arrow(sign: Sign, direction: usize) -> Arc<FramedPoset> {
    let (faces_in, faces_out) = match sign {
        Sign::Input => (vec![vec![vec![]], vec![vec![0]]], vec![vec![vec![]], vec![vec![]]]),
        Sign::Output => (vec![vec![vec![]], vec![vec![]]], vec![vec![vec![]], vec![vec![0]]]),
    };
    Arc::new(FramedPoset::from_faces(vec![vec![vec![]], vec![vec![direction]]], faces_in, faces_out))
}

fn arrow() -> Arc<FramedPoset> {
    Arc::new(FramedPoset::from_faces(
        vec![vec![vec![], vec![]], vec![vec![0]]],
        vec![vec![vec![], vec![]], vec![vec![0]]],
        vec![vec![vec![], vec![]], vec![vec![1]]],
    ))
}

fn arrow_with_reordered_vertices() -> Arc<FramedPoset> {
    Arc::new(FramedPoset::from_faces(
        vec![vec![vec![], vec![]], vec![vec![0]]],
        vec![vec![vec![], vec![]], vec![vec![1]]],
        vec![vec![vec![], vec![]], vec![vec![0]]],
    ))
}

#[test]
fn empty_posets_have_one_isomorphism() {
    let a = Arc::new(FramedPoset::empty());
    let b = Arc::new(FramedPoset::empty());
    let isomorphisms = isomorphisms(&a, &b);

    assert!(isomorphic(&a, &b));
    assert_eq!(isomorphisms.len(), 1);
    assert!(isomorphisms[0].is_isomorphism());
}

#[test]
fn enumerates_every_permutation_of_indistinguishable_points() {
    let shape = points(3);
    let isomorphisms = isomorphisms(&shape, &shape);
    let mut maps: Vec<Vec<usize>> = isomorphisms.iter().map(|embedding| embedding.map[0].clone()).collect();
    maps.sort_unstable();
    maps.dedup();

    assert_eq!(isomorphisms.len(), 6);
    assert_eq!(maps.len(), 6);
    assert!(isomorphisms.iter().all(Embedding::is_isomorphism));
}

#[test]
fn recovers_isomorphism_between_different_cell_orders() {
    let source = arrow();
    let target = arrow_with_reordered_vertices();
    let isomorphisms = isomorphisms(&source, &target);

    assert!(isomorphic(&source, &target));
    assert_eq!(isomorphisms.len(), 1);
    assert_eq!(isomorphisms[0].map, vec![vec![1, 0], vec![0]]);
    assert_eq!(isomorphisms[0].inv, vec![vec![1, 0], vec![0]]);
    assert!(isomorphisms[0].is_isomorphism());
}

#[test]
fn edge_orientation_is_preserved() {
    let input = half_arrow(Sign::Input, 0);
    let output = half_arrow(Sign::Output, 0);

    assert!(!isomorphic(&input, &output));
    assert!(isomorphisms(&input, &output).is_empty());
}

#[test]
fn basis_is_preserved() {
    let direction_0 = half_arrow(Sign::Input, 0);
    let direction_1 = half_arrow(Sign::Input, 1);

    assert!(!isomorphic(&direction_0, &direction_1));
    assert!(isomorphisms(&direction_0, &direction_1).is_empty());
}

#[test]
fn normalization_is_canonical_and_idempotent() {
    let source = arrow();
    let reordered = arrow_with_reordered_vertices();

    let normal_source = normalize(&source);
    let normal_reordered = normalize(&reordered);
    let normal_again = normalize(&normal_source);

    assert!(!source.is_normal());
    assert!(!reordered.is_normal());
    assert!(normal_source.is_normal());
    assert!(normal_reordered.is_normal());
    assert!(normal_again.is_normal());
    assert!(FramedPoset::equal(&normal_source, &normal_reordered));
    assert!(FramedPoset::equal(&normal_source, &normal_again));
    assert!(vf2_isomorphic(&source, &normal_source));
    assert!(vf2_isomorphic(&reordered, &normal_reordered));
}

#[test]
fn normalized_posets_deduplicate_as_hash_map_keys() {
    let mut counts = HashMap::new();
    for shape in [arrow(), arrow_with_reordered_vertices()] {
        let normal = normalize(&shape);
        let key = (normal.basis.clone(), normal.faces_in.clone(), normal.faces_out.clone());
        *counts.entry(key).or_insert(0) += 1;
    }

    assert_eq!(counts.len(), 1);
    assert_eq!(counts.into_values().next(), Some(2));
}

#[test]
fn normalized_equality_agrees_with_vf2() {
    let cases = [
        arrow(),
        arrow_with_reordered_vertices(),
        half_arrow(Sign::Input, 0),
        half_arrow(Sign::Output, 0),
        half_arrow(Sign::Input, 1),
        points(3),
    ];

    for a in &cases {
        for b in &cases {
            assert_eq!(isomorphic(a, b), vf2_isomorphic(a, b));
        }
    }
}

#[test]
fn labeling_orders_cells_within_each_level() {
    let shape = arrow();
    let relabeled = normalize_with_labeling(&shape, &vec![5, 2, 0]);

    assert!(relabeled.is_normal());
    assert_eq!(relabeled.faces_in, vec![vec![vec![], vec![]], vec![vec![1]]]);
    assert_eq!(relabeled.faces_out, vec![vec![vec![], vec![]], vec![vec![0]]]);
    assert!(FramedPoset::equal(&relabeled, &arrow_with_reordered_vertices()));
}

#[test]
fn labeling_ties_keep_the_original_order() {
    let shape = points(3);
    let relabeled = normalize_with_labeling(&shape, &vec![1, 0, 1]);

    assert_eq!(relabeled.sizes(), vec![3]);
    assert!(FramedPoset::equal(&relabeled, &shape));
}

#[test]
fn normal_forms_of_a_normalized_poset_are_copies() {
    let normal = normalize(&arrow());
    let again = normalize(&normal);

    assert!(again.is_normal());
    assert!(FramedPoset::equal(&normal, &again));
}

#[test]
fn normal_forms_are_unique_and_comparison_is_symmetric() {
    let cases = [
        arrow(),
        arrow_with_reordered_vertices(),
        half_arrow(Sign::Input, 0),
        half_arrow(Sign::Output, 0),
        points(2),
    ];
    for a in &cases {
        assert!(FramedPoset::equal(&normalize(a), &normalize(a)));
        assert!(isomorphic(a, a));
        for b in &cases {
            assert_eq!(isomorphic(a, b), isomorphic(b, a));
        }
    }
}

fn renumbered_square() -> Arc<FramedPoset> {
    Arc::new(FramedPoset::from_faces(
        vec![
            vec![vec![], vec![], vec![], vec![]],
            vec![vec![0], vec![0], vec![1], vec![1]],
            vec![vec![0, 1]],
        ],
        vec![
            vec![vec![], vec![], vec![], vec![]],
            vec![vec![0], vec![2], vec![0], vec![1]],
            vec![vec![0, 2]],
        ],
        vec![
            vec![vec![], vec![], vec![], vec![]],
            vec![vec![1], vec![3], vec![2], vec![3]],
            vec![vec![1, 3]],
        ],
    ))
}

#[test]
fn every_renumbering_is_among_the_isomorphisms_found() {
    let square = renumbered_square();
    for order in [vec![3, 1, 0, 2], vec![1, 0, 3, 2], vec![2, 3, 0, 1]] {
        let (permuted, iso) = permute_cells(&square, vec![order, vec![2, 0, 3, 1], vec![0]]).unwrap();
        let found = isomorphisms(&permuted, &square);
        assert!(found.iter().any(|e| e.map == iso.map && e.inv == iso.inv));
        assert_eq!(found.len(), 1);
    }
}

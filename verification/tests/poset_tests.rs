use std::sync::Arc;

use ofposet::embedding::Embedding;
use ofposet::poset::{BoundaryMode, FramedPoset, FramedPosetSubset, Sign, boundary, closure, shift};

fn tight_arrow() -> Arc<FramedPoset> {
    Arc::new(FramedPoset::from_faces(
        vec![vec![vec![], vec![]], vec![vec![0]]],
        vec![vec![vec![], vec![]], vec![vec![0]]],
        vec![vec![vec![], vec![]], vec![vec![1]]],
    ))
}

fn square() -> Arc<FramedPoset> {
    Arc::new(FramedPoset::from_faces(
        vec![
            vec![vec![], vec![], vec![], vec![]],
            vec![vec![0], vec![0], vec![1], vec![1]],
            vec![vec![0, 1]],
        ],
        vec![
            vec![vec![], vec![], vec![], vec![]],
            vec![vec![0], vec![2], vec![0], vec![1]],
            vec![vec![0, 2]],
        ],
        vec![
            vec![vec![], vec![], vec![], vec![]],
            vec![vec![1], vec![3], vec![2], vec![3]],
            vec![vec![1, 3]],
        ],
    ))
}

#[test]
fn empty_and_point() {
    let empty = FramedPoset::empty();
    assert_eq!(empty.dim(), -1);
    assert_eq!(empty.sizes(), Vec::<usize>::new());
    assert!(empty.active_directions().is_empty());
    assert!(!empty.is_normal());

    let point = FramedPoset::point();
    assert_eq!(point.dim(), 0);
    assert_eq!(point.sizes(), vec![1]);
    assert_eq!(point.basis_of(0, 0), &Vec::<usize>::new());
    assert!(point.active_directions().is_empty());
    assert!(!point.is_normal());
}

#[test]
fn active_directions_are_sorted_and_deduplicated() {
    assert_eq!(square().active_directions(), vec![0, 1]);
}

#[test]
fn shift_increments_bases_and_preserves_signed_adjacency() {
    let original = square();
    let shifted = shift(&original);

    assert_eq!(shifted.active_directions(), vec![1, 2]);
    assert_eq!(shifted.basis_of(1, 0), &vec![1]);
    assert_eq!(shifted.basis_of(1, 2), &vec![2]);
    assert_eq!(shifted.basis_of(2, 0), &vec![1, 2]);
    assert_eq!(shifted.faces_in, original.faces_in);
    assert_eq!(shifted.faces_out, original.faces_out);
    assert_eq!(shifted.cofaces_in, original.cofaces_in);
    assert_eq!(shifted.cofaces_out, original.cofaces_out);
    assert!(!shifted.is_normal());
    assert!(shifted.well_formed());
}

#[test]
fn from_faces_generates_cofaces() {
    let arrow = tight_arrow();

    assert_eq!(arrow.cofaces_of(Sign::Input, 0, 0), &vec![0]);
    assert_eq!(arrow.cofaces_of(Sign::Input, 0, 1), &Vec::<usize>::new());
    assert_eq!(arrow.cofaces_of(Sign::Output, 0, 0), &Vec::<usize>::new());
    assert_eq!(arrow.cofaces_of(Sign::Output, 0, 1), &vec![0]);
}

#[test]
fn subset_from_embedding_marks_image_cells() {
    let arrow = tight_arrow();
    let (_, input_embedding) = boundary(BoundaryMode::Plain, Sign::Input, 0, &arrow);
    let subset = FramedPosetSubset::from_embedding(&input_embedding);

    assert!(subset.contains(0, 0));
    assert!(!subset.contains(0, 1));
}

#[test]
fn subset_predicate_compares_cells_in_a_common_ambient_poset() {
    let arrow = tight_arrow();
    let endpoint = FramedPosetSubset::make(Arc::clone(&arrow), vec![vec![true, false], vec![false]]);
    let whole = FramedPosetSubset::make(Arc::clone(&arrow), vec![vec![true, true], vec![true]]);
    let point = FramedPosetSubset::make(Arc::new(FramedPoset::point()), vec![vec![true]]);

    assert!(endpoint.is_subset_of(&endpoint));
    assert!(endpoint.is_subset_of(&whole));
    assert!(!whole.is_subset_of(&endpoint));
    assert!(!endpoint.is_subset_of(&point));
}

#[test]
fn closure_adds_missing_faces_and_returns_closed_embedding() {
    let arrow = tight_arrow();
    let subset = FramedPosetSubset::make(Arc::clone(&arrow), vec![vec![false, false], vec![true]]);

    let (closed, embedding) = closure(&subset);

    assert_eq!(closed.sizes(), vec![2, 1]);
    assert!(embedding.is_closed());
    assert!(Embedding::equal(&embedding, &Embedding::id(arrow)));
}

#[test]
fn closure_of_closed_embedding_subset_is_equal_to_original() {
    let square = square();
    let (_, original) = boundary(BoundaryMode::Plain, Sign::Input, 0, &square);
    let subset = FramedPosetSubset::from_embedding(&original);

    let (_, closed) = closure(&subset);

    assert!(original.is_closed());
    assert!(closed.is_closed());
    assert!(Embedding::equal(&closed, &original));
}

#[test]
fn closure_of_empty_subset_is_empty_embedding() {
    let arrow = tight_arrow();
    let subset = FramedPosetSubset::make(Arc::clone(&arrow), vec![vec![false, false], vec![false]]);

    let (closed, embedding) = closure(&subset);

    assert_eq!(closed.sizes(), Vec::<usize>::new());
    assert_eq!(embedding.map, Vec::<Vec<usize>>::new());
    assert!(embedding.is_closed());
}

#[test]
fn closure_is_idempotent_on_its_own_image() {
    let square = square();
    let subset = FramedPosetSubset::make(
        Arc::clone(&square),
        vec![vec![false, false, false, false], vec![false, false, true, false], vec![false]],
    );
    let (_, first) = closure(&subset);
    let (_, second) = closure(&FramedPosetSubset::from_embedding(&first));
    assert!(Embedding::equal(&first, &second));
    assert_eq!(first.map, vec![vec![0, 2], vec![2]]);
}

#[test]
fn well_formed_rejects_signed_face_overlap() {
    let poset = FramedPoset {
        normal: false,
        dim: 1,
        basis: vec![vec![vec![]], vec![vec![0]]],
        faces_in: vec![vec![vec![]], vec![vec![0]]],
        faces_out: vec![vec![vec![]], vec![vec![0]]],
        cofaces_in: vec![vec![vec![0]], vec![vec![]]],
        cofaces_out: vec![vec![vec![0]], vec![vec![]]],
    };

    assert!(!poset.well_formed());
}

#[test]
fn well_formed_rejects_positive_cell_without_faces() {
    let poset = FramedPoset {
        normal: false,
        dim: 1,
        basis: vec![vec![vec![]], vec![vec![0]]],
        faces_in: vec![vec![vec![]], vec![vec![]]],
        faces_out: vec![vec![vec![]], vec![vec![]]],
        cofaces_in: vec![vec![vec![]], vec![vec![]]],
        cofaces_out: vec![vec![vec![]], vec![vec![]]],
    };

    assert!(!poset.well_formed());
}

#[test]
fn well_formed_rejects_non_closed_basis_map() {
    let poset = FramedPoset {
        normal: false,
        dim: 2,
        basis: vec![vec![vec![]], vec![vec![0], vec![1]], vec![vec![0, 1]]],
        faces_in: vec![vec![vec![]], vec![vec![0], vec![0]], vec![vec![0]]],
        faces_out: vec![vec![vec![]], vec![vec![], vec![]], vec![vec![]]],
        cofaces_in: vec![vec![vec![0, 1]], vec![vec![0], vec![]], vec![vec![]]],
        cofaces_out: vec![vec![vec![]], vec![vec![], vec![]], vec![vec![]]],
    };

    assert!(!poset.well_formed());
}

#[test]
fn well_formed_accepts_one_sided_faces_over_every_basis_face() {
    let poset = FramedPoset {
        normal: false,
        dim: 2,
        basis: vec![vec![vec![]], vec![vec![0], vec![1]], vec![vec![0, 1]]],
        faces_in: vec![vec![vec![]], vec![vec![0], vec![0]], vec![vec![0, 1]]],
        faces_out: vec![vec![vec![]], vec![vec![], vec![]], vec![vec![]]],
        cofaces_in: vec![vec![vec![0, 1]], vec![vec![0], vec![0]], vec![vec![]]],
        cofaces_out: vec![vec![vec![]], vec![vec![], vec![]], vec![vec![]]],
    };

    assert!(poset.well_formed());
}

#[test]
fn well_formed_rejects_duplicate_adjacency() {
    let poset = FramedPoset {
        normal: false,
        dim: 1,
        basis: vec![vec![vec![]], vec![vec![0]]],
        faces_in: vec![vec![vec![]], vec![vec![0, 0]]],
        faces_out: vec![vec![vec![]], vec![vec![]]],
        cofaces_in: vec![vec![vec![0]], vec![vec![]]],
        cofaces_out: vec![vec![vec![]], vec![vec![]]],
    };

    assert!(!poset.well_formed());
}

#[test]
fn well_formed_accepts_the_standard_shapes() {
    assert!(FramedPoset::empty().well_formed());
    assert!(FramedPoset::point().well_formed());
    assert!(tight_arrow().well_formed());
    assert!(square().well_formed());
}

#[test]
fn tight_arrow_boundaries() {
    let arrow = tight_arrow();

    let (input, input_emb) = boundary(BoundaryMode::Plain, Sign::Input, 0, &arrow);
    assert_eq!(input.sizes(), vec![1]);
    assert_eq!(input_emb.map, vec![vec![0]]);

    let (output, output_emb) = boundary(BoundaryMode::Plain, Sign::Output, 0, &arrow);
    assert_eq!(output.sizes(), vec![1]);
    assert_eq!(output_emb.map, vec![vec![1]]);
}

#[test]
fn two_direction_boundaries_differ() {
    let square = square();

    let (left, left_emb) = boundary(BoundaryMode::Plain, Sign::Input, 0, &square);
    assert_eq!(left.sizes(), vec![2, 1]);
    assert_eq!(left_emb.map, vec![vec![0, 2], vec![2]]);

    let (bottom, bottom_emb) = boundary(BoundaryMode::Plain, Sign::Input, 1, &square);
    assert_eq!(bottom.sizes(), vec![2, 1]);
    assert_eq!(bottom_emb.map, vec![vec![0, 1], vec![0]]);
}

#[test]
fn boundary_closes_downward() {
    let square = square();

    let (left, _) = boundary(BoundaryMode::Plain, Sign::Input, 0, &square);
    assert_eq!(left.basis_of(1, 0), &vec![1]);
    assert_eq!(left.faces_of(Sign::Input, 1, 0), &vec![0]);
    assert_eq!(left.faces_of(Sign::Output, 1, 0), &vec![1]);
}

#[test]
fn tight_arrow_hat_boundaries() {
    let arrow = tight_arrow();

    let (input, input_emb) = boundary(BoundaryMode::Hat, Sign::Input, 0, &arrow);
    assert_eq!(input.sizes(), vec![1]);
    assert_eq!(input_emb.map, vec![vec![0]]);

    let (output, output_emb) = boundary(BoundaryMode::Hat, Sign::Output, 0, &arrow);
    assert_eq!(output.sizes(), vec![1]);
    assert_eq!(output_emb.map, vec![vec![1]]);
}

#[test]
fn two_direction_hat_boundaries_differ() {
    let square = square();

    let (left, left_emb) = boundary(BoundaryMode::Hat, Sign::Input, 0, &square);
    assert_eq!(left.sizes(), vec![2, 1]);
    assert_eq!(left_emb.map, vec![vec![0, 2], vec![2]]);

    let (bottom, bottom_emb) = boundary(BoundaryMode::Hat, Sign::Input, 1, &square);
    assert_eq!(bottom.sizes(), vec![2, 1]);
    assert_eq!(bottom_emb.map, vec![vec![0, 1], vec![0]]);
}

#[test]
fn hat_boundary_closes_downward() {
    let square = square();

    let (left, _) = boundary(BoundaryMode::Hat, Sign::Input, 0, &square);
    assert_eq!(left.basis_of(1, 0), &vec![1]);
    assert_eq!(left.faces_of(Sign::Input, 1, 0), &vec![0]);
    assert_eq!(left.faces_of(Sign::Output, 1, 0), &vec![1]);
}

#[test]
fn maximal_cells_and_orthogonality() {
    let square = square();
    assert_eq!(square.maximal(2), vec![0]);
    assert_eq!(square.maximal(1), Vec::<usize>::new());
    assert_eq!(square.maximal(5), Vec::<usize>::new());
    assert!(square.is_orthogonal_to(1, 0, 1));
    assert!(!square.is_orthogonal_to(1, 0, 0));
    assert_eq!(tight_arrow().maximal(1), vec![0]);
}

#[test]
fn equality_ignores_the_normal_form_marker() {
    let shape = tight_arrow();
    let mut marked_normal = shape.as_ref().clone();
    marked_normal.normal = true;

    assert_eq!(shape.as_ref(), &marked_normal);
    assert!(FramedPoset::equal(&shape, &marked_normal));
    assert!(!FramedPoset::equal(&shape, &square()));
}

#[test]
fn connectivity_of_empty_point_and_connected_shapes() {
    assert!(!FramedPoset::empty().is_connected());
    assert!(FramedPoset::point().is_connected());
    assert!(tight_arrow().is_connected());
    assert!(square().is_connected());
}

#[test]
fn connectivity_rejects_an_arrow_with_an_isolated_point() {
    let disconnected = FramedPoset::from_faces(
        vec![vec![vec![], vec![], vec![]], vec![vec![0]]],
        vec![vec![vec![], vec![], vec![]], vec![vec![0]]],
        vec![vec![vec![], vec![], vec![]], vec![vec![1]]],
    );

    assert!(!disconnected.is_connected());
}

#[test]
fn connectivity_follows_cofaces_from_the_first_cell() {
    let two_points = FramedPoset::from_faces(
        vec![vec![vec![], vec![]]],
        vec![vec![vec![], vec![]]],
        vec![vec![vec![], vec![]]],
    );
    let reversed = FramedPoset::from_faces(
        vec![vec![vec![], vec![]], vec![vec![0]]],
        vec![vec![vec![], vec![]], vec![vec![1]]],
        vec![vec![vec![], vec![]], vec![vec![0]]],
    );

    assert!(!two_points.is_connected());
    assert!(reversed.is_connected());
}

#[test]
fn rigidity_requires_connectedness_and_trivial_automorphisms() {
    let interchangeable_half_edges = FramedPoset::from_faces(
        vec![vec![vec![]], vec![vec![0], vec![0]]],
        vec![vec![vec![]], vec![vec![0], vec![0]]],
        vec![vec![vec![]], vec![vec![], vec![]]],
    );

    assert!(!FramedPoset::empty().is_rigid());
    assert!(FramedPoset::point().is_rigid());
    assert!(tight_arrow().is_rigid());
    assert!(interchangeable_half_edges.is_connected());
    assert!(!interchangeable_half_edges.is_rigid());
}

#[test]
fn rigidity_is_recursive_over_all_boundaries() {
    let half_arrow = Arc::new(FramedPoset::from_faces(
        vec![vec![vec![]], vec![vec![0]]],
        vec![vec![vec![]], vec![vec![0]]],
        vec![vec![vec![]], vec![vec![]]],
    ));

    assert!(half_arrow.is_connected());
    assert_eq!(ofposet::isomorphism::isomorphisms(&half_arrow, &half_arrow).len(), 1);
    assert!(boundary(BoundaryMode::Hat, Sign::Output, 0, &half_arrow).0.sizes().is_empty());
    assert!(!half_arrow.is_rigid());
    assert!(square().is_rigid());
}

use std::sync::Arc;

use ofposet::polyvoxel::{Polyvoxel, cylinder, paste, point, shift};

fn assert_cached_metadata_matches_shape(polyvoxel: &Polyvoxel) {
    let frame = polyvoxel.active_directions();
    let expected_rank = frame.last().map_or(0, |direction| direction + 1);
    assert_eq!(polyvoxel.rank(), expected_rank);
    for direction in 0..polyvoxel.rank() {
        assert_eq!(
            polyvoxel.length_at(direction) == 0,
            frame.binary_search(&direction).is_err()
        );
    }
    assert_eq!(polyvoxel.length_at(polyvoxel.rank() + 3), 0);
    assert_eq!(polyvoxel.is_voxel(), polyvoxel.greatest_element().is_some());
}

#[test]
fn constructors_return_shared_polyvoxel_shapes() {
    let point = point();
    let arrow = cylinder(&point, &point).unwrap();
    let shifted_arrow = shift(&arrow);
    let (path_pushout, path) = paste(&arrow, &arrow, 0).unwrap();

    assert_eq!(point.sizes(), vec![1]);
    assert_eq!(arrow.sizes(), vec![2, 1]);
    assert_eq!(shifted_arrow.active_directions(), vec![1]);
    assert_eq!(path.sizes(), vec![3, 2]);
    assert!(path.greatest_element().is_none());
    assert!(Arc::ptr_eq(path.as_framed_poset(), &path_pushout.tip));
    assert!(Arc::ptr_eq(&path_pushout.tip, &path_pushout.inl.cod));
    assert!(Arc::ptr_eq(&path_pushout.tip, &path_pushout.inr.cod));
}

#[test]
fn constructor_metadata_matches_the_underlying_poset_definition() {
    let point = point();
    let arrow = cylinder(&point, &point).unwrap();
    let shifted_arrow = shift(&arrow);
    let square = cylinder(&arrow, &arrow).unwrap();
    let gapped_square = cylinder(&shifted_arrow, &shifted_arrow).unwrap();
    let (_, horizontal_path) = paste(&square, &square, 0).unwrap();
    let (_, vertical_path) = paste(&square, &square, 1).unwrap();
    let (_, shifted_path) = paste(&shifted_arrow, &shifted_arrow, 1).unwrap();

    assert!(point.length().is_empty());
    assert_eq!(arrow.length(), &[1]);
    assert_eq!(shifted_arrow.length(), &[0, 1]);
    assert_eq!(square.length(), &[1, 1]);
    assert_eq!(gapped_square.length(), &[1, 0, 1]);
    assert_eq!(horizontal_path.length(), &[2, 1]);
    assert_eq!(horizontal_path.layering_direction(), Some(0));
    assert_eq!(vertical_path.length(), &[1, 2]);
    assert_eq!(vertical_path.layering_direction(), Some(1));
    assert_eq!(shifted_path.length(), &[0, 2]);
    assert_eq!(shifted_path.layering_direction(), Some(1));

    for polyvoxel in [
        &point,
        &arrow,
        &shifted_arrow,
        &square,
        &gapped_square,
        &horizontal_path,
        &vertical_path,
        &shifted_path,
    ] {
        assert_cached_metadata_matches_shape(polyvoxel);
    }
}

#[test]
fn cylinder_with_an_output_outside_the_input_frame_is_refused() {
    // The output frame {1} is not contained in the input frame {0}.
    let point = point();
    let arrow = cylinder(&point, &point).unwrap();
    let shifted = shift(&arrow);
    assert!(cylinder(&arrow, &shifted).is_none());
}

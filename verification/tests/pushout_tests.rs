use std::sync::Arc;

use ofposet::embedding::{Embedding, NO_PREIMAGE};
use ofposet::isomorphism::isomorphisms;
use ofposet::poset::{BoundaryMode, FramedPoset, Sign, boundary};
use ofposet::pushout::{Span, multi_pushout, paste_along_boundary, paste_along_isomorphisms, pushout};

fn point() -> Arc<FramedPoset> {
    Arc::new(FramedPoset::point())
}

fn arrow() -> Arc<FramedPoset> {
    Arc::new(FramedPoset::from_faces(
        vec![vec![vec![], vec![]], vec![vec![0]]],
        vec![vec![vec![], vec![]], vec![vec![0]]],
        vec![vec![vec![], vec![]], vec![vec![1]]],
    ))
}

fn endpoint_embedding(endpoint: usize, cod: Arc<FramedPoset>) -> Embedding {
    let dom = point();
    let map = vec![vec![endpoint]];
    let mut inv = vec![vec![NO_PREIMAGE; 2], vec![NO_PREIMAGE; 1]];
    inv[0][endpoint] = 0;
    Embedding::make(dom, cod, map, inv)
}

#[test]
fn pushout_pastes_two_arrows() {
    let left = arrow();
    let right = arrow();
    let out_left = endpoint_embedding(1, Arc::clone(&left));
    let in_right = endpoint_embedding(0, Arc::clone(&right));

    let po = pushout(&out_left, &in_right);

    assert_eq!(po.tip.sizes(), vec![3, 2]);
    assert_eq!(po.inl.map, vec![vec![0, 1], vec![0]]);
    assert_eq!(po.inr.map, vec![vec![1, 2], vec![1]]);
    assert_eq!(po.tip.basis_of(1, 0), &vec![0]);
    assert_eq!(po.tip.basis_of(1, 1), &vec![0]);
    assert_eq!(po.tip.faces_of(Sign::Input, 1, 1), &vec![1]);
    assert_eq!(po.tip.faces_of(Sign::Output, 1, 1), &vec![2]);
}

#[test]
fn pushout_square_commutes_on_the_shared_point() {
    let out_left = endpoint_embedding(1, arrow());
    let in_right = endpoint_embedding(0, arrow());
    let po = pushout(&out_left, &in_right);
    assert_eq!(po.inl.map[0][out_left.map[0][0]], po.inr.map[0][in_right.map[0][0]]);
    assert!(po.tip.well_formed());
}

#[test]
fn pushout_builds_on_the_larger_codomain() {
    let into_point = Embedding::id(point());
    let into_arrow = endpoint_embedding(1, arrow());
    let po = pushout(&into_point, &into_arrow);
    assert_eq!(po.tip.sizes(), vec![2, 1]);
    assert_eq!(po.inr.map, vec![vec![0, 1], vec![0]]);
    assert_eq!(po.inl.map, vec![vec![1]]);
}

#[test]
fn multi_pushout_glues_several_arrows_to_one_point() {
    let base = point();
    let into_base = Embedding::id(Arc::clone(&base));
    let first = endpoint_embedding(0, arrow());
    let second = endpoint_embedding(1, arrow());
    let mp = multi_pushout(
        &base,
        &[Span { into_base: &into_base, into_ext: &first }, Span { into_base: &into_base, into_ext: &second }],
    );
    assert_eq!(mp.tip.sizes(), vec![3, 2]);
    assert_eq!(mp.inl.map, vec![vec![0]]);
    assert_eq!(mp.inrs[0].map, vec![vec![0, 1], vec![0]]);
    assert_eq!(mp.inrs[1].map, vec![vec![2, 0], vec![1]]);
    assert_eq!(mp.tip.faces_of(Sign::Output, 1, 1), &vec![0]);
    assert!(mp.tip.well_formed());
}

#[test]
fn pastes_two_arrows_along_their_unique_directional_boundaries() {
    let first = arrow();
    let second = arrow();

    let pasted = paste_along_boundary(&first, &second, 0).unwrap();

    assert_eq!(pasted.tip.sizes(), vec![3, 2]);
    assert_eq!(pasted.inl.dom.sizes(), vec![2, 1]);
    assert_eq!(pasted.inr.dom.sizes(), vec![2, 1]);
}

#[test]
fn pasting_identifies_the_target_of_the_first_with_the_source_of_the_second() {
    let first = arrow();
    let second = arrow();

    let pasted = paste_along_boundary(&first, &second, 0).unwrap();

    assert_eq!(pasted.inl.map, vec![vec![0, 1], vec![0]]);
    assert_eq!(pasted.inr.map, vec![vec![1, 2], vec![1]]);
    assert_eq!(pasted.tip.faces_of(Sign::Input, 1, 1), &vec![1]);
    assert_eq!(pasted.tip.faces_of(Sign::Output, 1, 1), &vec![2]);
}

#[test]
fn pasting_needs_matching_boundaries() {
    let first = arrow();
    let second = Arc::new(FramedPoset::from_faces(
        vec![vec![vec![], vec![], vec![]], vec![vec![0], vec![0]]],
        vec![vec![vec![], vec![], vec![]], vec![vec![0], vec![1]]],
        vec![vec![vec![], vec![], vec![]], vec![vec![2], vec![2]]],
    ));

    assert!(paste_along_boundary(&first, &second, 0).is_none());
}

#[test]
fn pasting_along_found_isomorphisms_needs_exactly_one() {
    let first = arrow();
    let second = arrow();
    let boundaries = || {
        let (out_dom, out_into_first) = boundary(BoundaryMode::Plain, Sign::Output, 0, &first);
        let (in_dom, in_into_second) = boundary(BoundaryMode::Plain, Sign::Input, 0, &second);
        (out_dom, out_into_first, in_dom, in_into_second)
    };

    let (out_dom, out_into_first, in_dom, in_into_second) = boundaries();
    let found = isomorphisms(&out_dom, &in_dom);
    assert_eq!(found.len(), 1);
    let pasted = paste_along_isomorphisms(&first, &second, 0, out_into_first, in_into_second, found).unwrap();
    assert_eq!(pasted.tip.sizes(), vec![3, 2]);
    assert_eq!(pasted.inr.map, vec![vec![1, 2], vec![1]]);

    let (_, out_into_first, _, in_into_second) = boundaries();
    assert!(paste_along_isomorphisms(&first, &second, 0, out_into_first, in_into_second, Vec::new()).is_none());

    let (out_dom, out_into_first, in_dom, in_into_second) = boundaries();
    let mut twice = isomorphisms(&out_dom, &in_dom);
    twice.extend(isomorphisms(&out_dom, &in_dom));
    assert!(paste_along_isomorphisms(&first, &second, 0, out_into_first, in_into_second, twice).is_none());
}

//! Volumetric oriented framed posets.
//!
//! Volumetricity includes strong cubularity, so the order of distinct
//! boundary operations does not affect a volumetric candidate. Boundary
//! operations are applied in ascending frame order; the standalone predicates
//! use the same deterministic convention even for non-cubular inputs. The
//! exact active frame is used, since adding absent directions would only
//! insert identity boundary operations.

use std::sync::Arc;

use vstd::prelude::*;

use crate::connect::connected;
use crate::cubularity::{CubularityMode, cubular, is_cubular, lists_active, not_cubular, sign_of};
use crate::isomorphism::{canonical_fits, canonical_sized, is_normal_form, isomorphic};
use crate::orthogonal::{is_orthogonal_product, orthogonal_product};
use crate::embedding::Embedding;
use crate::poset::{BoundaryMode, FramedPoset, Sign, boundary, dim_fits, flip, iterated_boundary, iterated_of, plain_boundary};
use crate::rigid::{not_rigid, rigid, search_fits, search_sized};

verus! {

/// No direction occurs in the bases of `shape`.
pub open spec fn frameless(shape: FramedPoset) -> bool {
    forall|v: usize| !shape.is_active(v)
}

/// The normal forms of `x` and `y` were compared with outcome `same`; framed
/// posets too large to normalize count as different.
pub open spec fn forms_compare(x: FramedPoset, y: FramedPoset, same: bool) -> bool {
    if canonical_sized(x) && canonical_sized(y) {
        exists|nx: FramedPoset, ny: FramedPoset| #![trigger is_normal_form(x, nx), is_normal_form(y, ny)]
            is_normal_form(x, nx) && is_normal_form(y, ny) && same == nx.same_poset(&ny)
    } else {
        !same
    }
}

/// The boundary word `(sign, frame[k])` for `lo <= k < hi`.
pub open spec fn word_of(sign: Sign, frame: Seq<usize>, lo: int, hi: int) -> Seq<(Sign, usize)> {
    Seq::new((hi - lo) as nat, |k: int| (sign, frame[lo + k]))
}

/// The iterated boundaries of `shape` along `lhs` and `rhs` were compared
/// with outcome `same`.
pub open spec fn words_compare(lhs: Seq<(Sign, usize)>, rhs: Seq<(Sign, usize)>, shape: Arc<FramedPoset>, same: bool) -> bool {
    exists|x: Arc<FramedPoset>, y: Arc<FramedPoset>| #![trigger iterated_of(lhs, shape, x), iterated_of(rhs, shape, y)]
        iterated_of(lhs, shape, x) && iterated_of(rhs, shape, y) && forms_compare(*x, *y, same)
}

/// The convolution equation at position `index` of `frame` for the sign at
/// position `k` was checked with outcome `same`: the direct boundary against
/// the orthogonal product of the iterated boundaries up to and from it.
pub open spec fn convolution_compare(shape: Arc<FramedPoset>, frame: Seq<usize>, index: int, k: int, same: bool) -> bool {
    exists|f: Embedding, l: Arc<FramedPoset>, r: Arc<FramedPoset>, p: FramedPoset|
        #![trigger plain_boundary(f, shape, sign_of(k), frame[index]), iterated_of(word_of(sign_of(k), frame, 0, index + 1), shape, l),
            iterated_of(word_of(sign_of(k), frame, index, frame.len() as int), shape, r), is_orthogonal_product(*l, *r, p)]
        plain_boundary(f, shape, sign_of(k), frame[index]) && iterated_of(word_of(sign_of(k), frame, 0, index + 1), shape, l)
            && iterated_of(word_of(sign_of(k), frame, index, frame.len() as int), shape, r) && is_orthogonal_product(*l, *r, p)
            && forms_compare(*f.dom, p, same)
}

/// Every convolution equation of `shape` over `frame` holds.
pub open spec fn convolution_holds(shape: Arc<FramedPoset>, frame: Seq<usize>) -> bool {
    forall|index: int, k: int| 0 <= index < frame.len() && 0 <= k < 2 ==> #[trigger] convolution_compare(shape, frame, index, k, true)
}

/// Some convolution equation of `shape` over `frame` fails.
pub open spec fn convolution_fails(shape: Arc<FramedPoset>, frame: Seq<usize>) -> bool {
    exists|index: int, k: int| 0 <= index < frame.len() && 0 <= k < 2 && #[trigger] convolution_compare(shape, frame, index, k, false)
}

/// The two words of the left sign equation for `left < right` and the sign
/// at position `k`.
pub open spec fn left_sign_words(frame: Seq<usize>, left: int, right: int, k: int) -> (Seq<(Sign, usize)>, Seq<(Sign, usize)>) {
    (word_of(flip(sign_of(k)), frame, 0, left + 1) + word_of(sign_of(k), frame, left + 1, right + 1), word_of(sign_of(k), frame, 0, right + 1))
}

/// The two words of the right sign equation for `left < right` and the sign
/// at position `k`.
pub open spec fn right_sign_words(frame: Seq<usize>, left: int, right: int, k: int) -> (Seq<(Sign, usize)>, Seq<(Sign, usize)>) {
    (word_of(sign_of(k), frame, left, right) + word_of(flip(sign_of(k)), frame, right, frame.len() as int), word_of(sign_of(k), frame, left, frame.len() as int))
}

/// Every sign equation of one side (`right_side` or not) holds.
pub open spec fn sign_equations_hold(shape: Arc<FramedPoset>, frame: Seq<usize>, right_side: bool) -> bool {
    forall|left: int, right: int, k: int| 0 <= left < right < frame.len() && 0 <= k < 2 ==> #[trigger] sign_equation_compare(shape, frame, right_side, left, right, k, true)
}

/// Some sign equation of one side fails.
pub open spec fn sign_equations_fail(shape: Arc<FramedPoset>, frame: Seq<usize>, right_side: bool) -> bool {
    exists|left: int, right: int, k: int| 0 <= left < right < frame.len() && 0 <= k < 2 && #[trigger] sign_equation_compare(shape, frame, right_side, left, right, k, false)
}

/// The sign equation for `left < right` and the sign at position `k` was
/// checked with outcome `same`.
pub open spec fn sign_equation_compare(shape: Arc<FramedPoset>, frame: Seq<usize>, right_side: bool, left: int, right: int, k: int, same: bool) -> bool {
    let w = if right_side { right_sign_words(frame, left, right, k) } else { left_sign_words(frame, left, right, k) };
    words_compare(w.0, w.1, shape, same)
}

/// Compare two framed posets up to isomorphism. Framed posets too large for
/// the graph library's `u32` indices are not compared and count as
/// different.
fn isomorphic_when_indexable(a: &FramedPoset, b: &FramedPoset) -> (r: bool)
    requires
        a.valid(),
        b.valid(),
    ensures
        r ==> canonical_sized(*a) && canonical_sized(*b),
        canonical_sized(*a) && canonical_sized(*b) ==> exists|na: FramedPoset, nb: FramedPoset|
            #![trigger is_normal_form(*a, na), is_normal_form(*b, nb)]
            is_normal_form(*a, na) && is_normal_form(*b, nb) && r == na.same_poset(&nb),
        forms_compare(*a, *b, r),
{
    if canonical_fits(a) && canonical_fits(b) {
        isomorphic(a, b)
    } else {
        false
    }
}

/// The boundary operations `(sign, directions[k])` for `lo <= k < hi`, in
/// ascending order: the compact notation `delta_{k_1 ... k_n}`.
fn boundary_word(sign: Sign, directions: &Vec<usize>, lo: usize, hi: usize) -> (w: Vec<(Sign, usize)>)
    requires
        lo <= hi <= directions@.len(),
    ensures
        w@.len() == hi - lo,
        forall|k: int| 0 <= k < w@.len() ==> #[trigger] w@[k] == (sign, directions@[lo + k]),
        w@ == word_of(sign, directions@, lo as int, hi as int),
{
    let mut w: Vec<(Sign, usize)> = Vec::new();
    for k in lo..hi
        invariant
            lo <= hi <= directions@.len(),
            w@.len() == k - lo,
            forall|j: int| 0 <= j < w@.len() ==> #[trigger] w@[j] == (sign, directions@[lo + j]),
    {
        w.push((sign, directions[k]));
    }
    proof {
        assert(w@ =~= word_of(sign, directions@, lo as int, hi as int));
    }
    w
}

/// The iterated boundary of `shape` along the `sign` boundary word of
/// `directions[lo..hi]`.
fn boundary_block(sign: Sign, directions: &Vec<usize>, lo: usize, hi: usize, shape: &Arc<FramedPoset>) -> (r: Arc<FramedPoset>)
    requires
        lo <= hi <= directions@.len(),
        shape.framed(),
    ensures
        r.framed(),
        r.levels() <= shape.levels(),
        iterated_of(word_of(sign, directions@, lo as int, hi as int), *shape, r),
{
    let word = boundary_word(sign, directions, lo, hi);
    iterated_boundary(&word, shape).0
}

/// The sign at position `k` of (input, output).
fn sign_at(k: usize) -> (s: Sign)
    ensures
        s == sign_of(k as int),
{
    if k == 0 {
        Sign::Input
    } else {
        Sign::Output
    }
}

/// Check every convolution equation: each direct boundary is isomorphic to
/// the orthogonal product of the iterated boundaries up to and from its
/// direction.
pub fn satisfies_convolution_equations(shape: &Arc<FramedPoset>) -> (r: bool)
    requires
        shape.framed(),
        dim_fits(2 * shape.levels()),
    ensures
        r ==> exists|frame: Seq<usize>| #[trigger] lists_active(**shape, frame) && convolution_holds(*shape, frame),
        !r ==> exists|frame: Seq<usize>| #[trigger] lists_active(**shape, frame) && convolution_fails(*shape, frame),
        frameless(**shape) ==> r,
{
    proof {
        crate::ofp::lemma_framed_valid(&**shape);
    }
    let frame = shape.active_directions();
    let n = frame.len();
    let whole: &FramedPoset = shape;
    proof {
        if frameless(*whole) && n > 0 {
            assert(frame@.contains(frame@[0]));
            assert(whole.is_active(frame@[0]));
        }
        assert(frameless(*whole) ==> n == 0);
        assert(lists_active(*whole, frame@));
    }
    for index in 0..n
        invariant
            n == frame@.len(),
            frameless(*whole) ==> n == 0,
            *whole == **shape,
            shape.framed(),
            shape.valid(),
            dim_fits(2 * shape.levels()),
            lists_active(*whole, frame@),
            forall|i: int, k: int| 0 <= i < index && 0 <= k < 2 ==> #[trigger] convolution_compare(*shape, frame@, i, k, true),
    {
        for k in 0..2usize
            invariant
                n == frame@.len(),
                frameless(*whole) ==> n == 0,
                *whole == **shape,
                index < n,
                shape.framed(),
                shape.valid(),
                dim_fits(2 * shape.levels()),
                lists_active(*whole, frame@),
                forall|i: int, c: int| 0 <= c < 2 && (0 <= i < index || (i == index && 0 <= c < k)) ==> #[trigger] convolution_compare(*shape, frame@, i, c, true),
        {
            let sign = sign_at(k);
            let (direct_boundary, into_shape) = boundary(BoundaryMode::Plain, sign, frame[index], shape);
            let left = boundary_block(sign, &frame, 0, index + 1, shape);
            let right = boundary_block(sign, &frame, index, n, shape);
            let convolution = orthogonal_product(&left, &right);
            proof {
                crate::ofp::lemma_framed_valid(&convolution);
            }
            let same = isomorphic_when_indexable(&direct_boundary, &convolution);
            proof {
                assert(plain_boundary(into_shape, *shape, sign_of(k as int), frame@[index as int]));
                assert(iterated_of(word_of(sign_of(k as int), frame@, 0, index + 1), *shape, left));
                assert(iterated_of(word_of(sign_of(k as int), frame@, index as int, frame@.len() as int), *shape, right));
                assert(is_orthogonal_product(*left, *right, convolution));
                assert(forms_compare(*into_shape.dom, convolution, same));
                assert(convolution_compare(*shape, frame@, index as int, k as int, same));
            }
            if !same {
                proof {
                    assert(convolution_fails(*shape, frame@));
                }
                return false;
            }
        }
    }
    true
}

/// Compare the iterated boundaries of two words of `shape`.
fn words_agree(lhs_word: &Vec<(Sign, usize)>, rhs_word: &Vec<(Sign, usize)>, shape: &Arc<FramedPoset>) -> (r: bool)
    requires
        shape.framed(),
    ensures
        words_compare(lhs_word@, rhs_word@, *shape, r),
{
    let (lhs, _) = iterated_boundary(lhs_word, shape);
    let (rhs, _) = iterated_boundary(rhs_word, shape);
    proof {
        crate::ofp::lemma_framed_valid(&*lhs);
        crate::ofp::lemma_framed_valid(&*rhs);
    }
    let r = isomorphic_when_indexable(&lhs, &rhs);
    proof {
        assert(iterated_of(lhs_word@, *shape, lhs));
        assert(iterated_of(rhs_word@, *shape, rhs));
    }
    r
}

/// Check every sign equation of one side: the right ones when `right_side`,
/// else the left ones.
fn check_sign_equations(shape: &Arc<FramedPoset>, right_side: bool) -> (r: bool)
    requires
        shape.framed(),
    ensures
        r ==> exists|frame: Seq<usize>| #[trigger] lists_active(**shape, frame) && sign_equations_hold(*shape, frame, right_side),
        !r ==> exists|frame: Seq<usize>| #[trigger] lists_active(**shape, frame) && sign_equations_fail(*shape, frame, right_side),
        frameless(**shape) ==> r,
{
    proof {
        crate::ofp::lemma_framed_valid(&**shape);
    }
    let frame = shape.active_directions();
    let n = frame.len();
    let whole: &FramedPoset = shape;
    proof {
        if frameless(*whole) && n > 0 {
            assert(frame@.contains(frame@[0]));
            assert(whole.is_active(frame@[0]));
        }
        assert(frameless(*whole) ==> n == 0);
        assert(lists_active(*whole, frame@));
    }
    for left in 0..n
        invariant
            n == frame@.len(),
            frameless(*whole) ==> n == 0,
            *whole == **shape,
            shape.framed(),
            lists_active(*whole, frame@),
            forall|l: int, r: int, c: int| 0 <= l < r < n && 0 <= c < 2 && l < left ==> #[trigger] sign_equation_compare(*shape, frame@, right_side, l, r, c, true),
    {
        for right in left + 1..n
            invariant
                n == frame@.len(),
                frameless(*whole) ==> n == 0,
                *whole == **shape,
                left < n,
                shape.framed(),
                lists_active(*whole, frame@),
                forall|l: int, r: int, c: int| 0 <= l < r < n && 0 <= c < 2 && (l < left || (l == left && r < right))
                    ==> #[trigger] sign_equation_compare(*shape, frame@, right_side, l, r, c, true),
        {
            for k in 0..2usize
                invariant
                    n == frame@.len(),
                    frameless(*whole) ==> n == 0,
                    *whole == **shape,
                    left < right < n,
                    shape.framed(),
                    lists_active(*whole, frame@),
                    forall|l: int, r: int, c: int| 0 <= l < r < n && 0 <= c < 2 && (l < left || (l == left && (r < right || (r == right && c < k))))
                        ==> #[trigger] sign_equation_compare(*shape, frame@, right_side, l, r, c, true),
            {
                let sign = sign_at(k);
                let (lhs_word, rhs_word) = if right_side {
                    let mut lhs_word = boundary_word(sign, &frame, left, right);
                    let mut tail = boundary_word(sign.opposite(), &frame, right, n);
                    lhs_word.append(&mut tail);
                    let rhs_word = boundary_word(sign, &frame, left, n);
                    proof {
                        assert(lhs_word@ == right_sign_words(frame@, left as int, right as int, k as int).0);
                        assert(rhs_word@ == right_sign_words(frame@, left as int, right as int, k as int).1);
                    }
                    (lhs_word, rhs_word)
                } else {
                    let mut lhs_word = boundary_word(sign.opposite(), &frame, 0, left + 1);
                    let mut tail = boundary_word(sign, &frame, left + 1, right + 1);
                    lhs_word.append(&mut tail);
                    let rhs_word = boundary_word(sign, &frame, 0, right + 1);
                    proof {
                        assert(lhs_word@ == left_sign_words(frame@, left as int, right as int, k as int).0);
                        assert(rhs_word@ == left_sign_words(frame@, left as int, right as int, k as int).1);
                    }
                    (lhs_word, rhs_word)
                };
                let same = words_agree(&lhs_word, &rhs_word, shape);
                proof {
                    assert(sign_equation_compare(*shape, frame@, right_side, left as int, right as int, k as int, same));
                }
                if !same {
                    proof {
                        assert(sign_equations_fail(*shape, frame@, right_side));
                    }
                    return false;
                }
            }
        }
    }
    proof {
        assert(sign_equations_hold(*shape, frame@, right_side));
    }
    true
}

/// Check every left sign-equation: for directions `left < right` of the
/// frame, taking the opposite boundaries up to `left` and then the `sign`
/// boundaries up to `right` agrees with taking the `sign` boundaries all the
/// way.
pub fn satisfies_left_sign_equations(shape: &Arc<FramedPoset>) -> (r: bool)
    requires
        shape.framed(),
    ensures
        r ==> exists|frame: Seq<usize>| #[trigger] lists_active(**shape, frame) && sign_equations_hold(*shape, frame, false),
        !r ==> exists|frame: Seq<usize>| #[trigger] lists_active(**shape, frame) && sign_equations_fail(*shape, frame, false),
        frameless(**shape) ==> r,
{
    check_sign_equations(shape, false)
}

/// Check every right sign-equation: for directions `left < right` of the
/// frame, taking the `sign` boundaries from `left` up to `right` and then the
/// opposite boundaries from `right` on agrees with taking the `sign`
/// boundaries from `left` on.
pub fn satisfies_right_sign_equations(shape: &Arc<FramedPoset>) -> (r: bool)
    requires
        shape.framed(),
    ensures
        r ==> exists|frame: Seq<usize>| #[trigger] lists_active(**shape, frame) && sign_equations_hold(*shape, frame, true),
        !r ==> exists|frame: Seq<usize>| #[trigger] lists_active(**shape, frame) && sign_equations_fail(*shape, frame, true),
        frameless(**shape) ==> r,
{
    check_sign_equations(shape, true)
}

/// Check whether an oriented framed poset is volumetric: strongly cubular,
/// satisfying the convolution and sign equations, and rigid.
///
/// Rigidity is checked last because enumerating automorphisms recursively over
/// all boundaries can be substantially more expensive than the other checks.
pub fn is_volumetric(shape: &Arc<FramedPoset>) -> (r: bool)
    requires
        shape.framed(),
        dim_fits(2 * shape.levels()),
    ensures
        r ==> connected(**shape),
        r ==> volumetric(*shape),
        !r ==> not_volumetric(*shape),
{
    proof {
        crate::ofp::lemma_framed_valid(&**shape);
    }
    is_cubular(CubularityMode::Strong, shape) && satisfies_convolution_equations(shape) && satisfies_left_sign_equations(shape)
        && satisfies_right_sign_equations(shape) && search_fits(shape) && shape.is_rigid()
}

/// `shape` passes every test of volumetricity: strong cubularity, the
/// convolution and sign equations, and rigidity.
pub open spec fn volumetric(shape: Arc<FramedPoset>) -> bool {
    &&& cubular(CubularityMode::Strong, shape)
    &&& exists|frame: Seq<usize>| #[trigger] lists_active(*shape, frame) && convolution_holds(shape, frame)
    &&& exists|frame: Seq<usize>| #[trigger] lists_active(*shape, frame) && sign_equations_hold(shape, frame, false)
    &&& exists|frame: Seq<usize>| #[trigger] lists_active(*shape, frame) && sign_equations_hold(shape, frame, true)
    &&& search_sized(*shape)
    &&& connected(*shape)
    &&& exists|x: Arc<FramedPoset>| #[trigger] x.same_poset(&*shape) && x.normal == shape.normal && rigid(x)
}

/// `shape` fails some test of volumetricity.
pub open spec fn not_volumetric(shape: Arc<FramedPoset>) -> bool {
    ||| not_cubular(CubularityMode::Strong, shape)
    ||| exists|frame: Seq<usize>| #[trigger] lists_active(*shape, frame) && (convolution_fails(shape, frame)
        || sign_equations_fail(shape, frame, false) || sign_equations_fail(shape, frame, true))
    ||| !search_sized(*shape)
    ||| !connected(*shape)
    ||| exists|x: Arc<FramedPoset>| #[trigger] x.same_poset(&*shape) && x.normal == shape.normal && not_rigid(x)
}

} // verus!

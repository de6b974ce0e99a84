//! Hyperoctahedral symmetries of oriented framed posets.

use std::sync::Arc;

use vstd::prelude::*;

use crate::embedding::{Embedding, at, copy_index_table, tv};
use crate::intset::{
    self, IntSet, first_new_index, lemma_image_len, lemma_single_new, lemma_some_new, same_elements,
    seq_disjoint, seq_subset, strictly_sorted,
};
use crate::ofp::lemma_framed_valid;
use crate::poset::{FramedPoset, Sign, entry, flip, rows};

verus! {

/// The image of one source direction under a signed permutation.
#[derive(Debug, Clone, Copy, PartialEq, Eq, Hash, Structural)]
pub struct DirectionImage {
    /// Target direction.
    pub direction: usize,
    /// Whether orientation in this source direction is reflected.
    pub reflected: bool,
}

/// A permutation and independent reflection of finitely many directions.
///
/// Entry `images[i]` records the image of source direction `i`. The length is
/// the ambient dimension on which the symmetry acts.
#[derive(Debug, PartialEq, Eq, Hash)]
pub struct SignedPermutation {
    images: Vec<DirectionImage>,
}

/// Failure to construct, combine, or apply a signed permutation.
#[derive(Debug, Clone, Copy, PartialEq, Eq, Structural)]
pub enum SymmetryError {
    /// A target direction lies outside the symmetry's ambient dimension.
    TargetOutOfRange { source: usize, target: usize, dimension: usize },
    /// Two source directions have the same target direction.
    DuplicateTarget { target: usize },
    /// Two symmetries of different ambient dimensions were composed.
    DimensionMismatch { first: usize, second: usize },
    /// The poset uses a direction outside the symmetry's ambient dimension.
    DirectionNotCovered { direction: usize, dimension: usize },
}

/// The first `k` images lie in range and have pairwise distinct targets.
pub open spec fn images_ok_upto(images: Seq<DirectionImage>, k: int) -> bool {
    &&& forall|i: int| 0 <= i < k ==> #[trigger] images[i].direction < images.len()
    &&& forall|i: int, j: int| 0 <= i < j < k ==> #[trigger] images[i].direction != #[trigger] images[j].direction
}

/// The images describe a signed permutation of `0..images.len()`.
pub open spec fn signed_permutation(images: Seq<DirectionImage>) -> bool {
    images_ok_upto(images, images.len() as int)
}

/// The error reported for the first offending source direction `k`.
pub open spec fn construction_error(images: Seq<DirectionImage>, k: int) -> SymmetryError {
    if images[k].direction >= images.len() {
        SymmetryError::TargetOutOfRange {
            source: k as usize,
            target: images[k].direction,
            dimension: images.len() as usize,
        }
    } else {
        SymmetryError::DuplicateTarget { target: images[k].direction }
    }
}

/// The outcome of constructing a signed permutation from `images`: the
/// permutation itself, or the error at the first offending source direction.
pub open spec fn constructed(images: Seq<DirectionImage>, r: Result<SignedPermutation, SymmetryError>) -> bool {
    match r {
        Ok(p) => signed_permutation(images) && p@ == images,
        Err(e) => !signed_permutation(images) && exists|k: int|
            0 <= k < images.len() && images_ok_upto(images, k) && !images_ok_upto(images, k + 1)
                && e == construction_error(images, k),
    }
}

/// The identity images in dimension `n`.
pub open spec fn identity_images(n: nat) -> Seq<DirectionImage> {
    Seq::new(n, |i: int| DirectionImage { direction: i as usize, reflected: false })
}

/// Unreflected images with the given targets.
pub open spec fn unreflected(targets: Seq<usize>) -> Seq<DirectionImage> {
    targets.map_values(|t: usize| DirectionImage { direction: t, reflected: false })
}

/// Target of direction `v`.
pub open spec fn moved(sym: Seq<DirectionImage>, v: usize) -> usize {
    sym[v as int].direction
}

/// Whether direction `v` is reflected.
pub open spec fn flips(sym: Seq<DirectionImage>, v: usize) -> bool {
    sym[v as int].reflected
}

/// Apply `a`, then `b`.
pub open spec fn composed(a: Seq<DirectionImage>, b: Seq<DirectionImage>) -> Seq<DirectionImage> {
    Seq::new(
        a.len(),
        |i: int| DirectionImage {
            direction: moved(b, a[i].direction),
            reflected: a[i].reflected != flips(b, a[i].direction),
        },
    )
}

/// `inv` sends the target of every source direction of `a` back to it, with
/// the same reflection.
pub open spec fn inverse_of(inv: Seq<DirectionImage>, a: Seq<DirectionImage>) -> bool {
    &&& inv.len() == a.len()
    &&& forall|i: int| 0 <= i < a.len() ==> inv[#[trigger] a[i].direction as int] == (DirectionImage {
        direction: i as usize,
        reflected: a[i].reflected,
    })
}

impl SignedPermutation {
    #[verifier::type_invariant]
    spec fn permutes(self) -> bool {
        signed_permutation(self.images@)
    }
}

impl View for SignedPermutation {
    type V = Seq<DirectionImage>;

    closed spec fn view(&self) -> Seq<DirectionImage> {
        self.images@
    }
}

/// Every target of a signed permutation is hit.
pub proof fn lemma_permutation_onto(a: Seq<DirectionImage>, t: int)
    requires
        signed_permutation(a),
        0 <= t < a.len(),
    ensures
        exists|i: int| 0 <= i < a.len() && #[trigger] a[i].direction == t,
{
    let n = a.len() as int;
    let range = vstd::set_lib::set_int_range(0, n);
    let f = |i: int| a[i].direction as int;
    vstd::set_lib::lemma_int_range(0, n);
    assert(vstd::relations::injective_on(f, range)) by {
        assert forall|i: int, j: int| range.contains(i) && range.contains(j) && #[trigger] f(i) == #[trigger] f(j) implies i == j by {
            if i < j {
                assert(a[i].direction != a[j].direction);
            } else if j < i {
                assert(a[j].direction != a[i].direction);
            }
        }
    }
    vstd::set_lib::lemma_map_size(range, range.map(f), f);
    assert(range.map(f).subset_of(range)) by {
        assert forall|x: int| range.map(f).contains(x) implies range.contains(x) by {
            let i = choose|i: int| range.contains(i) && f(i) == x;
            assert(a[i].direction < a.len());
        }
    }
    vstd::set_lib::lemma_subset_equality(range.map(f), range);
    assert(range.contains(t));
    assert(range.map(f).contains(t));
    let i = choose|i: int| range.contains(i) && f(i) == t;
    assert(a[i].direction == t);
}

impl SignedPermutation {
    /// Construct a signed permutation from source-indexed direction images.
    pub fn try_new(images: Vec<DirectionImage>) -> (r: Result<Self, SymmetryError>)
        ensures
            constructed(images@, r),
    {
        let dimension = images.len();
        let mut seen: Vec<bool> = Vec::new();
        for t in 0..dimension
            invariant
                seen@.len() == t,
                forall|k: int| 0 <= k < t ==> !#[trigger] seen@[k],
        {
            seen.push(false);
        }
        for source in 0..dimension
            invariant
                dimension == images@.len(),
                seen@.len() == dimension,
                images_ok_upto(images@, source as int),
                forall|t: int| 0 <= t < dimension ==> (#[trigger] seen@[t] <==> exists|i: int|
                    0 <= i < source && images@[i].direction == t),
        {
            let image = images[source];
            if image.direction >= dimension {
                proof {
                    assert(!images_ok_upto(images@, source + 1));
                    assert(!signed_permutation(images@)) by {
                        assert(images@[source as int].direction >= images@.len());
                    }
                }
                let err = SymmetryError::TargetOutOfRange { source, target: image.direction, dimension };
                proof {
                    assert(err == construction_error(images@, source as int));
                    assert(0 <= source < images@.len() && images_ok_upto(images@, source as int) && !images_ok_upto(images@, source + 1)
                        && err == construction_error(images@, source as int));
                }
                return Err(err);
            }
            if seen[image.direction] {
                proof {
                    let i = choose|i: int| 0 <= i < source && images@[i].direction == image.direction;
                    assert(!images_ok_upto(images@, source + 1)) by {
                        assert(images@[i].direction == images@[source as int].direction);
                    }
                    assert(!signed_permutation(images@)) by {
                        assert(images@[i].direction == images@[source as int].direction);
                    }
                }
                let err = SymmetryError::DuplicateTarget { target: image.direction };
                proof {
                    assert(err == construction_error(images@, source as int));
                    assert(0 <= source < images@.len() && images_ok_upto(images@, source as int) && !images_ok_upto(images@, source + 1)
                        && err == construction_error(images@, source as int));
                }
                return Err(err);
            }
            proof {
                assert forall|i: int, j: int| 0 <= i < j < source + 1 implies #[trigger] images@[i].direction
                    != #[trigger] images@[j].direction by {
                    if j == source {
                        if images@[i].direction == images@[j].direction {
                            assert(seen@[images@[j].direction as int]);
                        }
                    }
                }
            }
            seen.set(image.direction, true);
            proof {
                assert forall|t: int| 0 <= t < dimension implies (#[trigger] seen@[t] <==> exists|i: int|
                    0 <= i < source + 1 && images@[i].direction == t) by {
                    if t == image.direction {
                        assert(images@[source as int].direction == t);
                    }
                }
            }
        }
        Ok(SignedPermutation { images })
    }

    /// The identity symmetry in the given ambient dimension.
    pub fn identity(dimension: usize) -> (r: Self)
        ensures
            r@ == identity_images(dimension as nat),
    {
        let mut images: Vec<DirectionImage> = Vec::new();
        for direction in 0..dimension
            invariant
                images@ == identity_images(direction as nat),
        {
            images.push(DirectionImage { direction, reflected: false });
            proof {
                assert(images@ =~= identity_images(direction as nat + 1));
            }
        }
        SignedPermutation { images }
    }

    /// Construct an unreflected permutation of directions.
    pub fn from_permutation(permutation: Vec<usize>) -> (r: Result<Self, SymmetryError>)
        ensures
            constructed(unreflected(permutation@), r),
    {
        let mut images: Vec<DirectionImage> = Vec::new();
        let n = permutation.len();
        for i in 0..n
            invariant
                n == permutation@.len(),
                images@ == unreflected(permutation@.take(i as int)),
        {
            images.push(DirectionImage { direction: permutation[i], reflected: false });
            proof {
                assert(images@ =~= unreflected(permutation@.take(i + 1)));
            }
        }
        proof {
            assert(permutation@.take(n as int) == permutation@);
        }
        Self::try_new(images)
    }

    /// Reflect one direction and fix all other directions.
    pub fn reflection(dimension: usize, direction: usize) -> (r: Result<Self, SymmetryError>)
        ensures
            direction >= dimension ==> r == Err::<Self, SymmetryError>(
                SymmetryError::TargetOutOfRange { source: direction, target: direction, dimension },
            ),
            direction < dimension ==> r is Ok && r->Ok_0@ == identity_images(dimension as nat).update(
                direction as int,
                DirectionImage { direction, reflected: true },
            ),
    {
        if direction >= dimension {
            return Err(SymmetryError::TargetOutOfRange { source: direction, target: direction, dimension });
        }
        let identity = Self::identity(dimension);
        let mut images = identity.images;
        images.set(direction, DirectionImage { direction, reflected: true });
        proof {
            assert(images@ =~= identity_images(dimension as nat).update(
                direction as int,
                DirectionImage { direction, reflected: true },
            ));
        }
        Ok(SignedPermutation { images })
    }

    /// Ambient dimension on which this symmetry acts.
    pub fn dimension(&self) -> (r: usize)
        ensures
            r == self@.len(),
            signed_permutation(self@),
    {
        proof {
            use_type_invariant(self);
        }
        self.images.len()
    }

    /// Image of a source direction, if it lies in the ambient dimension.
    pub fn image_of(&self, direction: usize) -> (r: Option<DirectionImage>)
        ensures
            r == if direction < self@.len() {
                Some(self@[direction as int])
            } else {
                None::<DirectionImage>
            },
    {
        if direction < self.images.len() {
            Some(self.images[direction])
        } else {
            None
        }
    }

    /// Compose two symmetries, applying `first` and then `second`.
    pub fn compose(first: &Self, second: &Self) -> (r: Result<Self, SymmetryError>)
        ensures
            match r {
                Ok(p) => first@.len() == second@.len() && p@ == composed(first@, second@),
                Err(e) => first@.len() != second@.len() && e == (SymmetryError::DimensionMismatch {
                    first: first@.len() as usize,
                    second: second@.len() as usize,
                }),
            },
    {
        proof {
            use_type_invariant(first);
            use_type_invariant(second);
        }
        if first.dimension() != second.dimension() {
            return Err(SymmetryError::DimensionMismatch { first: first.dimension(), second: second.dimension() });
        }
        let n = first.images.len();
        let mut images: Vec<DirectionImage> = Vec::new();
        for i in 0..n
            invariant
                n == first@.len(),
                n == second@.len(),
                signed_permutation(first@),
                signed_permutation(second@),
                images@ == composed(first@, second@).take(i as int),
        {
            let a = first.images[i];
            let b = second.images[a.direction];
            images.push(DirectionImage { direction: b.direction, reflected: a.reflected != b.reflected });
            proof {
                assert(images@ =~= composed(first@, second@).take(i + 1));
            }
        }
        proof {
            let c = composed(first@, second@);
            assert(images@ =~= c);
            assert forall|i: int, j: int| 0 <= i < j < c.len() implies #[trigger] c[i].direction != #[trigger] c[j].direction by {
                assert(first@[i].direction != first@[j].direction);
            }
        }
        Ok(SignedPermutation { images })
    }

    /// Invert this signed permutation.
    pub fn inverse(&self) -> (r: Self)
        ensures
            inverse_of(r@, self@),
    {
        proof {
            use_type_invariant(self);
        }
        let n = self.images.len();
        let mut images: Vec<DirectionImage> = Vec::new();
        for i in 0..n
            invariant
                images@.len() == i,
        {
            images.push(DirectionImage { direction: 0, reflected: false });
        }
        for source in 0..n
            invariant
                n == self@.len(),
                images@.len() == n,
                signed_permutation(self@),
                forall|i: int| 0 <= i < source ==> images@[#[trigger] self@[i].direction as int] == (DirectionImage {
                    direction: i as usize,
                    reflected: self@[i].reflected,
                }),
        {
            let image = self.images[source];
            images.set(image.direction, DirectionImage { direction: source, reflected: image.reflected });
            proof {
                assert forall|i: int| 0 <= i < source + 1 implies images@[#[trigger] self@[i].direction as int] == (DirectionImage {
                    direction: i as usize,
                    reflected: self@[i].reflected,
                }) by {
                    if i < source {
                        assert(self@[i].direction != self@[source as int].direction);
                    }
                }
            }
        }
        proof {
            let a = self@;
            let b = images@;
            assert forall|t: int| 0 <= t < n implies #[trigger] b[t].direction < n by {
                lemma_permutation_onto(a, t);
                let i = choose|i: int| 0 <= i < a.len() && #[trigger] a[i].direction == t;
                assert(b[a[i].direction as int].direction == i);
            }
            assert forall|t: int, u: int| 0 <= t < u < n implies #[trigger] b[t].direction != #[trigger] b[u].direction by {
                lemma_permutation_onto(a, t);
                lemma_permutation_onto(a, u);
                let i = choose|i: int| 0 <= i < a.len() && #[trigger] a[i].direction == t;
                let j = choose|j: int| 0 <= j < a.len() && #[trigger] a[j].direction == u;
                assert(b[a[i].direction as int].direction == i);
                assert(b[a[j].direction as int].direction == j);
            }
        }
        SignedPermutation { images }
    }
}

/// Every direction in a basis of `shape` lies below `n`.
pub open spec fn covered(shape: FramedPoset, n: int) -> bool {
    forall|d: int, p: int, i: int|
        shape.cell(d, p) && 0 <= i < shape.basis_at(d, p).len() ==> #[trigger] shape.basis_at(d, p)[i] < n
}

/// Entry `i` of the basis of `(d, p)` is a direction at or above `n`.
pub open spec fn uncovered_at(shape: FramedPoset, n: int, d: int, p: int, i: int) -> bool {
    shape.cell(d, p) && 0 <= i < shape.basis_at(d, p).len() && shape.basis_at(d, p)[i] >= n
}

/// Lexicographic order on positions `(level, cell, entry)`.
pub open spec fn lex_before(d1: int, p1: int, i1: int, d2: int, p2: int, i2: int) -> bool {
    d1 < d2 || (d1 == d2 && (p1 < p2 || (p1 == p2 && i1 < i2)))
}

/// `(d, p, i)` is the first uncovered basis entry, in level, cell and entry order.
pub open spec fn first_uncovered(shape: FramedPoset, n: int, d: int, p: int, i: int) -> bool {
    &&& uncovered_at(shape, n, d, p, i)
    &&& forall|d2: int, p2: int, i2: int| #[trigger] uncovered_at(shape, n, d2, p2, i2) ==> !lex_before(d2, p2, i2, d, p, i)
}

/// The position, in the basis of `(d, p)`, of the direction missing from the
/// basis of its face `f`.
pub open spec fn cover_index(shape: FramedPoset, d: int, p: int, f: int) -> int {
    let a = shape.basis_at(d - 1, f);
    let b = shape.basis_at(d, p);
    choose|k: int| #[trigger] first_new_index(a, b, k)
}

/// The direction of the cover relation between `(d, p)` and its face `f`.
pub open spec fn cover_dir(shape: FramedPoset, d: int, p: int, f: int) -> usize {
    shape.basis_at(d, p)[cover_index(shape, d, p, f)]
}

/// `t` is the sorted image of the basis `b`.
pub open spec fn image_basis(sym: Seq<DirectionImage>, b: Seq<usize>, t: Seq<usize>) -> bool {
    &&& strictly_sorted(t)
    &&& forall|x: usize| #[trigger] t.contains(x) <==> exists|v: usize| b.contains(v) && moved(sym, v) == x
}

/// After the symmetry, `f` is an `s`-face of `(d, p)`: a cover relation keeps
/// its sign unless its direction is reflected.
pub open spec fn moved_face(shape: FramedPoset, sym: Seq<DirectionImage>, s: Sign, d: int, p: int, f: usize) -> bool {
    let fl = flips(sym, cover_dir(shape, d, p, f as int));
    (shape.faces(s, d, p).contains(f) && !fl) || (shape.faces(flip(s), d, p).contains(f) && fl)
}

/// `r` is the action of `sym` on `shape`: same cells, permuted bases, and
/// cover relations whose sign changes exactly when their direction is
/// reflected.
pub open spec fn transformed(shape: FramedPoset, sym: Seq<DirectionImage>, r: FramedPoset) -> bool {
    &&& r.levels() == shape.levels()
    &&& forall|d: int| #[trigger] r.size(d) == shape.size(d)
    &&& forall|d: int, p: int| #[trigger] shape.cell(d, p) ==> image_basis(sym, shape.basis_at(d, p), r.basis_at(d, p))
    &&& forall|s: Sign, d: int, p: int| shape.cell(d, p) ==> strictly_sorted(#[trigger] r.faces(s, d, p))
    &&& forall|s: Sign, d: int, p: int, f: usize| shape.cell(d, p) ==> (#[trigger] r.faces(s, d, p).contains(f)
        <==> moved_face(shape, sym, s, d, p, f))
}

/// The first new index is unique.
proof fn lemma_first_new_unique(a: Seq<usize>, b: Seq<usize>, k1: int, k2: int)
    requires
        first_new_index(a, b, k1),
        first_new_index(a, b, k2),
    ensures
        k1 == k2,
{
    if k1 < k2 {
        assert(a.contains(b[k1]));
    } else if k2 < k1 {
        assert(a.contains(b[k2]));
    }
}

/// In an oriented framed poset every face misses exactly one direction of the
/// cell, its cover direction.
pub proof fn lemma_cover_dir(shape: FramedPoset, s: Sign, d: int, p: int, f: usize)
    requires
        shape.framed(),
        shape.cell(d, p),
        d > 0,
        shape.faces(s, d, p).contains(f),
    ensures
        shape.cell(d - 1, f as int),
        first_new_index(shape.basis_at(d - 1, f as int), shape.basis_at(d, p), cover_index(shape, d, p, f as int)),
        shape.basis_at(d, p).contains(cover_dir(shape, d, p, f as int)),
        !shape.basis_at(d - 1, f as int).contains(cover_dir(shape, d, p, f as int)),
        forall|v: usize| #[trigger] shape.basis_at(d, p).contains(v) && !shape.basis_at(d - 1, f as int).contains(v)
            ==> v == cover_dir(shape, d, p, f as int),
        seq_subset(shape.basis_at(d - 1, f as int), shape.basis_at(d, p)),
{
    assert(shape.cell_sound(d, p));
    assert(shape.faces_sound(s, d, p));
    let fs = shape.faces(s, d, p);
    let i = choose|i: int| 0 <= i < fs.len() && fs[i] == f;
    assert(shape.face_link(s, d, p, fs[i] as int));
    assert(shape.cell(d - 1, f as int));
    let a = shape.basis_at(d - 1, f as int);
    let b = shape.basis_at(d, p);
    lemma_some_new(a, b);
    let k = cover_index(shape, d, p, f as int);
    assert(first_new_index(a, b, k));
    assert(b.contains(b[k]));
    assert forall|v: usize| #[trigger] b.contains(v) && !a.contains(v) implies v == cover_dir(shape, d, p, f as int) by {
        lemma_single_new(a, b, v, b[k]);
    }
}

/// The reflection data of a signed permutation separates distinct directions.
proof fn lemma_moved_injective(sym: Seq<DirectionImage>, v: usize, w: usize)
    requires
        signed_permutation(sym),
        v < sym.len(),
        w < sym.len(),
        moved(sym, v) == moved(sym, w),
    ensures
        v == w,
{
    if v < w {
        assert(sym[v as int].direction != sym[w as int].direction);
    } else if w < v {
        assert(sym[w as int].direction != sym[v as int].direction);
    }
}

/// Covered directions of a basis are below the dimension.
proof fn lemma_covered_entry(shape: FramedPoset, n: int, d: int, p: int, v: usize)
    requires
        covered(shape, n),
        shape.cell(d, p),
        shape.basis_at(d, p).contains(v),
    ensures
        v < n,
{
    let b = shape.basis_at(d, p);
    let i = choose|i: int| 0 <= i < b.len() && b[i] == v;
    assert(shape.basis_at(d, p)[i] < n);
}

/// The cover direction after the action is the image of the cover direction.
pub proof fn lemma_moved_cover_dir(shape: FramedPoset, sym: Seq<DirectionImage>, r: FramedPoset, s: Sign, d: int, p: int, f: usize)
    requires
        shape.framed(),
        signed_permutation(sym),
        covered(shape, sym.len() as int),
        transformed(shape, sym, r),
        shape.cell(d, p),
        d > 0,
        shape.faces(s, d, p).contains(f),
    ensures
        cover_dir(r, d, p, f as int) == moved(sym, cover_dir(shape, d, p, f as int)),
{
    lemma_cover_dir(shape, s, d, p, f);
    let a = shape.basis_at(d - 1, f as int);
    let b = shape.basis_at(d, p);
    let ra = r.basis_at(d - 1, f as int);
    let rb = r.basis_at(d, p);
    let c = cover_dir(shape, d, p, f as int);
    assert(image_basis(sym, a, ra));
    assert(image_basis(sym, b, rb));
    lemma_covered_entry(shape, sym.len() as int, d, p, c);
    let mc = moved(sym, c);
    assert(rb.contains(mc));
    assert(!ra.contains(mc)) by {
        if ra.contains(mc) {
            let w = choose|w: usize| a.contains(w) && moved(sym, w) == mc;
            lemma_covered_entry(shape, sym.len() as int, d - 1, f as int, w);
            lemma_moved_injective(sym, w, c);
        }
    }
    let k0 = choose|k: int| 0 <= k < rb.len() && rb[k] == mc;
    assert(!ra.contains(rb[k0]));
    intset::lemma_first_new_below(ra, rb, k0);
    let k = cover_index(r, d, p, f as int);
    assert(first_new_index(ra, rb, k));
    let x = rb[k];
    assert(rb.contains(x));
    let v = choose|v: usize| b.contains(v) && moved(sym, v) == x;
    assert(!a.contains(v)) by {
        if a.contains(v) {
            assert(ra.contains(x));
        }
    }
}

/// The action of a symmetry on an oriented framed poset gives an oriented
/// framed poset.
proof fn lemma_transformed_framed(shape: FramedPoset, sym: Seq<DirectionImage>, r: FramedPoset)
    requires
        shape.framed(),
        signed_permutation(sym),
        covered(shape, sym.len() as int),
        transformed(shape, sym, r),
        r.valid(),
    ensures
        r.framed(),
{
    assert forall|d: int, p: int| #[trigger] r.cell(d, p) implies r.basis_at(d, p).len() == d && strictly_sorted(r.basis_at(d, p)) by {
        assert(r.size(d) == shape.size(d));
        assert(shape.cell(d, p));
        let b = shape.basis_at(d, p);
        let t = r.basis_at(d, p);
        assert(image_basis(sym, b, t));
        let f = |v: usize| moved(sym, v);
        assert forall|x: usize| t.contains(x) <==> exists|v: usize| b.contains(v) && f(v) == x by {
            if t.contains(x) {
                let v = choose|v: usize| b.contains(v) && moved(sym, v) == x;
                assert(b.contains(v) && f(v) == x);
            }
            if exists|v: usize| b.contains(v) && f(v) == x {
                let v = choose|v: usize| b.contains(v) && f(v) == x;
                assert(b.contains(v) && moved(sym, v) == x);
            }
        }
        assert forall|v: usize, w: usize| b.contains(v) && b.contains(w) && f(v) == f(w) implies v == w by {
            lemma_covered_entry(shape, sym.len() as int, d, p, v);
            lemma_covered_entry(shape, sym.len() as int, d, p, w);
            lemma_moved_injective(sym, v, w);
        }
        lemma_image_len(b, t, f);
    }
    assert forall|d: int, p: int| #[trigger] r.cell(d, p) implies r.cell_sound(d, p) by {
        assert(r.size(d) == shape.size(d));
        assert(shape.cell(d, p));
        lemma_transformed_cell(shape, sym, r, d, p);
    }
}

proof fn lemma_transformed_cell(shape: FramedPoset, sym: Seq<DirectionImage>, r: FramedPoset, d: int, p: int)
    requires
        shape.framed(),
        signed_permutation(sym),
        covered(shape, sym.len() as int),
        transformed(shape, sym, r),
        r.valid(),
        shape.cell(d, p),
        r.cell(d, p),
    ensures
        r.cell_sound(d, p),
{
    assert(shape.cell_sound(d, p));
    assert(strictly_sorted(r.faces(Sign::Input, d, p)));
    assert(strictly_sorted(r.faces(Sign::Output, d, p)));
    assert(strictly_sorted(entry(r.cofaces_in, d, p)));
    assert(strictly_sorted(entry(r.cofaces_out, d, p)));
    assert(r.cofaces(Sign::Input, d, p) == entry(r.cofaces_in, d, p));
    assert(r.cofaces(Sign::Output, d, p) == entry(r.cofaces_out, d, p));
    let si = shape.faces(Sign::Input, d, p);
    let so = shape.faces(Sign::Output, d, p);
    assert(seq_disjoint(r.faces(Sign::Input, d, p), r.faces(Sign::Output, d, p))) by {
        assert forall|v: usize| !(r.faces(Sign::Input, d, p).contains(v) && r.faces(Sign::Output, d, p).contains(v)) by {
            if r.faces(Sign::Input, d, p).contains(v) && r.faces(Sign::Output, d, p).contains(v) {
                assert(moved_face(shape, sym, Sign::Input, d, p, v));
                assert(moved_face(shape, sym, Sign::Output, d, p, v));
                assert(!(si.contains(v) && so.contains(v)));
            }
        }
    }
    if d == 0 {
        assert forall|s: Sign| r.faces(s, d, p).len() == 0 by {
            if r.faces(s, d, p).len() > 0 {
                assert(r.faces(s, d, p).contains(r.faces(s, d, p)[0]));
                assert(moved_face(shape, sym, s, d, p, r.faces(s, d, p)[0]));
                assert(si.len() == 0 && so.len() == 0);
            }
        }
    } else {
        lemma_transformed_faces_sound(shape, sym, r, Sign::Input, d, p);
        lemma_transformed_faces_sound(shape, sym, r, Sign::Output, d, p);
        assert forall|x: usize| #[trigger] r.basis_at(d, p).contains(x) implies r.direction_realised(d, p, x) by {
            assert(image_basis(sym, shape.basis_at(d, p), r.basis_at(d, p)));
            let v = choose|v: usize| shape.basis_at(d, p).contains(v) && moved(sym, v) == x;
            assert(shape.frame_realised(d, p));
            assert(shape.direction_realised(d, p, v));
            let f = choose|f: usize| (si.contains(f) || so.contains(f)) && !shape.basis_at(d - 1, f as int).contains(v);
            let s = if si.contains(f) { Sign::Input } else { Sign::Output };
            lemma_cover_dir(shape, s, d, p, f);
            assert(r.faces(Sign::Input, d, p).contains(f) || r.faces(Sign::Output, d, p).contains(f)) by {
                assert(moved_face(shape, sym, Sign::Input, d, p, f) || moved_face(shape, sym, Sign::Output, d, p, f));
            }
            assert(image_basis(sym, shape.basis_at(d - 1, f as int), r.basis_at(d - 1, f as int)));
            assert(!r.basis_at(d - 1, f as int).contains(x)) by {
                if r.basis_at(d - 1, f as int).contains(x) {
                    let w = choose|w: usize| shape.basis_at(d - 1, f as int).contains(w) && moved(sym, w) == x;
                    lemma_covered_entry(shape, sym.len() as int, d - 1, f as int, w);
                    lemma_covered_entry(shape, sym.len() as int, d, p, v);
                    lemma_moved_injective(sym, v, w);
                }
            }
        }
    }
    crate::ofp::lemma_valid_cofaces_sound(r, Sign::Input, d, p);
    crate::ofp::lemma_valid_cofaces_sound(r, Sign::Output, d, p);
}

proof fn lemma_transformed_faces_sound(shape: FramedPoset, sym: Seq<DirectionImage>, r: FramedPoset, s: Sign, d: int, p: int)
    requires
        shape.framed(),
        signed_permutation(sym),
        covered(shape, sym.len() as int),
        transformed(shape, sym, r),
        r.valid(),
        shape.cell(d, p),
        d > 0,
    ensures
        r.faces_sound(s, d, p),
{
    let rf = r.faces(s, d, p);
    assert forall|i: int| 0 <= i < rf.len() implies r.face_link(s, d, p, #[trigger] rf[i] as int) by {
        let f = rf[i];
        assert(rf.contains(f));
        assert(moved_face(shape, sym, s, d, p, f));
        let t = if shape.faces(s, d, p).contains(f) { s } else { flip(s) };
        lemma_cover_dir(shape, t, d, p, f);
        assert(r.size(d - 1) == shape.size(d - 1));
        assert(image_basis(sym, shape.basis_at(d - 1, f as int), r.basis_at(d - 1, f as int)));
        assert(image_basis(sym, shape.basis_at(d, p), r.basis_at(d, p)));
        assert(seq_subset(r.basis_at(d - 1, f as int), r.basis_at(d, p))) by {
            assert forall|x: usize| r.basis_at(d - 1, f as int).contains(x) implies r.basis_at(d, p).contains(x) by {
                let w = choose|w: usize| shape.basis_at(d - 1, f as int).contains(w) && moved(sym, w) == x;
                assert(shape.basis_at(d, p).contains(w));
            }
        }
        assert(f < r.size(d - 1));
        crate::poset::lemma_valid_sign(&r, s);
        assert(r.basis@[d].len() == r.basis@[d]@.len());
        assert(rows(r.face_table(s), d) == r.size(d));
        assert(entry(r.face_table(s), d, p).contains(f));
        assert(r.coface_table(s)@[d - 1]@.len() == r.size(d - 1));
        assert(entry(r.coface_table(s), d - 1, f as int).contains(p as usize));
    }
}


/// The sorted images of the directions of a basis, or the position of the
/// first direction outside the symmetry.
fn transform_basis(b: &IntSet, symmetry: &SignedPermutation) -> (r: Result<IntSet, usize>)
    ensures
        match r {
            Ok(t) => (forall|i: int| 0 <= i < b@.len() ==> #[trigger] b@[i] < symmetry@.len())
                && image_basis(symmetry@, b@, t@),
            Err(k) => k < b@.len() && b@[k as int] >= symmetry@.len()
                && forall|i: int| 0 <= i < k ==> #[trigger] b@[i] < symmetry@.len(),
        },
{
    let mut mapped: Vec<usize> = Vec::new();
    let n = b.len();
    for i in 0..n
        invariant
            n == b@.len(),
            mapped@.len() == i,
            forall|j: int| 0 <= j < i ==> #[trigger] b@[j] < symmetry@.len() && mapped@[j] == moved(symmetry@, b@[j]),
    {
        match symmetry.image_of(b[i]) {
            Some(image) => {
                mapped.push(image.direction);
            },
            None => {
                return Err(i);
            },
        }
    }
    let t = intset::collect_sorted(mapped);
    proof {
        assert forall|x: usize| #[trigger] t@.contains(x) <==> exists|v: usize| b@.contains(v) && moved(symmetry@, v) == x by {
            if t@.contains(x) {
                assert(mapped@.contains(x));
                let j = choose|j: int| 0 <= j < mapped@.len() && mapped@[j] == x;
                assert(b@.contains(b@[j]) && moved(symmetry@, b@[j]) == x);
            }
            if exists|v: usize| b@.contains(v) && moved(symmetry@, v) == x {
                let v = choose|v: usize| b@.contains(v) && moved(symmetry@, v) == x;
                let j = choose|j: int| 0 <= j < b@.len() && b@[j] == v;
                assert(mapped@[j] == x);
                assert(mapped@.contains(x));
            }
        }
    }
    Ok(t)
}

/// Whether the cover relation from `(d, p)` to its `s`-face `f` is reflected.
fn face_flip(shape: &FramedPoset, symmetry: &SignedPermutation, s: Sign, d: usize, p: usize, f: usize) -> (r: bool)
    requires
        shape.framed(),
        shape.cell(d as int, p as int),
        d > 0,
        shape.faces(s, d as int, p as int).contains(f),
        covered(*shape, symmetry@.len() as int),
    ensures
        r == flips(symmetry@, cover_dir(*shape, d as int, p as int, f as int)),
{
    proof {
        lemma_cover_dir(*shape, s, d as int, p as int, f);
    }
    let c = intset::cover_direction(shape.basis_of(d - 1, f).as_slice(), shape.basis_of(d, p).as_slice());
    match c {
        Ok(v) => {
            proof {
                let a = shape.basis_at(d - 1, f as int);
                let b = shape.basis_at(d as int, p as int);
                let k = choose|k: int| first_new_index(a, b, k) && b[k] == v;
                lemma_first_new_unique(a, b, k, cover_index(*shape, d as int, p as int, f as int));
                lemma_covered_entry(*shape, symmetry@.len() as int, d as int, p as int, v);
            }
            match symmetry.image_of(v) {
                Some(image) => image.reflected,
                None => {
                    proof {
                        assert(false);
                    }
                    false
                },
            }
        },
        Err(_) => {
            proof {
                let c = cover_dir(*shape, d as int, p as int, f as int);
                assert(shape.basis_at(d as int, p as int).contains(c));
            }
            false
        },
    }
}

/// The signed faces of cell `(d, p)` after the action.
fn transform_cell_faces(shape: &FramedPoset, symmetry: &SignedPermutation, d: usize, p: usize) -> (r: (IntSet, IntSet))
    requires
        shape.framed(),
        shape.cell(d as int, p as int),
        d > 0,
        covered(*shape, symmetry@.len() as int),
    ensures
        strictly_sorted(r.0@),
        strictly_sorted(r.1@),
        forall|f: usize| #[trigger] r.0@.contains(f) <==> moved_face(*shape, symmetry@, Sign::Input, d as int, p as int, f),
        forall|f: usize| #[trigger] r.1@.contains(f) <==> moved_face(*shape, symmetry@, Sign::Output, d as int, p as int, f),
{
    let mut ins: IntSet = Vec::new();
    let mut outs: IntSet = Vec::new();
    let fin = shape.faces_of(Sign::Input, d, p);
    let fout = shape.faces_of(Sign::Output, d, p);
    let n = fin.len();
    for i in 0..n
        invariant
            shape.framed(),
            shape.cell(d as int, p as int),
            d > 0,
            covered(*shape, symmetry@.len() as int),
            fin@ == shape.faces(Sign::Input, d as int, p as int),
            n == fin@.len(),
            strictly_sorted(ins@),
            strictly_sorted(outs@),
            forall|f: usize| #[trigger] ins@.contains(f) <==> (exists|j: int| 0 <= j < i && fin@[j] == f)
                && !flips(symmetry@, cover_dir(*shape, d as int, p as int, f as int)),
            forall|f: usize| #[trigger] outs@.contains(f) <==> (exists|j: int| 0 <= j < i && fin@[j] == f)
                && flips(symmetry@, cover_dir(*shape, d as int, p as int, f as int)),
    {
        let f = fin[i];
        proof {
            assert(fin@.contains(f));
        }
        if face_flip(shape, symmetry, Sign::Input, d, p, f) {
            intset::insert(&mut outs, f);
        } else {
            intset::insert(&mut ins, f);
        }
        proof {
            assert(fin@[i as int] == f);
        }
    }
    let m = fout.len();
    for i in 0..m
        invariant
            shape.framed(),
            shape.cell(d as int, p as int),
            d > 0,
            covered(*shape, symmetry@.len() as int),
            fin@ == shape.faces(Sign::Input, d as int, p as int),
            fout@ == shape.faces(Sign::Output, d as int, p as int),
            m == fout@.len(),
            strictly_sorted(ins@),
            strictly_sorted(outs@),
            forall|f: usize| #[trigger] ins@.contains(f) <==> (fin@.contains(f)
                && !flips(symmetry@, cover_dir(*shape, d as int, p as int, f as int))) || ((exists|j: int| 0 <= j < i && fout@[j] == f)
                && flips(symmetry@, cover_dir(*shape, d as int, p as int, f as int))),
            forall|f: usize| #[trigger] outs@.contains(f) <==> (fin@.contains(f)
                && flips(symmetry@, cover_dir(*shape, d as int, p as int, f as int))) || ((exists|j: int| 0 <= j < i && fout@[j] == f)
                && !flips(symmetry@, cover_dir(*shape, d as int, p as int, f as int))),
    {
        let f = fout[i];
        proof {
            assert(fout@.contains(f));
        }
        if face_flip(shape, symmetry, Sign::Output, d, p, f) {
            intset::insert(&mut ins, f);
        } else {
            intset::insert(&mut outs, f);
        }
        proof {
            assert(fout@[i as int] == f);
        }
    }
    (ins, outs)
}

/// The entries of every processed basis are below `n`.
pub open spec fn covered_before(shape: FramedPoset, n: int, d: int, p: int) -> bool {
    forall|d2: int, p2: int, i2: int| #[trigger] uncovered_at(shape, n, d2, p2, i2) ==> !lex_before(d2, p2, 0, d, p, 0)
}

/// `e` reports the first basis entry of `shape` outside dimension `n`.
pub open spec fn uncovered_error(shape: FramedPoset, n: int, e: SymmetryError) -> bool {
    exists|d: int, p: int, i: int| first_uncovered(shape, n, d, p, i) && e == (SymmetryError::DirectionNotCovered {
        direction: shape.basis_at(d, p)[i],
        dimension: n as usize,
    })
}

/// Apply a signed permutation of directions to an oriented framed poset.
///
/// Cell indices and unsigned cover relations are preserved. Bases are
/// permuted, and a cover relation changes sign exactly when its missing source
/// direction is reflected. The result is not marked as normalized.
pub fn transform(shape: &FramedPoset, symmetry: &SignedPermutation) -> (r: Result<FramedPoset, SymmetryError>)
    requires
        shape.framed(),
    ensures
        match r {
            Ok(t) => covered(*shape, symmetry@.len() as int) && transformed(*shape, symmetry@, t) && t.framed()
                && !t.normal,
            Err(e) => uncovered_error(*shape, symmetry@.len() as int, e),
        },
{
    let n = symmetry.dimension();
    let levels = shape.basis.len();
    let ghost nn = n as int;
    let mut basis: Vec<Vec<IntSet>> = Vec::new();
    for d in 0..levels
        invariant
            shape.framed(),
            n == symmetry@.len(),
            nn == n,
            levels == shape.levels(),
            basis@.len() == d,
            covered_before(*shape, nn, d as int, 0),
            forall|e: int| 0 <= e < d ==> #[trigger] basis@[e]@.len() == shape.size(e),
            forall|e: int, q: int| 0 <= e < d && #[trigger] shape.cell(e, q) ==> image_basis(symmetry@, shape.basis_at(e, q), entry(basis, e, q)),
    {
        let size = shape.basis[d].len();
        let mut row: Vec<IntSet> = Vec::new();
        for p in 0..size
            invariant
                shape.framed(),
                n == symmetry@.len(),
                nn == n,
                levels == shape.levels(),
                d < levels,
                size == shape.size(d as int),
                row@.len() == p,
                covered_before(*shape, nn, d as int, p as int),
                forall|q: int| 0 <= q < p ==> image_basis(symmetry@, shape.basis_at(d as int, q), #[trigger] row@[q]@),
        {
            match transform_basis(&shape.basis[d][p], symmetry) {
                Ok(t) => {
                    row.push(t);
                    proof {
                        assert forall|d2: int, p2: int, i2: int| #[trigger] uncovered_at(*shape, nn, d2, p2, i2) implies !lex_before(
                            d2, p2, 0, d as int, p + 1, 0) by {
                            if d2 == d && p2 == p {
                                assert(shape.basis_at(d as int, p as int)[i2] < nn);
                            }
                        }
                    }
                },
                Err(k) => {
                    let direction = shape.basis[d][p][k];
                    let err = SymmetryError::DirectionNotCovered { direction, dimension: n };
                    proof {
                        assert(uncovered_at(*shape, nn, d as int, p as int, k as int));
                        assert forall|d2: int, p2: int, i2: int| #[trigger] uncovered_at(*shape, nn, d2, p2, i2) implies !lex_before(
                            d2, p2, i2, d as int, p as int, k as int) by {
                            if d2 == d && p2 == p && i2 < k {
                                assert(shape.basis_at(d as int, p as int)[i2] < nn);
                            }
                        }
                        assert(first_uncovered(*shape, nn, d as int, p as int, k as int));
                    }
                    return Err(err);
                },
            }
        }
        let ghost before = basis;
        basis.push(row);
        proof {
            assert forall|e: int, q: int| 0 <= e < d + 1 && #[trigger] shape.cell(e, q) implies image_basis(
                symmetry@, shape.basis_at(e, q), entry(basis, e, q)) by {
                if e < d {
                    assert(basis@[e] == before@[e]);
                } else {
                    assert(basis@[e] == row);
                    assert(row@[q]@ == entry(basis, e, q));
                }
            }
            assert forall|e: int| 0 <= e < d + 1 implies #[trigger] basis@[e]@.len() == shape.size(e) by {
                if e < d {
                    assert(basis@[e] == before@[e]);
                }
            }
        }
    }
    proof {
        assert forall|d: int, p: int, i: int| shape.cell(d, p) && 0 <= i < shape.basis_at(d, p).len() implies #[trigger] shape.basis_at(
            d, p)[i] < nn by {
            if shape.basis_at(d, p)[i] >= nn {
                assert(uncovered_at(*shape, nn, d, p, i));
            }
        }
        assert(covered(*shape, nn));
    }
    let mut faces_in: Vec<Vec<IntSet>> = Vec::new();
    let mut faces_out: Vec<Vec<IntSet>> = Vec::new();
    for d in 0..levels
        invariant
            shape.framed(),
            n == symmetry@.len(),
            levels == shape.levels(),
            covered(*shape, nn),
            nn == n,
            faces_in@.len() == d,
            faces_out@.len() == d,
            forall|e: int| 0 <= e < d ==> #[trigger] faces_in@[e]@.len() == shape.size(e),
            forall|e: int| 0 <= e < d ==> #[trigger] faces_out@[e]@.len() == shape.size(e),
            forall|e: int, q: int| 0 <= e < d && #[trigger] shape.cell(e, q) ==> strictly_sorted(entry(faces_in, e, q))
                && strictly_sorted(entry(faces_out, e, q)),
            forall|e: int, q: int, f: usize| 0 <= e < d && shape.cell(e, q) ==> (#[trigger] entry(faces_in, e, q).contains(f)
                <==> moved_face(*shape, symmetry@, Sign::Input, e, q, f)),
            forall|e: int, q: int, f: usize| 0 <= e < d && shape.cell(e, q) ==> (#[trigger] entry(faces_out, e, q).contains(f)
                <==> moved_face(*shape, symmetry@, Sign::Output, e, q, f)),
    {
        let size = shape.basis[d].len();
        let mut row_in: Vec<IntSet> = Vec::new();
        let mut row_out: Vec<IntSet> = Vec::new();
        for p in 0..size
            invariant
                shape.framed(),
                n == symmetry@.len(),
                levels == shape.levels(),
                covered(*shape, nn),
                nn == n,
                d < levels,
                size == shape.size(d as int),
                row_in@.len() == p,
                row_out@.len() == p,
                forall|q: int| 0 <= q < p ==> strictly_sorted(#[trigger] row_in@[q]@),
                forall|q: int| 0 <= q < p ==> strictly_sorted(#[trigger] row_out@[q]@),
                forall|q: int, f: usize| 0 <= q < p ==> (#[trigger] row_in@[q]@.contains(f)
                    <==> moved_face(*shape, symmetry@, Sign::Input, d as int, q, f)),
                forall|q: int, f: usize| 0 <= q < p ==> (#[trigger] row_out@[q]@.contains(f)
                    <==> moved_face(*shape, symmetry@, Sign::Output, d as int, q, f)),
        {
            if d == 0 {
                proof {
                    assert(shape.cell(0, p as int));
                    assert(shape.cell_sound(0, p as int));
                }
                row_in.push(Vec::new());
                row_out.push(Vec::new());
            } else {
                let (a, b) = transform_cell_faces(shape, symmetry, d, p);
                row_in.push(a);
                row_out.push(b);
            }
        }
        let ghost before_in = faces_in;
        let ghost before_out = faces_out;
        faces_in.push(row_in);
        faces_out.push(row_out);
        proof {
            assert forall|e: int| 0 <= e < d + 1 implies #[trigger] faces_in@[e]@.len() == shape.size(e) by {
                if e < d {
                    assert(faces_in@[e] == before_in@[e]);
                }
            }
            assert forall|e: int| 0 <= e < d + 1 implies #[trigger] faces_out@[e]@.len() == shape.size(e) by {
                if e < d {
                    assert(faces_out@[e] == before_out@[e]);
                }
            }
            assert forall|e: int, q: int| 0 <= e < d + 1 && #[trigger] shape.cell(e, q) implies strictly_sorted(entry(faces_in, e, q))
                && strictly_sorted(entry(faces_out, e, q)) by {
                if e < d {
                    assert(faces_in@[e] == before_in@[e]);
                    assert(faces_out@[e] == before_out@[e]);
                } else {
                    assert(entry(faces_in, e, q) == row_in@[q]@);
                    assert(entry(faces_out, e, q) == row_out@[q]@);
                }
            }
            assert forall|e: int, q: int, f: usize| 0 <= e < d + 1 && shape.cell(e, q) implies (#[trigger] entry(faces_in, e, q).contains(f)
                <==> moved_face(*shape, symmetry@, Sign::Input, e, q, f)) by {
                if e < d {
                    assert(faces_in@[e] == before_in@[e]);
                } else {
                    assert(entry(faces_in, e, q) == row_in@[q]@);
                }
            }
            assert forall|e: int, q: int, f: usize| 0 <= e < d + 1 && shape.cell(e, q) implies (#[trigger] entry(faces_out, e, q).contains(f)
                <==> moved_face(*shape, symmetry@, Sign::Output, e, q, f)) by {
                if e < d {
                    assert(faces_out@[e] == before_out@[e]);
                } else {
                    assert(entry(faces_out, e, q) == row_out@[q]@);
                }
            }
        }
    }
    proof {
        lemma_transform_tables(*shape, symmetry@, basis, faces_in, faces_out);
    }
    let t = FramedPoset::from_faces(basis, faces_in, faces_out);
    proof {
        lemma_transform_result(*shape, symmetry@, t);
        lemma_transformed_framed(*shape, symmetry@, t);
    }
    Ok(t)
}

/// The tables built by [`transform`] are a well-shaped definition.
proof fn lemma_transform_tables(
    shape: FramedPoset,
    sym: Seq<DirectionImage>,
    basis: Vec<Vec<IntSet>>,
    faces_in: Vec<Vec<IntSet>>,
    faces_out: Vec<Vec<IntSet>>,
)
    requires
        shape.framed(),
        covered(shape, sym.len() as int),
        basis@.len() == shape.levels(),
        faces_in@.len() == shape.levels(),
        faces_out@.len() == shape.levels(),
        forall|e: int| 0 <= e < shape.levels() ==> #[trigger] basis@[e]@.len() == shape.size(e),
        forall|e: int| 0 <= e < shape.levels() ==> #[trigger] faces_in@[e]@.len() == shape.size(e),
        forall|e: int| 0 <= e < shape.levels() ==> #[trigger] faces_out@[e]@.len() == shape.size(e),
        forall|e: int, q: int| #[trigger] shape.cell(e, q) ==> image_basis(sym, shape.basis_at(e, q), entry(basis, e, q)),
        forall|e: int, q: int| #[trigger] shape.cell(e, q) ==> strictly_sorted(entry(faces_in, e, q)) && strictly_sorted(
            entry(faces_out, e, q)),
        forall|e: int, q: int, f: usize| shape.cell(e, q) ==> (#[trigger] entry(faces_in, e, q).contains(f) <==> moved_face(
            shape, sym, Sign::Input, e, q, f)),
        forall|e: int, q: int, f: usize| shape.cell(e, q) ==> (#[trigger] entry(faces_out, e, q).contains(f) <==> moved_face(
            shape, sym, Sign::Output, e, q, f)),
    ensures
        crate::poset::defining_tables(basis, faces_in, faces_out),
        crate::poset::dim_fits(basis@.len() as int),
{
    assert forall|d: int, p: int| 0 <= d < basis@.len() && 0 <= p < basis@[d]@.len() implies strictly_sorted(
        #[trigger] entry(basis, d, p)) by {
        assert(shape.cell(d, p));
    }
    assert forall|d: int, p: int| 0 <= d < faces_in@.len() && 0 <= p < faces_in@[d]@.len() implies strictly_sorted(
        #[trigger] entry(faces_in, d, p)) by {
        assert(shape.cell(d, p));
    }
    assert forall|d: int, p: int| 0 <= d < faces_out@.len() && 0 <= p < faces_out@[d]@.len() implies strictly_sorted(
        #[trigger] entry(faces_out, d, p)) by {
        assert(shape.cell(d, p));
    }
    assert forall|d: int, p: int, i: int|
        0 <= d < faces_in@.len() && 0 <= p < faces_in@[d]@.len() && 0 <= i < entry(faces_in, d, p).len()
            implies #[trigger] entry(faces_in, d, p)[i] < rows(basis, d - 1) by {
        assert(shape.cell(d, p));
        let f = entry(faces_in, d, p)[i];
        assert(entry(faces_in, d, p).contains(f));
        lemma_moved_face_range(shape, sym, Sign::Input, d, p, f);
    }
    assert forall|d: int, p: int, i: int|
        0 <= d < faces_out@.len() && 0 <= p < faces_out@[d]@.len() && 0 <= i < entry(faces_out, d, p).len()
            implies #[trigger] entry(faces_out, d, p)[i] < rows(basis, d - 1) by {
        assert(shape.cell(d, p));
        let f = entry(faces_out, d, p)[i];
        assert(entry(faces_out, d, p).contains(f));
        lemma_moved_face_range(shape, sym, Sign::Output, d, p, f);
    }
}

/// A face after the action is a face, of one sign or the other, before it.
proof fn lemma_moved_face_range(shape: FramedPoset, sym: Seq<DirectionImage>, s: Sign, d: int, p: int, f: usize)
    requires
        shape.framed(),
        shape.cell(d, p),
        moved_face(shape, sym, s, d, p, f),
    ensures
        d > 0,
        f < shape.size(d - 1),
{
    assert(shape.cell_sound(d, p));
    let t = if shape.faces(s, d, p).contains(f) { s } else { flip(s) };
    assert(shape.faces(t, d, p).contains(f));
    if d == 0 {
        assert(shape.faces(t, d, p).len() == 0);
    } else {
        lemma_cover_dir(shape, t, d, p, f);
    }
}

/// The poset built from the tables of [`transform`] is the action of the symmetry.
proof fn lemma_transform_result(shape: FramedPoset, sym: Seq<DirectionImage>, t: FramedPoset)
    requires
        t.basis@.len() == shape.levels(),
        forall|e: int| 0 <= e < shape.levels() ==> #[trigger] t.basis@[e]@.len() == shape.size(e),
        forall|e: int, q: int| #[trigger] shape.cell(e, q) ==> image_basis(sym, shape.basis_at(e, q), entry(t.basis, e, q)),
        forall|e: int, q: int| #[trigger] shape.cell(e, q) ==> strictly_sorted(entry(t.faces_in, e, q)) && strictly_sorted(
            entry(t.faces_out, e, q)),
        forall|e: int, q: int, f: usize| shape.cell(e, q) ==> (#[trigger] entry(t.faces_in, e, q).contains(f) <==> moved_face(
            shape, sym, Sign::Input, e, q, f)),
        forall|e: int, q: int, f: usize| shape.cell(e, q) ==> (#[trigger] entry(t.faces_out, e, q).contains(f) <==> moved_face(
            shape, sym, Sign::Output, e, q, f)),
    ensures
        transformed(shape, sym, t),
{
    assert forall|d: int| #[trigger] t.size(d) == shape.size(d) by {
        if 0 <= d < shape.levels() {
            assert(t.basis@[d]@.len() == shape.size(d));
        }
    }
    assert forall|s: Sign, d: int, p: int| shape.cell(d, p) implies strictly_sorted(#[trigger] t.faces(s, d, p)) by {
        match s {
            Sign::Input => {},
            Sign::Output => {},
        }
    }
    assert forall|s: Sign, d: int, p: int, f: usize| shape.cell(d, p) implies (#[trigger] t.faces(s, d, p).contains(f)
        <==> moved_face(shape, sym, s, d, p, f)) by {
        match s {
            Sign::Input => {},
            Sign::Output => {},
        }
    }
}

/// Apply a signed permutation of directions to an embedding.
///
/// The domain and codomain are transformed by the same symmetry. Since the
/// action preserves cell indices, the forward and inverse cell maps are
/// unchanged.
pub fn transform_embedding(embedding: &Embedding, symmetry: &SignedPermutation) -> (r: Result<Embedding, SymmetryError>)
    requires
        embedding.dom.framed(),
        embedding.cod.framed(),
        embedding.wf(),
    ensures
        match r {
            Ok(t) => covered(*embedding.dom, symmetry@.len() as int) && covered(*embedding.cod, symmetry@.len() as int)
                && transformed(*embedding.dom, symmetry@, *t.dom) && transformed(*embedding.cod, symmetry@, *t.cod)
                && t.dom.framed() && t.cod.framed() && !t.dom.normal && !t.cod.normal
                && tv(t.map) == tv(embedding.map) && tv(t.inv) == tv(embedding.inv) && t.wf(),
            Err(e) => uncovered_error(*embedding.dom, symmetry@.len() as int, e) || (covered(
                *embedding.dom,
                symmetry@.len() as int,
            ) && uncovered_error(*embedding.cod, symmetry@.len() as int, e)),
        },
{
    proof {
        use_type_invariant(symmetry);
    }
    let dom = match transform(&embedding.dom, symmetry) {
        Ok(t) => t,
        Err(e) => {
            return Err(e);
        },
    };
    let cod = match transform(&embedding.cod, symmetry) {
        Ok(t) => t,
        Err(e) => {
            return Err(e);
        },
    };
    let map = copy_index_table(&embedding.map);
    let inv = copy_index_table(&embedding.inv);
    let t = Embedding::make(Arc::new(dom), Arc::new(cod), map, inv);
    proof {
        lemma_transformed_embedding(*embedding, symmetry@, t);
    }
    Ok(t)
}

/// Transforming both ends of an embedding keeps its tables an embedding.
proof fn lemma_transformed_embedding(e: Embedding, sym: Seq<DirectionImage>, t: Embedding)
    requires
        e.dom.framed(),
        e.cod.framed(),
        e.wf(),
        signed_permutation(sym),
        covered(*e.dom, sym.len() as int),
        covered(*e.cod, sym.len() as int),
        transformed(*e.dom, sym, *t.dom),
        transformed(*e.cod, sym, *t.cod),
        t.dom.framed(),
        t.cod.framed(),
        tv(t.map) == tv(e.map),
        tv(t.inv) == tv(e.inv),
    ensures
        t.wf(),
{
    assert(t.map@.len() == e.map@.len()) by {
        assert(tv(t.map).len() == t.map@.len());
        assert(tv(e.map).len() == e.map@.len());
    }
    assert(t.inv@.len() == e.inv@.len()) by {
        assert(tv(t.inv).len() == t.inv@.len());
        assert(tv(e.inv).len() == e.inv@.len());
    }
    assert forall|d: int| 0 <= d < e.map@.len() implies #[trigger] t.map@[d]@ == e.map@[d]@ by {
        assert(tv(t.map)[d] == t.map@[d]@);
        assert(tv(e.map)[d] == e.map@[d]@);
    }
    assert forall|d: int| 0 <= d < e.inv@.len() implies #[trigger] t.inv@[d]@ == e.inv@[d]@ by {
        assert(tv(t.inv)[d] == t.inv@[d]@);
        assert(tv(e.inv)[d] == e.inv@[d]@);
    }
    assert forall|d: int, i: int| 0 <= d < e.map@.len() implies #[trigger] at(t.map, d, i) == at(e.map, d, i) by {
        assert(t.map@[d]@ == e.map@[d]@);
    }
    assert forall|d: int, j: int| 0 <= d < e.inv@.len() implies #[trigger] at(t.inv, d, j) == at(e.inv, d, j) by {
        assert(t.inv@[d]@ == e.inv@[d]@);
    }
    assert forall|d: int, i: int| t.dom.cell(d, i) implies #[trigger] t.dom.basis_at(d, i) == t.cod.basis_at(d, at(t.map, d, i) as int) by {
        assert(e.dom.cell(d, i));
        let j = at(e.map, d, i) as int;
        assert(e.cod.cell(d, j));
        assert(e.dom.basis_at(d, i) == e.cod.basis_at(d, j));
        assert(image_basis(sym, e.dom.basis_at(d, i), t.dom.basis_at(d, i)));
        assert(image_basis(sym, e.cod.basis_at(d, j), t.cod.basis_at(d, j)));
        assert(t.dom.bases_graded());
        assert(t.dom.cell(d, i));
        assert(t.cod.cell(d, j));
        intset::lemma_sorted_same_elements(t.dom.basis_at(d, i), t.cod.basis_at(d, j));
    }
}

/// Two valid posets with the same cells whose bases and signed faces have the
/// same elements are the same poset.
pub(crate) proof fn lemma_same_poset_by_elements(x: FramedPoset, y: FramedPoset)
    requires
        x.valid(),
        y.valid(),
        x.levels() == y.levels(),
        forall|d: int| #[trigger] x.size(d) == y.size(d),
        forall|d: int, p: int| #[trigger] x.cell(d, p) ==> same_elements(x.basis_at(d, p), y.basis_at(d, p)),
        forall|s: Sign, d: int, p: int| x.cell(d, p) ==> same_elements(#[trigger] x.faces(s, d, p), y.faces(s, d, p)),
    ensures
        x.same_poset(&y),
{
    assert forall|d: int| 0 <= d < x.basis@.len() implies #[trigger] x.basis@[d]@.len() == y.basis@[d]@.len() by {
        assert(x.size(d) == y.size(d));
    }
    assert forall|d: int, p: int| 0 <= d < x.basis@.len() && 0 <= p < x.basis@[d]@.len() implies #[trigger] entry(x.basis, d, p)
        == entry(y.basis, d, p) by {
        assert(x.cell(d, p));
        assert(x.size(d) == y.size(d));
        intset::lemma_sorted_same_elements(x.basis_at(d, p), y.basis_at(d, p));
    }
    assert forall|d: int| 0 <= d < x.faces_in@.len() implies #[trigger] x.faces_in@[d]@.len() == y.faces_in@[d]@.len() by {
        assert(x.size(d) == y.size(d));
    }
    assert forall|d: int, p: int| 0 <= d < x.faces_in@.len() && 0 <= p < x.faces_in@[d]@.len() implies #[trigger] entry(
        x.faces_in, d, p) == entry(y.faces_in, d, p) by {
        assert(x.cell(d, p));
        assert(x.size(d) == y.size(d));
        assert(same_elements(x.faces(Sign::Input, d, p), y.faces(Sign::Input, d, p)));
        intset::lemma_sorted_same_elements(x.faces(Sign::Input, d, p), y.faces(Sign::Input, d, p));
    }
    assert forall|d: int| 0 <= d < x.faces_out@.len() implies #[trigger] x.faces_out@[d]@.len() == y.faces_out@[d]@.len() by {
        assert(x.size(d) == y.size(d));
    }
    assert forall|d: int, p: int| 0 <= d < x.faces_out@.len() && 0 <= p < x.faces_out@[d]@.len() implies #[trigger] entry(
        x.faces_out, d, p) == entry(y.faces_out, d, p) by {
        assert(x.cell(d, p));
        assert(x.size(d) == y.size(d));
        assert(same_elements(x.faces(Sign::Output, d, p), y.faces(Sign::Output, d, p)));
        intset::lemma_sorted_same_elements(x.faces(Sign::Output, d, p), y.faces(Sign::Output, d, p));
    }
}

/// A face after the action is a face before it, of one sign or the other.
proof fn lemma_moved_face_source(shape: FramedPoset, sym: Seq<DirectionImage>, s: Sign, d: int, p: int, f: usize)
    requires
        moved_face(shape, sym, s, d, p, f),
    ensures
        shape.faces(s, d, p).contains(f) || shape.faces(flip(s), d, p).contains(f),
{
}

/// The identity symmetry fixes every oriented framed poset it covers.
pub proof fn law_identity_fixes(shape: FramedPoset, n: nat, r: FramedPoset)
    requires
        shape.framed(),
        covered(shape, n as int),
        transformed(shape, identity_images(n), r),
        r.valid(),
    ensures
        r.same_poset(&shape),
{
    let id = identity_images(n);
    assert forall|d: int, p: int| #[trigger] r.cell(d, p) implies same_elements(r.basis_at(d, p), shape.basis_at(d, p)) by {
        assert(r.size(d) == shape.size(d));
        assert(shape.cell(d, p));
        assert(image_basis(id, shape.basis_at(d, p), r.basis_at(d, p)));
        assert forall|x: usize| r.basis_at(d, p).contains(x) <==> shape.basis_at(d, p).contains(x) by {
            if r.basis_at(d, p).contains(x) {
                let v = choose|v: usize| shape.basis_at(d, p).contains(v) && moved(id, v) == x;
                lemma_covered_entry(shape, n as int, d, p, v);
            }
            if shape.basis_at(d, p).contains(x) {
                lemma_covered_entry(shape, n as int, d, p, x);
                assert(moved(id, x) == x);
            }
        }
    }
    assert forall|s: Sign, d: int, p: int| r.cell(d, p) implies same_elements(#[trigger] r.faces(s, d, p), shape.faces(s, d, p)) by {
        assert(r.size(d) == shape.size(d));
        assert(shape.cell(d, p));
        assert forall|f: usize| r.faces(s, d, p).contains(f) <==> shape.faces(s, d, p).contains(f) by {
            if shape.faces(s, d, p).contains(f) || shape.faces(flip(s), d, p).contains(f) {
                let t = if shape.faces(s, d, p).contains(f) { s } else { flip(s) };
                assert(shape.cell_sound(d, p));
                if d > 0 {
                    lemma_cover_dir(shape, t, d, p, f);
                    lemma_covered_entry(shape, n as int, d, p, cover_dir(shape, d, p, f as int));
                } else {
                    assert(shape.faces(t, d, p).len() == 0);
                }
            }
        }
    }
    assert forall|d: int| #[trigger] shape.size(d) == r.size(d) by {}
    lemma_framed_valid(&shape);
    lemma_same_poset_by_elements(r, shape);
}

/// The action of a symmetry is determined: two results of acting by `sym`
/// on `shape` are the same framed poset. In particular the posets that
/// [`transform_embedding`] gives are those that [`transform`] gives.
pub proof fn law_transform_unique(shape: FramedPoset, sym: Seq<DirectionImage>, r1: FramedPoset, r2: FramedPoset)
    requires
        transformed(shape, sym, r1),
        transformed(shape, sym, r2),
        r1.valid(),
        r2.valid(),
    ensures
        r1.same_poset(&r2),
{
    assert forall|d: int, p: int| #[trigger] r1.cell(d, p) implies same_elements(r1.basis_at(d, p), r2.basis_at(d, p)) by {
        assert(r1.size(d) == shape.size(d));
        assert(shape.cell(d, p));
        assert(image_basis(sym, shape.basis_at(d, p), r1.basis_at(d, p)));
        assert(image_basis(sym, shape.basis_at(d, p), r2.basis_at(d, p)));
        assert forall|x: usize| r1.basis_at(d, p).contains(x) <==> r2.basis_at(d, p).contains(x) by {
            assert(r1.basis_at(d, p).contains(x) <==> exists|v: usize| shape.basis_at(d, p).contains(v) && moved(sym, v) == x);
            assert(r2.basis_at(d, p).contains(x) <==> exists|v: usize| shape.basis_at(d, p).contains(v) && moved(sym, v) == x);
        }
    }
    assert forall|s: Sign, d: int, p: int| r1.cell(d, p) implies same_elements(#[trigger] r1.faces(s, d, p), r2.faces(s, d, p)) by {
        assert(r1.size(d) == shape.size(d));
        assert(shape.cell(d, p));
        assert forall|f: usize| r1.faces(s, d, p).contains(f) <==> r2.faces(s, d, p).contains(f) by {
            assert(r1.faces(s, d, p).contains(f) <==> moved_face(shape, sym, s, d, p, f));
            assert(r2.faces(s, d, p).contains(f) <==> moved_face(shape, sym, s, d, p, f));
        }
    }
    assert forall|d: int| #[trigger] r1.size(d) == r2.size(d) by {
        assert(r1.size(d) == shape.size(d));
        assert(r2.size(d) == shape.size(d));
    }
    lemma_same_poset_by_elements(r1, r2);
}

/// Applying a symmetry and then its inverse restores the poset.
pub proof fn law_inverse_restores(shape: FramedPoset, a: Seq<DirectionImage>, b: Seq<DirectionImage>, r1: FramedPoset, r2: FramedPoset)
    requires
        shape.framed(),
        signed_permutation(a),
        inverse_of(b, a),
        covered(shape, a.len() as int),
        transformed(shape, a, r1),
        transformed(r1, b, r2),
        r2.valid(),
    ensures
        r2.same_poset(&shape),
{
    assert forall|d: int, p: int| #[trigger] r2.cell(d, p) implies same_elements(r2.basis_at(d, p), shape.basis_at(d, p)) by {
        assert(r2.size(d) == r1.size(d) && r1.size(d) == shape.size(d));
        assert(shape.cell(d, p));
        assert(r1.cell(d, p));
        assert(image_basis(a, shape.basis_at(d, p), r1.basis_at(d, p)));
        assert(image_basis(b, r1.basis_at(d, p), r2.basis_at(d, p)));
        assert forall|x: usize| r2.basis_at(d, p).contains(x) <==> shape.basis_at(d, p).contains(x) by {
            if r2.basis_at(d, p).contains(x) {
                let w = choose|w: usize| r1.basis_at(d, p).contains(w) && moved(b, w) == x;
                let v = choose|v: usize| shape.basis_at(d, p).contains(v) && moved(a, v) == w;
                lemma_covered_entry(shape, a.len() as int, d, p, v);
                assert(b[a[v as int].direction as int].direction == v);
            }
            if shape.basis_at(d, p).contains(x) {
                lemma_covered_entry(shape, a.len() as int, d, p, x);
                let w = moved(a, x);
                assert(r1.basis_at(d, p).contains(w));
                assert(b[a[x as int].direction as int].direction == x);
                assert(moved(b, w) == x);
            }
        }
    }
    assert forall|s: Sign, d: int, p: int| r2.cell(d, p) implies same_elements(#[trigger] r2.faces(s, d, p), shape.faces(s, d, p)) by {
        assert(r2.size(d) == r1.size(d) && r1.size(d) == shape.size(d));
        assert(shape.cell(d, p));
        assert(r1.cell(d, p));
        assert forall|f: usize| r2.faces(s, d, p).contains(f) <==> shape.faces(s, d, p).contains(f) by {
            assert(r2.faces(s, d, p).contains(f) <==> moved_face(r1, b, s, d, p, f));
            assert(r1.faces(s, d, p).contains(f) <==> moved_face(shape, a, s, d, p, f));
            assert(r1.faces(flip(s), d, p).contains(f) <==> moved_face(shape, a, flip(s), d, p, f));
            assert(flip(flip(s)) == s);
            if shape.faces(s, d, p).contains(f) || shape.faces(flip(s), d, p).contains(f) {
                let t = if shape.faces(s, d, p).contains(f) { s } else { flip(s) };
                assert(shape.cell_sound(d, p));
                if d > 0 {
                    lemma_moved_cover_dir(shape, a, r1, t, d, p, f);
                    lemma_cover_dir(shape, t, d, p, f);
                    let c = cover_dir(shape, d, p, f as int);
                    lemma_covered_entry(shape, a.len() as int, d, p, c);
                    assert(b[a[c as int].direction as int].reflected == a[c as int].reflected);
                } else {
                    assert(shape.faces(t, d, p).len() == 0);
                }
            }
        }
    }
    assert forall|d: int| #[trigger] r2.size(d) == shape.size(d) by {
        assert(r2.size(d) == r1.size(d));
    }
    lemma_framed_valid(&shape);
    lemma_same_poset_by_elements(r2, shape);
}

/// Applying `a` and then `b` is applying their composite.
pub proof fn law_composition_acts(
    shape: FramedPoset,
    a: Seq<DirectionImage>,
    b: Seq<DirectionImage>,
    r1: FramedPoset,
    r2: FramedPoset,
    r3: FramedPoset,
)
    requires
        shape.framed(),
        signed_permutation(a),
        signed_permutation(b),
        a.len() == b.len(),
        covered(shape, a.len() as int),
        transformed(shape, a, r1),
        transformed(r1, b, r2),
        transformed(shape, composed(a, b), r3),
        r2.valid(),
        r3.valid(),
    ensures
        r2.same_poset(&r3),
{
    let c = composed(a, b);
    assert forall|d: int, p: int| #[trigger] r2.cell(d, p) implies same_elements(r2.basis_at(d, p), r3.basis_at(d, p)) by {
        assert(r2.size(d) == r1.size(d) && r1.size(d) == shape.size(d) && r3.size(d) == shape.size(d));
        assert(shape.cell(d, p));
        assert(r1.cell(d, p));
        assert(image_basis(a, shape.basis_at(d, p), r1.basis_at(d, p)));
        assert(image_basis(b, r1.basis_at(d, p), r2.basis_at(d, p)));
        assert(image_basis(c, shape.basis_at(d, p), r3.basis_at(d, p)));
        assert forall|x: usize| r2.basis_at(d, p).contains(x) <==> r3.basis_at(d, p).contains(x) by {
            if r2.basis_at(d, p).contains(x) {
                let w = choose|w: usize| r1.basis_at(d, p).contains(w) && moved(b, w) == x;
                let v = choose|v: usize| shape.basis_at(d, p).contains(v) && moved(a, v) == w;
                lemma_covered_entry(shape, a.len() as int, d, p, v);
                assert(moved(c, v) == x);
            }
            if r3.basis_at(d, p).contains(x) {
                let v = choose|v: usize| shape.basis_at(d, p).contains(v) && moved(c, v) == x;
                lemma_covered_entry(shape, a.len() as int, d, p, v);
                assert(r1.basis_at(d, p).contains(moved(a, v)));
            }
        }
    }
    assert forall|s: Sign, d: int, p: int| r2.cell(d, p) implies same_elements(#[trigger] r2.faces(s, d, p), r3.faces(s, d, p)) by {
        assert(r2.size(d) == r1.size(d) && r1.size(d) == shape.size(d) && r3.size(d) == shape.size(d));
        assert(shape.cell(d, p));
        assert(r1.cell(d, p));
        assert forall|f: usize| r2.faces(s, d, p).contains(f) <==> r3.faces(s, d, p).contains(f) by {
            assert(r2.faces(s, d, p).contains(f) <==> moved_face(r1, b, s, d, p, f));
            assert(r3.faces(s, d, p).contains(f) <==> moved_face(shape, c, s, d, p, f));
            assert(r1.faces(s, d, p).contains(f) <==> moved_face(shape, a, s, d, p, f));
            assert(r1.faces(flip(s), d, p).contains(f) <==> moved_face(shape, a, flip(s), d, p, f));
            assert(flip(flip(s)) == s);
            if shape.faces(s, d, p).contains(f) || shape.faces(flip(s), d, p).contains(f) {
                let t = if shape.faces(s, d, p).contains(f) { s } else { flip(s) };
                assert(shape.cell_sound(d, p));
                if d > 0 {
                    lemma_moved_cover_dir(shape, a, r1, t, d, p, f);
                    lemma_cover_dir(shape, t, d, p, f);
                    let k = cover_dir(shape, d, p, f as int);
                    lemma_covered_entry(shape, a.len() as int, d, p, k);
                    assert(flips(c, k) == (flips(a, k) != flips(b, moved(a, k))));
                } else {
                    assert(shape.faces(t, d, p).len() == 0);
                }
            }
        }
    }
    assert forall|d: int| #[trigger] r2.size(d) == r3.size(d) by {
        assert(r2.size(d) == r1.size(d));
    }
    lemma_same_poset_by_elements(r2, r3);
}

/// Composing a signed permutation with its inverse gives the identity.
pub proof fn law_compose_inverse(a: Seq<DirectionImage>, b: Seq<DirectionImage>)
    requires
        signed_permutation(a),
        inverse_of(b, a),
    ensures
        composed(a, b) == identity_images(a.len()),
{
    assert forall|i: int| 0 <= i < a.len() implies #[trigger] composed(a, b)[i] == identity_images(a.len())[i] by {
        assert(b[a[i].direction as int] == (DirectionImage { direction: i as usize, reflected: a[i].reflected }));
    }
    assert(composed(a, b) =~= identity_images(a.len()));
}


/// Composing the inverse of a signed permutation with it gives the identity.
pub proof fn law_inverse_compose(a: Seq<DirectionImage>, b: Seq<DirectionImage>)
    requires
        signed_permutation(a),
        inverse_of(b, a),
        a.len() <= usize::MAX,
    ensures
        composed(b, a) == identity_images(a.len()),
{
    assert forall|j: int| 0 <= j < a.len() implies #[trigger] composed(b, a)[j] == identity_images(a.len())[j] by {
        lemma_permutation_onto(a, j);
        let i = choose|i: int| 0 <= i < a.len() && #[trigger] a[i].direction == j;
        assert(b[a[i].direction as int] == (DirectionImage { direction: i as usize, reflected: a[i].reflected }));
    }
    assert(composed(b, a) =~= identity_images(a.len()));
}

/// Inverting a signed permutation twice gives it back.
pub proof fn law_inverse_twice(a: Seq<DirectionImage>, b: Seq<DirectionImage>, c: Seq<DirectionImage>)
    requires
        signed_permutation(a),
        inverse_of(b, a),
        inverse_of(c, b),
        a.len() <= usize::MAX,
    ensures
        c == a,
{
    assert forall|i: int| 0 <= i < a.len() implies #[trigger] c[i] == a[i] by {
        let j = a[i].direction as int;
        assert(b[a[i].direction as int] == (DirectionImage { direction: i as usize, reflected: a[i].reflected }));
        assert(c[b[j].direction as int] == (DirectionImage { direction: j as usize, reflected: b[j].reflected }));
    }
    assert(c =~= a);
}


/// Transforming an embedding by a symmetry and then by its inverse gives
/// back the embedding: the same domain and codomain posets and the same cell
/// maps.
pub proof fn law_transform_embedding_undone(
    e: Embedding,
    a: Seq<DirectionImage>,
    b: Seq<DirectionImage>,
    t: Embedding,
    u: Embedding,
)
    requires
        e.dom.framed(),
        e.cod.framed(),
        signed_permutation(a),
        inverse_of(b, a),
        covered(*e.dom, a.len() as int),
        covered(*e.cod, a.len() as int),
        transformed(*e.dom, a, *t.dom),
        transformed(*e.cod, a, *t.cod),
        tv(t.map) == tv(e.map),
        tv(t.inv) == tv(e.inv),
        transformed(*t.dom, b, *u.dom),
        transformed(*t.cod, b, *u.cod),
        tv(u.map) == tv(t.map),
        tv(u.inv) == tv(t.inv),
        u.dom.valid(),
        u.cod.valid(),
    ensures
        u.dom.same_poset(&*e.dom),
        u.cod.same_poset(&*e.cod),
        tv(u.map) == tv(e.map),
        tv(u.inv) == tv(e.inv),
{
    let ed = *e.dom;
    let ec = *e.cod;
    let td = *t.dom;
    let tc = *t.cod;
    let ud = *u.dom;
    let uc = *u.cod;
    law_inverse_restores(ed, a, b, td, ud);
    law_inverse_restores(ec, a, b, tc, uc);
    assert(tv(u.map) == tv(e.map));
}

/// Transforming a closed embedding by a symmetry gives a closed embedding:
/// a cover relation and its image change sign together, since they have the
/// same direction.
pub proof fn law_transform_keeps_closed(e: Embedding, sym: Seq<DirectionImage>, t: Embedding)
    requires
        e.dom.framed(),
        e.cod.framed(),
        e.wf(),
        e.closed(),
        transformed(*e.dom, sym, *t.dom),
        transformed(*e.cod, sym, *t.cod),
        tv(t.map) == tv(e.map),
    ensures
        t.closed(),
{
    crate::embedding::lemma_tv_at(t.map, e.map);
    let x0 = *e.dom;
    let y0 = *e.cod;
    lemma_framed_valid(&x0);
    lemma_framed_valid(&y0);
    assert forall|s: Sign, d: int, i: int| 1 <= d && t.dom.cell(d, i) implies same_elements(
        #[trigger] t.cod.faces(s, d, at(t.map, d, i) as int),
        t.image_faces(s, d, i),
    ) by {
        let x = *e.dom;
        let y = *e.cod;
        assert(t.dom.size(d) == x.size(d));
        assert(x.cell(d, i));
        let j = at(e.map, d, i) as int;
        assert(at(t.map, d, i) == at(e.map, d, i));
        assert(y.cell(d, j));
        assert(x.basis_at(d, i) == y.basis_at(d, j));
        let img = t.image_faces(s, d, i);
        let tf = t.dom.faces(s, d, i);
        assert forall|g: usize| t.cod.faces(s, d, j).contains(g) <==> img.contains(g) by {
            if img.contains(g) {
                let q = choose|q: int| 0 <= q < img.len() && img[q] == g;
                let f = tf[q];
                assert(tf.contains(f));
                assert(moved_face(x, sym, s, d, i, f));
                let s2 = if x.faces(s, d, i).contains(f) && !flips(sym, cover_dir(x, d, i, f as int)) { s } else { flip(s) };
                assert(x.faces(s2, d, i).contains(f));
                let fs = x.faces(s2, d, i);
                let k = choose|k: int| 0 <= k < fs.len() && fs[k] == f;
                crate::embedding::lemma_face_is_cell(x, s2, d, i, k);
                assert(at(t.map, d - 1, f as int) == at(e.map, d - 1, f as int));
                assert(g == at(e.map, d - 1, f as int));
                assert(e.image_faces(s2, d, i)[k] == g);
                assert(e.image_faces(s2, d, i).contains(g));
                assert(same_elements(y.faces(s2, d, j), e.image_faces(s2, d, i)));
                assert(y.faces(s2, d, j).contains(g));
                assert(x.basis_at(d - 1, f as int) == y.basis_at(d - 1, g as int));
                assert(cover_dir(x, d, i, f as int) == cover_dir(y, d, j, g as int));
                assert(moved_face(y, sym, s, d, j, g));
            }
            if t.cod.faces(s, d, j).contains(g) {
                assert(moved_face(y, sym, s, d, j, g));
                let s2 = if y.faces(s, d, j).contains(g) && !flips(sym, cover_dir(y, d, j, g as int)) { s } else { flip(s) };
                assert(y.faces(s2, d, j).contains(g));
                assert(same_elements(y.faces(s2, d, j), e.image_faces(s2, d, i)));
                let ei = e.image_faces(s2, d, i);
                assert(ei.contains(g));
                let k = choose|k: int| 0 <= k < ei.len() && ei[k] == g;
                let fs = x.faces(s2, d, i);
                let f = fs[k];
                crate::embedding::lemma_face_is_cell(x, s2, d, i, k);
                assert(at(e.map, d - 1, f as int) == g);
                assert(x.basis_at(d - 1, f as int) == y.basis_at(d - 1, g as int));
                assert(cover_dir(x, d, i, f as int) == cover_dir(y, d, j, g as int));
                assert(fs.contains(f));
                assert(moved_face(x, sym, s, d, i, f));
                assert(tf.contains(f));
                let q = choose|q: int| 0 <= q < tf.len() && tf[q] == f;
                assert(at(t.map, d - 1, f as int) == at(e.map, d - 1, f as int));
                assert(img[q] == g);
            }
        }
    }
}

} // verus!

//! Box constructions and elementary cylinders.

use std::sync::Arc;

use vstd::prelude::*;

use crate::colimit::{ColimitSpan, colimit_fits, finite_colimit};
use crate::cubularity::{CubularityMode, at_most_one_direction, cubular, is_cubular, not_cubular};
use crate::embedding::{Embedding, at, share};
use crate::connect::connected;
use crate::intset::{self, IntSet, strictly_sorted};
use crate::poset::dim_fits;
use crate::poset::{BoundaryMode, FramedPoset, Sign, boundary, copy_table, entry, rows, shift};

verus! {

/// A value for each input/output sign.
#[derive(Debug, Clone, PartialEq, Eq)]
pub struct SignedPair<T> {
    pub input: T,
    pub output: T,
}

impl<T> SignedPair<T> {
    /// The value for `sign`.
    pub fn get(&self, sign: Sign) -> (r: &T)
        ensures
            r == (match sign {
                Sign::Input => &self.input,
                Sign::Output => &self.output,
            }),
    {
        match sign {
            Sign::Input => &self.input,
            Sign::Output => &self.output,
        }
    }

    pub open spec fn at_sign(&self, sign: Sign) -> T {
        match sign {
            Sign::Input => self.input,
            Sign::Output => self.output,
        }
    }
}

/// `k` is the first position of `direction` in `frame`.
pub open spec fn first_position(frame: Seq<usize>, direction: usize, k: int) -> bool {
    &&& 0 <= k < frame.len()
    &&& frame[k] == direction
    &&& forall|j: int| 0 <= j < k ==> frame[j] != direction
}

/// Position of `direction` in `frame`, if it occurs.
fn frame_position(frame: &IntSet, direction: usize) -> (r: Option<usize>)
    ensures
        r matches Some(k) ==> first_position(frame@, direction, k as int),
        r is None ==> !frame@.contains(direction),
{
    let n = frame.len();
    for k in 0..n
        invariant
            n == frame@.len(),
            forall|j: int| 0 <= j < k ==> frame@[j] != direction,
    {
        if frame[k] == direction {
            return Some(k);
        }
    }
    None
}

/// Signed box faces indexed by position in a sorted frame.
#[derive(Debug, Clone)]
pub struct BoxFaces {
    pub frame: IntSet,
    pub by_direction: Vec<SignedPair<Arc<FramedPoset>>>,
}

impl BoxFaces {
    /// The signed face in an actual frame direction.
    pub fn face(&self, sign: Sign, direction: usize) -> (r: Option<&Arc<FramedPoset>>)
        ensures
            forall|k: int| #[trigger] first_position(self.frame@, direction, k) ==> (if k < self.by_direction@.len() {
                r matches Some(f) && f == self.by_direction@[k].at_sign(sign)
            } else {
                r is None
            }),
            !self.frame@.contains(direction) ==> r is None,
    {
        match frame_position(&self.frame, direction) {
            Some(k) => {
                if k < self.by_direction.len() {
                    Some(self.by_direction[k].get(sign))
                } else {
                    None
                }
            },
            None => None,
        }
    }

    /// Every face satisfies the storage invariant of framed posets.
    pub open spec fn faces_valid(&self) -> bool {
        forall|k: int| 0 <= k < self.by_direction@.len() ==> (#[trigger] self.by_direction@[k]).input.valid()
            && self.by_direction@[k].output.valid()
    }

    /// The frame is a nonempty sorted set with one pair of faces per
    /// direction.
    pub open spec fn shaped(&self) -> bool {
        &&& self.frame@.len() > 0
        &&& strictly_sorted(self.frame@)
        &&& self.frame@.len() == self.by_direction@.len()
    }

    /// The `s` face at position `k` lies in the frame without the direction
    /// at `k`, and, for an input face, has one dimension less than the box.
    pub open spec fn face_fits(&self, k: int, s: Sign) -> bool {
        let face = *self.by_direction@[k].at_sign(s);
        &&& forall|v: usize| #[trigger] face.is_active(v) ==> self.frame@.contains(v)
        &&& !face.is_active(self.frame@[k])
        &&& s == Sign::Input ==> face.dim == self.frame@.len() - 1
    }

    /// The frame is a nonempty sorted set with one pair of faces per
    /// direction; every face lies in the frame without its own direction,
    /// input faces have one dimension less than the box, and every face is
    /// strongly cubular.
    pub fn well_formed(&self) -> (r: bool)
        requires
            self.faces_valid(),
        ensures
            r ==> self.shaped() && forall|k: int, s: Sign| 0 <= k < self.frame@.len() ==> #[trigger] self.face_fits(k, s)
                && cubular(CubularityMode::Strong, self.by_direction@[k].at_sign(s)),
            !r ==> !self.shaped() || exists|k: int, s: Sign| 0 <= k < self.frame@.len() && (!(#[trigger] self.face_fits(k, s))
                || not_cubular(CubularityMode::Strong, self.by_direction@[k].at_sign(s))),
            self.shaped() && (forall|k: int, s: Sign| 0 <= k < self.frame@.len() ==> #[trigger] self.face_fits(k, s)
                && at_most_one_direction(*self.by_direction@[k].at_sign(s))) ==> r,
    {
        if self.frame.len() == 0 || !intset::is_sorted_unique(&self.frame) || self.frame.len() != self.by_direction.len() {
            return false;
        }
        let n = self.frame.len();
        for k in 0..n
            invariant
                n == self.frame@.len(),
                n == self.by_direction@.len(),
                self.faces_valid(),
                strictly_sorted(self.frame@),
                forall|j: int, s: Sign| 0 <= j < k ==> #[trigger] self.face_fits(j, s),
                forall|j: int| 0 <= j < k ==> cubular(CubularityMode::Strong, (#[trigger] self.by_direction@[j]).input)
                    && cubular(CubularityMode::Strong, self.by_direction@[j].output),
        {
            let direction = self.frame[k];
            for s in 0..2usize
                invariant
                    k < n,
                    n == self.frame@.len(),
                    n == self.by_direction@.len(),
                    self.faces_valid(),
                    strictly_sorted(self.frame@),
                    direction == self.frame@[k as int],
                    forall|j: int, s: Sign| 0 <= j < k ==> #[trigger] self.face_fits(j, s),
                    forall|j: int| 0 <= j < k ==> cubular(CubularityMode::Strong, (#[trigger] self.by_direction@[j]).input)
                        && cubular(CubularityMode::Strong, self.by_direction@[j].output),
                    s >= 1 ==> self.face_fits(k as int, Sign::Input) && cubular(CubularityMode::Strong, self.by_direction@[k as int].input),
                    s >= 2 ==> self.face_fits(k as int, Sign::Output) && cubular(CubularityMode::Strong, self.by_direction@[k as int].output),
            {
                let sign = if s == 0 { Sign::Input } else { Sign::Output };
                let face = self.by_direction[k].get(sign);
                proof {
                    assert(self.by_direction@[k as int].input.valid());
                }
                let face_frame = face.active_directions();
                if !intset::is_subset(&face_frame, &self.frame) {
                    proof {
                        let v = choose|v: usize| face_frame@.contains(v) && !self.frame@.contains(v);
                        assert(face.is_active(v));
                        assert(!self.face_fits(k as int, sign));
                    }
                    return false;
                }
                if intset::contains(&face_frame, direction) {
                    proof {
                        assert(!self.face_fits(k as int, sign));
                    }
                    return false;
                }
                let dim = face.dim();
                if s == 0 && !(dim >= 0 && dim as usize == n - 1) {
                    proof {
                        assert(!self.face_fits(k as int, sign));
                    }
                    return false;
                }
                proof {
                    assert forall|v: usize| #[trigger] face.is_active(v) implies self.frame@.contains(v) by {
                        assert(face_frame@.contains(v));
                    }
                    assert(self.face_fits(k as int, sign));
                }
                if !is_cubular(CubularityMode::Strong, face) {
                    proof {
                        assert(!at_most_one_direction(**face));
                        assert(*face == self.by_direction@[k as int].at_sign(sign));
                        assert(not_cubular(CubularityMode::Strong, self.by_direction@[k as int].at_sign(sign)));
                    }
                    return false;
                }
                proof {
                    assert(*face == self.by_direction@[k as int].at_sign(sign));
                }
            }
            proof {
                assert forall|j: int| 0 <= j < k + 1 implies cubular(CubularityMode::Strong, (#[trigger] self.by_direction@[j]).input)
                    && cubular(CubularityMode::Strong, self.by_direction@[j].output) by {}
                assert forall|j: int, s: Sign| 0 <= j < k + 1 implies #[trigger] self.face_fits(j, s) by {
                    if j == k {
                        match s {
                            Sign::Input => {},
                            Sign::Output => {},
                        }
                    }
                }
            }
        }
        proof {
            assert forall|k: int, s: Sign| 0 <= k < self.frame@.len() implies #[trigger] self.face_fits(k, s)
                && cubular(CubularityMode::Strong, self.by_direction@[k].at_sign(s)) by {
                assert(cubular(CubularityMode::Strong, self.by_direction@[k].input));
            }
        }
        true
    }
}

/// An isomorphism identifying the overlap of two box faces.
///
/// `left_direction` and `right_direction` are positions in [`BoxFaces::frame`],
/// not the direction values themselves. The isomorphism has type
///
/// `boundary(right_sign, frame[right_direction], left_face)
///     -> boundary(left_sign, frame[left_direction], right_face)`.
#[derive(Debug)]
pub struct BoxGluing {
    pub left_direction: usize,
    pub left_sign: Sign,
    pub right_direction: usize,
    pub right_sign: Sign,
    pub isomorphism: Embedding,
}

/// A box together with the inclusions of all its signed directional faces.
#[derive(Debug)]
pub struct BoxConstruction {
    pub shape: Arc<FramedPoset>,
    pub frame: IntSet,
    pub face_embeddings: Vec<SignedPair<Embedding>>,
}

impl BoxConstruction {
    /// Inclusion of the requested signed directional face.
    pub fn face(&self, sign: Sign, direction: usize) -> (r: Option<&Embedding>)
        ensures
            forall|k: int| #[trigger] first_position(self.frame@, direction, k) ==> (if k < self.face_embeddings@.len() {
                r matches Some(f) && f == self.face_embeddings@[k].at_sign(sign)
            } else {
                r is None
            }),
            !self.frame@.contains(direction) ==> r is None,
    {
        match frame_position(&self.frame, direction) {
            Some(k) => {
                if k < self.face_embeddings.len() {
                    Some(self.face_embeddings[k].get(sign))
                } else {
                    None
                }
            },
            None => None,
        }
    }
}


/// A gluing with the inclusions of the two overlapping boundaries, directions
/// ordered.
#[derive(Debug)]
struct PreparedGluing {
    left_direction: usize,
    left_sign: Sign,
    right_direction: usize,
    right_sign: Sign,
    left_into_face: Embedding,
    right_into_face: Embedding,
    isomorphism: Embedding,
}

/// Index of the `sign` face of direction position `k` among the objects of
/// the gluing diagram.
pub open spec fn object_index(k: int, sign: Sign) -> int {
    2 * k + match sign {
        Sign::Input => 0int,
        Sign::Output => 1int,
    }
}

fn object_of(k: usize, sign: Sign) -> (i: usize)
    requires
        k < usize::MAX / 2,
    ensures
        i == object_index(k as int, sign),
{
    match sign {
        Sign::Input => 2 * k,
        Sign::Output => 2 * k + 1,
    }
}

/// The faces of `faces`, input before output, direction by direction.
pub open spec fn face_objects(faces: BoxFaces) -> Seq<Arc<FramedPoset>> {
    Seq::new(2 * faces.by_direction@.len(), |i: int| if i % 2 == 0 { faces.by_direction@[i / 2].input } else { faces.by_direction@[i / 2].output })
}

impl PreparedGluing {
    /// Both boundary inclusions land in the named faces, and the
    /// isomorphism runs between their domains.
    spec fn ready(&self, faces: BoxFaces) -> bool {
        &&& self.left_direction < self.right_direction
        &&& self.right_direction < faces.by_direction@.len()
        &&& self.left_into_face.valid()
        &&& self.left_into_face.cod == faces.by_direction@[self.left_direction as int].at_sign(self.left_sign)
        &&& self.right_into_face.valid()
        &&& self.right_into_face.cod == faces.by_direction@[self.right_direction as int].at_sign(self.right_sign)
        &&& self.isomorphism.valid()
        &&& self.isomorphism.cod.same_poset(&*self.right_into_face.dom)
    }
}

/// A copy of an embedding.
fn copy_embedding(e: &Embedding) -> (r: Embedding)
    ensures
        r.dom == e.dom,
        r.cod == e.cod,
        r.map@.len() == e.map@.len(),
        forall|d: int| 0 <= d < e.map@.len() ==> #[trigger] r.map@[d]@ == e.map@[d]@,
{
    let map = crate::embedding::copy_index_table(&e.map);
    let inv = crate::embedding::copy_index_table(&e.inv);
    Embedding::make(share(&e.dom), share(&e.cod), map, inv)
}

/// The `sign` boundary in the frame direction at position `direction` of the
/// face at position `face` with sign `face_sign`.
fn face_boundary(faces: &BoxFaces, face: usize, face_sign: Sign, direction: usize, sign: Sign) -> (r: (Arc<FramedPoset>, Embedding))
    requires
        faces.faces_valid(),
        face < faces.by_direction@.len(),
        direction < faces.frame@.len(),
    ensures
        r.1.valid(),
        r.1.dom == r.0,
        r.1.cod == faces.by_direction@[face as int].at_sign(face_sign),
{
    let shape = faces.by_direction[face].get(face_sign);
    proof {
        assert(faces.by_direction@[face as int].input.valid());
    }
    boundary(BoundaryMode::Plain, sign, faces.frame[direction], shape)
}

/// The gluing joins faces in two different positions of a frame of `n`
/// directions.
pub open spec fn directions_apart(g: BoxGluing, n: int) -> bool {
    &&& g.left_direction != g.right_direction
    &&& g.left_direction < n
    &&& g.right_direction < n
}

/// `g` joins the `ls` face at position `l` with the `rs` face at position
/// `r`, given in either order.
pub open spec fn gluing_joins(g: BoxGluing, l: int, r: int, ls: Sign, rs: Sign) -> bool {
    ||| (g.left_direction == l && g.right_direction == r && g.left_sign == ls && g.right_sign == rs)
    ||| (g.left_direction == r && g.right_direction == l && g.left_sign == rs && g.right_sign == ls)
}

/// Number of the first `m` gluings that join the `ls` face at position `l`
/// with the `rs` face at position `r`.
pub open spec fn joining_count(gluings: Seq<BoxGluing>, m: int, l: int, r: int, ls: Sign, rs: Sign) -> int
    decreases m,
{
    if m <= 0 {
        0
    } else {
        joining_count(gluings, m - 1, l, r, ls, rs) + if gluing_joins(gluings[m - 1], l, r, ls, rs) { 1int } else { 0int }
    }
}

/// Put each gluing in direction order, inverting its isomorphism when the
/// directions come reversed, and attach the two boundary inclusions. `None`
/// when a gluing names a direction outside the frame or has an isomorphism
/// that is not a valid embedding.
fn prepare_gluings(faces: &BoxFaces, gluings: &[BoxGluing]) -> (r: Option<Vec<PreparedGluing>>)
    requires
        faces.faces_valid(),
        faces.frame@.len() == faces.by_direction@.len(),
    ensures
        r matches Some(p) ==> p@.len() == gluings@.len() && forall|k: int| 0 <= k < p@.len() ==> (#[trigger] p@[k]).ready(*faces),
        r is Some ==> forall|k: int| 0 <= k < gluings@.len() ==> directions_apart(#[trigger] gluings@[k], faces.frame@.len() as int),
        r matches Some(p) ==> forall|k: int, l: int, rr: int, ls: Sign, rs: Sign| 0 <= k < p@.len() && l < rr
            ==> (#[trigger] joins(p@[k], l, rr, ls, rs) <==> gluing_joins(gluings@[k], l, rr, ls, rs)),
{
    let n = faces.frame.len();
    let mut prepared: Vec<PreparedGluing> = Vec::new();
    for k in 0..gluings.len()
        invariant
            n == faces.frame@.len(),
            n == faces.by_direction@.len(),
            faces.faces_valid(),
            prepared@.len() == k,
            forall|j: int| 0 <= j < k ==> (#[trigger] prepared@[j]).ready(*faces),
            forall|j: int| 0 <= j < k ==> directions_apart(#[trigger] gluings@[j], n as int),
            forall|j: int, l: int, rr: int, ls: Sign, rs: Sign| 0 <= j < k && l < rr
                ==> (#[trigger] joins(prepared@[j], l, rr, ls, rs) <==> gluing_joins(gluings@[j], l, rr, ls, rs)),
    {
        let gluing = &gluings[k];
        let swapped = gluing.left_direction > gluing.right_direction;
        let (left_direction, left_sign, right_direction, right_sign) = if swapped {
            (gluing.right_direction, gluing.right_sign, gluing.left_direction, gluing.left_sign)
        } else {
            (gluing.left_direction, gluing.left_sign, gluing.right_direction, gluing.right_sign)
        };
        if left_direction >= right_direction || right_direction >= n {
            return None;
        }
        let isomorphism = if swapped { gluing.isomorphism.inverse_isomorphism() } else { copy_embedding(&gluing.isomorphism) };
        let (_, left_into_face) = face_boundary(faces, left_direction, left_sign, right_direction, right_sign);
        let (_, right_into_face) = face_boundary(faces, right_direction, right_sign, left_direction, left_sign);
        if !embedding_checks(&isomorphism) || !isomorphism.is_isomorphism() || !FramedPoset::equal(&isomorphism.dom, &left_into_face.dom)
            || !FramedPoset::equal(&isomorphism.cod, &right_into_face.dom) {
            return None;
        }
        prepared.push(PreparedGluing { left_direction, left_sign, right_direction, right_sign, left_into_face, right_into_face, isomorphism });
        proof {
            assert(directions_apart(gluings@[k as int], n as int));
            assert forall|j: int, l: int, rr: int, ls: Sign, rs: Sign| 0 <= j < k + 1 && l < rr
                implies (#[trigger] joins(prepared@[j], l, rr, ls, rs) <==> gluing_joins(gluings@[j], l, rr, ls, rs)) by {
                if j == k {
                    assert(prepared@[j].left_direction == left_direction);
                }
            }
        }
    }
    Some(prepared)
}

/// Whether an embedding is an embedding between oriented framed posets:
/// both posets are framed and the tables describe an embedding.
fn embedding_checks(e: &Embedding) -> (r: bool)
    ensures
        r ==> e.valid(),
        r == (e.dom.framed() && e.cod.framed() && e.dom.levels() <= e.cod.levels() && e.wf()),
{
    if !e.dom.well_formed() || !e.cod.well_formed() {
        return false;
    }
    proof {
        crate::ofp::lemma_framed_valid(&*e.dom);
        crate::ofp::lemma_framed_valid(&*e.cod);
    }
    if e.dom.basis.len() > e.cod.basis.len() {
        return false;
    }
    e.well_formed()
}


/// `basis`, `faces_in` and `faces_out` hold the tables of `tip`, empty levels
/// up to level `n`, and one top cell at level `n`.
spec fn extends(tip: FramedPoset, n: int, basis: Vec<Vec<IntSet>>, faces_in: Vec<Vec<IntSet>>, faces_out: Vec<Vec<IntSet>>) -> bool {
    &&& basis@.len() == n + 1
    &&& faces_in@.len() == n + 1
    &&& faces_out@.len() == n + 1
    &&& forall|d: int| 0 <= d < n ==> #[trigger] basis@[d]@.len() == tip.size(d) && faces_in@[d]@.len() == tip.size(d)
        && faces_out@[d]@.len() == tip.size(d)
    &&& forall|d: int, p: int| 0 <= d < n && 0 <= p < tip.size(d) ==> #[trigger] entry(basis, d, p) == tip.basis_at(d, p)
        && entry(faces_in, d, p) == tip.faces(Sign::Input, d, p) && entry(faces_out, d, p) == tip.faces(Sign::Output, d, p)
    &&& basis@[n]@.len() == 1
    &&& faces_in@[n]@.len() == 1
    &&& faces_out@[n]@.len() == 1
    &&& strictly_sorted(entry(basis, n, 0))
    &&& strictly_sorted(entry(faces_in, n, 0))
    &&& strictly_sorted(entry(faces_out, n, 0))
    &&& forall|i: int| 0 <= i < entry(faces_in, n, 0).len() ==> #[trigger] entry(faces_in, n, 0)[i] < tip.size(n - 1)
    &&& forall|i: int| 0 <= i < entry(faces_out, n, 0).len() ==> #[trigger] entry(faces_out, n, 0)[i] < tip.size(n - 1)
}

proof fn lemma_extends_defining(tip: FramedPoset, n: int, basis: Vec<Vec<IntSet>>, faces_in: Vec<Vec<IntSet>>, faces_out: Vec<Vec<IntSet>>)
    requires
        tip.valid(),
        1 <= n,
        tip.levels() <= n,
        extends(tip, n, basis, faces_in, faces_out),
    ensures
        crate::poset::defining_tables(basis, faces_in, faces_out),
        forall|d: int| 0 <= d < n ==> #[trigger] rows(basis, d) == tip.size(d),
{
    assert forall|d: int| 0 <= d < n implies #[trigger] rows(basis, d) == tip.size(d) by {
        assert(basis@[d]@.len() == tip.size(d));
    }
    assert forall|d: int| 0 <= d < basis@.len() implies #[trigger] faces_in@[d]@.len() == basis@[d]@.len() by {
        if d < n {
            assert(basis@[d]@.len() == tip.size(d));
        }
    }
    assert forall|d: int| 0 <= d < basis@.len() implies #[trigger] faces_out@[d]@.len() == basis@[d]@.len() by {
        if d < n {
            assert(basis@[d]@.len() == tip.size(d));
        }
    }
    assert forall|d: int, p: int| 0 <= d < basis@.len() && 0 <= p < basis@[d]@.len() implies strictly_sorted(#[trigger] entry(basis, d, p)) by {
        if d < n {
            assert(basis@[d]@.len() == tip.size(d));
            assert(entry(basis, d, p) == tip.basis_at(d, p));
        }
    }
    assert forall|d: int, p: int| 0 <= d < faces_in@.len() && 0 <= p < faces_in@[d]@.len() implies strictly_sorted(#[trigger] entry(faces_in, d, p)) by {
        if d < n {
            assert(basis@[d]@.len() == tip.size(d));
            assert(entry(basis, d, p) == tip.basis_at(d, p));
            assert(entry(faces_in, d, p) == tip.faces(Sign::Input, d, p));
            assert(tip.faces_in@[d]@.len() == tip.basis@[d]@.len());
            assert(strictly_sorted(entry(tip.faces_in, d, p)));
        }
    }
    assert forall|d: int, p: int| 0 <= d < faces_out@.len() && 0 <= p < faces_out@[d]@.len() implies strictly_sorted(#[trigger] entry(faces_out, d, p)) by {
        if d < n {
            assert(basis@[d]@.len() == tip.size(d));
            assert(entry(basis, d, p) == tip.basis_at(d, p));
            assert(entry(faces_out, d, p) == tip.faces(Sign::Output, d, p));
            assert(tip.faces_out@[d]@.len() == tip.basis@[d]@.len());
            assert(strictly_sorted(entry(tip.faces_out, d, p)));
        }
    }
    assert forall|d: int, p: int, i: int| 0 <= d < faces_in@.len() && 0 <= p < faces_in@[d]@.len() && 0 <= i < entry(faces_in, d, p).len()
        implies #[trigger] entry(faces_in, d, p)[i] < rows(basis, d - 1) by {
        if d < n {
            assert(basis@[d]@.len() == tip.size(d));
            assert(entry(basis, d, p) == tip.basis_at(d, p));
            assert(entry(faces_in, d, p) == tip.faces(Sign::Input, d, p));
            assert(entry(tip.faces_in, d, p)[i] < rows(tip.basis, d - 1));
            if d >= 1 {
                assert(basis@[d - 1]@.len() == tip.size(d - 1));
            }
        } else {
            assert(basis@[d - 1]@.len() == tip.size(d - 1));
        }
    }
    assert forall|d: int, p: int, i: int| 0 <= d < faces_out@.len() && 0 <= p < faces_out@[d]@.len() && 0 <= i < entry(faces_out, d, p).len()
        implies #[trigger] entry(faces_out, d, p)[i] < rows(basis, d - 1) by {
        if d < n {
            assert(basis@[d]@.len() == tip.size(d));
            assert(entry(basis, d, p) == tip.basis_at(d, p));
            assert(entry(faces_out, d, p) == tip.faces(Sign::Output, d, p));
            assert(entry(tip.faces_out, d, p)[i] < rows(tip.basis, d - 1));
            if d >= 1 {
                assert(basis@[d - 1]@.len() == tip.size(d - 1));
            }
        } else {
            assert(basis@[d - 1]@.len() == tip.size(d - 1));
        }
    }
}

/// The tables of `tip`, with empty levels added up to level `n`.
fn widened_table(t: &Vec<Vec<IntSet>>, n: usize) -> (r: Vec<Vec<IntSet>>)
    requires
        t@.len() <= n,
    ensures
        r@.len() == n,
        forall|d: int| 0 <= d < n ==> #[trigger] r@[d]@.len() == rows(*t, d),
        forall|d: int, p: int| 0 <= d < t@.len() && 0 <= p < t@[d]@.len() ==> #[trigger] entry(r, d, p) == entry(*t, d, p),
{
    let mut r = copy_table(t);
    while r.len() < n
        invariant
            t@.len() <= r@.len() <= n,
            forall|d: int| 0 <= d < r@.len() ==> #[trigger] r@[d]@.len() == rows(*t, d),
            forall|d: int, p: int| 0 <= d < t@.len() && 0 <= p < t@[d]@.len() ==> #[trigger] entry(r, d, p) == entry(*t, d, p),
        decreases n - r@.len(),
    {
        let ghost before = r;
        r.push(Vec::new());
        proof {
            assert forall|d: int, p: int| 0 <= d < t@.len() && 0 <= p < t@[d]@.len() implies #[trigger] entry(r, d, p) == entry(*t, d, p) by {
                assert(r@[d] == before@[d]);
                assert(entry(r, d, p) == entry(before, d, p));
            }
        }
    }
    r
}

/// Some prepared gluing joins the `ls` face at position `l` with the `rs`
/// face at position `r`.
spec fn has_gluing(prepared: Seq<PreparedGluing>, l: int, r: int, ls: Sign, rs: Sign) -> bool {
    exists|k: int| 0 <= k < prepared.len() && #[trigger] prepared[k].left_direction == l && prepared[k].right_direction == r
        && prepared[k].left_sign == ls && prepared[k].right_sign == rs
}

/// `g` joins the `ls` face at position `l` with the `rs` face at position `r`.
spec fn joins(g: PreparedGluing, l: int, r: int, ls: Sign, rs: Sign) -> bool {
    g.left_direction == l && g.right_direction == r && g.left_sign == ls && g.right_sign == rs
}

/// Number of the first `m` prepared gluings that join the `ls` face at
/// position `l` with the `rs` face at position `r`.
spec fn gluing_count(prepared: Seq<PreparedGluing>, m: int, l: int, r: int, ls: Sign, rs: Sign) -> int
    decreases m,
{
    if m <= 0 {
        0
    } else {
        gluing_count(prepared, m - 1, l, r, ls, rs) + if joins(prepared[m - 1], l, r, ls, rs) { 1int } else { 0int }
    }
}

/// Number of prepared gluings joining the `ls` face at position `l` with the
/// `rs` face at position `r`.
fn count_gluings(prepared: &Vec<PreparedGluing>, l: usize, r: usize, ls: Sign, rs: Sign) -> (c: usize)
    ensures
        c == gluing_count(prepared@, prepared@.len() as int, l as int, r as int, ls, rs),
        c > 0 ==> has_gluing(prepared@, l as int, r as int, ls, rs),
{
    let mut c: usize = 0;
    for k in 0..prepared.len()
        invariant
            c <= k,
            c == gluing_count(prepared@, k as int, l as int, r as int, ls, rs),
            c > 0 ==> has_gluing(prepared@, l as int, r as int, ls, rs),
    {
        let g = &prepared[k];
        if g.left_direction == l && g.right_direction == r && g.left_sign == ls && g.right_sign == rs {
            c = c + 1;
        }
    }
    c
}

/// The prepared gluings join each pair of signed faces as often as the
/// gluings they were prepared from.
proof fn lemma_counts_agree(prepared: Seq<PreparedGluing>, gluings: Seq<BoxGluing>, m: int, l: int, rr: int, ls: Sign, rs: Sign)
    requires
        0 <= m <= prepared.len(),
        prepared.len() == gluings.len(),
        l < rr,
        forall|k: int| 0 <= k < prepared.len() ==> (joins(#[trigger] prepared[k], l, rr, ls, rs) <==> gluing_joins(gluings[k], l, rr, ls, rs)),
    ensures
        gluing_count(prepared, m, l, rr, ls, rs) == joining_count(gluings, m, l, rr, ls, rs),
    decreases m,
{
    if m > 0 {
        lemma_counts_agree(prepared, gluings, m - 1, l, rr, ls, rs);
        assert(joins(prepared[m - 1], l, rr, ls, rs) <==> gluing_joins(gluings[m - 1], l, rr, ls, rs));
    }
}

/// Every pair of signed faces in two frame positions, the first before the
/// second, is joined by exactly one prepared gluing.
fn gluings_cover(n: usize, prepared: &Vec<PreparedGluing>) -> (r: bool)
    ensures
        r == forall|l: int, rr: int, ls: Sign, rs: Sign| 0 <= l < rr < n ==> #[trigger] gluing_count(prepared@, prepared@.len() as int, l, rr, ls, rs) == 1,
        r ==> forall|l: int, rr: int, ls: Sign, rs: Sign| 0 <= l < rr < n ==> #[trigger] has_gluing(prepared@, l, rr, ls, rs),
{
    let ghost len = prepared@.len() as int;
    for l in 0..n
        invariant
            len == prepared@.len(),
            forall|a: int, b: int, ls: Sign, rs: Sign| 0 <= a < l && a < b < n ==> #[trigger] gluing_count(prepared@, len, a, b, ls, rs) == 1,
            forall|a: int, b: int, ls: Sign, rs: Sign| 0 <= a < l && a < b < n ==> #[trigger] has_gluing(prepared@, a, b, ls, rs),
    {
        for rr in l + 1..n
            invariant
                l < n,
                len == prepared@.len(),
                forall|a: int, b: int, ls: Sign, rs: Sign| 0 <= a < l && a < b < n ==> #[trigger] gluing_count(prepared@, len, a, b, ls, rs) == 1,
                forall|a: int, b: int, ls: Sign, rs: Sign| 0 <= a < l && a < b < n ==> #[trigger] has_gluing(prepared@, a, b, ls, rs),
                forall|b: int, ls: Sign, rs: Sign| l < b < rr ==> #[trigger] gluing_count(prepared@, len, l as int, b, ls, rs) == 1,
                forall|b: int, ls: Sign, rs: Sign| l < b < rr ==> #[trigger] has_gluing(prepared@, l as int, b, ls, rs),
        {
            let i = Sign::Input;
            let o = Sign::Output;
            if count_gluings(prepared, l, rr, i, i) != 1 || count_gluings(prepared, l, rr, i, o) != 1
                || count_gluings(prepared, l, rr, o, i) != 1 || count_gluings(prepared, l, rr, o, o) != 1 {
                return false;
            }
            proof {
                assert forall|ls: Sign, rs: Sign| #[trigger] gluing_count(prepared@, len, l as int, rr as int, ls, rs) == 1
                    && has_gluing(prepared@, l as int, rr as int, ls, rs) by {
                    match ls {
                        Sign::Input => match rs {
                            Sign::Input => {},
                            Sign::Output => {},
                        },
                        Sign::Output => match rs {
                            Sign::Input => {},
                            Sign::Output => {},
                        },
                    }
                }
            }
        }
    }
    true
}

/// The injections of a colimit of the faces of `faces`, in the order of
/// [`face_objects`], into `tip`.
spec fn injections_into(faces: BoxFaces, tip: Arc<FramedPoset>, injections: Seq<Embedding>) -> bool {
    &&& injections.len() == 2 * faces.by_direction@.len()
    &&& forall|o: int| 0 <= o < injections.len() ==> (#[trigger] injections[o]).dom == face_objects(faces)[o] && injections[o].cod == tip
    &&& forall|o: int| 0 <= o < injections.len() ==> (#[trigger] injections[o]).map@.len() == face_objects(faces)[o].levels()
    &&& forall|o: int, d: int| 0 <= o < injections.len() && 0 <= d < face_objects(faces)[o].levels()
        ==> (#[trigger] injections[o].map@[d])@.len() == face_objects(faces)[o].size(d)
    &&& forall|o: int, d: int, i: int| 0 <= o < injections.len() && 0 <= d < face_objects(faces)[o].levels() && 0 <= i < face_objects(faces)[o].size(d)
        ==> #[trigger] at(injections[o].map, d, i) < tip.size(d)
}

/// The images in the glued boundary of the top cells of the `sign` faces:
/// for each frame position, the cells at level `n - 1` of its `sign` face
/// whose basis is the frame without that position's direction.
fn top_faces(faces: &BoxFaces, tip: &Arc<FramedPoset>, injections: &Vec<Embedding>, sign: Sign) -> (r: IntSet)
    requires
        faces.frame@.len() == faces.by_direction@.len(),
        faces.frame@.len() > 0,
        faces.frame@.len() < usize::MAX / 2,
        injections_into(*faces, *tip, injections@),
    ensures
        strictly_sorted(r@),
        forall|i: int| 0 <= i < r@.len() ==> #[trigger] r@[i] < tip.size(faces.frame@.len() - 1),
{
    let n = faces.frame.len();
    let dim = n - 1;
    let mut items: Vec<usize> = Vec::new();
    for k in 0..n
        invariant
            n == faces.frame@.len(),
            n == faces.by_direction@.len(),
            n < usize::MAX / 2,
            dim == n - 1,
            injections_into(*faces, *tip, injections@),
            forall|i: int| 0 <= i < items@.len() ==> #[trigger] items@[i] < tip.size(dim as int),
    {
        let direction = faces.frame[k];
        let mut face_basis: Vec<usize> = Vec::new();
        for j in 0..n
            invariant
                n == faces.frame@.len(),
        {
            if faces.frame[j] != direction {
                face_basis.push(faces.frame[j]);
            }
        }
        let face = faces.by_direction[k].get(sign);
        let o = object_of(k, sign);
        proof {
            assert(face_objects(*faces)[o as int] == **face);
        }
        if dim < face.basis.len() {
            let m = face.basis[dim].len();
            proof {
                assert(injections@[o as int].map@[dim as int]@.len() == face_objects(*faces)[o as int].size(dim as int));
            }
            for pos in 0..m
                invariant
                    n == faces.frame@.len(),
                    dim == n - 1,
                    dim < face.basis@.len(),
                    m == face.size(dim as int),
                    o < injections@.len(),
                    face_objects(*faces)[o as int] == **face,
                    injections_into(*faces, *tip, injections@),
                    injections@[o as int].map@[dim as int]@.len() == m,
                    forall|i: int| 0 <= i < items@.len() ==> #[trigger] items@[i] < tip.size(dim as int),
            {
                if crate::poset::sets_equal(face.basis[dim][pos].as_slice(), face_basis.as_slice()) {
                    let v = injections[o].map[dim][pos];
                    proof {
                        assert(at(injections@[o as int].map, dim as int, pos as int) < tip.size(dim as int));
                    }
                    items.push(v);
                }
            }
        }
    }
    let r = intset::collect_sorted(items);
    proof {
        assert forall|i: int| 0 <= i < r@.len() implies #[trigger] r@[i] < tip.size(faces.frame@.len() - 1) by {
            assert(r@.contains(r@[i]));
            assert(items@.contains(r@[i]));
        }
    }
    r
}

/// A copy of a set of integers.
fn copy_set(s: &IntSet) -> (r: IntSet)
    ensures
        r@ == s@,
{
    let mut r: IntSet = Vec::new();
    for k in 0..s.len()
        invariant
            r@ == s@.take(k as int),
    {
        r.push(s[k]);
        proof {
            assert(s@.take(k + 1) == s@.take(k as int).push(s@[k as int]));
        }
    }
    proof {
        assert(s@.take(s@.len() as int) == s@);
    }
    r
}

/// `e` includes `face` into `shape` as a closed sub-poset.
pub open spec fn face_included(face: Arc<FramedPoset>, e: Embedding, shape: Arc<FramedPoset>) -> bool {
    &&& e.valid()
    &&& e.closed()
    &&& e.dom == face
    &&& e.cod == shape
}

/// `c` is a box over `faces`: a framed poset with `n + 1` levels for a frame
/// of `n` directions, one top cell whose basis is the frame, and a closed
/// inclusion of every signed face.
pub open spec fn box_over(faces: BoxFaces, c: BoxConstruction) -> bool {
    let n = faces.frame@.len() as int;
    &&& c.frame@ == faces.frame@
    &&& c.shape.framed()
    &&& c.shape.levels() == n + 1
    &&& c.shape.size(n) == 1
    &&& c.shape.basis_at(n, 0) == faces.frame@
    &&& c.face_embeddings@.len() == n
    &&& forall|k: int| 0 <= k < n ==> face_included(faces.by_direction@[k].input, (#[trigger] c.face_embeddings@[k]).input, c.shape)
        && face_included(faces.by_direction@[k].output, c.face_embeddings@[k].output, c.shape)
}

/// The inclusion of the `sign` face at position `k` into `shape`, through
/// its injection into the glued boundary `tip`; `None` when it is not a
/// closed embedding.
fn include_face(faces: &BoxFaces, k: usize, sign: Sign, tip: &Arc<FramedPoset>, injections: &Vec<Embedding>, shape: &Arc<FramedPoset>)
    -> (r: Option<Embedding>)
    requires
        faces.frame@.len() == faces.by_direction@.len(),
        k < faces.frame@.len(),
        faces.frame@.len() < usize::MAX / 2,
        injections_into(*faces, *tip, injections@),
        tip.levels() <= faces.frame@.len(),
        forall|d: int| 0 <= d < faces.frame@.len() ==> #[trigger] shape.size(d) == tip.size(d),
    ensures
        r matches Some(e) ==> face_included(faces.by_direction@[k as int].at_sign(sign), e, *shape),
        r is Some ==> shape.framed(),
{
    let face = faces.by_direction[k].get(sign);
    let o = object_of(k, sign);
    proof {
        assert(face_objects(*faces)[o as int] == **face);
    }
    let map = crate::embedding::copy_index_table(&injections[o].map);
    proof {
        assert forall|d: int, i: int| 0 <= d < map@.len() && 0 <= i < map@[d]@.len() implies #[trigger] at(map, d, i) < shape.size(d) by {
            assert(map@[d]@ == injections@[o as int].map@[d]@);
            assert(at(injections@[o as int].map, d, i) < tip.size(d));
        }
    }
    let e = Embedding::from_map(share(face), share(shape), map);
    if !embedding_checks(&e) {
        return None;
    }
    if !e.is_closed() {
        return None;
    }
    Some(e)
}

/// Close the glued boundary `tip` with one top cell spanning the frame, and
/// include each signed face through its injection. `None` when the boundary
/// reaches the top level or a face does not come out as a closed embedding.
fn attach_top(faces: &BoxFaces, tip: Arc<FramedPoset>, injections: Vec<Embedding>) -> (r: Option<BoxConstruction>)
    requires
        faces.frame@.len() == faces.by_direction@.len(),
        faces.frame@.len() > 0,
        faces.frame@.len() < usize::MAX / 2,
        strictly_sorted(faces.frame@),
        tip.valid(),
        injections_into(*faces, tip, injections@),
    ensures
        r matches Some(c) ==> box_over(*faces, c),
{
    let n = faces.frame.len();
    if tip.basis.len() > n {
        return None;
    }
    let top_in = top_faces(faces, &tip, &injections, Sign::Input);
    let top_out = top_faces(faces, &tip, &injections, Sign::Output);
    let mut basis = widened_table(&tip.basis, n);
    let mut faces_in = widened_table(&tip.faces_in, n);
    let mut faces_out = widened_table(&tip.faces_out, n);
    let ghost (b0, i0, o0) = (basis, faces_in, faces_out);
    basis.push(vec![copy_set(&faces.frame)]);
    faces_in.push(vec![top_in]);
    faces_out.push(vec![top_out]);
    proof {
        let t = *tip;
        assert forall|d: int| 0 <= d < n implies #[trigger] basis@[d]@.len() == t.size(d) && faces_in@[d]@.len() == t.size(d)
            && faces_out@[d]@.len() == t.size(d) by {
            assert(basis@[d] == b0@[d]);
            assert(faces_in@[d] == i0@[d]);
            assert(faces_out@[d] == o0@[d]);
            assert(rows(t.faces_in, d) == rows(t.basis, d));
            assert(rows(t.faces_out, d) == rows(t.basis, d));
        }
        assert forall|d: int, p: int| 0 <= d < n && 0 <= p < t.size(d) implies #[trigger] entry(basis, d, p) == t.basis_at(d, p)
            && entry(faces_in, d, p) == t.faces(Sign::Input, d, p) && entry(faces_out, d, p) == t.faces(Sign::Output, d, p) by {
            assert(basis@[d] == b0@[d]);
            assert(faces_in@[d] == i0@[d]);
            assert(faces_out@[d] == o0@[d]);
            assert(entry(b0, d, p) == entry(t.basis, d, p));
            assert(entry(i0, d, p) == entry(t.faces_in, d, p));
            assert(entry(o0, d, p) == entry(t.faces_out, d, p));
        }
        assert(entry(basis, n as int, 0) == faces.frame@);
        assert(extends(t, n as int, basis, faces_in, faces_out));
        lemma_extends_defining(t, n as int, basis, faces_in, faces_out);
    }
    let shape = Arc::new(FramedPoset::from_faces(basis, faces_in, faces_out));
    proof {
        assert forall|d: int| 0 <= d < n implies #[trigger] shape.size(d) == tip.size(d) by {
            assert(rows(basis, d) == tip.size(d));
        }
    }
    let mut face_embeddings: Vec<SignedPair<Embedding>> = Vec::new();
    for k in 0..n
        invariant
            n == faces.frame@.len(),
            n == faces.by_direction@.len(),
            n < usize::MAX / 2,
            tip.levels() <= n,
            injections_into(*faces, tip, injections@),
            forall|d: int| 0 <= d < n ==> #[trigger] shape.size(d) == tip.size(d),
            face_embeddings@.len() == k,
            k > 0 ==> shape.framed(),
            forall|j: int| 0 <= j < k ==> face_included(faces.by_direction@[j].input, (#[trigger] face_embeddings@[j]).input, shape)
                && face_included(faces.by_direction@[j].output, face_embeddings@[j].output, shape),
    {
        let input = match include_face(faces, k, Sign::Input, &tip, &injections, &shape) {
            Some(e) => e,
            None => return None,
        };
        let output = match include_face(faces, k, Sign::Output, &tip, &injections, &shape) {
            Some(e) => e,
            None => return None,
        };
        face_embeddings.push(SignedPair { input, output });
    }
    let c = BoxConstruction { shape, frame: copy_set(&faces.frame), face_embeddings };
    proof {
        assert(c.shape.basis_at(n as int, 0) == faces.frame@);
    }
    Some(c)
}

/// Glue the signed faces along the prepared gluings into the boundary of
/// the box, then attach the top cell.
fn construct_prepared_box(faces: &BoxFaces, prepared: Vec<PreparedGluing>) -> (r: Option<BoxConstruction>)
    requires
        faces.faces_valid(),
        faces.frame@.len() == faces.by_direction@.len(),
        faces.frame@.len() > 0,
        faces.frame@.len() < usize::MAX / 2,
        strictly_sorted(faces.frame@),
        forall|k: int| 0 <= k < prepared@.len() ==> (#[trigger] prepared@[k]).ready(*faces),
    ensures
        r matches Some(c) ==> box_over(*faces, c),
{
    let n = faces.frame.len();
    let mut objects: Vec<Arc<FramedPoset>> = Vec::new();
    for k in 0..n
        invariant
            n == faces.by_direction@.len(),
            objects@.len() == 2 * k,
            forall|i: int| 0 <= i < 2 * k ==> objects@[i] == #[trigger] face_objects(*faces)[i],
    {
        objects.push(share(&faces.by_direction[k].input));
        objects.push(share(&faces.by_direction[k].output));
        proof {
            assert(face_objects(*faces)[2 * k as int] == faces.by_direction@[k as int].input);
            assert(face_objects(*faces)[2 * k + 1] == faces.by_direction@[k as int].output);
        }
    }
    proof {
        assert(objects@ =~= face_objects(*faces));
    }
    let g_count = prepared.len();
    let mut legs: Vec<(Embedding, Embedding)> = Vec::new();
    for k in 0..g_count
        invariant
            g_count == prepared@.len(),
            legs@.len() == k,
            forall|j: int| 0 <= j < prepared@.len() ==> (#[trigger] prepared@[j]).ready(*faces),
    {
        let g = &prepared[k];
        proof {
            assert(prepared@[k as int].ready(*faces));
        }
        legs.push((copy_embedding(&g.left_into_face), Embedding::compose(&g.isomorphism, &g.right_into_face)));
    }
    let mut spans: Vec<ColimitSpan> = Vec::new();
    for k in 0..g_count
        invariant
            g_count == prepared@.len(),
            legs@.len() == g_count,
            n == faces.by_direction@.len(),
            n < usize::MAX / 2,
            forall|j: int| 0 <= j < prepared@.len() ==> (#[trigger] prepared@[j]).ready(*faces),
    {
        let g = &prepared[k];
        proof {
            assert(prepared@[k as int].ready(*faces));
        }
        spans.push(ColimitSpan {
            left: object_of(g.left_direction, g.left_sign),
            right: object_of(g.right_direction, g.right_sign),
            into_left: &legs[k].0,
            into_right: &legs[k].1,
        });
    }
    if !colimit_fits(objects.as_slice()) {
        return None;
    }
    proof {
        assert forall|o: int| 0 <= o < objects@.len() implies (#[trigger] objects@[o]).valid() by {
            let k = o / 2;
            assert(faces.by_direction@[k].input.valid());
            assert(objects@[o] == face_objects(*faces)[o]);
        }
    }
    let colimit = finite_colimit(objects.as_slice(), spans.as_slice());
    proof {
        assert(injections_into(*faces, colimit.tip, colimit.injections@));
    }
    attach_top(faces, colimit.tip, colimit.injections)
}

/// Construct a box from signed directional faces and overlap isomorphisms.
///
/// There must be one gluing for every pair of signed faces in unequal frame
/// directions. Gluings may be supplied in either direction. `None` when the
/// faces are not well formed ([`BoxFaces::well_formed`]), when a gluing names
/// a position outside the frame, its isomorphism is not an isomorphism
/// between the two overlapping boundaries, or the gluings do not join every
/// pair of signed faces exactly once, and when a face does not come out as a
/// closed sub-poset of the box.
pub fn box_construction(faces: &BoxFaces, gluings: &[BoxGluing]) -> (r: Option<BoxConstruction>)
    requires
        faces.faces_valid(),
    ensures
        r matches Some(c) ==> box_over(*faces, c),
        !faces.shaped() ==> r is None,
        (exists|k: int, s: Sign| 0 <= k < faces.frame@.len() && !#[trigger] faces.face_fits(k, s)) ==> r is None,
        (exists|k: int| 0 <= k < gluings@.len() && !directions_apart(#[trigger] gluings@[k], faces.frame@.len() as int)) ==> r is None,
        (exists|l: int, rr: int, ls: Sign, rs: Sign| 0 <= l < rr < faces.frame@.len()
            && #[trigger] joining_count(gluings@, gluings@.len() as int, l, rr, ls, rs) != 1) ==> r is None,
{
    if !faces.well_formed() {
        return None;
    }
    let n = faces.frame.len();
    if n >= usize::MAX / 2 {
        return None;
    }
    let prepared = match prepare_gluings(faces, gluings) {
        Some(p) => p,
        None => return None,
    };
    if !gluings_cover(n, &prepared) {
        return None;
    }
    proof {
        assert forall|l: int, rr: int, ls: Sign, rs: Sign| 0 <= l < rr < n
            implies #[trigger] joining_count(gluings@, gluings@.len() as int, l, rr, ls, rs) == 1 by {
            lemma_counts_agree(prepared@, gluings@, prepared@.len() as int, l, rr, ls, rs);
            assert(gluing_count(prepared@, prepared@.len() as int, l, rr, ls, rs) == 1);
        }
    }
    construct_prepared_box(faces, prepared)
}

/// Whether each face is rigid.
fn faces_rigid(faces: &BoxFaces) -> (r: bool)
    requires
        faces.faces_valid(),
    ensures
        r ==> forall|k: int| 0 <= k < faces.by_direction@.len() ==> (#[trigger] faces.by_direction@[k]).input.framed()
            && faces.by_direction@[k].output.framed() && connected(*faces.by_direction@[k].input)
            && connected(*faces.by_direction@[k].output),
{
    for k in 0..faces.by_direction.len()
        invariant
            faces.faces_valid(),
            forall|j: int| 0 <= j < k ==> (#[trigger] faces.by_direction@[j]).input.framed()
                && faces.by_direction@[j].output.framed() && connected(*faces.by_direction@[j].input)
                && connected(*faces.by_direction@[j].output),
    {
        let pair = &faces.by_direction[k];
        if !pair.input.well_formed() || !pair.output.well_formed() {
            return false;
        }
        proof {
            crate::ofp::lemma_framed_valid(&*pair.input);
            crate::ofp::lemma_framed_valid(&*pair.output);
        }
        if !crate::rigid::search_fits(&pair.input) || !crate::rigid::search_fits(&pair.output) {
            return false;
        }
        if !pair.input.is_rigid() || !pair.output.is_rigid() {
            return false;
        }
    }
    true
}

/// Construct a box whose overlap isomorphisms are forced by rigidity.
///
/// `None` unless the faces are well formed and rigid, and every pair of
/// required directional boundaries has exactly one isomorphism; and when a
/// face does not come out as a closed sub-poset of the box.
pub fn rigid_box_construction(faces: &BoxFaces) -> (r: Option<BoxConstruction>)
    requires
        faces.faces_valid(),
    ensures
        r matches Some(c) ==> box_over(*faces, c),
        !faces.shaped() ==> r is None,
        (exists|k: int, s: Sign| 0 <= k < faces.frame@.len() && !#[trigger] faces.face_fits(k, s)) ==> r is None,
        (exists|k: int| 0 <= k < faces.by_direction@.len() && !(connected(*(#[trigger] faces.by_direction@[k]).input)
            && connected(*faces.by_direction@[k].output))) ==> r is None,
{
    if !faces.well_formed() {
        return None;
    }
    let n = faces.frame.len();
    if n >= usize::MAX / 2 {
        return None;
    }
    if !faces_rigid(faces) {
        return None;
    }
    let mut prepared: Vec<PreparedGluing> = Vec::new();
    for left in 0..n
        invariant
            n == faces.frame@.len(),
            n == faces.by_direction@.len(),
            faces.faces_valid(),
            forall|j: int| 0 <= j < prepared@.len() ==> (#[trigger] prepared@[j]).ready(*faces),
    {
        for right in left + 1..n
            invariant
                left < n,
                n == faces.frame@.len(),
                n == faces.by_direction@.len(),
                faces.faces_valid(),
                forall|j: int| 0 <= j < prepared@.len() ==> (#[trigger] prepared@[j]).ready(*faces),
        {
            for s in 0..4usize
                invariant
                    left < right < n,
                    n == faces.frame@.len(),
                    n == faces.by_direction@.len(),
                    faces.faces_valid(),
                    forall|j: int| 0 <= j < prepared@.len() ==> (#[trigger] prepared@[j]).ready(*faces),
            {
                let left_sign = if s / 2 == 0 { Sign::Input } else { Sign::Output };
                let right_sign = if s % 2 == 0 { Sign::Input } else { Sign::Output };
                let (left_boundary, left_into_face) = face_boundary(faces, left, left_sign, right, right_sign);
                let (right_boundary, right_into_face) = face_boundary(faces, right, right_sign, left, left_sign);
                if !crate::isomorphism::isomorphisms_fit(&left_boundary, &right_boundary) {
                    return None;
                }
                let mut candidates = crate::isomorphism::isomorphisms(&left_boundary, &right_boundary);
                if candidates.len() != 1 {
                    return None;
                }
                let isomorphism = match candidates.pop() {
                    Some(e) => e,
                    None => return None,
                };
                let g = PreparedGluing { left_direction: left, left_sign, right_direction: right, right_sign, left_into_face, right_into_face, isomorphism };
                proof {
                    assert(g.ready(*faces));
                }
                prepared.push(g);
            }
        }
    }
    construct_prepared_box(faces, prepared)
}

/// Every basis entry of `x` is below `usize::MAX`, so `x` can be shifted.
pub open spec fn shiftable(x: FramedPoset) -> bool {
    forall|d: int, p: int, i: int| x.cell(d, p) && 0 <= i < x.basis_at(d, p).len() ==> #[trigger] x.basis_at(d, p)[i] < usize::MAX
}

/// The active directions of `x`, when none of them is `usize::MAX`.
fn shiftable_frame(x: &FramedPoset) -> (r: Option<IntSet>)
    requires
        x.valid(),
    ensures
        r matches Some(f) ==> strictly_sorted(f@) && (forall|v: usize| f@.contains(v) <==> x.is_active(v)) && shiftable(*x)
            && forall|i: int| 0 <= i < f@.len() ==> #[trigger] f@[i] < usize::MAX,
        r is None ==> x.is_active(usize::MAX),
{
    let frame = x.active_directions();
    for j in 0..frame.len()
        invariant
            forall|v: usize| frame@.contains(v) <==> x.is_active(v),
            forall|i: int| 0 <= i < j ==> frame@[i] < usize::MAX,
    {
        if frame[j] == usize::MAX {
            proof {
                assert(frame@.contains(frame@[j as int]));
            }
            return None;
        }
    }
    proof {
        assert forall|d: int, p: int, i: int| x.cell(d, p) && 0 <= i < x.basis_at(d, p).len() implies #[trigger] x.basis_at(d, p)[i] < usize::MAX by {
            let v = x.basis_at(d, p)[i];
            assert(x.basis_at(d, p).contains(v));
            assert(x.is_active(v));
            assert(frame@.contains(v));
        }
    }
    Some(frame)
}

/// `0` followed by each direction of `frame` advanced by one.
fn cylinder_frame(frame: &IntSet) -> (r: IntSet)
    requires
        strictly_sorted(frame@),
        forall|i: int| 0 <= i < frame@.len() ==> #[trigger] frame@[i] < usize::MAX,
    ensures
        strictly_sorted(r@),
        forall|v: usize| r@.contains(v) <==> (v == 0 || (v >= 1 && frame@.contains((v - 1) as usize))),
{
    let mut r: IntSet = Vec::new();
    r.push(0);
    for j in 0..frame.len()
        invariant
            strictly_sorted(frame@),
            forall|i: int| 0 <= i < frame@.len() ==> #[trigger] frame@[i] < usize::MAX,
            r@.len() == j + 1,
            r@[0] == 0,
            forall|i: int| 1 <= i <= j ==> #[trigger] r@[i] == frame@[i - 1] + 1,
    {
        r.push(frame[j] + 1);
    }
    proof {
        assert forall|a: int, b: int| 0 <= a < b < r@.len() implies r@[a] < r@[b] by {
            assert(r@[b] == frame@[b - 1] + 1);
            if a > 0 {
                assert(r@[a] == frame@[a - 1] + 1);
            }
        }
        assert forall|v: usize| r@.contains(v) <==> (v == 0 || (v >= 1 && frame@.contains((v - 1) as usize))) by {
            if r@.contains(v) {
                let i = choose|i: int| 0 <= i < r@.len() && r@[i] == v;
                if i > 0 {
                    assert(r@[i] == frame@[i - 1] + 1);
                    assert(frame@[i - 1] == (v - 1) as usize);
                }
            }
            if v >= 1 && frame@.contains((v - 1) as usize) {
                let i = choose|i: int| 0 <= i < frame@.len() && frame@[i] == (v - 1) as usize;
                assert(r@[i + 1] == v);
            }
            if v == 0 {
                assert(r@[0] == v);
            }
        }
    }
    r
}

/// The framed poset of one arrow in direction `0` between two points.
fn tight_arrow() -> (r: FramedPoset)
    ensures
        r.valid(),
        r.framed(),
        r.levels() == 2,
        r.size(1) == 1,
        r.basis_at(1, 0) == seq![0usize],
{
    let basis = vec![vec![Vec::new(), Vec::new()], vec![vec![0]]];
    let faces_in = vec![vec![Vec::new(), Vec::new()], vec![vec![0]]];
    let faces_out = vec![vec![Vec::new(), Vec::new()], vec![vec![1]]];
    proof {
        assert(entry(basis, 0, 0).len() == 0);
        assert(entry(basis, 0, 1).len() == 0);
        assert(entry(faces_in, 0, 0).len() == 0);
        assert(entry(faces_in, 0, 1).len() == 0);
        assert(entry(faces_out, 0, 0).len() == 0);
        assert(entry(faces_out, 0, 1).len() == 0);
        assert(entry(basis, 1, 0) =~= seq![0usize]);
        assert(entry(faces_in, 1, 0) =~= seq![0usize]);
        assert(entry(faces_out, 1, 0) =~= seq![1usize]);
        assert(rows(basis, 0) == 2);
    }
    let r = FramedPoset::from_faces(basis, faces_in, faces_out);
    proof {
        lemma_tight_arrow_framed(r);
    }
    r
}

/// The framed poset of one arrow between two points is an oriented framed
/// poset.
proof fn lemma_tight_arrow_framed(r: FramedPoset)
    requires
        r.valid(),
        r.levels() == 2,
        r.size(0) == 2,
        r.size(1) == 1,
        r.basis_at(0, 0).len() == 0,
        r.basis_at(0, 1).len() == 0,
        r.basis_at(1, 0) == seq![0usize],
        r.faces(Sign::Input, 0, 0).len() == 0,
        r.faces(Sign::Input, 0, 1).len() == 0,
        r.faces(Sign::Output, 0, 0).len() == 0,
        r.faces(Sign::Output, 0, 1).len() == 0,
        r.faces(Sign::Input, 1, 0) == seq![0usize],
        r.faces(Sign::Output, 1, 0) == seq![1usize],
    ensures
        r.framed(),
{
    crate::poset::lemma_valid_sign(&r, Sign::Input);
    crate::poset::lemma_valid_sign(&r, Sign::Output);
    assert forall|d: int, p: int| #[trigger] r.cell(d, p) implies r.basis_at(d, p).len() == d && strictly_sorted(r.basis_at(d, p)) by {
        assert(d == 0 || d == 1);
    }
    assert forall|s: Sign, p: int, i: int| 0 <= p < 2 && 0 <= i < r.cofaces(s, 0, p).len() implies
        r.coface_link(s, 0, p, #[trigger] r.cofaces(s, 0, p)[i] as int) by {
        let c = r.cofaces(s, 0, p)[i];
        assert(entry(r.coface_table(s), 0, p)[i] < rows(r.basis, 1));
        assert(entry(r.coface_table(s), 0, p).contains(c));
    }
    assert forall|s: Sign| r.cofaces(s, 1, 0).len() == 0 by {
        if r.cofaces(s, 1, 0).len() > 0 {
            assert(entry(r.coface_table(s), 1, 0)[0] < rows(r.basis, 2));
        }
    }
    assert(r.cofaces(Sign::Input, 0, 0).contains(0)) by {
        assert(entry(r.faces_in, 1, 0)[0] == 0);
        assert(entry(r.faces_in, 1, 0).contains(0));
    }
    assert(r.cofaces(Sign::Output, 0, 1).contains(0)) by {
        assert(entry(r.faces_out, 1, 0)[0] == 1);
        assert(entry(r.faces_out, 1, 0).contains(1));
    }
    assert(r.face_link(Sign::Input, 1, 0, 0));
    assert(r.face_link(Sign::Output, 1, 0, 1));
    assert(r.faces_sound(Sign::Input, 1, 0));
    assert(r.faces_sound(Sign::Output, 1, 0));
    assert(r.direction_realised(1, 0, 0)) by {
        assert(r.faces(Sign::Input, 1, 0).contains(0usize));
    }
    assert(r.frame_realised(1, 0));
    assert forall|d: int, p: int| #[trigger] r.cell(d, p) implies r.cell_sound(d, p) by {
        assert(strictly_sorted(entry(r.cofaces_in, d, p)));
        assert(strictly_sorted(entry(r.cofaces_out, d, p)));
        assert(strictly_sorted(entry(r.faces_in, d, p)));
        assert(strictly_sorted(entry(r.faces_out, d, p)));
        if d == 1 {
            assert(p == 0);
            assert(r.cofaces_sound(Sign::Input, 1, 0));
            assert(r.cofaces_sound(Sign::Output, 1, 0));
        } else {
            assert(r.cofaces_sound(Sign::Input, 0, p));
            assert(r.cofaces_sound(Sign::Output, 0, p));
        }
    }
}

/// The boundary of `shape` reached by taking, in order, the `sign`
/// boundaries in each of `directions`.
fn boundary_block(sign: Sign, directions: &Vec<usize>, shape: &Arc<FramedPoset>) -> (r: Arc<FramedPoset>)
    requires
        shape.framed(),
    ensures
        r.framed(),
{
    let mut word: Vec<(Sign, usize)> = Vec::new();
    for j in 0..directions.len() {
        word.push((sign, directions[j]));
    }
    crate::poset::iterated_boundary(&word, shape).0
}

/// The top level of `c` holds one cell, whose basis is `0` with each active
/// direction of `input` advanced by one.
pub open spec fn cylinder_top(input: FramedPoset, c: FramedPoset) -> bool {
    let t = c.levels() - 1;
    &&& c.levels() >= 1
    &&& c.size(t) == 1
    &&& forall|v: usize| #[trigger] c.basis_at(t, 0).contains(v) <==> (v == 0 || (v >= 1 && input.is_active((v - 1) as usize)))
}

/// Largest number of levels that [`dim_fits`] admits.
fn level_cap() -> (r: usize)
    ensures
        r == isize::MAX,
{
    isize::MAX as usize
}

/// `y` is `x` with every direction advanced by one: the same cells and
/// signed faces, each basis entry increased by one.
pub open spec fn shifted_of(x: FramedPoset, y: FramedPoset) -> bool {
    &&& y.valid()
    &&& y.levels() == x.levels()
    &&& forall|d: int| 0 <= d < x.levels() ==> #[trigger] y.size(d) == x.size(d)
    &&& forall|d: int, p: int| x.cell(d, p) ==> #[trigger] y.basis_at(d, p) == x.basis_at(d, p).map_values(|v: usize| (v + 1) as usize)
    &&& crate::poset::same_table(y.faces_in, x.faces_in)
    &&& crate::poset::same_table(y.faces_out, x.faces_out)
}

/// Both `input` and `output`, shifted by one direction, are closed
/// sub-posets of `c`.
pub open spec fn holds_shifted_ends(input: FramedPoset, output: FramedPoset, c: Arc<FramedPoset>) -> bool {
    exists|fi: Arc<FramedPoset>, fo: Arc<FramedPoset>, ei: Embedding, eo: Embedding|
        #[trigger] face_included(fi, ei, c) && #[trigger] face_included(fo, eo, c) && shifted_of(input, *fi) && shifted_of(output, *fo)
}

fn elementary_cylinder_recursive(input: &Arc<FramedPoset>, output: &Arc<FramedPoset>, budget: usize) -> (r: Option<Arc<FramedPoset>>)
    requires
        input.framed(),
        output.framed(),
    ensures
        r matches Some(c) ==> c.framed() && cylinder_top(**input, *c),
        (forall|v: usize| !input.is_active(v)) ==> r is Some,
        r matches Some(c) ==> ((exists|v: usize| input.is_active(v)) ==> holds_shifted_ends(**input, **output, c)),
    decreases budget, 1usize,
{
    proof {
        crate::ofp::lemma_framed_valid(&**input);
        crate::ofp::lemma_framed_valid(&**output);
    }
    let frame = match shiftable_frame(input) {
        Some(f) => f,
        None => return None,
    };
    if frame.len() == 0 {
        let arrow = tight_arrow();
        let c = Arc::new(arrow);
        proof {
            assert forall|v: usize| #[trigger] c.basis_at(1, 0).contains(v) <==> (v == 0 || (v >= 1 && input.is_active((v - 1) as usize))) by {
                if c.basis_at(1, 0).contains(v) {
                    assert(c.basis_at(1, 0)[0] == 0);
                }
                if v == 0 {
                    assert(c.basis_at(1, 0)[0] == v);
                }
                if v >= 1 && input.is_active((v - 1) as usize) {
                    assert(frame@.contains((v - 1) as usize));
                }
            }
        }
        return Some(c);
    }
    proof {
        assert(frame@.contains(frame@[0]));
        assert(input.is_active(frame@[0]));
    }
    if shiftable_frame(output).is_none() {
        return None;
    }
    let cyl = cylinder_frame(&frame);
    let mut by_direction: Vec<SignedPair<Arc<FramedPoset>>> = Vec::new();
    let shifted_input = Arc::new(shift(input));
    let shifted_output = Arc::new(shift(output));
    proof {
        assert(shifted_of(**input, *shifted_input));
        assert(shifted_of(**output, *shifted_output));
    }
    let ghost first = SignedPair { input: shifted_input, output: shifted_output };
    by_direction.push(SignedPair { input: shifted_input, output: shifted_output });
    let n = frame.len();
    let ghost w = frame@[0];
    for index in 0..n
        invariant
            n == frame@.len(),
            input.is_active(w),
            input.framed(),
            output.framed(),
            by_direction@.len() == index + 1,
            forall|k: int| 0 <= k < by_direction@.len() ==> (#[trigger] by_direction@[k]).input.valid()
                && by_direction@[k].output.valid(),
            by_direction@[0] == first,
            shifted_of(**input, *first.input),
            shifted_of(**output, *first.output),
    {
        let face_in = match elementary_cylinder_face(Sign::Input, index, &frame, input, input, output, budget) {
            Some(f) => f,
            None => return None,
        };
        let face_out = match elementary_cylinder_face(Sign::Output, index, &frame, output, input, output, budget) {
            Some(f) => f,
            None => return None,
        };
        by_direction.push(SignedPair { input: face_in, output: face_out });
    }
    let faces = BoxFaces { frame: cyl, by_direction };
    let construction = match rigid_box_construction(&faces) {
        Some(c) => c,
        None => return None,
    };
    let c = construction.shape;
    proof {
        let fe = construction.face_embeddings@[0];
        assert(face_included(faces.by_direction@[0].input, fe.input, c));
        assert(face_included(faces.by_direction@[0].output, fe.output, c));
        assert(holds_shifted_ends(**input, **output, c));
        let t = c.levels() - 1;
        assert(t == faces.frame@.len());
        assert forall|v: usize| #[trigger] c.basis_at(t, 0).contains(v) <==> (v == 0 || (v >= 1 && input.is_active((v - 1) as usize))) by {
            assert(c.basis_at(t, 0) == faces.frame@);
        }
    }
    Some(c)
}

fn elementary_cylinder_face(
    sign: Sign,
    index: usize,
    frame: &IntSet,
    signed_shape: &Arc<FramedPoset>,
    input: &Arc<FramedPoset>,
    output: &Arc<FramedPoset>,
    budget: usize,
) -> (r: Option<Arc<FramedPoset>>)
    requires
        signed_shape.framed(),
        input.framed(),
        output.framed(),
        index < frame@.len(),
    ensures
        r matches Some(c) ==> c.valid(),
    decreases budget, 0usize,
{
    let mut head: Vec<usize> = Vec::new();
    for j in 0..index + 1
        invariant
            index < frame@.len(),
    {
        head.push(frame[j]);
    }
    let mut tail: Vec<usize> = Vec::new();
    for j in index..frame.len() {
        tail.push(frame[j]);
    }
    let block = boundary_block(sign, &head, signed_shape);
    proof {
        crate::ofp::lemma_framed_valid(&*block);
    }
    if shiftable_frame(&block).is_none() {
        return None;
    }
    let left = shift(&block);
    if !left.well_formed() {
        return None;
    }
    let inner_input = boundary_block(sign, &tail, input);
    let inner_output = boundary_block(sign, &tail, output);
    if budget == 0 {
        return None;
    }
    let inner = match elementary_cylinder_recursive(&inner_input, &inner_output, budget - 1) {
        Some(c) => c,
        None => return None,
    };
    let cap = level_cap();
    if inner.basis.len() > cap || left.basis.len() > cap - inner.basis.len() {
        return None;
    }
    let product = crate::orthogonal::orthogonal_product(&left, &inner);
    proof {
        crate::ofp::lemma_framed_valid(&product);
    }
    Some(Arc::new(product))
}

/// Whether `shape` is volumetric, when its levels are few enough to check.
fn volumetric_checked(shape: &Arc<FramedPoset>) -> (r: bool)
    requires
        shape.framed(),
    ensures
        r ==> connected(**shape) && dim_fits(2 * shape.levels()),
{
    let cap = level_cap();
    if shape.basis.len() > cap / 2 {
        return false;
    }
    crate::volumetric::is_volumetric(shape)
}

/// Construct the elementary cylinder of two compatible volumetric posets.
///
/// The first argument is the input and the second is the output. Their
/// direction-zero boundaries must be isomorphic for both signs, and the output
/// frame must be contained in the input frame: `None` otherwise, and when
/// either is not volumetric. The cylinder has one top cell, spanning
/// direction `0` and each direction of the input advanced by one.
pub fn elementary_cylinder(input: &Arc<FramedPoset>, output: &Arc<FramedPoset>) -> (r: Option<Arc<FramedPoset>>)
    requires
        input.framed(),
        output.framed(),
    ensures
        r matches Some(c) ==> c.framed() && cylinder_top(**input, *c),
        r matches Some(c) ==> ((exists|v: usize| input.is_active(v)) ==> holds_shifted_ends(**input, **output, c)),
        !connected(**input) || !connected(**output) ==> r is None,
        (exists|v: usize| #[trigger] output.is_active(v) && !input.is_active(v)) ==> r is None,
{
    if !volumetric_checked(input) || !volumetric_checked(output) {
        return None;
    }
    proof {
        crate::ofp::lemma_framed_valid(&**input);
        crate::ofp::lemma_framed_valid(&**output);
    }
    let input_frame = input.active_directions();
    let output_frame = output.active_directions();
    if !intset::is_subset(&output_frame, &input_frame) {
        return None;
    }
    proof {
        assert forall|v: usize| #[trigger] output.is_active(v) implies input.is_active(v) by {
            assert(output_frame@.contains(v));
        }
    }
    for s in 0..2usize
        invariant
            input.valid(),
            output.valid(),
    {
        let sign = if s == 0 { Sign::Input } else { Sign::Output };
        let (input_boundary, _) = boundary(BoundaryMode::Plain, sign, 0, input);
        let (output_boundary, _) = boundary(BoundaryMode::Plain, sign, 0, output);
        if !crate::isomorphism::canonical_fits(&input_boundary) || !crate::isomorphism::canonical_fits(&output_boundary) {
            return None;
        }
        if !crate::isomorphism::isomorphic(&input_boundary, &output_boundary) {
            return None;
        }
    }
    elementary_cylinder_recursive(input, output, input_frame.len())
}

} // verus!

//! Polyvoxels and their inductive constructors.
//!
//! [`point`] is the base value; [`shift`], [`cylinder`], and [`paste`] are the
//! three inductive constructions.

use std::sync::Arc;

use vstd::prelude::*;

use crate::box_construction::{cylinder_top, elementary_cylinder, shiftable};
use crate::connect::connected;
use crate::embedding::{Embedding, at, share};
use crate::poset::FramedPoset;
use crate::pushout::{Pushout, paste_along_boundary, paste_refused, pasted_along, pushout_swaps};

verus! {

/// The length vector ends in a nonzero entry, and `layering` is the least
/// direction whose length is greater than one, `None` when there is none.
pub open spec fn metadata_ok(length: Seq<usize>, layering: Option<usize>) -> bool {
    &&& (length.len() == 0 || length.last() > 0)
    &&& match layering {
        Some(d) => d < length.len() && length[d as int] > 1 && forall|j: int| 0 <= j < d ==> #[trigger] length[j] <= 1,
        None => forall|j: int| 0 <= j < length.len() ==> #[trigger] length[j] <= 1,
    }
}

/// Every direction of positive length is active in `x`: some cell of `x`
/// has it in its basis.
pub open spec fn positive_lengths_active(x: FramedPoset, length: Seq<usize>) -> bool {
    forall|d: int| 0 <= d < length.len() && #[trigger] length[d] > 0 ==> x.is_active(d as usize)
}

/// A direction active in a framed poset is active in every presentation of
/// the same poset.
proof fn lemma_same_poset_active(a: FramedPoset, b: FramedPoset, v: usize)
    requires
        a.same_poset(&b),
        a.is_active(v),
    ensures
        b.is_active(v),
{
    crate::embedding::lemma_same_poset_sizes(&a, &b);
    let (d, k) = choose|d: int, k: int| a.cell(d, k) && #[trigger] a.basis_at(d, k).contains(v);
    assert(b.cell(d, k));
    assert(b.basis_at(d, k).contains(v));
}

/// An oriented framed poset known to be a polyvoxel.
///
/// The wrapped shape is immutable, and the field is private so that public code
/// can obtain a `Polyvoxel` only from [`point`], [`shift`], [`cylinder`],
/// [`paste`], certified transport along [`Polyvoxel::from_isomorphism`], or by
/// cloning an existing value. These operations form the trusted kernel for
/// polyvoxelhood.
#[derive(Debug, Clone, PartialEq, Eq)]
pub struct Polyvoxel {
    shape: Arc<FramedPoset>,
    length: Vec<usize>,
    layering_direction: Option<usize>,
}

impl Polyvoxel {
    /// The underlying framed poset.
    pub closed spec fn poset(&self) -> Arc<FramedPoset> {
        self.shape
    }

    /// The length function below the rank.
    pub closed spec fn lengths(&self) -> Seq<usize> {
        self.length@
    }

    /// The least direction of length greater than one.
    pub closed spec fn layering(&self) -> Option<usize> {
        self.layering_direction
    }

    /// The shape satisfies the storage invariant and the cached metadata is
    /// consistent.
    pub open spec fn wf(&self) -> bool {
        &&& self.poset().valid()
        &&& metadata_ok(self.lengths(), self.layering())
        &&& positive_lengths_active(*self.poset(), self.lengths())
    }

    /// Access the shared underlying oriented framed poset.
    pub fn as_framed_poset(&self) -> (r: &Arc<FramedPoset>)
        ensures
            *r == self.poset(),
    {
        &self.shape
    }

    /// The rank, equal to one more than the greatest active direction.
    ///
    /// The point has rank zero.
    pub fn rank(&self) -> (r: usize)
        ensures
            r == self.lengths().len(),
    {
        self.length.len()
    }

    /// The finite vector representing the length function below the rank.
    ///
    /// An entry is zero exactly when its index is not an active direction.
    pub fn length(&self) -> (r: &[usize])
        ensures
            r@ == self.lengths(),
    {
        self.length.as_slice()
    }

    /// The length in one direction, with directions at or above the rank
    /// implicitly having length zero.
    pub fn length_at(&self, direction: usize) -> (r: usize)
        ensures
            r == (if direction < self.lengths().len() { self.lengths()[direction as int] } else { 0 }),
    {
        if direction < self.length.len() {
            self.length[direction]
        } else {
            0
        }
    }

    /// The least direction of length greater than one.
    ///
    /// `None` represents infinity and is equivalent to this polyvoxel being a
    /// voxel.
    pub fn layering_direction(&self) -> (r: Option<usize>)
        ensures
            r == self.layering(),
    {
        self.layering_direction
    }

    /// Whether this polyvoxel is a voxel.
    pub fn is_voxel(&self) -> (r: bool)
        ensures
            r == self.layering() is None,
    {
        self.layering_direction.is_none()
    }

    /// Regard an isomorphic OFP as a polyvoxel.
    ///
    /// `isomorphism` must have `shape` as its domain and `known_polyvoxel` as
    /// its codomain. Length and layering direction are intrinsic, so they are
    /// transported unchanged from `known_polyvoxel`.
    pub fn from_isomorphism(shape: Arc<FramedPoset>, isomorphism: &Embedding, known_polyvoxel: &Self) -> (r: Self)
        requires
            known_polyvoxel.wf(),
            shape.valid(),
            isomorphism.valid(),
            isomorphism.surjective(),
            isomorphism.closed(),
            shape.same_poset(&*isomorphism.dom),
            known_polyvoxel.poset().same_poset(&*isomorphism.cod),
        ensures
            r.wf(),
            r.poset() == shape,
            r.lengths() == known_polyvoxel.lengths(),
            r.layering() == known_polyvoxel.layering(),
    {
        let r = Polyvoxel { shape, length: copy_lengths(&known_polyvoxel.length), layering_direction: known_polyvoxel.layering_direction };
        proof {
            assert forall|d: int| 0 <= d < r.lengths().len() && #[trigger] r.lengths()[d] > 0 implies r.poset().is_active(d as usize) by {
                let v = d as usize;
                assert(known_polyvoxel.lengths()[d] > 0);
                let kp = *known_polyvoxel.poset();
                let c = *isomorphism.cod;
                let x = *isomorphism.dom;
                assert(kp.is_active(v));
                lemma_same_poset_active(kp, c, v);
                let (e, q) = choose|e: int, q: int| c.cell(e, q) && #[trigger] c.basis_at(e, q).contains(v);
                assert(at(isomorphism.inv, e, q) != crate::embedding::NO_PREIMAGE);
                let i = at(isomorphism.inv, e, q) as int;
                assert(at(isomorphism.map, e, i) == q);
                assert(x.cell(e, i));
                assert(x.basis_at(e, i) == c.basis_at(e, q));
                assert(x.is_active(v));
                let sh = *r.poset();
                crate::poset::lemma_same_poset_symmetric(&sh, &x);
                lemma_same_poset_active(x, sh, v);
            }
        }
        r
    }
}

impl std::ops::Deref for Polyvoxel {
    type Target = FramedPoset;

    fn deref(&self) -> (r: &FramedPoset)
        ensures
            *r == *self.poset(),
    {
        &self.shape
    }
}

/// A copy of a length vector.
fn copy_lengths(v: &Vec<usize>) -> (r: Vec<usize>)
    ensures
        r@ == v@,
{
    let mut r: Vec<usize> = Vec::new();
    for k in 0..v.len()
        invariant
            r@ == v@.take(k as int),
    {
        r.push(v[k]);
        proof {
            assert(v@.take(k + 1) == v@.take(k as int).push(v@[k as int]));
        }
    }
    proof {
        assert(v@.take(v@.len() as int) == v@);
    }
    r
}

/// A voxel is a polyvoxel in which no direction has length greater than one.
pub proof fn lemma_voxel_lengths(p: Polyvoxel)
    requires
        p.wf(),
    ensures
        p.layering() is None <==> forall|j: int| 0 <= j < p.lengths().len() ==> #[trigger] p.lengths()[j] <= 1,
{
    if let Some(d) = p.layering() {
        assert(p.lengths()[d as int] > 1);
    }
}

/// Construct the point polyvoxel.
pub fn point() -> (r: Polyvoxel)
    ensures
        r.wf(),
        r.lengths() == Seq::<usize>::empty(),
        r.layering() is None,
        r.poset().levels() == 1,
        r.poset().size(0) == 1,
        crate::pushout::cell_total(*r.poset()) == 1,
        forall|v: usize| !r.poset().is_active(v),
{
    let r = Polyvoxel { shape: Arc::new(FramedPoset::point()), length: Vec::new(), layering_direction: None };
    proof {
        let x = *r.poset();
        assert(crate::pushout::cells_upto(x, 0) == 0);
        assert(crate::pushout::cells_upto(x, 1) == 1);
        assert forall|v: usize| !x.is_active(v) by {
            if x.is_active(v) {
                let (d, k) = choose|d: int, k: int| x.cell(d, k) && #[trigger] x.basis_at(d, k).contains(v);
                assert(d == 0 && k == 0);
            }
        }
    }
    r
}

/// Shift every direction of a polyvoxel by one.
pub fn shift(shape: &Polyvoxel) -> (r: Polyvoxel)
    requires
        shape.wf(),
        shiftable(*shape.poset()),
        shape.layering() != Some(usize::MAX),
    ensures
        r.wf(),
        r.lengths() == (if shape.lengths().len() == 0 { Seq::<usize>::empty() } else { seq![0usize] + shape.lengths() }),
        r.layering() == (match shape.layering() {
            Some(d) => Some((d + 1) as usize),
            None => None::<usize>,
        }),
        r.poset().levels() == shape.poset().levels(),
        forall|d: int| 0 <= d < shape.poset().levels() ==> #[trigger] r.poset().size(d) == shape.poset().size(d),
        forall|d: int, p: int| shape.poset().cell(d, p) ==> #[trigger] r.poset().basis_at(d, p)
            == shape.poset().basis_at(d, p).map_values(|x: usize| (x + 1) as usize),
{
    let old_length = &shape.length;
    let mut length: Vec<usize> = Vec::new();
    if old_length.len() > 0 {
        length.push(0);
        for k in 0..old_length.len()
            invariant
                length@ == seq![0usize] + old_length@.take(k as int),
        {
            length.push(old_length[k]);
            proof {
                assert(old_length@.take(k + 1) == old_length@.take(k as int).push(old_length@[k as int]));
                assert(seq![0usize] + old_length@.take(k + 1) == (seq![0usize] + old_length@.take(k as int)).push(old_length@[k as int]));
            }
        }
        proof {
            assert(old_length@.take(old_length@.len() as int) == old_length@);
        }
    }
    let layering_direction = match shape.layering_direction {
        Some(d) => Some(d + 1),
        None => None,
    };
    let r = Polyvoxel { shape: Arc::new(crate::poset::shift(&shape.shape)), length, layering_direction };
    proof {
        let old = shape.lengths();
        let new = r.lengths();
        if old.len() > 0 {
            assert(new.last() == old.last());
            assert forall|j: int| 1 <= j < new.len() implies #[trigger] new[j] == old[j - 1] by {}
            assert(new[0] == 0);
            match r.layering() {
                Some(d) => {
                    assert(new[d as int] == old[d - 1]);
                    assert forall|j: int| 0 <= j < d implies #[trigger] new[j] <= 1 by {
                        if j >= 1 {
                            assert(new[j] == old[j - 1]);
                        }
                    }
                },
                None => {
                    assert forall|j: int| 0 <= j < new.len() implies #[trigger] new[j] <= 1 by {
                        if j >= 1 {
                            assert(new[j] == old[j - 1]);
                        }
                    }
                },
            }
        } else {
            if let Some(d) = shape.layering() {
                assert(false);
            }
        }
        assert forall|d: int| 0 <= d < new.len() && #[trigger] new[d] > 0 implies r.poset().is_active(d as usize) by {
            assert(d >= 1);
            assert(new[d] == old[d - 1]);
            let v = (d - 1) as usize;
            assert(shape.poset().is_active(v));
            let x = *shape.poset();
            let (e, q) = choose|e: int, q: int| x.cell(e, q) && #[trigger] x.basis_at(e, q).contains(v);
            assert(r.poset().size(e) == x.size(e));
            assert(r.poset().cell(e, q));
            let b = x.basis_at(e, q);
            let i = choose|i: int| 0 <= i < b.len() && b[i] == v;
            assert(r.poset().basis_at(e, q)[i] == (v + 1) as usize);
            assert(r.poset().basis_at(e, q).contains(d as usize));
        }
    }
    r
}

/// Construct an elementary cylinder with a voxel as its input.
///
/// `input` must be a voxel, which for a polyvoxel is equivalent to having a
/// greatest element. `None` when either shape is not an oriented framed poset
/// or [`elementary_cylinder`] refuses the pair.
pub fn cylinder(input: &Polyvoxel, output: &Polyvoxel) -> (r: Option<Polyvoxel>)
    requires
        input.wf(),
        output.wf(),
        input.layering() is None,
    ensures
        r matches Some(c) ==> c.wf() && c.lengths() == seq![1usize] + input.lengths() && c.layering() is None
            && c.poset().framed() && cylinder_top(*input.poset(), *c.poset()),
        !input.poset().framed() || !output.poset().framed() ==> r is None,
        !connected(*input.poset()) || !connected(*output.poset()) ==> r is None,
        (exists|v: usize| #[trigger] output.poset().is_active(v) && !input.poset().is_active(v)) ==> r is None,
{
    if !input.shape.well_formed() || !output.shape.well_formed() {
        return None;
    }
    let shape = match elementary_cylinder(&input.shape, &output.shape) {
        Some(s) => s,
        None => return None,
    };
    let mut length: Vec<usize> = Vec::new();
    length.push(1);
    for k in 0..input.length.len()
        invariant
            length@ == seq![1usize] + input.length@.take(k as int),
    {
        length.push(input.length[k]);
        proof {
            assert(input.length@.take(k + 1) == input.length@.take(k as int).push(input.length@[k as int]));
            assert(seq![1usize] + input.length@.take(k + 1) == (seq![1usize] + input.length@.take(k as int)).push(input.length@[k as int]));
        }
    }
    proof {
        assert(input.length@.take(input.length@.len() as int) == input.length@);
        crate::ofp::lemma_framed_valid(&*shape);
    }
    let r = Polyvoxel { shape, length, layering_direction: None };
    proof {
        let old = input.lengths();
        let new = r.lengths();
        assert forall|j: int| 0 <= j < new.len() implies #[trigger] new[j] <= 1 by {
            if j >= 1 {
                assert(new[j] == old[j - 1]);
            }
        }
        if old.len() > 0 {
            assert(new.last() == old.last());
        }
        let c = *r.poset();
        let t = c.levels() - 1;
        assert(c.cell(t, 0));
        assert forall|d: int| 0 <= d < new.len() && #[trigger] new[d] > 0 implies c.is_active(d as usize) by {
            let v = d as usize;
            if d >= 1 {
                assert(new[d] == old[d - 1]);
                assert(input.poset().is_active((v - 1) as usize));
            }
            assert(c.basis_at(t, 0).contains(v));
        }
    }
    Some(r)
}

/// Paste the output boundary of `left` to the input boundary of `right`.
///
/// The returned pushout contains the canonical embeddings of the operands. Its
/// tip and the returned polyvoxel share the same underlying framed poset.
/// These OFP embeddings are already morphisms of polyvoxels, so they need no
/// separate wrapper type. The pasting direction must be active in both.
/// `None` when either shape is not an oriented framed poset or
/// [`paste_along_boundary`] refuses the pair; a result when both are
/// oriented framed posets whose boundaries along `direction` are uniquely
/// isomorphic and small enough.
pub fn paste(left: &Polyvoxel, right: &Polyvoxel, direction: usize) -> (r: Option<(Pushout, Polyvoxel)>)
    requires
        left.wf(),
        right.wf(),
        direction < left.lengths().len() && left.lengths()[direction as int] > 0,
        direction < right.lengths().len() && right.lengths()[direction as int] > 0,
        left.lengths()[direction as int] + right.lengths()[direction as int] <= usize::MAX,
    ensures
        r matches Some(q) ==> {
            &&& q.1.wf()
            &&& q.1.poset() == q.0.tip
            &&& q.1.lengths() == left.lengths().update(direction as int,
                (left.lengths()[direction as int] + right.lengths()[direction as int]) as usize)
            &&& q.1.layering() == Some(match left.layering() {
                Some(l) => if direction < l { direction } else { l },
                None => direction,
            })
            &&& exists|f: Embedding, b: Embedding, h: Embedding, g: Embedding|
                #[trigger] pasted_along(*left.poset(), *right.poset(), direction, f, b, h, g, q.0)
        },
        r is None ==> !left.poset().framed() || !right.poset().framed() || paste_refused(*left.poset(), *right.poset(), direction),
        left.poset().framed() && right.poset().framed() && crate::pushout::paste_sized(*left.poset(), *right.poset())
            && crate::pushout::boundaries_uniquely_isomorphic(*left.poset(), *right.poset(), direction) ==> r is Some,
{
    let left_length = left.length_at(direction);
    let right_length = right.length_at(direction);
    if !left.shape.well_formed() || !right.shape.well_formed() {
        return None;
    }
    let pushout = match paste_along_boundary(&left.shape, &right.shape, direction) {
        Some(p) => p,
        None => return None,
    };
    let mut length = copy_lengths(&left.length);
    length.set(direction, left_length + right_length);
    let layering_direction = Some(match left.layering_direction {
        Some(l) => if direction < l { direction } else { l },
        None => direction,
    });
    let polyvoxel = Polyvoxel { shape: share(&pushout.tip), length, layering_direction };
    proof {
        let old = left.lengths();
        let new = polyvoxel.lengths();
        assert(new.len() == old.len());
        if direction == new.len() - 1 {
            assert(new.last() > 0);
        } else {
            assert(new.last() == old.last());
        }
        let m = polyvoxel.layering()->0;
        assert(new[m as int] > 1) by {
            if m != direction {
                assert(new[m as int] == old[m as int]);
            }
        }
        assert forall|j: int| 0 <= j < m implies #[trigger] new[j] <= 1 by {
            assert(new[j] == old[j]);
        }
        assert(new == old.update(direction as int, (old[direction as int] + right.lengths()[direction as int]) as usize));
        assert(metadata_ok(new, polyvoxel.layering()));
        assert(polyvoxel.poset().valid());
    }
    let ghost w = choose|f: Embedding, b: Embedding, h: Embedding, g: Embedding| #[trigger] pasted_along(*left.poset(), *right.poset(), direction, f, b, h, g, pushout);
    proof {
        let (f, b, h, g) = w;
        assert(pasted_along(*left.poset(), *right.poset(), direction, f, b, h, g, pushout));
        let old = left.lengths();
        let new = polyvoxel.lengths();
        let tip = *pushout.tip;
        assert forall|d: int| 0 <= d < new.len() && #[trigger] new[d] > 0 implies tip.is_active(d as usize) by {
            let v = d as usize;
            if d != direction {
                assert(new[d] == old[d]);
            }
            assert(old[d] > 0);
            assert(left.poset().is_active(v));
            assert(*f.cod == *left.poset());
            if pushout_swaps(&f, &g) {
                crate::pushout::lemma_pushout_keeps_active(g, f, tip, pushout.inr, pushout.inl, v);
            } else {
                crate::pushout::lemma_pushout_keeps_active(f, g, tip, pushout.inl, pushout.inr, v);
            }
        }
    }
    let r = Some((pushout, polyvoxel));
    proof {
        let q = r->0;
        assert(pasted_along(*left.poset(), *right.poset(), direction, w.0, w.1, w.2, w.3, q.0));
    }
    r
}

} // verus!

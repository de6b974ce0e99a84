//! Intrinsic input-first traversals of polyvoxels.
//!
//! This is an experimental adaptation of the traversal of directed molecules.
//! A polyvoxel has one input and one output boundary for every direction in
//! its frame, so those boundaries are visited in increasing direction order.
//! If the polyvoxel is not a voxel, its full-frame maximal cells are then
//! reached in the greatest frame direction from the earliest already visited
//! input face. No existing cell index is used to break a tie: a failure of
//! existence or uniqueness is reported as a [`TraversalError`].

use std::sync::Arc;

use vstd::prelude::*;

use crate::embedding::{Embedding, at, in_image, share};
use crate::intset::{self, IntSet, first_new_index, same_elements, strictly_sorted};
use crate::polyvoxel::Polyvoxel;
use crate::poset::{BoundaryMode, Element, FramedPoset, FramedPosetSubset, Sign, boundary, boundary_cell, closure, entry, flag, reach, rows};
use crate::pushout::{cell_total, cells_upto};

verus! {

/// A failed invariant of the proposed polyvoxel traversal.
#[derive(Debug, Clone, PartialEq, Eq)]
pub enum TraversalError {
    /// Taking an active directional boundary failed to reduce the shape.
    BoundaryDidNotDecrease { sign: Sign, direction: usize, cells: usize },
    /// Taking the closure of a maximal cell failed to reduce a non-voxel.
    CellClosureDidNotDecrease { cell: Element, cells: usize },
    /// More than one unvisited maximal cell continues from the same face.
    AmbiguousContinuation { direction: usize, face: Element, cells: Vec<Element> },
    /// Some maximal cells cannot be reached by the directional walk.
    MissingContinuation { direction: usize, cells: Vec<Element> },
    /// The traversal rules terminated without visiting every cell.
    Incomplete { cells: Vec<Element> },
}

/// `e` names a cell of `shape`.
pub open spec fn names_cell(shape: FramedPoset, e: Element) -> bool {
    shape.cell(e.dim as int, e.pos as int)
}

/// Cell `(d, p)` occurs in `order`.
pub open spec fn listed(order: Seq<Element>, d: int, p: int) -> bool {
    exists|k: int| 0 <= k < order.len() && (#[trigger] order[k]).dim == d && order[k].pos == p
}

/// `order` lists every cell of `shape` exactly once.
pub open spec fn lists_cells(shape: FramedPoset, order: Seq<Element>) -> bool {
    &&& forall|k: int| 0 <= k < order.len() ==> names_cell(shape, #[trigger] order[k])
    &&& forall|k: int, l: int| 0 <= k < l < order.len() ==> #[trigger] order[k] != #[trigger] order[l]
    &&& forall|d: int, p: int| #[trigger] shape.cell(d, p) ==> listed(order, d, p)
}

/// The cells visited so far, in order, with a flag per cell of the shape.
struct PartialTraversal {
    order: Vec<Element>,
    seen: Vec<Vec<bool>>,
}

/// The flags of `t` mark exactly the cells that `t` lists, each at most once.
spec fn tracks(shape: FramedPoset, t: PartialTraversal) -> bool {
    &&& t.seen@.len() == shape.levels()
    &&& forall|d: int| 0 <= d < shape.levels() ==> #[trigger] t.seen@[d]@.len() == shape.size(d)
    &&& forall|k: int| 0 <= k < t.order@.len() ==> names_cell(shape, #[trigger] t.order@[k])
    &&& forall|k: int, l: int| 0 <= k < l < t.order@.len() ==> #[trigger] t.order@[k] != #[trigger] t.order@[l]
    &&& forall|d: int, p: int| #[trigger] shape.cell(d, p) ==> (flag(t.seen, d, p) <==> listed(t.order@, d, p))
}

/// Each level holds at least as many cells as there are in all.
proof fn lemma_cell_counted(x: FramedPoset, d: int)
    requires
        0 <= d < x.levels(),
    ensures
        x.size(d) <= cell_total(x),
{
    crate::pushout::lemma_cells_upto_mono(x, d + 1, x.levels());
    crate::pushout::lemma_cells_upto_mono(x, 0, d);
}

/// The number of cells of `x`, when it fits `usize`.
fn checked_cell_total(x: &FramedPoset) -> (r: Option<usize>)
    ensures
        r matches Some(c) ==> c == cell_total(*x),
        r is None ==> cell_total(*x) > usize::MAX,
{
    let sizes = x.sizes();
    let n = sizes.len();
    let mut sum: usize = 0;
    for d in 0..n
        invariant
            n == x.levels(),
            sizes@ == x.size_seq(),
            sum == cells_upto(*x, d as int),
    {
        if sizes[d] > usize::MAX - sum {
            proof {
                crate::pushout::lemma_cells_upto_mono(*x, d + 1, x.levels());
            }
            return None;
        }
        sum = sum + sizes[d];
    }
    Some(sum)
}

/// An empty traversal of `shape`.
fn new_traversal(shape: &FramedPoset) -> (t: PartialTraversal)
    ensures
        tracks(*shape, t),
        t.order@.len() == 0,
{
    let sizes = shape.sizes();
    let n = sizes.len();
    let mut seen: Vec<Vec<bool>> = Vec::new();
    for d in 0..n
        invariant
            n == shape.levels(),
            sizes@ == shape.size_seq(),
            seen@.len() == d,
            forall|e: int| 0 <= e < d ==> #[trigger] seen@[e]@.len() == shape.size(e),
            forall|e: int, p: int| 0 <= e < d && 0 <= p < shape.size(e) ==> !(#[trigger] seen@[e]@[p]),
    {
        seen.push(vec![false; sizes[d]]);
    }
    proof {
        assert forall|e: int, p: int| #[trigger] shape.cell(e, p) implies !flag(seen, e, p) by {
            assert(!seen@[e]@[p]);
        }
    }
    PartialTraversal { order: Vec::new(), seen }
}

/// `b` continues `a`: it keeps the cells that `a` lists, in order, at the
/// front, and keeps every flag that `a` raised.
spec fn grows(shape: FramedPoset, a: PartialTraversal, b: PartialTraversal) -> bool {
    &&& a.order@.len() <= b.order@.len()
    &&& forall|j: int| 0 <= j < a.order@.len() ==> #[trigger] b.order@[j] == a.order@[j]
    &&& forall|d: int, p: int| #[trigger] flag(b.seen, d, p) || !shape.cell(d, p) || !flag(a.seen, d, p)
}

proof fn lemma_grows_trans(x: &FramedPoset, a: PartialTraversal, b: PartialTraversal, c: PartialTraversal)
    requires
        grows(*x, a, b),
        grows(*x, b, c),
    ensures
        grows(*x, a, c),
{
    let shape = *x;
    assert forall|j: int| 0 <= j < a.order@.len() implies #[trigger] c.order@[j] == a.order@[j] by {
        assert(b.order@[j] == a.order@[j]);
    }
    assert forall|d: int, p: int| #[trigger] flag(c.seen, d, p) || !shape.cell(d, p) || !flag(a.seen, d, p) by {
        if shape.cell(d, p) && flag(a.seen, d, p) {
            assert(flag(b.seen, d, p));
        }
    }
}

/// The image under `e` of a cell of its domain.
spec fn image_of(e: Embedding, c: Element) -> Element {
    Element { dim: c.dim, pos: at(e.map, c.dim as int, c.pos as int) }
}

/// `c` is the image under `e` of an entry of `order`.
spec fn image_among(e: Embedding, order: Seq<Element>, c: Element) -> bool {
    exists|k: int| 0 <= k < order.len() && c == #[trigger] image_of(e, order[k])
}

/// Visit `cell`, unless it was visited already.
fn append(t: &mut PartialTraversal, shape: &FramedPoset, cell: Element)
    requires
        tracks(*shape, *old(t)),
        names_cell(*shape, cell),
    ensures
        tracks(*shape, *final(t)),
        flag(final(t).seen, cell.dim as int, cell.pos as int),
        grows(*shape, *old(t), *final(t)),
        final(t).order@ == (if flag(old(t).seen, cell.dim as int, cell.pos as int) { old(t).order@ } else { old(t).order@.push(cell) }),
{
    let d = cell.dim;
    let p = cell.pos;
    proof {
        assert(shape.cell(d as int, p as int));
    }
    if !t.seen[d][p] {
        let ghost old_t = *t;
        let mut row = t.seen[d].clone();
        row.set(p, true);
        t.seen.set(d, row);
        t.order.push(cell);
        proof {
            let n = old_t.order@.len();
            assert(t.order@[n as int] == cell);
            assert forall|k: int, l: int| 0 <= k < l < t.order@.len() implies #[trigger] t.order@[k] != #[trigger] t.order@[l] by {
                if l == n {
                    assert(t.order@[k] == old_t.order@[k]);
                    if old_t.order@[k] == cell {
                        assert(listed(old_t.order@, d as int, p as int));
                    }
                } else {
                    assert(t.order@[k] == old_t.order@[k]);
                    assert(t.order@[l] == old_t.order@[l]);
                }
            }
            assert forall|k: int| 0 <= k < t.order@.len() implies names_cell(*shape, #[trigger] t.order@[k]) by {
                if k < n {
                    assert(t.order@[k] == old_t.order@[k]);
                }
            }
            assert forall|e: int, q: int| #[trigger] shape.cell(e, q) implies (flag(t.seen, e, q) <==> listed(t.order@, e, q)) by {
                if e == d && q == p {
                    assert(flag(t.seen, e, q));
                    assert(t.order@[n as int].dim == e && t.order@[n as int].pos == q);
                } else {
                    if e == d {
                        assert(flag(t.seen, e, q) == flag(old_t.seen, e, q));
                    } else {
                        assert(t.seen@[e] == old_t.seen@[e]);
                    }
                    if listed(t.order@, e, q) {
                        let k = choose|k: int| 0 <= k < t.order@.len() && (#[trigger] t.order@[k]).dim == e && t.order@[k].pos == q;
                        assert(k < n);
                        assert(old_t.order@[k] == t.order@[k]);
                    }
                    if listed(old_t.order@, e, q) {
                        let k = choose|k: int| 0 <= k < old_t.order@.len() && (#[trigger] old_t.order@[k]).dim == e && old_t.order@[k].pos == q;
                        assert(old_t.order@[k] == t.order@[k]);
                    }
                }
            }
            assert forall|e: int| 0 <= e < shape.levels() implies #[trigger] t.seen@[e]@.len() == shape.size(e) by {
                if e != d {
                    assert(t.seen@[e] == old_t.seen@[e]);
                }
            }
            assert forall|e: int, q: int| #[trigger] flag(t.seen, e, q) || !shape.cell(e, q) || !flag(old_t.seen, e, q) by {
                if shape.cell(e, q) && flag(old_t.seen, e, q) {
                    if e == d {
                        assert(flag(t.seen, e, q) == flag(old_t.seen, e, q) || q == p);
                    } else {
                        assert(t.seen@[e] == old_t.seen@[e]);
                    }
                }
            }
        }
    }
}

/// Visit, in order, the images under `e` of the cells of `order`.
fn append_subtraversal(t: &mut PartialTraversal, shape: &Arc<FramedPoset>, order: &Vec<Element>, e: &Embedding)
    requires
        tracks(**shape, *old(t)),
        e.valid(),
        e.cod == *shape,
        forall|k: int| 0 <= k < order@.len() ==> names_cell(*e.dom, #[trigger] order@[k]),
    ensures
        tracks(**shape, *final(t)),
        grows(**shape, *old(t), *final(t)),
        forall|k: int| 0 <= k < order@.len() ==> flag(final(t).seen, order@[k].dim as int, #[trigger] image_of(*e, order@[k]).pos as int),
        forall|q: int| old(t).order@.len() <= q < final(t).order@.len() ==> #[trigger] image_among(*e, order@, final(t).order@[q]),
{
    let ghost start = *t;
    let n = order.len();
    let mut k: usize = 0;
    while k < n
        invariant
            k <= n,
            n == order@.len(),
            start == *old(t),
            tracks(**shape, *t),
            e.valid(),
            e.cod == *shape,
            forall|j: int| 0 <= j < order@.len() ==> names_cell(*e.dom, #[trigger] order@[j]),
            grows(**shape, start, *t),
            forall|i: int| 0 <= i < k ==> flag(t.seen, order@[i].dim as int, #[trigger] image_of(*e, order@[i]).pos as int),
            forall|q: int| start.order@.len() <= q < t.order@.len() ==> #[trigger] image_among(*e, order@, t.order@[q]),
        decreases n - k,
    {
        let c = order[k];
        proof {
            assert(names_cell(*e.dom, order@[k as int]));
        }
        let image = e.apply(c);
        proof {
            assert(at(e.map, c.dim as int, c.pos as int) < e.cod.size(c.dim as int));
            assert(image == image_of(*e, order@[k as int]));
        }
        let ghost before = *t;
        append(t, shape, image);
        proof {
            assert forall|q: int| start.order@.len() <= q < t.order@.len() implies #[trigger] image_among(*e, order@, t.order@[q]) by {
                if q < before.order@.len() {
                    assert(t.order@[q] == before.order@[q]);
                } else {
                    assert(t.order@[q] == image);
                    assert(image == image_of(*e, order@[k as int]));
                }
            }
            lemma_grows_trans(&**shape, start, before, *t);
            assert forall|i: int| 0 <= i < k + 1 implies flag(t.seen, order@[i].dim as int, #[trigger] image_of(*e, order@[i]).pos as int) by {
                if i < k {
                    let im = image_of(*e, order@[i]);
                    assert(names_cell(*e.dom, order@[i]));
                    assert(flag(before.seen, im.dim as int, im.pos as int));
                }
            }
        }
        k = k + 1;
    }
}

/// The cells not visited so far.
fn unvisited_cells(t: &PartialTraversal, shape: &FramedPoset) -> (r: Vec<Element>)
    requires
        tracks(*shape, *t),
    ensures
        r@.len() == 0 <==> forall|d: int, p: int| #[trigger] shape.cell(d, p) ==> flag(t.seen, d, p),
{
    let mut r: Vec<Element> = Vec::new();
    let n = t.seen.len();
    for d in 0..n
        invariant
            tracks(*shape, *t),
            n == shape.levels(),
            r@.len() == 0 ==> forall|e: int, p: int| 0 <= e < d && #[trigger] shape.cell(e, p) ==> flag(t.seen, e, p),
            (forall|e: int, p: int| #[trigger] shape.cell(e, p) ==> flag(t.seen, e, p)) ==> r@.len() == 0,
    {
        let m = t.seen[d].len();
        for p in 0..m
            invariant
                tracks(*shape, *t),
                n == shape.levels(),
                d < n,
                m == shape.size(d as int),
                r@.len() == 0 ==> forall|e: int, q: int| (0 <= e < d || (e == d && q < p)) && #[trigger] shape.cell(e, q) ==> flag(t.seen, e, q),
                (forall|e: int, q: int| #[trigger] shape.cell(e, q) ==> flag(t.seen, e, q)) ==> r@.len() == 0,
        {
            proof {
                assert(shape.cell(d as int, p as int));
            }
            if !t.seen[d][p] {
                r.push(Element { dim: d, pos: p });
            }
        }
    }
    r
}

/// Whether `cell` occurs in `cells`.
fn contains_element(cells: &Vec<Element>, cell: Element) -> (r: bool)
    ensures
        r == cells@.contains(cell),
{
    for k in 0..cells.len()
        invariant
            forall|j: int| 0 <= j < k ==> cells@[j] != cell,
    {
        if cells[k] == cell {
            return true;
        }
    }
    false
}

/// The cells of `cells` not visited so far.
fn unseen_of(t: &PartialTraversal, shape: &FramedPoset, cells: &Vec<Element>) -> (r: Vec<Element>)
    requires
        tracks(*shape, *t),
        forall|k: int| 0 <= k < cells@.len() ==> names_cell(*shape, #[trigger] cells@[k]),
    ensures
        r@.len() == 0 <==> forall|k: int| 0 <= k < cells@.len() ==> flag(t.seen, (#[trigger] cells@[k]).dim as int, cells@[k].pos as int),
{
    let mut r: Vec<Element> = Vec::new();
    for k in 0..cells.len()
        invariant
            tracks(*shape, *t),
            forall|j: int| 0 <= j < cells@.len() ==> names_cell(*shape, #[trigger] cells@[j]),
            r@.len() == 0 <==> forall|j: int| 0 <= j < k ==> flag(t.seen, (#[trigger] cells@[j]).dim as int, cells@[j].pos as int),
    {
        let c = cells[k];
        proof {
            assert(names_cell(*shape, cells@[k as int]));
        }
        if !t.seen[c.dim][c.pos] {
            r.push(c);
        }
    }
    r
}

/// `c` is an unvisited cell of `full_maxima` that is an input coface of
/// `face` whose first basis direction missing from the basis of `face` is
/// `direction`.
spec fn continues(shape: FramedPoset, seen: Vec<Vec<bool>>, face: Element, full_maxima: Seq<Element>, direction: usize, c: Element) -> bool {
    &&& c.dim == face.dim + 1
    &&& shape.cofaces(Sign::Input, face.dim as int, face.pos as int).contains(c.pos)
    &&& full_maxima.contains(c)
    &&& !flag(seen, c.dim as int, c.pos as int)
    &&& exists|k: int| first_new_index(shape.basis_at(face.dim as int, face.pos as int), shape.basis_at(c.dim as int, c.pos as int), k)
        && shape.basis_at(c.dim as int, c.pos as int)[k] == direction
}

/// The unvisited full-frame maximal cells that are input cofaces of `face`
/// covering it in `direction`, in increasing position.
fn continuations(t: &PartialTraversal, shape: &FramedPoset, face: Element, full_maxima: &Vec<Element>, direction: usize) -> (r: Vec<Element>)
    requires
        tracks(*shape, *t),
        shape.valid(),
        names_cell(*shape, face),
    ensures
        forall|k: int| 0 <= k < r@.len() ==> names_cell(*shape, #[trigger] r@[k]) && !flag(t.seen, r@[k].dim as int, r@[k].pos as int),
        forall|c: Element| #[trigger] r@.contains(c) <==> continues(*shape, t.seen, face, full_maxima@, direction, c),
        forall|i: int, j: int| 0 <= i < j < r@.len() ==> (#[trigger] r@[i]).pos < (#[trigger] r@[j]).pos,
{
    let mut r: Vec<Element> = Vec::new();
    let ghost cof = shape.cofaces(Sign::Input, face.dim as int, face.pos as int);
    proof {
        assert(shape.cofaces_in@.len() == shape.basis@.len());
        assert(shape.cofaces_in@[face.dim as int]@.len() == shape.basis@[face.dim as int]@.len());
        assert forall|i: int| 0 <= i < cof.len() implies #[trigger] cof[i] < shape.size(face.dim + 1) by {
            assert(entry(shape.cofaces_in, face.dim as int, face.pos as int)[i] < rows(shape.basis, face.dim + 1));
        }
    }
    if face.dim + 1 >= t.seen.len() {
        proof {
            assert forall|c: Element| #[trigger] r@.contains(c) <==> continues(*shape, t.seen, face, full_maxima@, direction, c) by {
                if cof.contains(c.pos) {
                    let i = choose|i: int| 0 <= i < cof.len() && cof[i] == c.pos;
                    assert(cof[i] < shape.size(face.dim + 1));
                }
            }
        }
        return r;
    }
    let d = face.dim + 1;
    let cofaces = shape.cofaces_of(Sign::Input, face.dim, face.pos);
    proof {
        assert(strictly_sorted(entry(shape.cofaces_in, face.dim as int, face.pos as int)));
    }
    for k in 0..cofaces.len()
        invariant
            tracks(*shape, *t),
            shape.valid(),
            names_cell(*shape, face),
            d == face.dim + 1,
            d < shape.levels(),
            cofaces@ == cof,
            cof == shape.cofaces(Sign::Input, face.dim as int, face.pos as int),
            strictly_sorted(cof),
            forall|i: int| 0 <= i < cof.len() ==> #[trigger] cof[i] < shape.size(face.dim + 1),
            forall|j: int| 0 <= j < r@.len() ==> names_cell(*shape, #[trigger] r@[j]) && !flag(t.seen, r@[j].dim as int, r@[j].pos as int),
            forall|c: Element| #[trigger] r@.contains(c) <==> (continues(*shape, t.seen, face, full_maxima@, direction, c)
                && cof.subrange(0, k as int).contains(c.pos)),
            forall|i: int, j: int| 0 <= i < j < r@.len() ==> (#[trigger] r@[i]).pos < (#[trigger] r@[j]).pos,
    {
        let pos = cofaces[k];
        let cell = Element { dim: d, pos };
        let ghost before = r@;
        let ghost fb = shape.basis_at(face.dim as int, face.pos as int);
        let ghost cb = shape.basis_at(d as int, pos as int);
        proof {
            assert(cof[k as int] < shape.size(face.dim + 1));
            assert(cof.subrange(0, k + 1) == cof.subrange(0, k as int).push(pos));
            assert forall|i: int| 0 <= i < before.len() implies (#[trigger] before[i]).pos < pos by {
                assert(before.contains(before[i]));
                assert(cof.subrange(0, k as int).contains(before[i].pos));
                let m = choose|m: int| 0 <= m < k && #[trigger] cof.subrange(0, k as int)[m] == before[i].pos;
                assert(cof[m] == before[i].pos);
            }
        }
        proof {
            assert(cof.contains(pos)) by {
                assert(cof[k as int] == pos);
            }
        }
        let mut accept = false;
        let in_maxima = contains_element(full_maxima, cell);
        let unseen = !t.seen[d][pos];
        if in_maxima && unseen {
            proof {
                assert(!flag(t.seen, d as int, pos as int));
                assert(full_maxima@.contains(cell));
                assert(fb == shape.basis_at(face.dim as int, face.pos as int));
                assert(cb == shape.basis_at(cell.dim as int, cell.pos as int));
            }
            let first = shape.basis_of_element(face);
            let second = shape.basis_of_element(cell);
            let fs = first.as_slice();
            let ss = second.as_slice();
            proof {
                assert(fs@ == fb);
                assert(ss@ == cb);
            }
            match intset::cover_direction(fs, ss) {
                Ok(v) => {
                    proof {
                        let kk = choose|kk: int| first_new_index(fb, cb, kk) && cb[kk] == v;
                        assert forall|k2: int| first_new_index(fb, cb, k2) implies k2 == kk by {
                            if k2 < kk {
                                assert(fb.contains(cb[k2]));
                            }
                            if kk < k2 {
                                assert(fb.contains(cb[kk]));
                            }
                        }
                        if v == direction {
                            assert(first_new_index(fb, cb, kk) && cb[kk] == direction);
                            assert(exists|k: int| first_new_index(shape.basis_at(face.dim as int, face.pos as int), shape.basis_at(cell.dim as int, cell.pos as int), k)
                                && shape.basis_at(cell.dim as int, cell.pos as int)[k] == direction);
                            assert(cell.dim == face.dim + 1);
                            assert(shape.cofaces(Sign::Input, face.dim as int, face.pos as int).contains(cell.pos));
                            assert(full_maxima@.contains(cell));
                            assert(!flag(t.seen, cell.dim as int, cell.pos as int));
                            assert(continues(*shape, t.seen, face, full_maxima@, direction, cell));
                        }
                    }
                    if v == direction {
                        accept = true;
                        proof {
                            assert(continues(*shape, t.seen, face, full_maxima@, direction, cell));
                        }
                    } else {
                        proof {
                            assert(!continues(*shape, t.seen, face, full_maxima@, direction, cell));
                        }
                    }
                },
                Err(_) => {
                    proof {
                        assert forall|k2: int| !first_new_index(fb, cb, k2) by {
                            if first_new_index(fb, cb, k2) {
                                assert(cb.contains(cb[k2]));
                            }
                        }
                        assert(!continues(*shape, t.seen, face, full_maxima@, direction, cell));
                    }
                },
            }
        } else {
            proof {
                assert(unseen == !flag(t.seen, d as int, pos as int));
                assert(!continues(*shape, t.seen, face, full_maxima@, direction, cell));
            }
        }
        proof {
            assert(accept == continues(*shape, t.seen, face, full_maxima@, direction, cell));
        }
        if accept {
            r.push(cell);
        }
        proof {
            let sk = cof.subrange(0, k as int);
            let sk1 = cof.subrange(0, k + 1);
            assert(!sk.contains(pos)) by {
                if sk.contains(pos) {
                    let m = choose|m: int| 0 <= m < k && #[trigger] sk[m] == pos;
                    assert(cof[m] == cof[k as int]);
                }
            }
            assert forall|c: Element| #[trigger] r@.contains(c) <==> (before.contains(c) || (accept && c == cell)) by {
                if r@.contains(c) {
                    let i = choose|i: int| 0 <= i < r@.len() && r@[i] == c;
                    if i < before.len() {
                        assert(before[i] == c);
                    }
                }
                if before.contains(c) {
                    let i = choose|i: int| 0 <= i < before.len() && before[i] == c;
                    assert(r@[i] == c);
                }
                if accept && c == cell {
                    assert(r@[before.len() as int] == c);
                }
            }
            assert forall|q: usize| #[trigger] sk1.contains(q) <==> (sk.contains(q) || q == pos) by {
                if sk1.contains(q) {
                    let m = choose|m: int| 0 <= m < k + 1 && sk1[m] == q;
                    if m < k {
                        assert(sk[m] == q);
                    }
                }
                if sk.contains(q) {
                    let m = choose|m: int| 0 <= m < k && sk[m] == q;
                    assert(sk1[m] == q);
                }
                if q == pos {
                    assert(sk1[k as int] == q);
                }
            }
            assert forall|c: Element| #[trigger] r@.contains(c) <==> (continues(*shape, t.seen, face, full_maxima@, direction, c)
                && sk1.contains(c.pos)) by {
                assert(sk1.contains(c.pos) <==> (sk.contains(c.pos) || c.pos == pos));
                assert(before.contains(c) <==> (continues(*shape, t.seen, face, full_maxima@, direction, c) && sk.contains(c.pos)));
                if c.pos == pos {
                    if continues(*shape, t.seen, face, full_maxima@, direction, c) {
                        assert(c == cell);
                    }
                } else {
                    assert(c != cell);
                }
            }
            assert forall|j: int| 0 <= j < r@.len() implies names_cell(*shape, #[trigger] r@[j]) && !flag(t.seen, r@[j].dim as int, r@[j].pos as int) by {
                if j < before.len() {
                    assert(r@[j] == before[j]);
                }
            }
        }
    }
    proof {
        assert(cof.subrange(0, cof.len() as int) == cof);
    }
    r
}

/// Flags marking the one cell `cell` of `shape`.
fn single_cell_flags(shape: &FramedPoset, cell: Element) -> (keep: Vec<Vec<bool>>)
    requires
        names_cell(*shape, cell),
    ensures
        keep@.len() == shape.levels(),
        forall|d: int| 0 <= d < shape.levels() ==> #[trigger] keep@[d]@.len() == shape.size(d),
        forall|d: int, p: int| #[trigger] shape.cell(d, p) ==> (flag(keep, d, p) <==> (d == cell.dim && p == cell.pos)),
{
    let sizes = shape.sizes();
    let n = sizes.len();
    let mut keep: Vec<Vec<bool>> = Vec::new();
    for d in 0..n
        invariant
            n == shape.levels(),
            sizes@ == shape.size_seq(),
            names_cell(*shape, cell),
            keep@.len() == d,
            forall|e: int| 0 <= e < d ==> #[trigger] keep@[e]@.len() == shape.size(e),
            forall|e: int, p: int| 0 <= e < d && 0 <= p < shape.size(e) ==> (#[trigger] flag(keep, e, p) <==> (e == cell.dim && p == cell.pos)),
    {
        let size = sizes[d];
        let mut row: Vec<bool> = Vec::new();
        for q in 0..size
            invariant
                row@.len() == q,
                forall|i: int| 0 <= i < q ==> !#[trigger] row@[i],
        {
            row.push(false);
        }
        let ghost blank = row@;
        if d == cell.dim {
            row.set(cell.pos, true);
        }
        proof {
            assert(size == shape.size(d as int));
            assert forall|p: int| 0 <= p < size implies (#[trigger] row@[p] <==> (d as int == cell.dim as int && p == cell.pos as int)) by {
                if d == cell.dim {
                    assert(row@ == blank.update(cell.pos as int, true));
                } else {
                    assert(row@ == blank);
                }
            }
        }
        let ghost before = keep;
        let ghost pushed = row@;
        keep.push(row);
        proof {
            assert forall|e: int| 0 <= e < d + 1 implies #[trigger] keep@[e]@.len() == shape.size(e) by {
                if e < d {
                    assert(keep@[e] == before@[e]);
                }
            }
            assert forall|e: int, p: int| 0 <= e < d + 1 && 0 <= p < shape.size(e) implies (#[trigger] flag(keep, e, p) <==> (e == cell.dim && p == cell.pos)) by {
                if e < d {
                    assert(keep@[e] == before@[e]);
                    assert(flag(before, e, p) <==> (e == cell.dim && p == cell.pos));
                } else {
                    assert(e == d as int);
                    assert(keep@[e]@ == pushed);
                    assert(pushed[p] <==> (d as int == cell.dim as int && p == cell.pos as int));
                }
            }
        }
    }
    keep
}

/// A cell reached from flags that mark only `(d0, p0)`, at a level no lower
/// than `d0`, is that cell.
proof fn lemma_reach_single(x: FramedPoset, keep: spec_fn(int, int) -> bool, d0: int, p0: int, d: int, j: int)
    requires
        forall|e: int, p: int| #[trigger] x.cell(e, p) && keep(e, p) ==> e == d0 && p == p0,
        x.cell(d, j),
        reach(x, keep, d, j),
        d >= d0,
    ensures
        d == d0,
        j == p0,
    decreases x.levels() - d,
{
    if !keep(d, j) {
        let c = choose|c: int| #[trigger] crate::poset::lower_face(x, d, j, c) && reach(x, keep, d + 1, c);
        lemma_reach_single(x, keep, d0, p0, d + 1, c);
    }
}

/// Counting cells up to a level gives no negative number.
proof fn lemma_upto_nonneg(x: FramedPoset, n: int)
    ensures
        cells_upto(x, n) >= 0,
    decreases n,
{
    if n > 0 {
        lemma_upto_nonneg(x, n - 1);
    }
}

/// No cells up to level `n`: every level below `n` is empty.
proof fn lemma_upto_zero(x: FramedPoset, n: int)
    requires
        cells_upto(x, n) == 0,
    ensures
        forall|e: int| 0 <= e < n ==> #[trigger] x.size(e) == 0,
    decreases n,
{
    if n > 0 {
        lemma_upto_nonneg(x, n - 1);
        lemma_upto_zero(x, n - 1);
    }
}

/// One cell up to level `n`: it is alone at some level `d` below `n`.
proof fn lemma_one_cell(x: FramedPoset, n: int) -> (d: int)
    requires
        cells_upto(x, n) == 1,
    ensures
        0 <= d < n,
        x.size(d) == 1,
        forall|e: int| 0 <= e < n && e != d ==> #[trigger] x.size(e) == 0,
    decreases n,
{
    if n <= 0 {
        assert(false);
        0
    } else {
        lemma_upto_nonneg(x, n - 1);
        if x.size(n - 1) == 0 {
            lemma_one_cell(x, n - 1)
        } else {
            lemma_upto_zero(x, n - 1);
            n - 1
        }
    }
}

/// A valid framed poset with a single cell has that cell as its only
/// maximal cell.
proof fn lemma_single_cell_greatest(x: FramedPoset) -> (d: int)
    requires
        x.valid(),
        cell_total(x) == 1,
    ensures
        x.only_maximal(d, 0),
        forall|e: int, q: int| #[trigger] x.cell(e, q) ==> e == d && q == 0,
{
    let d = lemma_one_cell(x, x.levels());
    assert(x.cell(d, 0));
    assert forall|s: Sign| #[trigger] x.cofaces(s, d, 0).len() == 0 by {
        if x.cofaces(s, d, 0).len() > 0 {
            let c = x.cofaces(s, d, 0)[0];
            assert(c < rows(x.basis, d + 1));
            if d + 1 < x.levels() {
                assert(x.size(d + 1) == 0);
            }
        }
    }
    assert(x.cofaces(Sign::Input, d, 0).len() == 0);
    assert(x.cofaces(Sign::Output, d, 0).len() == 0);
    assert forall|e: int, q: int| #[trigger] x.cell(e, q) implies e == d && q == 0 by {
        if e != d {
            assert(x.size(e) == 0);
        }
    }
    d
}

/// A cell reached from the plain `sign` boundary in an active direction of
/// `frame` is not a full-frame maximal cell.
proof fn lemma_boundary_not_full(x: FramedPoset, frame: Seq<usize>, sign: Sign, v: usize, c: Element)
    requires
        x.framed(),
        frame.contains(v),
        x.cell(c.dim as int, c.pos as int),
        reach(x, |e: int, q: int| boundary_cell(x, BoundaryMode::Plain, sign, v, e, q), c.dim as int, c.pos as int),
    ensures
        !full_frame_cell(x, frame, c),
{
    crate::rigid::lemma_reach_avoids(x, BoundaryMode::Plain, sign, v, c.dim as int, c.pos as int);
}

/// Listing more cells, none of them full-frame maximal, keeps
/// [`walked_from`].
proof fn lemma_walked_extend(shape: FramedPoset, frame: Seq<usize>, direction: usize, from: int, before: Seq<Element>, after: Seq<Element>)
    requires
        walked_from(shape, before, from, frame, direction),
        0 <= from <= before.len() <= after.len(),
        forall|j: int| 0 <= j < before.len() ==> #[trigger] after[j] == before[j],
        forall|q: int| before.len() <= q < after.len() ==> !#[trigger] full_frame_cell(shape, frame, after[q]),
    ensures
        walked_from(shape, after, from, frame, direction),
{
    assert forall|q: int| from <= q < after.len() && #[trigger] full_frame_cell(shape, frame, after[q])
        implies exists|s: int| from <= s <= q && #[trigger] earliest_continuation(shape, after.take(s), frame, direction, after[q]) by {
        assert(q < before.len());
        assert(after[q] == before[q]);
        assert(full_frame_cell(shape, frame, before[q]));
        let s = choose|s: int| from <= s <= q && #[trigger] earliest_continuation(shape, before.take(s), frame, direction, before[q]);
        assert forall|j: int| 0 <= j < s implies after.take(s)[j] == before.take(s)[j] by {
            assert(after[j] == before[j]);
        }
        assert(after.take(s) =~= before.take(s));
        assert(earliest_continuation(shape, after.take(s), frame, direction, after[q]));
    }
}

/// The law of the walk over a whole listing: no full-frame maximal cell is
/// listed before position `from`, and each one listed after it was, when
/// chosen, the continuation of the earliest listed cell that has one.
pub open spec fn walk_law(shape: FramedPoset, order: Seq<Element>, frame: Seq<usize>, from: int) -> bool {
    &&& 0 <= from <= order.len()
    &&& forall|q: int| 0 <= q < from ==> !#[trigger] full_frame_cell(shape, frame, order[q])
    &&& walked_from(shape, order, from, frame, frame.last())
}

/// For an oriented framed poset with active directions and without a
/// greatest element, listed as `order`: with `frame` its active directions,
/// the full-frame maximal cells come after some position `from` and each
/// was reached, in the last direction of `frame`, from the earliest listed
/// cell that it continues.
pub open spec fn walks_earliest(shape: FramedPoset, order: Seq<Element>) -> bool {
    shape.framed() && (forall|d: int, p: int| !shape.only_maximal(d, p)) && (exists|v: usize| shape.is_active(v))
        ==> exists|frame: Seq<usize>, from: int| #[trigger] walk_law(shape, order, frame, from) && crate::cubularity::lists_active(shape, frame)
}

/// The traversal of an oriented framed poset with active directions and no
/// greatest element reaches each full-frame maximal cell from the earliest
/// visited cell that it continues: for the cells listed before some point
/// not after it, it continues, in the last active direction, the first of
/// them that has a continuation.
pub proof fn law_traversal_walks_earliest(shape: FramedPoset, order: Seq<Element>, frame: Seq<usize>)
    requires
        walks_earliest(shape, order),
        shape.framed(),
        forall|d: int, p: int| !shape.only_maximal(d, p),
        crate::cubularity::lists_active(shape, frame),
        frame.len() > 0,
    ensures
        forall|q: int| 0 <= q < order.len() && #[trigger] full_frame_cell(shape, frame, order[q])
            ==> exists|s: int| 0 <= s <= q && #[trigger] earliest_continuation(shape, order.take(s), frame, frame.last(), order[q]),
{
    assert(frame.contains(frame[0]));
    assert(shape.is_active(frame[0]));
    let (fr, from) = choose|fr: Seq<usize>, from: int| #[trigger] walk_law(shape, order, fr, from) && crate::cubularity::lists_active(shape, fr);
    crate::intset::lemma_sorted_same_elements(fr, frame);
    assert(fr == frame);
    assert forall|q: int| 0 <= q < order.len() && #[trigger] full_frame_cell(shape, frame, order[q])
        implies exists|s: int| 0 <= s <= q && #[trigger] earliest_continuation(shape, order.take(s), frame, frame.last(), order[q]) by {
        if q < from {
            assert(!full_frame_cell(shape, frame, order[q]));
        } else {
            let s = choose|s: int| from <= s <= q && #[trigger] earliest_continuation(shape, order.take(s), frame, frame.last(), order[q]);
        }
    }
}

/// Traverse a framed poset, as [`traversal_order`] does.
fn traverse_shape(shape: &Arc<FramedPoset>) -> (r: Result<Vec<Element>, TraversalError>)
    requires
        shape.valid(),
        cell_total(**shape) <= usize::MAX,
    ensures
        r matches Ok(o) ==> lists_cells(**shape, o@),
        cell_total(**shape) == 0 ==> (r matches Ok(o) && o@.len() == 0),
        cell_total(**shape) == 1 && (forall|v: usize| !shape.is_active(v)) ==> (r matches Ok(o) && o@.len() == 1),
        r matches Ok(o) ==> walks_earliest(**shape, o@),
    decreases cell_total(**shape), 1int,
{
    let total_cells = crate::pushout::total_cells(shape);
    if total_cells == 0 {
        proof {
            assert forall|d: int, p: int| #[trigger] shape.cell(d, p) implies listed(Seq::<Element>::empty(), d, p) by {
                lemma_cell_counted(**shape, d);
            }
            if exists|v: usize| shape.is_active(v) {
                let v = choose|v: usize| shape.is_active(v);
                let (d, p) = choose|d: int, p: int| shape.cell(d, p) && #[trigger] shape.basis_at(d, p).contains(v);
                let x = **shape;
                lemma_cell_counted(x, d);
            }
        }
        return Ok(Vec::new());
    }
    let frame = shape.active_directions();
    let ghost mut single = false;
    proof {
        let x = **shape;
        single = cell_total(x) == 1 && (forall|v: usize| !shape.is_active(v));
        if single && frame@.len() > 0 {
            assert(frame@.contains(frame@[0]));
            assert(shape.is_active(frame@[0]));
            assert(false);
        }
    }
    let mut t = new_traversal(shape);
    for j in 0..frame.len()
        invariant
            shape.valid(),
            total_cells == cell_total(**shape),
            total_cells > 0,
            tracks(**shape, t),
            single ==> frame@.len() == 0 && t.order@.len() == 0,
            single == (cell_total(**shape) == 1 && (forall|v: usize| !shape.is_active(v))),
            shape.framed() ==> forall|q: int| 0 <= q < t.order@.len() ==> !#[trigger] full_frame_cell(**shape, frame@, t.order@[q]),
    {
        let ghost before = t;
        match append_boundary(&mut t, shape, Sign::Input, frame[j], total_cells) {
            Ok(()) => {},
            Err(e) => return Err(e),
        }
        proof {
            if shape.framed() {
                let x = **shape;
                assert(frame@.contains(frame@[j as int]));
                assert forall|q: int| 0 <= q < t.order@.len() implies !#[trigger] full_frame_cell(x, frame@, t.order@[q]) by {
                    if q < before.order@.len() {
                        assert(t.order@[q] == before.order@[q]);
                    } else {
                        assert(names_cell(x, t.order@[q]));
                        lemma_boundary_not_full(x, frame@, Sign::Input, frame@[j as int], t.order@[q]);
                    }
                }
            }
        }
    }
    let ghost from = t.order@.len() as int;
    let ghost law_on = shape.framed() && (forall|d: int, p: int| !shape.only_maximal(d, p)) && frame@.len() > 0;
    let ghost mut single_cell: int = 0;
    proof {
        if single {
            let x = **shape;
            single_cell = lemma_single_cell_greatest(x);
        }
    }
    match shape.greatest_element() {
        Some(greatest) => {
            proof {
                if single {
                    assert(shape.cell(greatest.dim as int, greatest.pos as int));
                    assert(!flag(t.seen, greatest.dim as int, greatest.pos as int));
                }
            }
            append(&mut t, shape, greatest);
        },
        None => {
            proof {
                if single {
                    assert(shape.only_maximal(single_cell, 0));
                }
            }
            if frame.len() > 0 {
                let last = frame[frame.len() - 1];
                match walk_maximal_cells(&mut t, shape, &frame, last, total_cells) {
                    Ok(()) => {},
                    Err(e) => return Err(e),
                }
                proof {
                    assert(last == frame@.last());
                }
            }
        },
    }
    proof {
        if law_on {
            assert(t.order@.len() >= from);
            assert(walked_from(**shape, t.order@, from, frame@, frame@.last()));
        }
    }
    proof {
        if single {
            assert(t.order@.len() == 1);
            assert forall|e: int, q: int| #[trigger] shape.cell(e, q) implies flag(t.seen, e, q) by {
                assert(e == single_cell && q == 0);
            }
        }
    }
    for j in 0..frame.len()
        invariant
            shape.valid(),
            total_cells == cell_total(**shape),
            total_cells > 0,
            tracks(**shape, t),
            single ==> frame@.len() == 0 && t.order@.len() == 1,
            single ==> forall|e: int, q: int| #[trigger] shape.cell(e, q) ==> flag(t.seen, e, q),
            single == (cell_total(**shape) == 1 && (forall|v: usize| !shape.is_active(v))),
            law_on == (shape.framed() && (forall|d: int, p: int| !shape.only_maximal(d, p)) && frame@.len() > 0),
            law_on ==> walk_law(**shape, t.order@, frame@, from),
    {
        let ghost before = t;
        match append_boundary(&mut t, shape, Sign::Output, frame[j], total_cells) {
            Ok(()) => {},
            Err(e) => return Err(e),
        }
        proof {
            if law_on {
                let x = **shape;
                assert(frame@.contains(frame@[j as int]));
                assert forall|q: int| before.order@.len() <= q < t.order@.len() implies !#[trigger] full_frame_cell(x, frame@, t.order@[q]) by {
                    assert(names_cell(x, t.order@[q]));
                    lemma_boundary_not_full(x, frame@, Sign::Output, frame@[j as int], t.order@[q]);
                }
                lemma_walked_extend(x, frame@, frame@.last(), from, before.order@, t.order@);
                assert forall|q: int| 0 <= q < from implies !#[trigger] full_frame_cell(x, frame@, t.order@[q]) by {
                    assert(t.order@[q] == before.order@[q]);
                }
            }
        }
    }
    let unvisited = unvisited_cells(&t, shape);
    if unvisited.len() > 0 {
        return Err(TraversalError::Incomplete { cells: unvisited });
    }
    proof {
        if shape.framed() && (forall|d: int, p: int| !shape.only_maximal(d, p)) && (exists|v: usize| shape.is_active(v)) {
            let v = choose|v: usize| shape.is_active(v);
            assert(frame@.contains(v));
            assert(law_on);
            assert(walk_law(**shape, t.order@, frame@, from) && crate::cubularity::lists_active(**shape, frame@));
            assert(exists|fr: Seq<usize>, f: int| #[trigger] walk_law(**shape, t.order@, fr, f) && crate::cubularity::lists_active(**shape, fr));
        }
        assert(walks_earliest(**shape, t.order@));
    }
    Ok(t.order)
}

/// Visit the traversal of the `sign` boundary in `direction`.
fn append_boundary(t: &mut PartialTraversal, shape: &Arc<FramedPoset>, sign: Sign, direction: usize, parent_cells: usize)
    -> (r: Result<(), TraversalError>)
    requires
        tracks(**shape, *old(t)),
        shape.valid(),
        parent_cells == cell_total(**shape),
    ensures
        tracks(**shape, *final(t)),
        grows(**shape, *old(t), *final(t)),
        r is Ok ==> forall|d: int, p: int| #[trigger] shape.cell(d, p)
            && reach(**shape, |e: int, q: int| boundary_cell(**shape, BoundaryMode::Plain, sign, direction, e, q), d, p)
            ==> flag(final(t).seen, d, p),
        forall|q: int| old(t).order@.len() <= q < final(t).order@.len() ==> reach(**shape,
            |e: int, q: int| boundary_cell(**shape, BoundaryMode::Plain, sign, direction, e, q),
            (#[trigger] final(t).order@[q]).dim as int, final(t).order@[q].pos as int),
    decreases parent_cells, 0int,
{
    let (boundary_shape, into_parent) = boundary(BoundaryMode::Plain, sign, direction, shape);
    let count = match checked_cell_total(&boundary_shape) {
        Some(c) => c,
        None => return Err(TraversalError::BoundaryDidNotDecrease { sign, direction, cells: parent_cells }),
    };
    if count >= parent_cells {
        return Err(TraversalError::BoundaryDidNotDecrease { sign, direction, cells: parent_cells });
    }
    let order = match traverse_shape(&boundary_shape) {
        Ok(o) => o,
        Err(e) => return Err(e),
    };
    let ghost before = *t;
    append_subtraversal(t, shape, &order, &into_parent);
    proof {
        let x = **shape;
        assert forall|q: int| before.order@.len() <= q < t.order@.len() implies reach(x,
            |e: int, q: int| boundary_cell(x, BoundaryMode::Plain, sign, direction, e, q),
            (#[trigger] t.order@[q]).dim as int, t.order@[q].pos as int) by {
            assert(image_among(into_parent, order@, t.order@[q]));
            let j = choose|j: int| 0 <= j < order@.len() && t.order@[q] == #[trigger] image_of(into_parent, order@[j]);
            let c0 = order@[j];
            assert(names_cell(*into_parent.dom, c0));
            assert(in_image(into_parent.map, c0.dim as int, t.order@[q].pos as int));
            assert(names_cell(x, t.order@[q]));
        }
        assert forall|d: int, p: int| #[trigger] shape.cell(d, p)
            && reach(x, |e: int, q: int| boundary_cell(x, BoundaryMode::Plain, sign, direction, e, q), d, p)
            implies flag(t.seen, d, p) by {
            assert(in_image(into_parent.map, d, p));
            let i = choose|i: int| 0 <= d < into_parent.map@.len() && 0 <= i < into_parent.map@[d]@.len() && #[trigger] at(into_parent.map, d, i) == p;
            assert(boundary_shape.cell(d, i));
            assert(listed(order@, d, i));
            let k = choose|k: int| 0 <= k < order@.len() && (#[trigger] order@[k]).dim == d && order@[k].pos == i;
            assert(image_of(into_parent, order@[k]).pos == p);
        }
    }
    Ok(())
}

/// `c` is a full-frame maximal cell of `shape` for `frame`: a cell at level
/// `frame.len()` whose basis is `frame`.
pub open spec fn full_frame_cell(shape: FramedPoset, frame: Seq<usize>, c: Element) -> bool {
    &&& c.dim == frame.len()
    &&& shape.cell(c.dim as int, c.pos as int)
    &&& shape.basis_at(c.dim as int, c.pos as int) == frame
}

/// With the cells of `order` visited, `c` continues `face` in `direction`:
/// `c` is an unvisited full-frame maximal cell that has `face` as an input
/// face, and `direction` is the first direction of the basis of `c` missing
/// from the basis of `face`.
pub open spec fn continues_in(shape: FramedPoset, order: Seq<Element>, frame: Seq<usize>, direction: usize, face: Element, c: Element) -> bool {
    &&& full_frame_cell(shape, frame, c)
    &&& c.dim == face.dim + 1
    &&& shape.cofaces(Sign::Input, face.dim as int, face.pos as int).contains(c.pos)
    &&& !listed(order, c.dim as int, c.pos as int)
    &&& exists|k: int| first_new_index(shape.basis_at(face.dim as int, face.pos as int), shape.basis_at(c.dim as int, c.pos as int), k)
        && shape.basis_at(c.dim as int, c.pos as int)[k] == direction
}

/// With the cells of `order` visited, `face` has a continuation.
pub open spec fn has_continuation_in(shape: FramedPoset, order: Seq<Element>, frame: Seq<usize>, direction: usize, face: Element) -> bool {
    exists|c: Element| #[trigger] continues_in(shape, order, frame, direction, face, c)
}

/// `c` continues the earliest entry of `order` that has a continuation.
pub open spec fn earliest_continuation(shape: FramedPoset, order: Seq<Element>, frame: Seq<usize>, direction: usize, c: Element) -> bool {
    exists|i: int| 0 <= i < order.len() && #[trigger] continues_in(shape, order, frame, direction, order[i], c)
        && forall|j: int| 0 <= j < i ==> !#[trigger] has_continuation_in(shape, order, frame, direction, order[j])
}

/// Every full-frame maximal cell listed in `order` from position `from` on
/// continues, for the cells listed before some point after `from` and not
/// after it, the earliest of them that has a continuation.
pub open spec fn walked_from(shape: FramedPoset, order: Seq<Element>, from: int, frame: Seq<usize>, direction: usize) -> bool {
    forall|q: int| from <= q < order.len() && #[trigger] full_frame_cell(shape, frame, order[q])
        ==> exists|s: int| from <= s <= q && #[trigger] earliest_continuation(shape, order.take(s), frame, direction, order[q])
}

/// The cells that `full_maxima` holds are the full-frame maximal cells.
proof fn lemma_full_maxima(shape: FramedPoset, full_maxima: Seq<Element>, frame: Seq<usize>, c: Element)
    requires
        forall|k: int| 0 <= k < full_maxima.len() ==> full_frame_cell(shape, frame, #[trigger] full_maxima[k]),
        forall|p: int| #[trigger] shape.cell(frame.len() as int, p) && shape.basis_at(frame.len() as int, p) == frame
            ==> full_maxima.contains(Element { dim: frame.len() as usize, pos: p as usize }),
    ensures
        full_maxima.contains(c) <==> full_frame_cell(shape, frame, c),
{
    if full_maxima.contains(c) {
        let k = choose|k: int| 0 <= k < full_maxima.len() && full_maxima[k] == c;
        assert(full_frame_cell(shape, frame, full_maxima[k]));
    }
    if full_frame_cell(shape, frame, c) {
        assert(shape.cell(frame.len() as int, c.pos as int));
    }
}

/// With `t` tracking the visited cells, the continuations that
/// [`continuations`] computes are those of [`continues_in`].
proof fn lemma_continues_in(shape: FramedPoset, t: PartialTraversal, full_maxima: Seq<Element>, frame: Seq<usize>, direction: usize,
    face: Element, c: Element)
    requires
        tracks(shape, t),
        forall|k: int| 0 <= k < full_maxima.len() ==> full_frame_cell(shape, frame, #[trigger] full_maxima[k]),
        forall|p: int| #[trigger] shape.cell(frame.len() as int, p) && shape.basis_at(frame.len() as int, p) == frame
            ==> full_maxima.contains(Element { dim: frame.len() as usize, pos: p as usize }),
    ensures
        continues(shape, t.seen, face, full_maxima, direction, c) <==> continues_in(shape, t.order@, frame, direction, face, c),
{
    lemma_full_maxima(shape, full_maxima, frame, c);
    if full_frame_cell(shape, frame, c) {
        assert(shape.cell(c.dim as int, c.pos as int));
    }
}

/// A round of the walk keeps [`walked_from`]: the cells it adds before the
/// chosen one are not full-frame maximal, and the chosen one is the earliest
/// continuation for the cells listed when it was chosen.
proof fn lemma_walk_round(shape: FramedPoset, frame: Seq<usize>, direction: usize, from: int, before: Seq<Element>, after: Seq<Element>,
    cell: Element)
    requires
        walked_from(shape, before, from, frame, direction),
        0 <= from <= before.len() <= after.len(),
        forall|j: int| 0 <= j < before.len() ==> #[trigger] after[j] == before[j],
        earliest_continuation(shape, before, frame, direction, cell),
        forall|q: int| before.len() <= q < after.len() && #[trigger] full_frame_cell(shape, frame, after[q]) ==> after[q] == cell,
    ensures
        walked_from(shape, after, from, frame, direction),
{
    assert forall|q: int| from <= q < after.len() && #[trigger] full_frame_cell(shape, frame, after[q])
        implies exists|s: int| from <= s <= q && #[trigger] earliest_continuation(shape, after.take(s), frame, direction, after[q]) by {
        if q < before.len() {
            assert(after[q] == before[q]);
            assert(full_frame_cell(shape, frame, before[q]));
            let s = choose|s: int| from <= s <= q && #[trigger] earliest_continuation(shape, before.take(s), frame, direction, before[q]);
            assert forall|j: int| 0 <= j < s implies after.take(s)[j] == before.take(s)[j] by {
                assert(after[j] == before[j]);
            }
            assert(after.take(s) =~= before.take(s));
            assert(earliest_continuation(shape, after.take(s), frame, direction, after[q]));
        } else {
            assert(after.take(before.len() as int) =~= before);
            assert(earliest_continuation(shape, after.take(before.len() as int), frame, direction, after[q]));
        }
    }
}

/// Reach the full-frame maximal cells one at a time, each from the earliest
/// visited face that it covers in `direction`, visiting the traversal of its
/// closure.
fn walk_maximal_cells(t: &mut PartialTraversal, shape: &Arc<FramedPoset>, frame: &IntSet, direction: usize, parent_cells: usize)
    -> (r: Result<(), TraversalError>)
    requires
        tracks(**shape, *old(t)),
        shape.valid(),
        parent_cells == cell_total(**shape),
    ensures
        tracks(**shape, *final(t)),
        grows(**shape, *old(t), *final(t)),
        r is Ok ==> forall|p: int| #[trigger] shape.cell(frame@.len() as int, p) && shape.basis_at(frame@.len() as int, p) == frame@
            ==> flag(final(t).seen, frame@.len() as int, p),
        walked_from(**shape, final(t).order@, old(t).order@.len() as int, frame@, direction),
    decreases parent_cells, 0int,
{
    let ghost start = *t;
    let full_dim = frame.len();
    let mut full_maxima: Vec<Element> = Vec::new();
    if full_dim < shape.basis.len() {
        let m = shape.basis[full_dim].len();
        for pos in 0..m
            invariant
                full_dim == frame@.len(),
                full_dim < shape.levels(),
                m == shape.size(full_dim as int),
                forall|k: int| 0 <= k < full_maxima@.len() ==> full_frame_cell(**shape, frame@, #[trigger] full_maxima@[k]),
                forall|p: int| 0 <= p < pos && shape.basis_at(full_dim as int, p) == frame@
                    ==> full_maxima@.contains(Element { dim: full_dim, pos: p as usize }),
        {
            let ghost before = full_maxima@;
            if crate::poset::sets_equal(shape.basis[full_dim][pos].as_slice(), frame.as_slice()) {
                proof {
                    assert(shape.basis_at(full_dim as int, pos as int) == shape.basis@[full_dim as int]@[pos as int]@);
                }
                full_maxima.push(Element { dim: full_dim, pos });
                proof {
                    assert forall|k: int| 0 <= k < full_maxima@.len() implies full_frame_cell(**shape, frame@, #[trigger] full_maxima@[k]) by {
                        if k < before.len() {
                            assert(full_maxima@[k] == before[k]);
                        }
                    }
                }
            }
            proof {
                assert forall|p: int| 0 <= p < pos + 1 && shape.basis_at(full_dim as int, p) == frame@
                    implies full_maxima@.contains(Element { dim: full_dim, pos: p as usize }) by {
                    if p < pos {
                        let j = choose|j: int| 0 <= j < before.len() && before[j] == Element { dim: full_dim, pos: p as usize };
                        assert(full_maxima@[j] == before[j]);
                    } else {
                        assert(full_maxima@[before.len() as int] == Element { dim: full_dim, pos: p as usize });
                    }
                }
            }
        }
    }
    proof {
        assert forall|p: int| #[trigger] shape.cell(full_dim as int, p) && shape.basis_at(full_dim as int, p) == frame@
            implies full_maxima@.contains(Element { dim: full_dim, pos: p as usize }) by {}
    }
    let rounds = full_maxima.len();
    let mut round: usize = 0;
    while round < rounds
        invariant
            tracks(**shape, *t),
            shape.valid(),
            parent_cells == cell_total(**shape),
            start == *old(t),
            grows(**shape, start, *t),
            full_dim == frame@.len(),
            forall|k: int| 0 <= k < full_maxima@.len() ==> names_cell(**shape, #[trigger] full_maxima@[k]),
            forall|k: int| 0 <= k < full_maxima@.len() ==> full_frame_cell(**shape, frame@, #[trigger] full_maxima@[k]),
            forall|p: int| #[trigger] shape.cell(full_dim as int, p) && shape.basis_at(full_dim as int, p) == frame@
                ==> full_maxima@.contains(Element { dim: full_dim, pos: p as usize }),
            walked_from(**shape, t.order@, start.order@.len() as int, frame@, direction),
        decreases rounds - round,
    {
        if unseen_of(t, shape, &full_maxima).len() == 0 {
            proof {
                lemma_maxima_seen(&**shape, *t, full_maxima@, frame@, full_dim);
            }
            return Ok(());
        }
        let mut continuation: Option<Element> = None;
        let n = t.order.len();
        let mut k: usize = 0;
        while k < n && continuation.is_none()
            invariant
                tracks(**shape, *t),
                grows(**shape, start, *t),
                start == *old(t),
                shape.valid(),
                n == t.order@.len(),
                k <= n,
                continuation matches Some(c) ==> names_cell(**shape, c),
                full_dim == frame@.len(),
                forall|j: int| 0 <= j < full_maxima@.len() ==> full_frame_cell(**shape, frame@, #[trigger] full_maxima@[j]),
                forall|p: int| #[trigger] shape.cell(full_dim as int, p) && shape.basis_at(full_dim as int, p) == frame@
                    ==> full_maxima@.contains(Element { dim: full_dim, pos: p as usize }),
                walked_from(**shape, t.order@, start.order@.len() as int, frame@, direction),
                continuation is None ==> forall|j: int| 0 <= j < k ==> !#[trigger] has_continuation_in(**shape, t.order@, frame@, direction, t.order@[j]),
                continuation matches Some(c) ==> earliest_continuation(**shape, t.order@, frame@, direction, c),
            decreases n - k,
        {
            let face = t.order[k];
            proof {
                assert(names_cell(**shape, t.order@[k as int]));
            }
            let candidates = continuations(t, shape, face, &full_maxima, direction);
            if candidates.len() > 1 {
                return Err(TraversalError::AmbiguousContinuation { direction, face, cells: candidates });
            }
            if candidates.len() == 1 {
                proof {
                    assert(names_cell(**shape, candidates@[0]));
                    let c = candidates@[0];
                    assert(candidates@.contains(c));
                    let sx = **shape;
                    lemma_continues_in(sx, *t, full_maxima@, frame@, direction, face, c);
                    assert(continues_in(**shape, t.order@, frame@, direction, t.order@[k as int], c));
                }
                continuation = Some(candidates[0]);
            } else {
                proof {
                    assert forall|c: Element| !#[trigger] continues_in(**shape, t.order@, frame@, direction, face, c) by {
                        let sx = **shape;
                        lemma_continues_in(sx, *t, full_maxima@, frame@, direction, face, c);
                        if continues_in(**shape, t.order@, frame@, direction, face, c) {
                            assert(candidates@.contains(c));
                        }
                    }
                    assert(!has_continuation_in(**shape, t.order@, frame@, direction, t.order@[k as int]));
                }
            }
            k = k + 1;
        }
        let cell = match continuation {
            Some(c) => c,
            None => return Err(TraversalError::MissingContinuation { direction, cells: unseen_of(t, shape, &full_maxima) }),
        };
        let ghost round_start = *t;
        let keep = single_cell_flags(shape, cell);
        let subset = FramedPosetSubset::make(share(shape), keep);
        let (cell_shape, into_parent) = closure(&subset);
        let count = match checked_cell_total(&cell_shape) {
            Some(c) => c,
            None => return Err(TraversalError::CellClosureDidNotDecrease { cell, cells: parent_cells }),
        };
        if count >= parent_cells {
            return Err(TraversalError::CellClosureDidNotDecrease { cell, cells: parent_cells });
        }
        let order = match traverse_shape(&cell_shape) {
            Ok(o) => o,
            Err(e) => return Err(e),
        };
        let ghost t0 = *t;
        append_subtraversal(t, shape, &order, &into_parent);
        let ghost t1 = *t;
        append(t, shape, cell);
        proof {
            lemma_grows_trans(&**shape, start, t0, t1);
            lemma_grows_trans(&**shape, start, t1, *t);
            assert forall|q: int| round_start.order@.len() <= q < t.order@.len() && #[trigger] full_frame_cell(**shape, frame@, t.order@[q])
                implies t.order@[q] == cell by {
                if q < t1.order@.len() {
                    assert(image_among(into_parent, order@, t1.order@[q]));
                    let j = choose|j: int| 0 <= j < order@.len() && t1.order@[q] == #[trigger] image_of(into_parent, order@[j]);
                    let x = t1.order@[q];
                    assert(t.order@[q] == x);
                    let c0 = order@[j];
                    assert(names_cell(*into_parent.dom, c0));
                    assert(in_image(into_parent.map, c0.dim as int, x.pos as int));
                    let sx = **shape;
                    lemma_reach_single(sx, subset.kept(), cell.dim as int, cell.pos as int, x.dim as int, x.pos as int);
                } else {
                    assert(t.order@ == t1.order@.push(cell));
                }
            }
            let sx = **shape;
            lemma_walk_round(sx, frame@, direction, start.order@.len() as int, round_start.order@, t.order@, cell);
        }
        round = round + 1;
    }
    let unseen = unseen_of(t, shape, &full_maxima);
    if unseen.len() > 0 {
        return Err(TraversalError::MissingContinuation { direction, cells: unseen });
    }
    proof {
        lemma_maxima_seen(&**shape, *t, full_maxima@, frame@, full_dim);
    }
    Ok(())
}

/// When every cell of `full_maxima` is visited, and `full_maxima` holds every
/// cell at level `n` with basis `frame`, those cells are visited.
proof fn lemma_maxima_seen(x: &FramedPoset, t: PartialTraversal, full_maxima: Seq<Element>, frame: Seq<usize>, n: usize)
    requires
        n == frame.len(),
        forall|k: int| 0 <= k < full_maxima.len() ==> flag(t.seen, (#[trigger] full_maxima[k]).dim as int, full_maxima[k].pos as int),
        forall|p: int| #[trigger] x.cell(n as int, p) && x.basis_at(n as int, p) == frame
            ==> full_maxima.contains(Element { dim: n, pos: p as usize }),
    ensures
        forall|p: int| #[trigger] x.cell(n as int, p) && x.basis_at(n as int, p) == frame ==> flag(t.seen, n as int, p),
{
    assert forall|p: int| #[trigger] x.cell(n as int, p) && x.basis_at(n as int, p) == frame implies flag(t.seen, n as int, p) by {
        assert(x.basis@[n as int]@.len() == x.basis@[n as int].len());
        let c = Element { dim: n, pos: p as usize };
        assert(full_maxima.contains(c));
        let k = choose|k: int| 0 <= k < full_maxima.len() && full_maxima[k] == c;
        assert(flag(t.seen, full_maxima[k].dim as int, full_maxima[k].pos as int));
    }
}

/// Traverse a polyvoxel in intrinsic input-first order.
///
/// The returned elements are indices in the original polyvoxel. Every cell
/// occurs exactly once. Directions and cells within recursively visited
/// boundaries are ordered intrinsically; old cell indices are never used as a
/// tie-breaker.
pub fn traversal_order(polyvoxel: &Polyvoxel) -> (r: Result<Vec<Element>, TraversalError>)
    requires
        polyvoxel.wf(),
        cell_total(*polyvoxel.poset()) <= usize::MAX,
    ensures
        r matches Ok(o) ==> lists_cells(*polyvoxel.poset(), o@),
        cell_total(*polyvoxel.poset()) == 0 ==> (r matches Ok(o) && o@.len() == 0),
        cell_total(*polyvoxel.poset()) == 1 && (forall|v: usize| !polyvoxel.poset().is_active(v)) ==> (r matches Ok(o) && o@.len() == 1),
        r matches Ok(o) ==> walks_earliest(*polyvoxel.poset(), o@),
{
    traverse_shape(polyvoxel.as_framed_poset())
}

/// Cell `(d, p)` occurs among the first `k` entries of `order`.
spec fn listed_before(order: Seq<Element>, k: int, d: int, p: int) -> bool {
    exists|j: int| 0 <= j < k && (#[trigger] order[j]).dim == d && order[j].pos == p
}

/// Row `d` of `lists` holds position `p`.
pub open spec fn in_list(lists: Vec<Vec<usize>>, d: int, p: int) -> bool {
    exists|i: int| 0 <= i < lists@[d]@.len() && #[trigger] at(lists, d, i) == p
}

/// Row `d` of `lists` holds, without repetition, exactly the positions of the
/// cells of `shape` at level `d`.
pub open spec fn lists_ok(shape: FramedPoset, lists: Vec<Vec<usize>>) -> bool {
    &&& lists@.len() == shape.levels()
    &&& forall|d: int, i: int| 0 <= d < shape.levels() && 0 <= i < lists@[d]@.len() ==> #[trigger] at(lists, d, i) < shape.size(d)
    &&& forall|d: int, i: int, j: int| 0 <= d < shape.levels() && 0 <= i < lists@[d]@.len() && 0 <= j < lists@[d]@.len() && i != j
        ==> #[trigger] at(lists, d, i) != #[trigger] at(lists, d, j)
    &&& forall|d: int, p: int| #[trigger] shape.cell(d, p) ==> in_list(lists, d, p)
}

/// Split a listing of the cells of `shape` by level, keeping the order.
fn level_lists(shape: &FramedPoset, order: &Vec<Element>) -> (lists: Vec<Vec<usize>>)
    requires
        lists_cells(*shape, order@),
    ensures
        lists_ok(*shape, lists),
{
    let n = shape.basis.len();
    let mut lists: Vec<Vec<usize>> = Vec::new();
    for d in 0..n
        invariant
            n == shape.levels(),
            lists@.len() == d,
            forall|e: int| 0 <= e < d ==> (#[trigger] lists@[e])@.len() == 0,
    {
        lists.push(Vec::new());
    }
    for k in 0..order.len()
        invariant
            n == shape.levels(),
            lists_cells(*shape, order@),
            lists@.len() == n,
            forall|d: int, i: int| 0 <= d < n && 0 <= i < lists@[d]@.len() ==> listed_before(order@, k as int, d, #[trigger] at(lists, d, i) as int),
            forall|d: int, i: int| 0 <= d < n && 0 <= i < lists@[d]@.len() ==> #[trigger] at(lists, d, i) < shape.size(d),
            forall|d: int, i: int, j: int| 0 <= d < n && 0 <= i < lists@[d]@.len() && 0 <= j < lists@[d]@.len() && i != j
                ==> #[trigger] at(lists, d, i) != #[trigger] at(lists, d, j),
            forall|j: int| 0 <= j < k ==> in_list(lists, (#[trigger] order@[j]).dim as int, order@[j].pos as int),
    {
        let c = order[k];
        proof {
            assert(names_cell(*shape, order@[k as int]));
        }
        let ghost before = lists;
        let mut row = lists[c.dim].clone();
        row.push(c.pos);
        lists.set(c.dim, row);
        proof {
            let cd = c.dim as int;
            let m = before@[cd]@.len() as int;
            assert(lists@[cd]@ == before@[cd]@.push(c.pos));
            assert(at(lists, cd, m) == c.pos);
            assert forall|d: int, i: int| 0 <= d < n && 0 <= i < lists@[d]@.len() implies listed_before(order@, k + 1, d, #[trigger] at(lists, d, i) as int) by {
                if d == cd && i == m {
                    assert(order@[k as int].dim == d && order@[k as int].pos == at(lists, d, i));
                } else {
                    if d != cd {
                        assert(lists@[d] == before@[d]);
                    }
                    assert(at(lists, d, i) == at(before, d, i));
                    assert(listed_before(order@, k as int, d, at(before, d, i) as int));
                    let j = choose|j: int| 0 <= j < k && (#[trigger] order@[j]).dim == d && order@[j].pos == at(before, d, i);
                    assert(order@[j].dim == d && order@[j].pos == at(lists, d, i));
                }
            }
            assert forall|d: int, i: int| 0 <= d < n && 0 <= i < lists@[d]@.len() implies #[trigger] at(lists, d, i) < shape.size(d) by {
                if d != cd {
                    assert(lists@[d] == before@[d]);
                }
                if !(d == cd && i == m) {
                    assert(at(lists, d, i) == at(before, d, i));
                }
            }
            assert forall|d: int, i: int, j: int| 0 <= d < n && 0 <= i < lists@[d]@.len() && 0 <= j < lists@[d]@.len() && i != j
                implies #[trigger] at(lists, d, i) != #[trigger] at(lists, d, j) by {
                if d != cd {
                    assert(lists@[d] == before@[d]);
                    assert(at(lists, d, i) == at(before, d, i));
                    assert(at(lists, d, j) == at(before, d, j));
                } else if i == m || j == m {
                    let o = if i == m { j } else { i };
                    assert(at(lists, d, o) == at(before, d, o));
                    assert(listed_before(order@, k as int, d, at(before, d, o) as int));
                    let w = choose|w: int| 0 <= w < k && (#[trigger] order@[w]).dim == d && order@[w].pos == at(before, d, o);
                    if at(before, d, o) == c.pos {
                        assert(order@[w] == order@[k as int]);
                    }
                } else {
                    assert(at(lists, d, i) == at(before, d, i));
                    assert(at(lists, d, j) == at(before, d, j));
                }
            }
            assert forall|j: int| 0 <= j < k + 1 implies in_list(lists, (#[trigger] order@[j]).dim as int, order@[j].pos as int) by {
                let e = order@[j];
                let ed = e.dim as int;
                if j == k {
                    assert(at(lists, cd, m) == c.pos);
                } else {
                    assert(in_list(before, ed, e.pos as int));
                    let i = choose|i: int| 0 <= i < before@[ed]@.len() && #[trigger] at(before, ed, i) == e.pos;
                    if ed == cd {
                        assert(at(lists, ed, i) == at(before, ed, i));
                    } else {
                        assert(lists@[ed] == before@[ed]);
                        assert(at(lists, ed, i) == at(before, ed, i));
                    }
                }
            }
        }
    }
    proof {
        assert forall|d: int, p: int| #[trigger] shape.cell(d, p) implies in_list(lists, d, p) by {
            assert(listed(order@, d, p));
            let j = choose|j: int| 0 <= j < order@.len() && (#[trigger] order@[j]).dim == d && order@[j].pos == p;
            assert(in_list(lists, order@[j].dim as int, order@[j].pos as int));
        }
    }
    lists
}

/// `inv` inverts the rows of `lists`: it sends each cell position of
/// `shape` to its index in its row.
spec fn inverse_ok(shape: FramedPoset, lists: Vec<Vec<usize>>, inv: Vec<Vec<usize>>) -> bool {
    &&& inv@.len() == shape.levels()
    &&& forall|d: int| 0 <= d < shape.levels() ==> #[trigger] inv@[d]@.len() == shape.size(d)
    &&& forall|d: int, p: int| #[trigger] shape.cell(d, p) ==> at(inv, d, p) < lists@[d]@.len() && at(lists, d, at(inv, d, p) as int) == p
}

/// The index of each cell position in its row of `lists`.
fn inverse_lists(shape: &FramedPoset, lists: &Vec<Vec<usize>>) -> (inv: Vec<Vec<usize>>)
    requires
        lists_ok(*shape, *lists),
    ensures
        inverse_ok(*shape, *lists, inv),
{
    let sizes = shape.sizes();
    let n = sizes.len();
    let mut inv: Vec<Vec<usize>> = Vec::new();
    for d in 0..n
        invariant
            n == shape.levels(),
            sizes@ == shape.size_seq(),
            lists_ok(*shape, *lists),
            inv@.len() == d,
            forall|e: int| 0 <= e < d ==> #[trigger] inv@[e]@.len() == shape.size(e),
            forall|e: int, p: int| 0 <= e < d && #[trigger] shape.cell(e, p) ==> at(inv, e, p) < lists@[e]@.len() && at(*lists, e, at(inv, e, p) as int) == p,
    {
        let mut row = vec![0usize; sizes[d]];
        let m = lists[d].len();
        for i in 0..m
            invariant
                n == shape.levels(),
                d < n,
                lists_ok(*shape, *lists),
                m == lists@[d as int]@.len(),
                row@.len() == shape.size(d as int),
                forall|j: int| 0 <= j < i ==> #[trigger] row@[at(*lists, d as int, j) as int] == j,
        {
            let p = lists[d][i];
            proof {
                assert(at(*lists, d as int, i as int) < shape.size(d as int));
            }
            let ghost before = row@;
            row.set(p, i);
            proof {
                assert forall|j: int| 0 <= j < i + 1 implies #[trigger] row@[at(*lists, d as int, j) as int] == j by {
                    if j < i {
                        assert(at(*lists, d as int, j) != at(*lists, d as int, i as int));
                        assert(row@[at(*lists, d as int, j) as int] == before[at(*lists, d as int, j) as int]);
                    }
                }
            }
        }
        let ghost before = inv;
        inv.push(row);
        proof {
            assert forall|e: int| 0 <= e < d + 1 implies #[trigger] inv@[e]@.len() == shape.size(e) by {
                if e < d {
                    assert(inv@[e] == before@[e]);
                }
            }
            assert forall|e: int, p: int| 0 <= e < d + 1 && #[trigger] shape.cell(e, p) implies at(inv, e, p) < lists@[e]@.len() && at(*lists, e, at(inv, e, p) as int) == p by {
                if e < d {
                    assert(inv@[e] == before@[e]);
                } else {
                    assert(in_list(*lists, e, p));
                    let i = choose|i: int| 0 <= i < lists@[e]@.len() && #[trigger] at(*lists, e, i) == p;
                    assert(row@[at(*lists, d as int, i) as int] == i);
                }
            }
        }
    }
    inv
}

/// `faces` relabelled through `relabel`, sorted.
fn relabel_faces(faces: &IntSet, relabel: &Vec<usize>) -> (r: IntSet)
    requires
        forall|i: int| 0 <= i < faces@.len() ==> #[trigger] faces@[i] < relabel@.len(),
    ensures
        strictly_sorted(r@),
        forall|v: usize| r@.contains(v) <==> exists|i: int| 0 <= i < faces@.len() && #[trigger] relabel@[faces@[i] as int] == v,
{
    let mut items: Vec<usize> = Vec::new();
    for k in 0..faces.len()
        invariant
            forall|i: int| 0 <= i < faces@.len() ==> #[trigger] faces@[i] < relabel@.len(),
            items@.len() == k,
            forall|i: int| 0 <= i < k ==> #[trigger] items@[i] == relabel@[faces@[i] as int],
    {
        items.push(relabel[faces[k]]);
    }
    let r = intset::collect_sorted(items);
    proof {
        assert forall|v: usize| r@.contains(v) <==> exists|i: int| 0 <= i < faces@.len() && #[trigger] relabel@[faces@[i] as int] == v by {
            if r@.contains(v) {
                assert(items@.contains(v));
                let i = choose|i: int| 0 <= i < items@.len() && items@[i] == v;
                assert(relabel@[faces@[i] as int] == v);
            }
            if exists|i: int| 0 <= i < faces@.len() && #[trigger] relabel@[faces@[i] as int] == v {
                let i = choose|i: int| 0 <= i < faces@.len() && #[trigger] relabel@[faces@[i] as int] == v;
                assert(items@[i] == v);
                assert(items@.contains(v));
            }
        }
    }
    r
}

/// `set` is the sorted relabelling, through row `d - 1` of `inv`, of the
/// `s`-faces of cell `(d, old)` of `shape`; empty at level `0`.
spec fn relabelled_faces(shape: FramedPoset, inv: Vec<Vec<usize>>, s: Sign, d: int, old: int, set: Seq<usize>) -> bool {
    &&& strictly_sorted(set)
    &&& d == 0 ==> set.len() == 0
    &&& d >= 1 ==> forall|v: usize| set.contains(v) <==> exists|j: int| 0 <= j < shape.faces(s, d, old).len()
        && #[trigger] at(inv, d - 1, shape.faces(s, d, old)[j] as int) == v
}

/// Level `d` of relabelled tables: the rows list, in the order of row `d`
/// of `lists`, the bases of those cells of `shape` and their faces
/// relabelled through `inv`.
spec fn level_ok(shape: FramedPoset, lists: Vec<Vec<usize>>, inv: Vec<Vec<usize>>, d: int, b: Vec<IntSet>, fi: Vec<IntSet>, fo: Vec<IntSet>) -> bool {
    &&& b@.len() == lists@[d]@.len()
    &&& fi@.len() == lists@[d]@.len()
    &&& fo@.len() == lists@[d]@.len()
    &&& forall|i: int| 0 <= i < lists@[d]@.len() ==> (#[trigger] b@[i])@ == shape.basis_at(d, at(lists, d, i) as int)
        && relabelled_faces(shape, inv, Sign::Input, d, at(lists, d, i) as int, fi@[i]@)
        && relabelled_faces(shape, inv, Sign::Output, d, at(lists, d, i) as int, fo@[i]@)
}

/// The tables relabel every level of `shape` by `lists`.
spec fn relabelled(shape: FramedPoset, lists: Vec<Vec<usize>>, inv: Vec<Vec<usize>>, basis: Vec<Vec<IntSet>>, faces_in: Vec<Vec<IntSet>>,
    faces_out: Vec<Vec<IntSet>>) -> bool {
    &&& basis@.len() == shape.levels()
    &&& faces_in@.len() == shape.levels()
    &&& faces_out@.len() == shape.levels()
    &&& forall|d: int| 0 <= d < shape.levels() ==> #[trigger] level_ok(shape, lists, inv, d, basis@[d], faces_in@[d], faces_out@[d])
}

/// The `sign` faces of cell `(d, old)` of `shape`, relabelled through `inv`.
fn relabelled_row(shape: &FramedPoset, inv: &Vec<Vec<usize>>, sign: Sign, d: usize, old: usize) -> (r: IntSet)
    requires
        shape.valid(),
        shape.cell(d as int, old as int),
        inv@.len() == shape.levels(),
        forall|e: int| 0 <= e < shape.levels() ==> #[trigger] inv@[e]@.len() == shape.size(e),
    ensures
        relabelled_faces(*shape, *inv, sign, d as int, old as int, r@),
{
    if d == 0 {
        return Vec::new();
    }
    proof {
        crate::poset::lemma_valid_sign(shape, sign);
    }
    let faces = shape.faces_of(sign, d, old);
    proof {
        assert forall|i: int| 0 <= i < faces@.len() implies #[trigger] faces@[i] < inv@[d - 1]@.len() by {
            assert(entry(shape.face_table(sign), d as int, old as int)[i] < rows(shape.basis, d - 1));
        }
    }
    let r = relabel_faces(faces, &inv[d - 1]);
    proof {
        let fs = shape.faces(sign, d as int, old as int);
        assert forall|v: usize| r@.contains(v) <==> exists|j: int| 0 <= j < fs.len() && #[trigger] at(*inv, d - 1, fs[j] as int) == v by {
            if r@.contains(v) {
                let i = choose|i: int| 0 <= i < faces@.len() && #[trigger] inv@[d - 1]@[faces@[i] as int] == v;
                assert(at(*inv, d - 1, fs[i] as int) == v);
            }
            if exists|j: int| 0 <= j < fs.len() && #[trigger] at(*inv, d - 1, fs[j] as int) == v {
                let j = choose|j: int| 0 <= j < fs.len() && #[trigger] at(*inv, d - 1, fs[j] as int) == v;
                assert(inv@[d - 1]@[faces@[j] as int] == v);
            }
        }
    }
    r
}

/// Level `d` of the tables of `shape` relabelled by the rows of `lists`.
fn relabelled_level(shape: &FramedPoset, lists: &Vec<Vec<usize>>, inv: &Vec<Vec<usize>>, d: usize) -> (r: (Vec<IntSet>, Vec<IntSet>, Vec<IntSet>))
    requires
        shape.valid(),
        d < shape.levels(),
        lists_ok(*shape, *lists),
        inverse_ok(*shape, *lists, *inv),
    ensures
        level_ok(*shape, *lists, *inv, d as int, r.0, r.1, r.2),
{
    let m = lists[d].len();
    let mut b_row: Vec<IntSet> = Vec::new();
    let mut i_row: Vec<IntSet> = Vec::new();
    let mut o_row: Vec<IntSet> = Vec::new();
    let mut i: usize = 0;
    while i < m
        invariant
            i <= m,
            d < shape.levels(),
            shape.valid(),
            lists_ok(*shape, *lists),
            inverse_ok(*shape, *lists, *inv),
            m == lists@[d as int]@.len(),
            b_row@.len() == i,
            i_row@.len() == i,
            o_row@.len() == i,
            forall|j: int| 0 <= j < i ==> (#[trigger] b_row@[j])@ == shape.basis_at(d as int, at(*lists, d as int, j) as int)
                && relabelled_faces(*shape, *inv, Sign::Input, d as int, at(*lists, d as int, j) as int, i_row@[j]@)
                && relabelled_faces(*shape, *inv, Sign::Output, d as int, at(*lists, d as int, j) as int, o_row@[j]@),
        decreases m - i,
    {
        let source = lists[d][i];
        proof {
            assert(at(*lists, d as int, i as int) < shape.size(d as int));
        }
        let ghost b1 = b_row@;
        let ghost i1 = i_row@;
        let ghost o1 = o_row@;
        b_row.push(shape.basis[d][source].clone());
        i_row.push(relabelled_row(shape, inv, Sign::Input, d, source));
        o_row.push(relabelled_row(shape, inv, Sign::Output, d, source));
        proof {
            assert(b_row@[i as int]@ == shape.basis_at(d as int, at(*lists, d as int, i as int) as int));
            assert forall|j: int| 0 <= j < i implies b_row@[j] == b1[j] && i_row@[j] == i1[j] && o_row@[j] == o1[j] by {}
        }
        i = i + 1;
    }
    (b_row, i_row, o_row)
}

/// Tables of `shape` relabelled by the rows of `lists`.
fn relabelled_tables(shape: &FramedPoset, lists: &Vec<Vec<usize>>, inv: &Vec<Vec<usize>>)
    -> (r: (Vec<Vec<IntSet>>, Vec<Vec<IntSet>>, Vec<Vec<IntSet>>))
    requires
        shape.valid(),
        lists_ok(*shape, *lists),
        inverse_ok(*shape, *lists, *inv),
    ensures
        relabelled(*shape, *lists, *inv, r.0, r.1, r.2),
{
    let n = lists.len();
    let mut basis: Vec<Vec<IntSet>> = Vec::new();
    let mut faces_in: Vec<Vec<IntSet>> = Vec::new();
    let mut faces_out: Vec<Vec<IntSet>> = Vec::new();
    for d in 0..n
        invariant
            n == shape.levels(),
            shape.valid(),
            lists_ok(*shape, *lists),
            inverse_ok(*shape, *lists, *inv),
            basis@.len() == d,
            faces_in@.len() == d,
            faces_out@.len() == d,
            forall|e: int| 0 <= e < d ==> #[trigger] level_ok(*shape, *lists, *inv, e, basis@[e], faces_in@[e], faces_out@[e]),
    {
        let (b_row, i_row, o_row) = relabelled_level(shape, lists, inv, d);
        basis.push(b_row);
        faces_in.push(i_row);
        faces_out.push(o_row);
    }
    (basis, faces_in, faces_out)
}

/// `e` is an isomorphism of framed posets from `normal` onto `shape`.
pub open spec fn isomorphism_onto(e: Embedding, normal: Arc<FramedPoset>, shape: Arc<FramedPoset>) -> bool {
    &&& e.valid()
    &&& e.dom == normal
    &&& e.cod == shape
    &&& e.surjective()
    &&& e.closed()
}

/// Relabelled tables satisfy the conditions of [`FramedPoset::from_faces`].
proof fn lemma_relabelled_defining(shape: FramedPoset, lists: Vec<Vec<usize>>, inv: Vec<Vec<usize>>, basis: Vec<Vec<IntSet>>,
    faces_in: Vec<Vec<IntSet>>, faces_out: Vec<Vec<IntSet>>)
    requires
        shape.valid(),
        lists_ok(shape, lists),
        inverse_ok(shape, lists, inv),
        relabelled(shape, lists, inv, basis, faces_in, faces_out),
    ensures
        crate::poset::defining_tables(basis, faces_in, faces_out),
        forall|d: int| 0 <= d < shape.levels() ==> #[trigger] rows(basis, d) == lists@[d]@.len(),
{
    assert forall|d: int| 0 <= d < shape.levels() implies #[trigger] rows(basis, d) == lists@[d]@.len() by {
        assert(level_ok(shape, lists, inv, d, basis@[d], faces_in@[d], faces_out@[d]));
    }
    assert forall|d: int| 0 <= d < basis@.len() implies #[trigger] faces_in@[d]@.len() == basis@[d]@.len() by {
        assert(level_ok(shape, lists, inv, d, basis@[d], faces_in@[d], faces_out@[d]));
    }
    assert forall|d: int| 0 <= d < basis@.len() implies #[trigger] faces_out@[d]@.len() == basis@[d]@.len() by {
        assert(level_ok(shape, lists, inv, d, basis@[d], faces_in@[d], faces_out@[d]));
    }
    assert forall|d: int, p: int| 0 <= d < basis@.len() && 0 <= p < basis@[d]@.len() implies strictly_sorted(#[trigger] entry(basis, d, p)) by {
        assert(level_ok(shape, lists, inv, d, basis@[d], faces_in@[d], faces_out@[d]));
        assert(entry(basis, d, p) == basis@[d]@[p]@);
    }
    assert forall|s: Sign, d: int, p: int| 0 <= d < basis@.len() && 0 <= p < basis@[d]@.len()
        implies #[trigger] relabelled_faces(shape, inv, s, d, at(lists, d, p) as int, entry(crate::poset::pick(s, faces_in, faces_out), d, p)) by {
        assert(level_ok(shape, lists, inv, d, basis@[d], faces_in@[d], faces_out@[d]));
        assert(basis@[d]@[p]@ == shape.basis_at(d, at(lists, d, p) as int));
        assert(entry(faces_in, d, p) == faces_in@[d]@[p]@);
        assert(entry(faces_out, d, p) == faces_out@[d]@[p]@);
        match s {
            Sign::Input => {},
            Sign::Output => {},
        }
    }
    assert forall|s: Sign, d: int, p: int, i: int| 0 <= d < basis@.len() && 0 <= p < basis@[d]@.len()
        && 0 <= i < entry(crate::poset::pick(s, faces_in, faces_out), d, p).len()
        implies #[trigger] entry(crate::poset::pick(s, faces_in, faces_out), d, p)[i] < rows(basis, d - 1) by {
        let t = crate::poset::pick(s, faces_in, faces_out);
        let source = at(lists, d, p) as int;
        assert(relabelled_faces(shape, inv, s, d, source, entry(t, d, p)));
        assert(level_ok(shape, lists, inv, d, basis@[d], faces_in@[d], faces_out@[d]));
        assert(at(lists, d, p) < shape.size(d));
        let v = entry(t, d, p)[i];
        assert(entry(t, d, p).contains(v));
        if d >= 1 {
            let j = choose|j: int| 0 <= j < shape.faces(s, d, source).len() && #[trigger] at(inv, d - 1, shape.faces(s, d, source)[j] as int) == v;
            let f = shape.faces(s, d, source)[j];
            crate::poset::lemma_valid_sign(&shape, s);
            assert(entry(shape.face_table(s), d, source)[j] < rows(shape.basis, d - 1));
            assert(shape.cell(d - 1, f as int));
            assert(rows(basis, d - 1) == lists@[d - 1]@.len());
        }
    }
    assert forall|d: int, p: int| 0 <= d < faces_in@.len() && 0 <= p < faces_in@[d]@.len() implies strictly_sorted(#[trigger] entry(faces_in, d, p)) by {
        assert(level_ok(shape, lists, inv, d, basis@[d], faces_in@[d], faces_out@[d]));
        assert(relabelled_faces(shape, inv, Sign::Input, d, at(lists, d, p) as int, entry(crate::poset::pick(Sign::Input, faces_in, faces_out), d, p)));
    }
    assert forall|d: int, p: int| 0 <= d < faces_out@.len() && 0 <= p < faces_out@[d]@.len() implies strictly_sorted(#[trigger] entry(faces_out, d, p)) by {
        assert(level_ok(shape, lists, inv, d, basis@[d], faces_in@[d], faces_out@[d]));
        assert(relabelled_faces(shape, inv, Sign::Output, d, at(lists, d, p) as int, entry(crate::poset::pick(Sign::Output, faces_in, faces_out), d, p)));
    }
    assert forall|d: int, p: int, i: int| 0 <= d < faces_in@.len() && 0 <= p < faces_in@[d]@.len() && 0 <= i < entry(faces_in, d, p).len()
        implies #[trigger] entry(faces_in, d, p)[i] < rows(basis, d - 1) by {
        assert(level_ok(shape, lists, inv, d, basis@[d], faces_in@[d], faces_out@[d]));
        assert(entry(crate::poset::pick(Sign::Input, faces_in, faces_out), d, p)[i] < rows(basis, d - 1));
    }
    assert forall|d: int, p: int, i: int| 0 <= d < faces_out@.len() && 0 <= p < faces_out@[d]@.len() && 0 <= i < entry(faces_out, d, p).len()
        implies #[trigger] entry(faces_out, d, p)[i] < rows(basis, d - 1) by {
        assert(level_ok(shape, lists, inv, d, basis@[d], faces_in@[d], faces_out@[d]));
        assert(entry(crate::poset::pick(Sign::Output, faces_in, faces_out), d, p)[i] < rows(basis, d - 1));
    }
}

/// Renumber the cells of every level of `shape`: new cell `i` at level `d`
/// is old cell `lists[d][i]`. Returns the renumbered framed poset with the
/// isomorphism onto `shape` whose forward map is `lists`.
fn relabel_by_lists(shape: &Arc<FramedPoset>, lists: Vec<Vec<usize>>) -> (r: (Arc<FramedPoset>, Embedding))
    requires
        shape.valid(),
        lists_ok(**shape, lists),
    ensures
        isomorphism_onto(r.1, r.0, *shape),
        !r.0.normal,
        r.1.map == lists,
{
    let inv = inverse_lists(shape, &lists);
    let (basis, faces_in, faces_out) = relabelled_tables(shape, &lists, &inv);
    let sx: &FramedPoset = shape;
    proof {
        lemma_relabelled_defining(*sx, lists, inv, basis, faces_in, faces_out);
    }
    let ghost tables = (basis, faces_in, faces_out);
    let normal = Arc::new(FramedPoset::from_faces(basis, faces_in, faces_out));
    let ghost map = lists;
    proof {
        assert forall|d: int, i: int| 0 <= d < map@.len() && 0 <= i < map@[d]@.len() implies #[trigger] at(map, d, i) < shape.size(d) by {}
    }
    let into_original = Embedding::from_map(share(&normal), share(shape), lists);
    proof {
        let n = *normal;
        let x = *sx;
        assert forall|d: int| 0 <= d < n.levels() implies #[trigger] map@[d]@.len() == n.size(d) by {
            assert(rows(tables.0, d) == lists@[d]@.len());
        }
        assert forall|d: int, i: int| n.cell(d, i) implies #[trigger] n.basis_at(d, i) == x.basis_at(d, at(map, d, i) as int) by {
            assert(level_ok(x, map, inv, d, tables.0@[d], tables.1@[d], tables.2@[d]));
            assert(n.basis_at(d, i) == tables.0@[d]@[i]@);
        }
        assert(crate::embedding::map_ok(&n, &x, map));
        assert forall|d: int, j: int| 0 <= d < into_original.inv@.len() && 0 <= j < into_original.inv@[d]@.len()
            implies #[trigger] at(into_original.inv, d, j) != crate::embedding::NO_PREIMAGE by {
            assert(x.cell(d, j));
            assert(in_list(map, d, j));
            let i = choose|i: int| 0 <= i < map@[d]@.len() && #[trigger] at(map, d, i) == j;
            assert(in_image(map, d, j));
        }
        assert forall|s: Sign, d: int, i: int| 1 <= d && n.cell(d, i)
            implies same_elements(#[trigger] x.faces(s, d, at(into_original.map, d, i) as int), into_original.image_faces(s, d, i)) by {
            let source = at(map, d, i) as int;
            let nf = n.faces(s, d, i);
            let of = x.faces(s, d, source);
            let img = into_original.image_faces(s, d, i);
            assert(level_ok(x, map, inv, d, tables.0@[d], tables.1@[d], tables.2@[d]));
            assert(nf == entry(crate::poset::pick(s, tables.1, tables.2), d, i)) by {
                match s {
                    Sign::Input => {},
                    Sign::Output => {},
                }
            }
            assert(relabelled_faces(x, inv, s, d, source, nf)) by {
                assert(tables.0@[d]@[i]@ == x.basis_at(d, source));
                assert(tables.1@[d]@[i]@ == entry(tables.1, d, i));
                assert(tables.2@[d]@[i]@ == entry(tables.2, d, i));
                match s {
                    Sign::Input => {},
                    Sign::Output => {},
                }
            }
            assert(x.cell(d, source));
            crate::poset::lemma_valid_sign(&x, s);
            assert forall|v: usize| of.contains(v) <==> img.contains(v) by {
                if of.contains(v) {
                    let j = choose|j: int| 0 <= j < of.len() && of[j] == v;
                    assert(entry(x.face_table(s), d, source)[j] < rows(x.basis, d - 1));
                    assert(x.cell(d - 1, v as int));
                    let w = at(inv, d - 1, v as int);
                    assert(at(inv, d - 1, of[j] as int) == w);
                    assert(nf.contains(w));
                    let k = choose|k: int| 0 <= k < nf.len() && nf[k] == w;
                    assert(img[k] == at(map, d - 1, w as int));
                }
                if img.contains(v) {
                    let k = choose|k: int| 0 <= k < img.len() && img[k] == v;
                    let w = nf[k];
                    assert(nf.contains(w));
                    let j = choose|j: int| 0 <= j < of.len() && #[trigger] at(inv, d - 1, of[j] as int) == w;
                    assert(entry(x.face_table(s), d, source)[j] < rows(x.basis, d - 1));
                    assert(x.cell(d - 1, of[j] as int));
                    assert(at(map, d - 1, w as int) == of[j]);
                    assert(of[j] == v);
                }
            }
        }
    }
    (normal, into_original)
}

/// `row` lists every integer below `n` exactly once.
pub open spec fn row_permutes(row: Seq<usize>, n: int) -> bool {
    &&& forall|i: int| 0 <= i < row.len() ==> #[trigger] row[i] < n
    &&& forall|i: int, j: int| 0 <= i < row.len() && 0 <= j < row.len() && i != j ==> #[trigger] row[i] != #[trigger] row[j]
    &&& forall|p: usize| p < n ==> #[trigger] row.contains(p)
}

/// Whether `row` lists every integer below `n` exactly once.
fn check_row(row: &Vec<usize>, n: usize) -> (r: bool)
    ensures
        r == row_permutes(row@, n as int),
{
    let mut seen: Vec<bool> = Vec::new();
    for q in 0..n
        invariant
            seen@.len() == q,
            forall|p: int| 0 <= p < q ==> !#[trigger] seen@[p],
    {
        seen.push(false);
    }
    let len = row.len();
    for i in 0..len
        invariant
            len == row@.len(),
            seen@.len() == n,
            forall|j: int| 0 <= j < i ==> #[trigger] row@[j] < n,
            forall|j: int, k: int| 0 <= j < i && 0 <= k < i && j != k ==> #[trigger] row@[j] != #[trigger] row@[k],
            forall|p: int| 0 <= p < n ==> (#[trigger] seen@[p] <==> exists|j: int| 0 <= j < i && row@[j] == p),
    {
        let v = row[i];
        if v >= n {
            return false;
        }
        if seen[v] {
            proof {
                let j = choose|j: int| 0 <= j < i && row@[j] == v;
                assert(row@[j] == row@[i as int]);
            }
            return false;
        }
        let ghost before = seen@;
        seen.set(v, true);
        proof {
            assert forall|p: int| 0 <= p < n implies (#[trigger] seen@[p] <==> exists|j: int| 0 <= j < i + 1 && row@[j] == p) by {
                if p != v {
                    assert(seen@[p] == before[p]);
                    if exists|j: int| 0 <= j < i + 1 && row@[j] == p {
                        let j = choose|j: int| 0 <= j < i + 1 && row@[j] == p;
                        assert(j < i);
                    }
                } else {
                    assert(row@[i as int] == p);
                }
            }
        }
    }
    for p in 0..n
        invariant
            len == row@.len(),
            seen@.len() == n,
            forall|j: int| 0 <= j < len ==> #[trigger] row@[j] < n,
            forall|q: int| 0 <= q < n ==> (#[trigger] seen@[q] <==> exists|j: int| 0 <= j < len && row@[j] == q),
            forall|q: usize| q < p ==> #[trigger] row@.contains(q),
    {
        if !seen[p] {
            proof {
                if row@.contains(p) {
                    let j = choose|j: int| 0 <= j < row@.len() && row@[j] == p;
                    assert(seen@[p as int]);
                }
            }
            return false;
        }
        proof {
            let j = choose|j: int| 0 <= j < len && row@[j] == p;
            assert(row@.contains(row@[j]));
        }
    }
    true
}

/// Renumber the cells of every level of `shape` by the permutations
/// `new_to_old`: new cell `i` at level `d` is old cell `new_to_old[d][i]`.
///
/// Returns the renumbered framed poset with the isomorphism onto `shape`
/// whose forward map records the old position of every new cell; `None`
/// unless row `d` of `new_to_old` lists every position of level `d` once.
pub fn permute_cells(shape: &Arc<FramedPoset>, new_to_old: Vec<Vec<usize>>) -> (r: Option<(Arc<FramedPoset>, Embedding)>)
    requires
        shape.valid(),
    ensures
        r is Some <==> lists_ok(**shape, new_to_old),
        r matches Some(q) ==> isomorphism_onto(q.1, q.0, *shape) && !q.0.normal && q.1.map == new_to_old,
{
    let sx: &FramedPoset = shape;
    let sizes = shape.sizes();
    let n = sizes.len();
    if new_to_old.len() != n {
        return None;
    }
    for d in 0..n
        invariant
            n == shape.levels(),
            *sx == **shape,
            sizes@ == shape.size_seq(),
            new_to_old@.len() == n,
            forall|e: int| 0 <= e < d ==> row_permutes(#[trigger] new_to_old@[e]@, shape.size(e)),
    {
        if !check_row(&new_to_old[d], sizes[d]) {
            proof {
                if lists_ok(*sx, new_to_old) {
                    let row = new_to_old@[d as int]@;
                    assert forall|i: int| 0 <= i < row.len() implies #[trigger] row[i] < shape.size(d as int) by {
                        assert(at(new_to_old, d as int, i) == row[i]);
                    }
                    assert forall|i: int, j: int| 0 <= i < row.len() && 0 <= j < row.len() && i != j implies #[trigger] row[i] != #[trigger] row[j] by {
                        assert(at(new_to_old, d as int, i) == row[i]);
                        assert(at(new_to_old, d as int, j) == row[j]);
                    }
                    assert forall|p: usize| p < shape.size(d as int) implies #[trigger] row.contains(p) by {
                        assert(shape.cell(d as int, p as int));
                        let i = choose|i: int| 0 <= i < new_to_old@[d as int]@.len() && #[trigger] at(new_to_old, d as int, i) == p;
                        assert(row[i] == p);
                    }
                }
            }
            return None;
        }
    }
    proof {
        assert forall|d: int, i: int| 0 <= d < shape.levels() && 0 <= i < new_to_old@[d]@.len() implies #[trigger] at(new_to_old, d, i) < shape.size(d) by {
            assert(row_permutes(new_to_old@[d]@, shape.size(d)));
        }
        assert forall|d: int, i: int, j: int| 0 <= d < shape.levels() && 0 <= i < new_to_old@[d]@.len() && 0 <= j < new_to_old@[d]@.len() && i != j
            implies #[trigger] at(new_to_old, d, i) != #[trigger] at(new_to_old, d, j) by {
            assert(row_permutes(new_to_old@[d]@, shape.size(d)));
            assert(new_to_old@[d]@[i] != new_to_old@[d]@[j]);
        }
        assert forall|d: int, p: int| #[trigger] shape.cell(d, p) implies in_list(new_to_old, d, p) by {
            assert(row_permutes(new_to_old@[d]@, shape.size(d)));
            assert(shape.size(d) == shape.basis@[d]@.len());
            assert(shape.basis@[d]@.len() == shape.basis@[d].len());
            assert((p as usize) as int == p);
            assert(new_to_old@[d]@.contains(p as usize));
            let i = choose|i: int| 0 <= i < new_to_old@[d]@.len() && new_to_old@[d]@[i] == p as usize;
            assert(at(new_to_old, d, i) == p);
        }
    }
    Some(relabel_by_lists(shape, new_to_old))
}

/// Relabel an OFP by the traversal used for polyvoxels.
///
/// This is the unchecked shape-level counterpart of
/// [`traversal_normalisation`]. It is useful when polyvoxelhood is known from
/// external provenance, such as an enumeration catalogue, but has not been
/// reconstructed as a [`Polyvoxel`]. The returned embedding is an
/// isomorphism from the relabelled shape onto `shape`, which sends the cells
/// of each level, in order, to the cells of that level in traversal order.
pub fn traversal_normalisation_of_shape(shape: &Arc<FramedPoset>) -> (r: Result<(Arc<FramedPoset>, Embedding), TraversalError>)
    requires
        shape.valid(),
        cell_total(**shape) <= usize::MAX,
    ensures
        r matches Ok(q) ==> isomorphism_onto(q.1, q.0, *shape) && !q.0.normal,
        cell_total(**shape) == 0 ==> r is Ok,
        cell_total(**shape) == 1 && (forall|v: usize| !shape.is_active(v)) ==> r is Ok,
{
    let order = match traverse_shape(shape) {
        Ok(o) => o,
        Err(e) => return Err(e),
    };
    let lists = level_lists(shape, &order);
    let (normal, into_original) = relabel_by_lists(shape, lists);
    Ok((normal, into_original))
}

/// Relabel a polyvoxel by its intrinsic traversal.
///
/// Cells at each basis cardinality retain their relative traversal order. The
/// returned embedding is an isomorphism from the relabelled shape to the
/// original shape. The relabelled OFP is deliberately not marked as the
/// graph-isomorphism normal form used by [`crate::isomorphism::normalize`].
pub fn traversal_normalisation(polyvoxel: &Polyvoxel) -> (r: Result<(Arc<FramedPoset>, Embedding), TraversalError>)
    requires
        polyvoxel.wf(),
        cell_total(*polyvoxel.poset()) <= usize::MAX,
    ensures
        r matches Ok(q) ==> isomorphism_onto(q.1, q.0, polyvoxel.poset()) && !q.0.normal,
        cell_total(*polyvoxel.poset()) == 0 ==> r is Ok,
        cell_total(*polyvoxel.poset()) == 1 && (forall|v: usize| !polyvoxel.poset().is_active(v)) ==> r is Ok,
{
    traversal_normalisation_of_shape(polyvoxel.as_framed_poset())
}

} // verus!

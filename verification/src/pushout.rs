//! Pushouts of framed-poset embeddings.

use std::sync::Arc;

use vstd::prelude::*;

use crate::embedding::{Embedding, NO_PREIMAGE, at, share, tv};
use crate::intset::{self, IntSet, strictly_sorted};
use crate::poset::{BoundaryMode, FramedPoset, Sign, boundary, boundary_cell, entry, reach, rows};
use crate::embedding::in_image;
use crate::isomorphism::{embeddings_with_tables, found_isomorphisms, isomorphisms, palette_for};
use crate::rigid::{search_fits, search_sized};

verus! {

/// Binary pushout result.
#[derive(Debug)]
pub struct Pushout {
    pub tip: Arc<FramedPoset>,
    pub inl: Embedding,
    pub inr: Embedding,
}

/// One extension attached to a base along a shared domain.
#[derive(Debug, Clone, Copy)]
pub struct Span<'a> {
    pub into_base: &'a Embedding,
    pub into_ext: &'a Embedding,
}

/// Multi-pushout result.
#[derive(Debug)]
pub struct MultiPushout {
    pub tip: Arc<FramedPoset>,
    pub inl: Embedding,
    pub inrs: Vec<Embedding>,
}

/// The stored preimage of cell `(d, p)`, or [`NO_PREIMAGE`] outside the table.
pub open spec fn preimage(inv: Vec<Vec<usize>>, d: int, p: int) -> usize {
    if 0 <= d < inv@.len() && 0 <= p < inv@[d]@.len() {
        at(inv, d, p)
    } else {
        NO_PREIMAGE
    }
}

/// Cell `(d, p)` of the extension is not glued to the base.
pub open spec fn fresh(span: Span, d: int, p: int) -> bool {
    preimage(span.into_ext.inv, d, p) == NO_PREIMAGE
}

/// The number of fresh cells among the first `p` cells of level `d`.
pub open spec fn fresh_count(span: Span, d: int, p: int) -> nat
    decreases p,
{
    if p <= 0 {
        0
    } else {
        fresh_count(span, d, p - 1) + if fresh(span, d, p - 1) {
            1nat
        } else {
            0nat
        }
    }
}

/// The number of fresh cells of level `d` in the first `i` extensions.
pub open spec fn fresh_before(spans: Seq<Span>, i: int, d: int) -> nat
    decreases i,
{
    if i <= 0 {
        0
    } else {
        fresh_before(spans, i - 1, d) + fresh_count(spans[i - 1], d, spans[i - 1].into_ext.cod.size(d))
    }
}

/// Number of levels of the pushout: the most of the base and the extensions.
pub open spec fn tip_levels(base: FramedPoset, spans: Seq<Span>, i: int) -> int
    decreases i,
{
    if i <= 0 {
        base.levels()
    } else {
        let rest = tip_levels(base, spans, i - 1);
        let here = spans[i - 1].into_ext.cod.levels();
        if rest < here {
            here
        } else {
            rest
        }
    }
}

/// Number of cells of level `d` of the pushout.
pub open spec fn tip_size(base: FramedPoset, spans: Seq<Span>, d: int) -> int {
    base.size(d) + fresh_before(spans, spans.len() as int, d)
}

/// Where extension `i` sends its cell `(d, p)`: the base image of a glued
/// cell, or the next fresh position of the pushout.
pub open spec fn inr_target(base: FramedPoset, spans: Seq<Span>, i: int, d: int, p: int) -> int {
    let pre = preimage(spans[i].into_ext.inv, d, p);
    if pre != NO_PREIMAGE {
        at(spans[i].into_base.map, d, pre as int) as int
    } else {
        base.size(d) + fresh_before(spans, i, d) + fresh_count(spans[i], d, p)
    }
}

/// The extension can be glued to the base: the two embeddings share their
/// domain, the first lands in the base, and both are embeddings.
pub open spec fn span_ok(base: FramedPoset, span: Span) -> bool {
    &&& span.into_base.wf()
    &&& span.into_ext.wf()
    &&& span.into_ext.cod.valid()
    &&& span.into_base.dom.same_poset(&*span.into_ext.dom)
    &&& span.into_base.cod.levels() == base.levels()
    &&& forall|d: int| #[trigger] span.into_base.cod.size(d) == base.size(d)
}

proof fn lemma_fresh_count_bound(span: Span, d: int, p: int)
    requires
        0 <= p,
    ensures
        fresh_count(span, d, p) <= p,
    decreases p,
{
    if p > 0 {
        lemma_fresh_count_bound(span, d, p - 1);
    }
}

proof fn lemma_fresh_count_mono(span: Span, d: int, p: int, q: int)
    requires
        0 <= p <= q,
    ensures
        fresh_count(span, d, p) <= fresh_count(span, d, q),
    decreases q - p,
{
    if p < q {
        lemma_fresh_count_mono(span, d, p, q - 1);
    }
}

proof fn lemma_fresh_before_mono(spans: Seq<Span>, i: int, j: int, d: int)
    requires
        0 <= i <= j,
    ensures
        fresh_before(spans, i, d) <= fresh_before(spans, j, d),
    decreases j - i,
{
    if i < j {
        lemma_fresh_before_mono(spans, i, j - 1, d);
    }
}

/// Fresh positions in the pushout are distinct and beyond the base.
proof fn lemma_fresh_position_bound(base: FramedPoset, spans: Seq<Span>, i: int, d: int, p: int)
    requires
        0 <= i < spans.len(),
        0 <= p < spans[i].into_ext.cod.size(d),
        fresh(spans[i], d, p),
    ensures
        base.size(d) <= inr_target(base, spans, i, d, p) < tip_size(base, spans, d),
{
    lemma_fresh_count_mono(spans[i], d, p + 1, spans[i].into_ext.cod.size(d));
    lemma_fresh_before_mono(spans, i + 1, spans.len() as int, d);
}

/// The stored preimage of a cell, or [`NO_PREIMAGE`] outside the table.
fn preimage_at(inv: &Vec<Vec<usize>>, dim: usize, pos: usize) -> (r: usize)
    ensures
        r == preimage(*inv, dim as int, pos as int),
{
    if dim < inv.len() && pos < inv[dim].len() {
        inv[dim][pos]
    } else {
        NO_PREIMAGE
    }
}

/// Number of fresh cells of every level over all extensions.
fn count_fresh(spans: &[Span], levels: usize) -> (r: Vec<usize>)
    requires
        forall|i: int| 0 <= i < spans@.len() ==> (#[trigger] spans@[i]).into_ext.cod.levels() <= levels,
        forall|d: int| 0 <= d < levels ==> #[trigger] fresh_before(spans@, spans@.len() as int, d) <= usize::MAX,
    ensures
        r@.len() == levels,
        forall|d: int| 0 <= d < levels ==> #[trigger] r@[d] == fresh_before(spans@, spans@.len() as int, d),
{
    let mut extra: Vec<usize> = vec![0usize; levels];
    let n = spans.len();
    for i in 0..n
        invariant
            n == spans@.len(),
            extra@.len() == levels,
            forall|k: int| 0 <= k < spans@.len() ==> (#[trigger] spans@[k]).into_ext.cod.levels() <= levels,
            forall|d: int| 0 <= d < levels ==> #[trigger] fresh_before(spans@, spans@.len() as int, d) <= usize::MAX,
            forall|d: int| 0 <= d < levels ==> #[trigger] extra@[d] == fresh_before(spans@, i as int, d),
    {
        let span = spans[i];
        let ext_sizes = span.into_ext.cod.sizes();
        let m = ext_sizes.len();
        proof {
            assert(span == spans@[i as int]);
        }
        for d in 0..m
            invariant
                n == spans@.len(),
                i < n,
                span == spans@[i as int],
                m == span.into_ext.cod.levels(),
                m <= levels,
                ext_sizes@ == span.into_ext.cod.size_seq(),
                extra@.len() == levels,
                forall|d2: int| 0 <= d2 < levels ==> #[trigger] fresh_before(spans@, spans@.len() as int, d2) <= usize::MAX,
                forall|e: int| 0 <= e < levels ==> #[trigger] extra@[e] == if e < d {
                    fresh_before(spans@, i + 1, e)
                } else {
                    fresh_before(spans@, i as int, e)
                },
        {
            let size = ext_sizes[d];
            for p in 0..size
                invariant
                    n == spans@.len(),
                    i < n,
                    span == spans@[i as int],
                    d < m,
                    m <= levels,
                    size == span.into_ext.cod.size(d as int),
                    extra@.len() == levels,
                    forall|d2: int| 0 <= d2 < levels ==> #[trigger] fresh_before(spans@, spans@.len() as int, d2) <= usize::MAX,
                    forall|e: int| 0 <= e < levels ==> #[trigger] extra@[e] == if e < d {
                        fresh_before(spans@, i + 1, e)
                    } else if e == d {
                        fresh_before(spans@, i as int, e) + fresh_count(span, e, p as int)
                    } else {
                        fresh_before(spans@, i as int, e)
                    },
            {
                if preimage_at(&span.into_ext.inv, d, p) == NO_PREIMAGE {
                    proof {
                        lemma_fresh_count_mono(span, d as int, p + 1, size as int);
                        lemma_fresh_before_mono(spans@, i + 1, spans@.len() as int, d as int);
                        assert(fresh_before(spans@, i + 1, d as int) == fresh_before(spans@, i as int, d as int)
                            + fresh_count(span, d as int, size as int));
                    }
                    let value = extra[d] + 1;
                    extra.set(d, value);
                }
            }
        }
        proof {
            assert forall|e: int| 0 <= e < levels implies #[trigger] extra@[e] == fresh_before(spans@, i + 1, e) by {
                if e >= m {
                    assert(span.into_ext.cod.size(e) == 0);
                    assert(fresh_count(span, e, 0) == 0);
                }
            }
        }
    }
    extra
}

/// Rows of the given sizes, holding the table's sets where it has them and
/// empty sets elsewhere.
fn alloc_rows(table: &Vec<Vec<IntSet>>, total: &Vec<usize>) -> (r: Vec<Vec<IntSet>>)
    requires
        forall|d: int| 0 <= d < total@.len() && d < table@.len() ==> #[trigger] table@[d]@.len() <= total@[d],
    ensures
        r@.len() == total@.len(),
        forall|d: int| 0 <= d < total@.len() ==> #[trigger] r@[d]@.len() == total@[d],
        forall|d: int, k: int| 0 <= d < total@.len() && 0 <= k < total@[d] ==> #[trigger] entry(r, d, k) == if d
            < table@.len() && k < table@[d]@.len() {
            entry(*table, d, k)
        } else {
            Seq::<usize>::empty()
        },
{
    let n = total.len();
    let mut r: Vec<Vec<IntSet>> = Vec::new();
    for d in 0..n
        invariant
            n == total@.len(),
            r@.len() == d,
            forall|e: int| 0 <= e < d ==> #[trigger] r@[e]@.len() == total@[e],
            forall|e: int, k: int| 0 <= e < d && 0 <= k < total@[e] ==> #[trigger] entry(r, e, k) == if e < table@.len() && k
                < table@[e]@.len() {
                entry(*table, e, k)
            } else {
                Seq::<usize>::empty()
            },
    {
        let size = total[d];
        let mut row: Vec<IntSet> = Vec::new();
        for k in 0..size
            invariant
                d < n,
                n == total@.len(),
                size == total@[d as int],
                row@.len() == k,
                forall|q: int| 0 <= q < k ==> #[trigger] row@[q]@ == if (d as int) < table@.len() && q < table@[d as int]@.len() {
                    entry(*table, d as int, q)
                } else {
                    Seq::<usize>::empty()
                },
        {
            if d < table.len() && k < table[d].len() {
                row.push(table[d][k].clone());
            } else {
                row.push(Vec::new());
            }
        }
        let ghost before = r;
        r.push(row);
        proof {
            assert forall|e: int, k: int| 0 <= e < d + 1 && 0 <= k < total@[e] implies #[trigger] entry(r, e, k) == if e
                < table@.len() && k < table@[e]@.len() {
                entry(*table, e, k)
            } else {
                Seq::<usize>::empty()
            } by {
                if e < d {
                    assert(r@[e] == before@[e]);
                    assert(entry(r, e, k) == entry(before, e, k));
                } else {
                    assert(r@[e] == row);
                    assert(e == d as int);
                    assert(0 <= k < row@.len());
                    assert(row@[k]@ == if (d as int) < table@.len() && k < table@[d as int]@.len() {
                        entry(*table, d as int, k)
                    } else {
                        Seq::<usize>::empty()
                    });
                    assert(entry(r, e, k) == row@[k]@);
                }
            }
            assert forall|e: int| 0 <= e < d + 1 implies #[trigger] r@[e]@.len() == total@[e] by {
                if e < d {
                    assert(r@[e] == before@[e]);
                }
            }
        }
    }
    r
}

/// Overwrite one set of a table.
fn put(table: &mut Vec<Vec<IntSet>>, d: usize, t: usize, v: IntSet)
    requires
        d < old(table)@.len(),
        t < old(table)@[d as int]@.len(),
    ensures
        final(table)@.len() == old(table)@.len(),
        forall|e: int| 0 <= e < old(table)@.len() ==> #[trigger] final(table)@[e]@.len() == old(table)@[e]@.len(),
        forall|e: int, k: int| 0 <= e < old(table)@.len() && 0 <= k < old(table)@[e]@.len() && !(e == d && k == t)
            ==> #[trigger] entry(*final(table), e, k) == entry(*old(table), e, k),
        entry(*final(table), d as int, t as int) == v@,
{
    table[d][t] = v;
}

/// Cell `(d, p)` of extension `j`, fresh, has been written at its pushout
/// position: the extension's basis, and the sorted images of its signed faces.
pub open spec fn placed(
    base: FramedPoset,
    spans: Seq<Span>,
    j: int,
    d: int,
    p: int,
    basis: Vec<Vec<IntSet>>,
    fi: Vec<Vec<IntSet>>,
    fo: Vec<Vec<IntSet>>,
) -> bool {
    let t = inr_target(base, spans, j, d, p);
    let ext = *spans[j].into_ext.cod;
    &&& entry(basis, d, t) == ext.basis_at(d, p)
    &&& forall|x: usize| #[trigger] entry(fi, d, t).contains(x) <==> exists|q: usize|
        ext.faces(crate::poset::Sign::Input, d, p).contains(q) && inr_target(base, spans, j, d - 1, q as int) == x
    &&& forall|x: usize| #[trigger] entry(fo, d, t).contains(x) <==> exists|q: usize|
        ext.faces(crate::poset::Sign::Output, d, p).contains(q) && inr_target(base, spans, j, d - 1, q as int) == x
}

/// Every entry of set `(d, k)` of a face table indexes a cell one level down.
pub open spec fn faces_below(t: Vec<Vec<IntSet>>, total: Seq<usize>, d: int, k: int) -> bool {
    &&& (d < 1 ==> entry(t, d, k).len() == 0)
    &&& forall|x: int| 0 <= x < entry(t, d, k).len() ==> #[trigger] entry(t, d, k)[x] < total[d - 1]
}

/// The pushout tables under construction: shaped by `total`, holding the
/// base's sets at base positions, sorted, with faces one level down, and empty
/// from `counters` on.
pub open spec fn tables_ok(
    base: FramedPoset,
    total: Seq<usize>,
    counters: Seq<usize>,
    basis: Vec<Vec<IntSet>>,
    fi: Vec<Vec<IntSet>>,
    fo: Vec<Vec<IntSet>>,
) -> bool {
    &&& basis@.len() == total.len()
    &&& fi@.len() == total.len()
    &&& fo@.len() == total.len()
    &&& counters.len() == total.len()
    &&& forall|d: int| 0 <= d < total.len() ==> #[trigger] basis@[d]@.len() == total[d]
    &&& forall|d: int| 0 <= d < total.len() ==> #[trigger] fi@[d]@.len() == total[d]
    &&& forall|d: int| 0 <= d < total.len() ==> #[trigger] fo@[d]@.len() == total[d]
    &&& forall|d: int| 0 <= d < total.len() ==> base.size(d) <= #[trigger] counters[d] <= total[d]
    &&& forall|d: int, k: int| #[trigger] base.cell(d, k) ==> entry(basis, d, k) == base.basis_at(d, k)
    &&& forall|d: int, k: int| #[trigger] base.cell(d, k) ==> entry(fi, d, k) == base.faces(crate::poset::Sign::Input, d, k)
    &&& forall|d: int, k: int| #[trigger] base.cell(d, k) ==> entry(fo, d, k) == base.faces(crate::poset::Sign::Output, d, k)
    &&& forall|d: int, k: int| 0 <= d < total.len() && 0 <= k < total[d] ==> strictly_sorted(#[trigger] entry(basis, d, k))
    &&& forall|d: int, k: int| 0 <= d < total.len() && 0 <= k < total[d] ==> strictly_sorted(#[trigger] entry(fi, d, k))
    &&& forall|d: int, k: int| 0 <= d < total.len() && 0 <= k < total[d] ==> strictly_sorted(#[trigger] entry(fo, d, k))
    &&& forall|d: int, k: int| 0 <= d < total.len() && 0 <= k < total[d] ==> #[trigger] faces_below(fi, total, d, k)
    &&& forall|d: int, k: int| 0 <= d < total.len() && 0 <= k < total[d] ==> #[trigger] faces_below(fo, total, d, k)
    &&& forall|d: int, k: int| 0 <= d < total.len() && counters[d] <= k < total[d] ==> #[trigger] entry(basis, d, k).len() == 0
        && entry(fi, d, k).len() == 0 && entry(fo, d, k).len() == 0
}

/// A fresh position lies below the pushout size and beyond every position of
/// an earlier extension at the same level.
proof fn lemma_position_order(base: FramedPoset, spans: Seq<Span>, j: int, i: int, d: int, p: int)
    requires
        0 <= j < i <= spans.len(),
        0 <= p < spans[j].into_ext.cod.size(d),
        fresh(spans[j], d, p),
    ensures
        inr_target(base, spans, j, d, p) < base.size(d) + fresh_before(spans, i, d),
{
    lemma_fresh_count_mono(spans[j], d, p + 1, spans[j].into_ext.cod.size(d));
    lemma_fresh_before_mono(spans, j + 1, i, d);
}

/// Where extension `i` sends its cells lies inside the pushout.
proof fn lemma_target_range(base: FramedPoset, spans: Seq<Span>, i: int, d: int, p: int)
    requires
        base.valid(),
        0 <= i < spans.len(),
        span_ok(base, spans[i]),
        spans[i].into_ext.cod.cell(d, p),
    ensures
        0 <= inr_target(base, spans, i, d, p) < tip_size(base, spans, d),
{
    let span = spans[i];
    let pre = preimage(span.into_ext.inv, d, p);
    if pre != NO_PREIMAGE {
        crate::embedding::lemma_same_poset_sizes(&*span.into_base.dom, &*span.into_ext.dom);
        assert(span.into_ext.cod.cell(d, p));
        assert(at(span.into_ext.inv, d, p) == pre);
        assert(span.into_base.dom.cell(d, pre as int));
    } else {
        lemma_fresh_position_bound(base, spans, i, d, p);
    }
}

/// The images, under the finished row `prev` of a cell map, of a set of faces.
fn mapped_faces(faces: &IntSet, prev: &Vec<usize>) -> (r: IntSet)
    requires
        forall|k: int| 0 <= k < faces@.len() ==> (#[trigger] faces@[k]) < prev@.len(),
    ensures
        strictly_sorted(r@),
        forall|x: usize| #[trigger] r@.contains(x) <==> exists|q: usize| faces@.contains(q) && prev@[q as int] == x,
{
    let mut mapped: Vec<usize> = Vec::new();
    let n = faces.len();
    for k in 0..n
        invariant
            n == faces@.len(),
            forall|k2: int| 0 <= k2 < faces@.len() ==> (#[trigger] faces@[k2]) < prev@.len(),
            mapped@.len() == k,
            forall|k2: int| 0 <= k2 < k ==> #[trigger] mapped@[k2] == prev@[faces@[k2] as int],
    {
        mapped.push(prev[faces[k]]);
    }
    let r = intset::collect_sorted(mapped);
    proof {
        assert forall|x: usize| #[trigger] r@.contains(x) <==> exists|q: usize| faces@.contains(q) && prev@[q as int] == x by {
            if r@.contains(x) {
                assert(mapped@.contains(x));
                let k = choose|k: int| 0 <= k < mapped@.len() && mapped@[k] == x;
                assert(faces@.contains(faces@[k]));
            }
            if exists|q: usize| faces@.contains(q) && prev@[q as int] == x {
                let q = choose|q: usize| faces@.contains(q) && prev@[q as int] == x;
                let k = choose|k: int| 0 <= k < faces@.len() && faces@[k] == q;
                assert(mapped@[k] == x);
                assert(mapped@.contains(x));
            }
        }
    }
    r
}

/// Place the fresh cells of extension `i` into the pushout tables, and return
/// where every cell of the extension goes.
fn place_span(
    base: &FramedPoset,
    spans: &[Span],
    i: usize,
    total: &Vec<usize>,
    basis: &mut Vec<Vec<IntSet>>,
    fi: &mut Vec<Vec<IntSet>>,
    fo: &mut Vec<Vec<IntSet>>,
    counters: &mut Vec<usize>,
) -> (map: Vec<Vec<usize>>)
    requires
        base.valid(),
        i < spans@.len(),
        forall|j: int| 0 <= j < spans@.len() ==> span_ok(*base, #[trigger] spans@[j]),
        forall|j: int| 0 <= j < spans@.len() ==> (#[trigger] spans@[j]).into_ext.cod.levels() <= total@.len(),
        base.levels() <= total@.len(),
        forall|d: int| 0 <= d < total@.len() ==> #[trigger] total@[d] == tip_size(*base, spans@, d),
        tables_ok(*base, total@, old(counters)@, *old(basis), *old(fi), *old(fo)),
        forall|d: int| 0 <= d < total@.len() ==> #[trigger] old(counters)@[d] == base.size(d) + fresh_before(spans@, i as int, d),
        forall|j: int, d: int, p: int| 0 <= j < i && spans@[j].into_ext.cod.cell(d, p) && fresh(spans@[j], d, p)
            ==> #[trigger] placed(*base, spans@, j, d, p, *old(basis), *old(fi), *old(fo)),
    ensures
        tables_ok(*base, total@, final(counters)@, *final(basis), *final(fi), *final(fo)),
        forall|d: int| 0 <= d < total@.len() ==> #[trigger] final(counters)@[d] == base.size(d) + fresh_before(spans@, i + 1, d),
        forall|j: int, d: int, p: int| 0 <= j <= i && spans@[j].into_ext.cod.cell(d, p) && fresh(spans@[j], d, p)
            ==> #[trigger] placed(*base, spans@, j, d, p, *final(basis), *final(fi), *final(fo)),
        map@.len() == spans@[i as int].into_ext.cod.levels(),
        forall|d: int| 0 <= d < map@.len() ==> #[trigger] map@[d]@.len() == spans@[i as int].into_ext.cod.size(d),
        forall|d: int, p: int| spans@[i as int].into_ext.cod.cell(d, p) ==> #[trigger] at(map, d, p) == inr_target(*base, spans@, i as int, d, p),
{
    let span = spans[i];
    let ghost sp = spans@;
    let ghost ii = i as int;
    let ext: &FramedPoset = &span.into_ext.cod;
    let ext_sizes = ext.sizes();
    let levels = ext_sizes.len();
    let mut map: Vec<Vec<usize>> = Vec::new();
    for d in 0..levels
        invariant
            base.valid(),
            sp == spans@,
            ii == i,
            i < spans@.len(),
            span == spans@[ii],
            *ext == *span.into_ext.cod,
            forall|j: int| 0 <= j < spans@.len() ==> span_ok(*base, #[trigger] spans@[j]),
            levels == ext.levels(),
            levels <= total@.len(),
            forall|j: int| 0 <= j < spans@.len() ==> (#[trigger] spans@[j]).into_ext.cod.levels() <= total@.len(),
            base.levels() <= total@.len(),
            ext_sizes@ == ext.size_seq(),
            forall|e: int| 0 <= e < total@.len() ==> #[trigger] total@[e] == tip_size(*base, spans@, e),
            tables_ok(*base, total@, counters@, *basis, *fi, *fo),
            forall|e: int| 0 <= e < total@.len() ==> #[trigger] counters@[e] == base.size(e) + fresh_before(spans@, ii, e)
                + if e < d { fresh_count(span, e, ext.size(e)) } else { 0 },
            forall|j: int, e: int, p: int| ((0 <= j < i) || (j == i && e < d)) && spans@[j].into_ext.cod.cell(e, p) && fresh(spans@[j], e, p)
                ==> #[trigger] placed(*base, spans@, j, e, p, *basis, *fi, *fo),
            map@.len() == d,
            forall|e: int| 0 <= e < d ==> #[trigger] map@[e]@.len() == ext.size(e),
            forall|e: int, p: int| 0 <= e < d && ext.cell(e, p) ==> #[trigger] at(map, e, p) == inr_target(*base, spans@, ii, e, p),
    {
        let size = ext_sizes[d];
        let mut row: Vec<usize> = Vec::new();
        for p in 0..size
            invariant
                base.valid(),
                sp == spans@,
                ii == i,
                i < spans@.len(),
                span == spans@[ii],
                *ext == *span.into_ext.cod,
                forall|j: int| 0 <= j < spans@.len() ==> span_ok(*base, #[trigger] spans@[j]),
                levels == ext.levels(),
                d < levels,
                levels <= total@.len(),
                forall|j: int| 0 <= j < spans@.len() ==> (#[trigger] spans@[j]).into_ext.cod.levels() <= total@.len(),
                base.levels() <= total@.len(),
                size == ext.size(d as int),
                forall|e: int| 0 <= e < total@.len() ==> #[trigger] total@[e] == tip_size(*base, spans@, e),
                tables_ok(*base, total@, counters@, *basis, *fi, *fo),
                forall|e: int| 0 <= e < total@.len() ==> #[trigger] counters@[e] == base.size(e) + fresh_before(spans@, ii, e)
                    + if e < d { fresh_count(span, e, ext.size(e)) } else if e == d { fresh_count(span, e, p as int) } else { 0 },
                forall|j: int, e: int, q: int| ((0 <= j < i) || (j == i && (e < d || (e == d && q < p)))) && spans@[j].into_ext.cod.cell(e, q)
                    && fresh(spans@[j], e, q) ==> #[trigger] placed(*base, spans@, j, e, q, *basis, *fi, *fo),
                map@.len() == d,
                forall|e: int| 0 <= e < d ==> #[trigger] map@[e]@.len() == ext.size(e),
                forall|e: int, q: int| 0 <= e < d && ext.cell(e, q) ==> #[trigger] at(map, e, q) == inr_target(*base, spans@, ii, e, q),
                row@.len() == p,
                forall|q: int| 0 <= q < p ==> #[trigger] row@[q] == inr_target(*base, spans@, ii, d as int, q),
        {
            proof {
                lemma_target_range(*base, spans@, ii, d as int, p as int);
            }
            let pre = preimage_at(&span.into_ext.inv, d, p);
            if pre != NO_PREIMAGE {
                proof {
                    crate::embedding::lemma_same_poset_sizes(&*span.into_base.dom, &*span.into_ext.dom);
                    assert(ext.cell(d as int, p as int));
                    assert(span.into_base.dom.cell(d as int, pre as int));
                }
                let target = span.into_base.map[d][pre];
                row.push(target);
            } else {
                let idx = counters[d];
                proof {
                    assert(idx == inr_target(*base, spans@, ii, d as int, p as int));
                }
                let ghost c0 = counters@;
                counters.set(d, idx + 1);
                row.push(idx);
                let ghost b0 = *basis;
                let ghost fi0 = *fi;
                let ghost fo0 = *fo;
                let b = ext.basis_of(d, p).clone();
                put(basis, d, idx, b);
                if d > 0 {
                    let fin = ext.faces_of(crate::poset::Sign::Input, d, p);
                    let fout = ext.faces_of(crate::poset::Sign::Output, d, p);
                    proof {
                        crate::poset::lemma_valid_sign(ext, crate::poset::Sign::Input);
                        crate::poset::lemma_valid_sign(ext, crate::poset::Sign::Output);
                        assert forall|k: int| 0 <= k < fin@.len() implies (#[trigger] fin@[k]) < map@[d - 1]@.len() by {
                            assert(entry(ext.faces_in, d as int, p as int)[k] < rows(ext.basis, d - 1));
                        }
                        assert forall|k: int| 0 <= k < fout@.len() implies (#[trigger] fout@[k]) < map@[d - 1]@.len() by {
                            assert(entry(ext.faces_out, d as int, p as int)[k] < rows(ext.basis, d - 1));
                        }
                    }
                    let ins = mapped_faces(fin, &map[d - 1]);
                    let outs = mapped_faces(fout, &map[d - 1]);
                    proof {
                        assert forall|x: usize| #[trigger] ins@.contains(x) <==> exists|q: usize|
                            ext.faces(crate::poset::Sign::Input, d as int, p as int).contains(q)
                                && inr_target(*base, spans@, ii, d - 1, q as int) == x by {
                            if ins@.contains(x) {
                                let q = choose|q: usize| fin@.contains(q) && map@[d - 1]@[q as int] == x;
                                let k = choose|k: int| 0 <= k < fin@.len() && fin@[k] == q;
                                assert(fin@[k] < map@[d - 1]@.len());
                                assert(ext.cell(d - 1, q as int));
                                assert(at(map, d - 1, q as int) == inr_target(*base, spans@, ii, d - 1, q as int));
                            }
                            if exists|q: usize| ext.faces(crate::poset::Sign::Input, d as int, p as int).contains(q)
                                && inr_target(*base, spans@, ii, d - 1, q as int) == x {
                                let q = choose|q: usize| ext.faces(crate::poset::Sign::Input, d as int, p as int).contains(q)
                                    && inr_target(*base, spans@, ii, d - 1, q as int) == x;
                                let k = choose|k: int| 0 <= k < fin@.len() && fin@[k] == q;
                                assert(fin@[k] < map@[d - 1]@.len());
                                assert(ext.cell(d - 1, q as int));
                                assert(at(map, d - 1, q as int) == inr_target(*base, spans@, ii, d - 1, q as int));
                            }
                        }
                        assert forall|x: usize| #[trigger] outs@.contains(x) <==> exists|q: usize|
                            ext.faces(crate::poset::Sign::Output, d as int, p as int).contains(q)
                                && inr_target(*base, spans@, ii, d - 1, q as int) == x by {
                            if outs@.contains(x) {
                                let q = choose|q: usize| fout@.contains(q) && map@[d - 1]@[q as int] == x;
                                let k = choose|k: int| 0 <= k < fout@.len() && fout@[k] == q;
                                assert(fout@[k] < map@[d - 1]@.len());
                                assert(ext.cell(d - 1, q as int));
                                assert(at(map, d - 1, q as int) == inr_target(*base, spans@, ii, d - 1, q as int));
                            }
                            if exists|q: usize| ext.faces(crate::poset::Sign::Output, d as int, p as int).contains(q)
                                && inr_target(*base, spans@, ii, d - 1, q as int) == x {
                                let q = choose|q: usize| ext.faces(crate::poset::Sign::Output, d as int, p as int).contains(q)
                                    && inr_target(*base, spans@, ii, d - 1, q as int) == x;
                                let k = choose|k: int| 0 <= k < fout@.len() && fout@[k] == q;
                                assert(fout@[k] < map@[d - 1]@.len());
                                assert(ext.cell(d - 1, q as int));
                                assert(at(map, d - 1, q as int) == inr_target(*base, spans@, ii, d - 1, q as int));
                            }
                        }
                    }
                    put(fi, d, idx, ins);
                    put(fo, d, idx, outs);
                }
                proof {
                    lemma_place_step(*base, spans@, ii, d as int, p as int, total@, c0, counters@, b0, fi0, fo0, *basis, *fi, *fo);
                }
            }
            proof {
                assert(row@[p as int] == inr_target(*base, spans@, ii, d as int, p as int));
            }
        }
        let ghost before = map;
        map.push(row);
        proof {
            assert(map@[d as int] == row);
            assert forall|e: int| 0 <= e < d + 1 implies #[trigger] map@[e]@.len() == ext.size(e) by {
                if e < d {
                    assert(map@[e] == before@[e]);
                }
            }
            assert forall|e: int, q: int| 0 <= e < d + 1 && ext.cell(e, q) implies #[trigger] at(map, e, q) == inr_target(
                *base, spans@, ii, e, q) by {
                if e < d {
                    assert(map@[e] == before@[e]);
                    assert(at(before, e, q) == inr_target(*base, spans@, ii, e, q));
                } else {
                    assert(row@[q] == inr_target(*base, spans@, ii, d as int, q));
                }
            }
            assert forall|j: int, e: int, q: int| ((0 <= j < i) || (j == i && e < d + 1)) && spans@[j].into_ext.cod.cell(e, q)
                && fresh(spans@[j], e, q) implies #[trigger] placed(*base, spans@, j, e, q, *basis, *fi, *fo) by {
                if j == i && e == d {
                    assert(q < size);
                }
            }
        }
    }
    map
}

/// `new` agrees with `old` except, possibly, at `(d, t)`.
pub open spec fn same_except(old: Vec<Vec<IntSet>>, new: Vec<Vec<IntSet>>, d: int, t: int) -> bool {
    &&& new@.len() == old@.len()
    &&& forall|e: int| 0 <= e < old@.len() ==> #[trigger] new@[e]@.len() == old@[e]@.len()
    &&& forall|e: int, k: int| 0 <= e < old@.len() && 0 <= k < old@[e]@.len() && !(e == d && k == t)
        ==> #[trigger] entry(new, e, k) == entry(old, e, k)
}

/// The cells of extension `j` handled before cell `(d, p)` of extension `i`.
pub open spec fn handled_before(i: int, d: int, p: int, j: int, e: int, q: int) -> bool {
    (0 <= j < i) || (j == i && (e < d || (e == d && q < p)))
}

/// Writing fresh cell `(d, p)` of extension `i` keeps the tables in order and
/// places the cell.
proof fn lemma_place_step(
    base: FramedPoset,
    spans: Seq<Span>,
    i: int,
    d: int,
    p: int,
    total: Seq<usize>,
    counters_old: Seq<usize>,
    counters_new: Seq<usize>,
    b0: Vec<Vec<IntSet>>,
    fi0: Vec<Vec<IntSet>>,
    fo0: Vec<Vec<IntSet>>,
    b1: Vec<Vec<IntSet>>,
    fi1: Vec<Vec<IntSet>>,
    fo1: Vec<Vec<IntSet>>,
)
    requires
        base.valid(),
        0 <= i < spans.len(),
        forall|j: int| 0 <= j < spans.len() ==> span_ok(base, #[trigger] spans[j]),
        spans[i].into_ext.cod.cell(d, p),
        fresh(spans[i], d, p),
        forall|j: int| 0 <= j < spans.len() ==> (#[trigger] spans[j]).into_ext.cod.levels() <= total.len(),
        base.levels() <= total.len(),
        forall|e: int| 0 <= e < total.len() ==> #[trigger] total[e] == tip_size(base, spans, e),
        tables_ok(base, total, counters_old, b0, fi0, fo0),
        counters_old[d] == inr_target(base, spans, i, d, p),
        counters_new == counters_old.update(d, (counters_old[d] + 1) as usize),
        counters_old[d] == base.size(d) + fresh_before(spans, i, d) + fresh_count(spans[i], d, p),
        same_except(b0, b1, d, counters_old[d] as int),
        same_except(fi0, fi1, d, counters_old[d] as int),
        same_except(fo0, fo1, d, counters_old[d] as int),
        entry(b1, d, counters_old[d] as int) == spans[i].into_ext.cod.basis_at(d, p),
        d == 0 ==> fi1 == fi0 && fo1 == fo0,
        d > 0 ==> strictly_sorted(entry(fi1, d, counters_old[d] as int)),
        d > 0 ==> strictly_sorted(entry(fo1, d, counters_old[d] as int)),
        d > 0 ==> forall|x: usize| #[trigger] entry(fi1, d, counters_old[d] as int).contains(x) <==> exists|q: usize|
            spans[i].into_ext.cod.faces(crate::poset::Sign::Input, d, p).contains(q) && inr_target(base, spans, i, d - 1, q as int) == x,
        d > 0 ==> forall|x: usize| #[trigger] entry(fo1, d, counters_old[d] as int).contains(x) <==> exists|q: usize|
            spans[i].into_ext.cod.faces(crate::poset::Sign::Output, d, p).contains(q) && inr_target(base, spans, i, d - 1, q as int) == x,
        forall|j: int, e: int, q: int| handled_before(i, d, p, j, e, q) && spans[j].into_ext.cod.cell(e, q) && fresh(spans[j], e, q)
            ==> #[trigger] placed(base, spans, j, e, q, b0, fi0, fo0),
    ensures
        tables_ok(base, total, counters_new, b1, fi1, fo1),
        forall|j: int, e: int, q: int| handled_before(i, d, p + 1, j, e, q) && spans[j].into_ext.cod.cell(e, q) && fresh(spans[j], e, q)
            ==> #[trigger] placed(base, spans, j, e, q, b1, fi1, fo1),
{
    let ext = *spans[i].into_ext.cod;
    let t = counters_old[d] as int;
    assert(span_ok(base, spans[i]));
    assert(base.size(d) <= t);
    lemma_fresh_position_bound(base, spans, i, d, p);
    assert(t < total[d]);
    assert(strictly_sorted(ext.basis_at(d, p))) by {
        assert(strictly_sorted(entry(ext.basis, d, p)));
    }
    if d == 0 {
        assert forall|s: crate::poset::Sign| ext.faces(s, d, p).len() == 0 by {
            crate::poset::lemma_valid_sign(&ext, s);
            if ext.faces(s, d, p).len() > 0 {
                assert(entry(ext.face_table(s), d, p)[0] < rows(ext.basis, d - 1));
            }
        }
        assert(entry(b0, d, t).len() == 0);
        assert(entry(fi1, d, t).len() == 0);
        assert(entry(fo1, d, t).len() == 0);
    }
    // the new face entries lie one level down
    assert forall|x: int| 0 <= x < entry(fi1, d, t).len() implies 1 <= d && #[trigger] entry(fi1, d, t)[x] < total[d - 1] by {
        let v = entry(fi1, d, t)[x];
        assert(entry(fi1, d, t).contains(v));
        let q = choose|q: usize| ext.faces(crate::poset::Sign::Input, d, p).contains(q) && inr_target(base, spans, i, d - 1, q as int) == v;
        crate::poset::lemma_valid_sign(&ext, crate::poset::Sign::Input);
        let k = choose|k: int| 0 <= k < ext.faces(crate::poset::Sign::Input, d, p).len() && ext.faces(crate::poset::Sign::Input, d, p)[k] == q;
        assert(entry(ext.faces_in, d, p)[k] < rows(ext.basis, d - 1));
        lemma_target_range(base, spans, i, d - 1, q as int);
    }
    assert forall|x: int| 0 <= x < entry(fo1, d, t).len() implies 1 <= d && #[trigger] entry(fo1, d, t)[x] < total[d - 1] by {
        let v = entry(fo1, d, t)[x];
        assert(entry(fo1, d, t).contains(v));
        let q = choose|q: usize| ext.faces(crate::poset::Sign::Output, d, p).contains(q) && inr_target(base, spans, i, d - 1, q as int) == v;
        crate::poset::lemma_valid_sign(&ext, crate::poset::Sign::Output);
        let k = choose|k: int| 0 <= k < ext.faces(crate::poset::Sign::Output, d, p).len() && ext.faces(crate::poset::Sign::Output, d, p)[k] == q;
        assert(entry(ext.faces_out, d, p)[k] < rows(ext.basis, d - 1));
        lemma_target_range(base, spans, i, d - 1, q as int);
    }
    assert forall|e: int, k: int| #[trigger] base.cell(e, k) implies entry(b1, e, k) == base.basis_at(e, k) by {
        assert(entry(b0, e, k) == base.basis_at(e, k));
    }
    assert forall|e: int, k: int| #[trigger] base.cell(e, k) implies entry(fi1, e, k) == base.faces(crate::poset::Sign::Input, e, k) by {
        assert(entry(fi0, e, k) == base.faces(crate::poset::Sign::Input, e, k));
    }
    assert forall|e: int, k: int| #[trigger] base.cell(e, k) implies entry(fo1, e, k) == base.faces(crate::poset::Sign::Output, e, k) by {
        assert(entry(fo0, e, k) == base.faces(crate::poset::Sign::Output, e, k));
    }
    assert forall|e: int, k: int| 0 <= e < total.len() && 0 <= k < total[e] implies strictly_sorted(#[trigger] entry(b1, e, k)) by {
        if !(e == d && k == t) {
            assert(strictly_sorted(entry(b0, e, k)));
        }
    }
    assert forall|e: int, k: int| 0 <= e < total.len() && 0 <= k < total[e] implies strictly_sorted(#[trigger] entry(fi1, e, k)) by {
        if !(e == d && k == t) {
            assert(strictly_sorted(entry(fi0, e, k)));
        }
    }
    assert forall|e: int, k: int| 0 <= e < total.len() && 0 <= k < total[e] implies strictly_sorted(#[trigger] entry(fo1, e, k)) by {
        if !(e == d && k == t) {
            assert(strictly_sorted(entry(fo0, e, k)));
        }
    }
    assert forall|e: int, k: int| 0 <= e < total.len() && 0 <= k < total[e] implies #[trigger] faces_below(fi1, total, e, k) by {
        if !(e == d && k == t) {
            assert(fi0@[e]@.len() == total[e]);
            assert(entry(fi1, e, k) == entry(fi0, e, k));
            assert(faces_below(fi0, total, e, k));
            assert forall|x: int| 0 <= x < entry(fi1, e, k).len() implies 1 <= e && #[trigger] entry(fi1, e, k)[x] < total[e - 1] by {
                assert(entry(fi1, e, k)[x] == entry(fi0, e, k)[x]);
            }
            assert(faces_below(fi1, total, e, k));
        } else {
            assert forall|x: int| 0 <= x < entry(fi1, e, k).len() implies 1 <= e && #[trigger] entry(fi1, e, k)[x] < total[e - 1] by {
                assert(entry(fi1, d, t)[x] < total[d - 1]);
            }
            assert(faces_below(fi1, total, e, k));
        }
    }
    assert forall|e: int, k: int| 0 <= e < total.len() && 0 <= k < total[e] implies #[trigger] faces_below(fo1, total, e, k) by {
        if !(e == d && k == t) {
            assert(fo0@[e]@.len() == total[e]);
            assert(entry(fo1, e, k) == entry(fo0, e, k));
            assert(faces_below(fo0, total, e, k));
            assert forall|x: int| 0 <= x < entry(fo1, e, k).len() implies 1 <= e && #[trigger] entry(fo1, e, k)[x] < total[e - 1] by {
                assert(entry(fo1, e, k)[x] == entry(fo0, e, k)[x]);
            }
            assert(faces_below(fo1, total, e, k));
        } else {
            assert forall|x: int| 0 <= x < entry(fo1, e, k).len() implies 1 <= e && #[trigger] entry(fo1, e, k)[x] < total[e - 1] by {
                assert(entry(fo1, d, t)[x] < total[d - 1]);
            }
            assert(faces_below(fo1, total, e, k));
        }
    }
    assert forall|e: int, k: int| 0 <= e < total.len() && counters_new[e] <= k < total[e] implies #[trigger] entry(b1, e, k).len() == 0
        && entry(fi1, e, k).len() == 0 && entry(fo1, e, k).len() == 0 by {
        if e != d {
            assert(counters_new[e] == counters_old[e]);
        }
        assert(entry(b0, e, k).len() == 0);
    }
    assert forall|e: int| 0 <= e < total.len() implies base.size(e) <= #[trigger] counters_new[e] <= total[e] by {
        if e != d {
            assert(counters_new[e] == counters_old[e]);
        }
    }
    assert forall|e: int| 0 <= e < total.len() implies #[trigger] b1@[e]@.len() == total[e] by {
        assert(b0@[e]@.len() == total[e]);
    }
    assert forall|e: int| 0 <= e < total.len() implies #[trigger] fi1@[e]@.len() == total[e] by {
        assert(fi0@[e]@.len() == total[e]);
    }
    assert forall|e: int| 0 <= e < total.len() implies #[trigger] fo1@[e]@.len() == total[e] by {
        assert(fo0@[e]@.len() == total[e]);
    }
    assert forall|j: int, e: int, q: int| handled_before(i, d, p + 1, j, e, q) && spans[j].into_ext.cod.cell(e, q) && fresh(spans[j], e, q)
        implies #[trigger] placed(base, spans, j, e, q, b1, fi1, fo1) by {
        if j == i && e == d && q == p {
        } else {
            assert(handled_before(i, d, p, j, e, q));
            assert(placed(base, spans, j, e, q, b0, fi0, fo0));
            assert(spans[j].into_ext.cod.levels() <= total.len());
            let tq = inr_target(base, spans, j, e, q);
            lemma_target_range(base, spans, j, e, q);
            if e == d {
                if j < i {
                    lemma_position_order(base, spans, j, i, e, q);
                    lemma_fresh_before_mono(spans, i, i, d);
                } else {
                    lemma_fresh_count_mono(spans[i], d, q + 1, p);
                }
                assert(tq < t);
            }
            assert(entry(b1, e, tq) == entry(b0, e, tq));
            assert(entry(fi1, e, tq) == entry(fi0, e, tq));
            assert(entry(fo1, e, tq) == entry(fo0, e, tq));
        }
    }
    assert(tables_ok(base, total, counters_new, b1, fi1, fo1));
}

/// The rows allocated from the base satisfy the table invariant before any
/// extension is placed.
proof fn lemma_initial_tables(
    base: FramedPoset,
    total: Seq<usize>,
    counters: Seq<usize>,
    basis: Vec<Vec<IntSet>>,
    fi: Vec<Vec<IntSet>>,
    fo: Vec<Vec<IntSet>>,
)
    requires
        base.valid(),
        base.levels() <= total.len(),
        counters.len() == total.len(),
        forall|d: int| 0 <= d < total.len() ==> #[trigger] counters[d] == base.size(d),
        forall|d: int| 0 <= d < total.len() ==> base.size(d) <= #[trigger] total[d],
        basis@.len() == total.len(),
        fi@.len() == total.len(),
        fo@.len() == total.len(),
        forall|d: int| 0 <= d < total.len() ==> #[trigger] basis@[d]@.len() == total[d],
        forall|d: int| 0 <= d < total.len() ==> #[trigger] fi@[d]@.len() == total[d],
        forall|d: int| 0 <= d < total.len() ==> #[trigger] fo@[d]@.len() == total[d],
        forall|d: int, k: int| 0 <= d < total.len() && 0 <= k < total[d] ==> #[trigger] entry(basis, d, k) == if d
            < base.basis@.len() && k < base.basis@[d]@.len() {
            entry(base.basis, d, k)
        } else {
            Seq::<usize>::empty()
        },
        forall|d: int, k: int| 0 <= d < total.len() && 0 <= k < total[d] ==> #[trigger] entry(fi, d, k) == if d
            < base.faces_in@.len() && k < base.faces_in@[d]@.len() {
            entry(base.faces_in, d, k)
        } else {
            Seq::<usize>::empty()
        },
        forall|d: int, k: int| 0 <= d < total.len() && 0 <= k < total[d] ==> #[trigger] entry(fo, d, k) == if d
            < base.faces_out@.len() && k < base.faces_out@[d]@.len() {
            entry(base.faces_out, d, k)
        } else {
            Seq::<usize>::empty()
        },
    ensures
        tables_ok(base, total, counters, basis, fi, fo),
{
    assert forall|d: int, k: int| #[trigger] base.cell(d, k) implies entry(basis, d, k) == base.basis_at(d, k) by {
        assert(total[d] >= base.size(d));
    }
    assert forall|d: int, k: int| #[trigger] base.cell(d, k) implies entry(fi, d, k) == base.faces(crate::poset::Sign::Input, d, k) by {
        assert(total[d] >= base.size(d));
    }
    assert forall|d: int, k: int| #[trigger] base.cell(d, k) implies entry(fo, d, k) == base.faces(crate::poset::Sign::Output, d, k) by {
        assert(total[d] >= base.size(d));
    }
    assert forall|d: int, k: int| 0 <= d < total.len() && 0 <= k < total[d] implies strictly_sorted(#[trigger] entry(basis, d, k)) by {
        if d < base.basis@.len() && k < base.basis@[d]@.len() {
            assert(strictly_sorted(entry(base.basis, d, k)));
        }
    }
    assert forall|d: int, k: int| 0 <= d < total.len() && 0 <= k < total[d] implies strictly_sorted(#[trigger] entry(fi, d, k)) by {
        if d < base.faces_in@.len() && k < base.faces_in@[d]@.len() {
            assert(strictly_sorted(entry(base.faces_in, d, k)));
        }
    }
    assert forall|d: int, k: int| 0 <= d < total.len() && 0 <= k < total[d] implies strictly_sorted(#[trigger] entry(fo, d, k)) by {
        if d < base.faces_out@.len() && k < base.faces_out@[d]@.len() {
            assert(strictly_sorted(entry(base.faces_out, d, k)));
        }
    }
    assert forall|d: int, k: int| 0 <= d < total.len() && 0 <= k < total[d] implies #[trigger] faces_below(fi, total, d, k) by {
        if d < base.faces_in@.len() && k < base.faces_in@[d]@.len() {
            assert forall|x: int| 0 <= x < entry(fi, d, k).len() implies #[trigger] entry(fi, d, k)[x] < total[d - 1] by {
                assert(entry(base.faces_in, d, k)[x] < rows(base.basis, d - 1));
                assert(total[d - 1] >= base.size(d - 1));
            }
            if d < 1 && entry(fi, d, k).len() > 0 {
                assert(entry(base.faces_in, d, k)[0] < rows(base.basis, d - 1));
            }
        }
    }
    assert forall|d: int, k: int| 0 <= d < total.len() && 0 <= k < total[d] implies #[trigger] faces_below(fo, total, d, k) by {
        if d < base.faces_out@.len() && k < base.faces_out@[d]@.len() {
            assert forall|x: int| 0 <= x < entry(fo, d, k).len() implies #[trigger] entry(fo, d, k)[x] < total[d - 1] by {
                assert(entry(base.faces_out, d, k)[x] < rows(base.basis, d - 1));
                assert(total[d - 1] >= base.size(d - 1));
            }
            if d < 1 && entry(fo, d, k).len() > 0 {
                assert(entry(base.faces_out, d, k)[0] < rows(base.basis, d - 1));
            }
        }
    }
    assert forall|d: int, k: int| 0 <= d < total.len() && counters[d] <= k < total[d] implies #[trigger] entry(basis, d, k).len() == 0
        && entry(fi, d, k).len() == 0 && entry(fo, d, k).len() == 0 by {
    }
}

/// Compute the colimit of a base with any number of extensions.
///
/// The pushout keeps the cells of the base at their positions, and appends,
/// level by level and extension by extension, the cells of each extension that
/// are not glued to the base.
pub fn multi_pushout(base: &Arc<FramedPoset>, spans: &[Span]) -> (r: MultiPushout)
    requires
        base.valid(),
        forall|i: int| 0 <= i < spans@.len() ==> span_ok(**base, #[trigger] spans@[i]),
        forall|d: int| 0 <= d < tip_levels(**base, spans@, spans@.len() as int) ==> #[trigger] tip_size(**base, spans@, d) <= usize::MAX,
    ensures
        r.tip.valid(),
        !r.tip.normal,
        r.tip.levels() == tip_levels(**base, spans@, spans@.len() as int),
        forall|d: int| 0 <= d < r.tip.levels() ==> #[trigger] r.tip.size(d) == tip_size(**base, spans@, d),
        forall|d: int, k: int| #[trigger] base.cell(d, k) ==> r.tip.basis_at(d, k) == base.basis_at(d, k),
        forall|d: int, k: int| #[trigger] base.cell(d, k) ==> r.tip.faces(crate::poset::Sign::Input, d, k) == base.faces(
            crate::poset::Sign::Input, d, k),
        forall|d: int, k: int| #[trigger] base.cell(d, k) ==> r.tip.faces(crate::poset::Sign::Output, d, k) == base.faces(
            crate::poset::Sign::Output, d, k),
        forall|j: int, d: int, p: int| 0 <= j < spans@.len() && spans@[j].into_ext.cod.cell(d, p) && fresh(spans@[j], d, p)
            ==> #[trigger] placed(**base, spans@, j, d, p, r.tip.basis, r.tip.faces_in, r.tip.faces_out),
        r.inl.dom == *base,
        r.inl.cod == r.tip,
        r.inl.wf(),
        forall|d: int, k: int| #[trigger] base.cell(d, k) ==> at(r.inl.map, d, k) == k,
        r.inrs@.len() == spans@.len(),
        forall|i: int| 0 <= i < spans@.len() ==> (#[trigger] r.inrs@[i]).dom == spans@[i].into_ext.cod && r.inrs@[i].cod == r.tip,
        forall|i: int| 0 <= i < spans@.len() ==> (#[trigger] r.inrs@[i]).map@.len() == spans@[i].into_ext.cod.levels(),
        forall|i: int, d: int| 0 <= i < spans@.len() && 0 <= d < spans@[i].into_ext.cod.levels() ==> #[trigger] r.inrs@[i].map@[d]@.len()
            == spans@[i].into_ext.cod.size(d),
        forall|i: int, d: int, p: int| 0 <= i < spans@.len() && spans@[i].into_ext.cod.cell(d, p) ==> #[trigger] at(r.inrs@[i].map, d, p)
            == inr_target(**base, spans@, i, d, p),
{
    let b: &FramedPoset = &**base;
    let base_sizes = base.sizes();
    let n = spans.len();
    let mut levels = base_sizes.len();
    for i in 0..n
        invariant
            n == spans@.len(),
            levels == tip_levels(**base, spans@, i as int),
    {
        let l = spans[i].into_ext.cod.basis.len();
        if l > levels {
            levels = l;
        }
    }
    proof {
        lemma_tip_levels(*b, spans@, n as int);
        assert forall|d: int| 0 <= d < levels implies #[trigger] fresh_before(spans@, spans@.len() as int, d) <= usize::MAX by {
            assert(tip_size(*b, spans@, d) <= usize::MAX);
        }
    }
    let extra = count_fresh(spans, levels);
    let mut total: Vec<usize> = Vec::new();
    let mut counters: Vec<usize> = Vec::new();
    for d in 0..levels
        invariant
            levels == tip_levels(**base, spans@, n as int),
            base_sizes@ == base.size_seq(),
            n == spans@.len(),
            extra@.len() == levels,
            forall|e: int| 0 <= e < levels ==> #[trigger] extra@[e] == fresh_before(spans@, n as int, e),
            forall|e: int| 0 <= e < levels ==> #[trigger] tip_size(**base, spans@, e) <= usize::MAX,
            total@.len() == d,
            counters@.len() == d,
            forall|e: int| 0 <= e < d ==> #[trigger] total@[e] == tip_size(**base, spans@, e),
            forall|e: int| 0 <= e < d ==> #[trigger] counters@[e] == base.size(e),
    {
        let b = if d < base_sizes.len() { base_sizes[d] } else { 0 };
        proof {
            assert(tip_size(**base, spans@, d as int) <= usize::MAX);
        }
        total.push(b + extra[d]);
        counters.push(b);
    }
    let mut basis = alloc_rows(&base.basis, &total);
    let mut fi = alloc_rows(&base.faces_in, &total);
    let mut fo = alloc_rows(&base.faces_out, &total);
    proof {
        lemma_initial_tables(*b, total@, counters@, basis, fi, fo);
    }
    let mut maps: Vec<Vec<Vec<usize>>> = Vec::new();
    for i in 0..n
        invariant
            base.valid(),
            n == spans@.len(),
            forall|j: int| 0 <= j < spans@.len() ==> span_ok(**base, #[trigger] spans@[j]),
            levels == tip_levels(**base, spans@, n as int),
            forall|j: int| 0 <= j < spans@.len() ==> (#[trigger] spans@[j]).into_ext.cod.levels() <= total@.len(),
            base.levels() <= total@.len(),
            total@.len() == levels,
            forall|e: int| 0 <= e < total@.len() ==> #[trigger] total@[e] == tip_size(**base, spans@, e),
            tables_ok(**base, total@, counters@, basis, fi, fo),
            forall|e: int| 0 <= e < total@.len() ==> #[trigger] counters@[e] == base.size(e) + fresh_before(spans@, i as int, e),
            forall|j: int, e: int, p: int| 0 <= j < i && spans@[j].into_ext.cod.cell(e, p) && fresh(spans@[j], e, p)
                ==> #[trigger] placed(**base, spans@, j, e, p, basis, fi, fo),
            maps@.len() == i,
            forall|j: int| 0 <= j < i ==> (#[trigger] maps@[j])@.len() == spans@[j].into_ext.cod.levels(),
            forall|j: int, e: int| 0 <= j < i && 0 <= e < spans@[j].into_ext.cod.levels() ==> #[trigger] maps@[j]@[e]@.len()
                == spans@[j].into_ext.cod.size(e),
            forall|j: int, e: int, p: int| 0 <= j < i && spans@[j].into_ext.cod.cell(e, p) ==> #[trigger] at(maps@[j], e, p)
                == inr_target(**base, spans@, j, e, p),
    {
        let m = place_span(base, spans, i, &total, &mut basis, &mut fi, &mut fo, &mut counters);
        let ghost before = maps;
        maps.push(m);
        proof {
            assert(maps@[i as int] == m);
            assert forall|j: int| 0 <= j < i + 1 implies (#[trigger] maps@[j])@.len() == spans@[j].into_ext.cod.levels() by {
                if j < i {
                    assert(maps@[j] == before@[j]);
                }
            }
            assert forall|j: int, e: int| 0 <= j < i + 1 && 0 <= e < spans@[j].into_ext.cod.levels() implies #[trigger] maps@[j]@[e]@.len()
                == spans@[j].into_ext.cod.size(e) by {
                if j < i {
                    assert(maps@[j] == before@[j]);
                }
            }
            assert forall|j: int, e: int, p: int| 0 <= j < i + 1 && spans@[j].into_ext.cod.cell(e, p) implies #[trigger] at(maps@[j], e, p)
                == inr_target(**base, spans@, j, e, p) by {
                if j < i {
                    assert(maps@[j] == before@[j]);
                    assert(at(before@[j], e, p) == inr_target(**base, spans@, j, e, p));
                }
            }
        }
    }
    proof {
        lemma_tables_defining(*b, total@, counters@, basis, fi, fo);
    }
    let tip = Arc::new(FramedPoset::from_faces(basis, fi, fo));
    let mut inl_map: Vec<Vec<usize>> = Vec::new();
    for d in 0..base_sizes.len()
        invariant
            base_sizes@ == base.size_seq(),
            inl_map@.len() == d,
            forall|e: int| 0 <= e < d ==> #[trigger] inl_map@[e]@.len() == base.size(e),
            forall|e: int, k: int| 0 <= e < d && 0 <= k < base.size(e) ==> #[trigger] at(inl_map, e, k) == k,
    {
        let mut row: Vec<usize> = Vec::new();
        let size = base_sizes[d];
        for k in 0..size
            invariant
                row@.len() == k,
                forall|q: int| 0 <= q < k ==> #[trigger] row@[q] == q,
        {
            row.push(k);
        }
        let ghost before = inl_map;
        inl_map.push(row);
        proof {
            assert forall|e: int| 0 <= e < d + 1 implies #[trigger] inl_map@[e]@.len() == base.size(e) by {
                if e < d {
                    assert(inl_map@[e] == before@[e]);
                }
            }
            assert forall|e: int, k: int| 0 <= e < d + 1 && 0 <= k < base.size(e) implies #[trigger] at(inl_map, e, k) == k by {
                if e < d {
                    assert(inl_map@[e] == before@[e]);
                    assert(at(before, e, k) == k);
                } else {
                    assert(inl_map@[e] == row);
                }
            }
        }
    }
    proof {
        assert forall|j: int, e: int, p: int| 0 <= j < n && spans@[j].into_ext.cod.cell(e, p) implies #[trigger] at(maps@[j], e, p)
            < tip.size(e) by {
            lemma_target_range(*b, spans@, j, e, p);
            assert(tip.size(e) == total@[e]);
        }
        assert forall|d: int, k: int| 0 <= d < inl_map@.len() && 0 <= k < inl_map@[d]@.len() implies #[trigger] at(inl_map, d, k) < tip.size(d) by {
            assert(tip.size(d) == total@[d]);
        }
        assert(crate::embedding::map_ok(&**base, &*tip, inl_map)) by {
            assert forall|d: int, k: int| #[trigger] base.cell(d, k) implies at(inl_map, d, k) < tip.size(d) by {
                assert(tip.size(d) == total@[d]);
            }
            assert forall|d: int, k: int| #[trigger] base.cell(d, k) implies base.basis_at(d, k) == tip.basis_at(d, at(inl_map, d, k) as int) by {
                assert(at(inl_map, d, k) == k);
            }
        }
    }
    let inl = Embedding::from_map(share(base), share(&tip), inl_map);
    let mut inrs: Vec<Embedding> = Vec::new();
    for i in 0..n
        invariant
            n == spans@.len(),
            maps@.len() == n,
            forall|j: int| 0 <= j < n ==> (#[trigger] maps@[j])@.len() == spans@[j].into_ext.cod.levels(),
            forall|j: int, e: int| 0 <= j < n && 0 <= e < spans@[j].into_ext.cod.levels() ==> #[trigger] maps@[j]@[e]@.len()
                == spans@[j].into_ext.cod.size(e),
            forall|j: int, e: int, p: int| 0 <= j < n && spans@[j].into_ext.cod.cell(e, p) ==> #[trigger] at(maps@[j], e, p)
                < tip.size(e),
            inrs@.len() == i,
            forall|j: int| 0 <= j < i ==> (#[trigger] inrs@[j]).dom == spans@[j].into_ext.cod && inrs@[j].cod == tip,
            forall|j: int| 0 <= j < i ==> tv((#[trigger] inrs@[j]).map) == tv(maps@[j]),
    {
        let span = spans[i];
        let m = crate::embedding::copy_index_table(&maps[i]);
        proof {
            assert forall|d: int, p: int| 0 <= d < m@.len() && 0 <= p < m@[d]@.len() implies #[trigger] at(m, d, p) < tip.size(d) by {
                assert(m@[d]@ == maps@[i as int]@[d]@);
                assert(spans@[i as int].into_ext.cod.cell(d, p));
                assert(at(maps@[i as int], d, p) < tip.size(d));
            }
        }
        let e = Embedding::from_map(share(&span.into_ext.cod), share(&tip), m);
        inrs.push(e);
    }
    proof {
        assert forall|i: int| 0 <= i < spans@.len() implies (#[trigger] inrs@[i]).map@.len() == spans@[i].into_ext.cod.levels() by {
            assert(tv(inrs@[i].map).len() == inrs@[i].map@.len());
            assert(tv(maps@[i]).len() == maps@[i]@.len());
        }
        assert forall|i: int, d: int| 0 <= i < spans@.len() && 0 <= d < spans@[i].into_ext.cod.levels() implies #[trigger] inrs@[i].map@[d]@.len()
            == spans@[i].into_ext.cod.size(d) by {
            assert(tv(inrs@[i].map).len() == inrs@[i].map@.len());
            assert(tv(maps@[i]).len() == maps@[i]@.len());
            assert(tv(inrs@[i].map)[d] == inrs@[i].map@[d]@);
            assert(tv(maps@[i])[d] == maps@[i]@[d]@);
        }
        assert forall|i: int, d: int, p: int| 0 <= i < spans@.len() && spans@[i].into_ext.cod.cell(d, p) implies #[trigger] at(inrs@[i].map, d, p)
            == inr_target(**base, spans@, i, d, p) by {
            assert(tv(inrs@[i].map).len() == inrs@[i].map@.len());
            assert(tv(maps@[i]).len() == maps@[i]@.len());
            assert(tv(inrs@[i].map)[d] == inrs@[i].map@[d]@);
            assert(tv(maps@[i])[d] == maps@[i]@[d]@);
            assert(at(maps@[i], d, p) == inr_target(**base, spans@, i, d, p));
        }
        assert forall|d: int| 0 <= d < tip.levels() implies #[trigger] tip.size(d) == tip_size(**base, spans@, d) by {
            assert(tip.basis@[d]@.len() == total@[d]);
        }
    }
    MultiPushout { tip, inl, inrs }
}

proof fn lemma_tip_levels(base: FramedPoset, spans: Seq<Span>, i: int)
    requires
        base.valid(),
        0 <= i <= spans.len(),
        forall|j: int| 0 <= j < spans.len() ==> span_ok(base, #[trigger] spans[j]),
    ensures
        base.levels() <= tip_levels(base, spans, i),
        forall|j: int| 0 <= j < i ==> (#[trigger] spans[j]).into_ext.cod.levels() <= tip_levels(base, spans, i),
        tip_levels(base, spans, i) <= isize::MAX + 1,
    decreases i,
{
    if i > 0 {
        lemma_tip_levels(base, spans, i - 1);
        assert(span_ok(base, spans[i - 1]));
    }
}

/// The finished tables define a framed poset.
proof fn lemma_tables_defining(
    base: FramedPoset,
    total: Seq<usize>,
    counters: Seq<usize>,
    basis: Vec<Vec<IntSet>>,
    fi: Vec<Vec<IntSet>>,
    fo: Vec<Vec<IntSet>>,
)
    requires
        tables_ok(base, total, counters, basis, fi, fo),
        total.len() <= isize::MAX + 1,
    ensures
        crate::poset::defining_tables(basis, fi, fo),
        crate::poset::dim_fits(basis@.len() as int),
{
    assert forall|d: int| 0 <= d < basis@.len() implies #[trigger] fi@[d]@.len() == basis@[d]@.len() by {
        assert(fi@[d]@.len() == total[d]);
        assert(basis@[d]@.len() == total[d]);
    }
    assert forall|d: int| 0 <= d < basis@.len() implies #[trigger] fo@[d]@.len() == basis@[d]@.len() by {
        assert(fo@[d]@.len() == total[d]);
        assert(basis@[d]@.len() == total[d]);
    }
    assert forall|d: int, p: int| 0 <= d < basis@.len() && 0 <= p < basis@[d]@.len() implies strictly_sorted(#[trigger] entry(basis, d, p)) by {
        assert(basis@[d]@.len() == total[d]);
    }
    assert forall|d: int, p: int| 0 <= d < fi@.len() && 0 <= p < fi@[d]@.len() implies strictly_sorted(#[trigger] entry(fi, d, p)) by {
        assert(fi@[d]@.len() == total[d]);
    }
    assert forall|d: int, p: int| 0 <= d < fo@.len() && 0 <= p < fo@[d]@.len() implies strictly_sorted(#[trigger] entry(fo, d, p)) by {
        assert(fo@[d]@.len() == total[d]);
    }
    assert forall|d: int, p: int, i: int| 0 <= d < fi@.len() && 0 <= p < fi@[d]@.len() && 0 <= i < entry(fi, d, p).len() implies
        #[trigger] entry(fi, d, p)[i] < rows(basis, d - 1) by {
        assert(fi@[d]@.len() == total[d]);
        assert(faces_below(fi, total, d, p));
        if d >= 1 {
            assert(basis@[d - 1]@.len() == total[d - 1]);
        }
    }
    assert forall|d: int, p: int, i: int| 0 <= d < fo@.len() && 0 <= p < fo@[d]@.len() && 0 <= i < entry(fo, d, p).len() implies
        #[trigger] entry(fo, d, p)[i] < rows(basis, d - 1) by {
        assert(fo@[d]@.len() == total[d]);
        assert(faces_below(fo, total, d, p));
        if d >= 1 {
            assert(basis@[d - 1]@.len() == total[d - 1]);
        }
    }
}

/// Total number of cells of the first `n` levels.
pub open spec fn cells_upto(x: FramedPoset, n: int) -> int
    decreases n,
{
    if n <= 0 {
        0
    } else {
        cells_upto(x, n - 1) + x.size(n - 1)
    }
}

/// Total number of cells.
pub open spec fn cell_total(x: FramedPoset) -> int {
    cells_upto(x, x.levels())
}

pub(crate) fn total_cells(x: &FramedPoset) -> (r: usize)
    requires
        cell_total(*x) <= usize::MAX,
    ensures
        r == cell_total(*x),
{
    let sizes = x.sizes();
    let mut sum: usize = 0;
    for d in 0..sizes.len()
        invariant
            sizes@ == x.size_seq(),
            sum == cells_upto(*x, d as int),
            cell_total(*x) <= usize::MAX,
    {
        proof {
            lemma_cells_upto_mono(*x, d + 1, x.levels());
        }
        sum = sum + sizes[d];
    }
    sum
}

pub(crate) proof fn lemma_cells_upto_mono(x: FramedPoset, m: int, n: int)
    requires
        0 <= m <= n,
    ensures
        cells_upto(x, m) <= cells_upto(x, n),
    decreases n - m,
{
    if m < n {
        lemma_cells_upto_mono(x, m, n - 1);
    }
}

/// The single extension of `base_emb`'s codomain by `ext_emb`.
pub open spec fn one_span<'a>(base_emb: &'a Embedding, ext_emb: &'a Embedding) -> Seq<Span<'a>> {
    seq![Span { into_base: base_emb, into_ext: ext_emb }]
}

/// The pushout of two embeddings with a common domain is built on the larger
/// codomain (the first one when they have as many cells).
pub open spec fn pushout_swaps(f: &Embedding, g: &Embedding) -> bool {
    cell_total(*f.cod) < cell_total(*g.cod)
}

/// Compute a binary pushout of embeddings.
pub fn pushout(f: &Embedding, g: &Embedding) -> (r: Pushout)
    requires
        f.valid(),
        g.valid(),
        f.dom.same_poset(&*g.dom),
        cell_total(*f.cod) <= usize::MAX,
        cell_total(*g.cod) <= usize::MAX,
        !pushout_swaps(f, g) ==> forall|d: int| 0 <= d < tip_levels(*f.cod, one_span(f, g), 1) ==> #[trigger] tip_size(
            *f.cod,
            one_span(f, g),
            d,
        ) <= usize::MAX,
        pushout_swaps(f, g) ==> forall|d: int| 0 <= d < tip_levels(*g.cod, one_span(g, f), 1) ==> #[trigger] tip_size(
            *g.cod,
            one_span(g, f),
            d,
        ) <= usize::MAX,
    ensures
        r.tip.valid(),
        !pushout_swaps(f, g) ==> pushed_out(*f.cod, one_span(f, g), *r.tip, r.inl, r.inr),
        pushout_swaps(f, g) ==> pushed_out(*g.cod, one_span(g, f), *r.tip, r.inr, r.inl),
{
    let swapped = total_cells(&f.cod) < total_cells(&g.cod);
    let (base_emb, ext_emb) = if swapped { (g, f) } else { (f, g) };
    let spans = [Span { into_base: base_emb, into_ext: ext_emb }];
    proof {
        assert(spans@ == one_span(base_emb, ext_emb));
        crate::embedding::lemma_same_poset_sizes(&*f.dom, &*g.dom);
        assert(span_ok(*base_emb.cod, spans@[0])) by {
            assert(base_emb.dom.same_poset(&*ext_emb.dom)) by {
                crate::poset::lemma_same_poset_symmetric(&*f.dom, &*g.dom);
            }
        }
    }
    let mp = multi_pushout(&base_emb.cod, &spans);
    let MultiPushout { tip, inl, inrs } = mp;
    let mut inrs = inrs;
    let inr = inrs.pop().unwrap();
    proof {
        assert(inr == mp.inrs@[0]);
    }
    if swapped {
        Pushout { tip, inl: inr, inr: inl }
    } else {
        Pushout { tip, inl, inr }
    }
}

/// `tip` with the injections `inl` (from `base`) and `inr` (from the single
/// extension) is the pushout described by [`multi_pushout`].
pub open spec fn pushed_out(base: FramedPoset, spans: Seq<Span>, tip: FramedPoset, inl: Embedding, inr: Embedding) -> bool {
    &&& tip.levels() == tip_levels(base, spans, spans.len() as int)
    &&& forall|d: int| 0 <= d < tip.levels() ==> #[trigger] tip.size(d) == tip_size(base, spans, d)
    &&& forall|d: int, k: int| #[trigger] base.cell(d, k) ==> tip.basis_at(d, k) == base.basis_at(d, k)
        && tip.faces(crate::poset::Sign::Input, d, k) == base.faces(crate::poset::Sign::Input, d, k)
        && tip.faces(crate::poset::Sign::Output, d, k) == base.faces(crate::poset::Sign::Output, d, k)
    &&& forall|d: int, p: int| spans[0].into_ext.cod.cell(d, p) && fresh(spans[0], d, p)
        ==> #[trigger] placed(base, spans, 0, d, p, tip.basis, tip.faces_in, tip.faces_out)
    &&& *inl.dom == base
    &&& *inl.cod == tip
    &&& inl.wf()
    &&& forall|d: int, k: int| #[trigger] base.cell(d, k) ==> at(inl.map, d, k) == k
    &&& inr.dom == spans[0].into_ext.cod
    &&& *inr.cod == tip
    &&& inr.map@.len() == spans[0].into_ext.cod.levels()
    &&& forall|d: int| 0 <= d < spans[0].into_ext.cod.levels() ==> #[trigger] inr.map@[d]@.len() == spans[0].into_ext.cod.size(d)
    &&& forall|d: int, p: int| spans[0].into_ext.cod.cell(d, p) ==> #[trigger] at(inr.map, d, p) == inr_target(base, spans, 0, d, p)
}

/// The pushout square commutes: every cell of the shared domain reaches the
/// same cell of the pushout through either side.
pub proof fn law_pushout_commutes(f: Embedding, g: Embedding, r: Pushout)
    requires
        f.valid(),
        g.valid(),
        f.dom.same_poset(&*g.dom),
        !pushout_swaps(&f, &g) ==> pushed_out(*f.cod, one_span(&f, &g), *r.tip, r.inl, r.inr),
        pushout_swaps(&f, &g) ==> pushed_out(*g.cod, one_span(&g, &f), *r.tip, r.inr, r.inl),
    ensures
        forall|d: int, x: int| #[trigger] f.dom.cell(d, x) ==> at(r.inl.map, d, at(f.map, d, x) as int) == at(
            r.inr.map,
            d,
            at(g.map, d, x) as int,
        ),
{
    crate::embedding::lemma_same_poset_sizes(&*f.dom, &*g.dom);
    assert forall|d: int, x: int| #[trigger] f.dom.cell(d, x) implies at(r.inl.map, d, at(f.map, d, x) as int) == at(
        r.inr.map,
        d,
        at(g.map, d, x) as int,
    ) by {
        assert(g.dom.cell(d, x));
        assert(f.dom.basis@[d].len() == f.dom.basis@[d]@.len());
        let fx = at(f.map, d, x) as int;
        let gx = at(g.map, d, x) as int;
        assert(at(f.inv, d, fx) == x);
        assert(at(g.inv, d, gx) == x);
        assert(f.cod.cell(d, fx));
        assert(g.cod.cell(d, gx));
        if pushout_swaps(&f, &g) {
            let sp = one_span(&g, &f);
            assert(sp[0].into_ext.cod == f.cod);
            assert(preimage(f.inv, d, fx) == x);
            assert(at(r.inl.map, d, fx) == inr_target(*g.cod, sp, 0, d, fx));
        } else {
            let sp = one_span(&f, &g);
            assert(sp[0].into_ext.cod == g.cod);
            assert(preimage(g.inv, d, gx) == x);
            assert(at(r.inr.map, d, gx) == inr_target(*f.cod, sp, 0, d, gx));
        }
    }
}


/// `a` and `b` are small enough to paste: their cell counts, and their
/// level sizes added level by level, fit `usize`.
pub open spec fn paste_sized(a: FramedPoset, b: FramedPoset) -> bool {
    &&& cell_total(a) <= usize::MAX
    &&& cell_total(b) <= usize::MAX
    &&& forall|d: int| #[trigger] a.size(d) + b.size(d) <= usize::MAX
}

/// Check [`paste_sized`].
fn paste_fits(a: &FramedPoset, b: &FramedPoset) -> (r: bool)
    ensures
        r == paste_sized(*a, *b),
{
    let sa = a.sizes();
    let sb = b.sizes();
    let la = sa.len();
    let lb = sb.len();
    let mut total: usize = 0;
    for d in 0..la
        invariant
            la == a.levels(),
            sa@ == a.size_seq(),
            total == cells_upto(*a, d as int),
    {
        if sa[d] > usize::MAX - total {
            proof {
                lemma_cells_upto_mono(*a, d + 1, a.levels());
            }
            return false;
        }
        total = total + sa[d];
    }
    total = 0;
    for d in 0..lb
        invariant
            lb == b.levels(),
            sb@ == b.size_seq(),
            total == cells_upto(*b, d as int),
            cell_total(*a) <= usize::MAX,
    {
        if sb[d] > usize::MAX - total {
            proof {
                lemma_cells_upto_mono(*b, d + 1, b.levels());
            }
            return false;
        }
        total = total + sb[d];
    }
    let top = if la < lb { lb } else { la };
    for d in 0..top
        invariant
            la == a.levels(),
            lb == b.levels(),
            top == if la < lb { lb } else { la },
            sa@ == a.size_seq(),
            sb@ == b.size_seq(),
            cell_total(*a) <= usize::MAX,
            cell_total(*b) <= usize::MAX,
            forall|e: int| 0 <= e < d ==> #[trigger] a.size(e) + b.size(e) <= usize::MAX,
    {
        let x = if d < la { sa[d] } else { 0 };
        let y = if d < lb { sb[d] } else { 0 };
        if x > usize::MAX - y {
            proof {
                assert(x == a.size(d as int));
                assert(y == b.size(d as int));
            }
            return false;
        }
    }
    proof {
        assert forall|d: int| #[trigger] a.size(d) + b.size(d) <= usize::MAX by {
            if d >= top || d < 0 {
                assert(a.size(d) == 0 && b.size(d) == 0);
            }
        }
    }
    true
}

/// `f` embeds the `sign` boundary of `shape` in `direction`: its image is the
/// closure of the cells that the boundary keeps.
pub open spec fn boundary_of(f: Embedding, shape: FramedPoset, sign: Sign, direction: usize) -> bool {
    &&& f.valid()
    &&& f.closed()
    &&& *f.cod == shape
    &&& forall|d: int, j: int| shape.cell(d, j) ==> (#[trigger] in_image(f.map, d, j) <==> reach(
        shape,
        |e: int, p: int| boundary_cell(shape, BoundaryMode::Plain, sign, direction, e, p),
        d,
        j,
    ))
}

/// `p` is the pushout of `f` and `g`, built on the larger codomain.
pub open spec fn pushout_result(f: &Embedding, g: &Embedding, p: Pushout) -> bool {
    &&& p.tip.valid()
    &&& !pushout_swaps(f, g) ==> pushed_out(*f.cod, one_span(f, g), *p.tip, p.inl, p.inr)
    &&& pushout_swaps(f, g) ==> pushed_out(*g.cod, one_span(g, f), *p.tip, p.inr, p.inl)
}

/// `g` is `h` after `b`.
pub open spec fn composite(b: Embedding, h: Embedding, g: Embedding) -> bool {
    &&& g.valid()
    &&& g.dom == b.dom
    &&& g.cod == h.cod
    &&& forall|d: int, i: int| b.dom.cell(d, i) ==> #[trigger] at(g.map, d, i) == at(h.map, d, at(b.map, d, i) as int)
}

/// `p` pastes `first` and `second` along an isomorphism `b` from the output
/// boundary of `first` in `direction` to the input boundary of `second`.
pub open spec fn pasted_along(first: FramedPoset, second: FramedPoset, direction: usize, f: Embedding, b: Embedding, h: Embedding, g: Embedding, p: Pushout) -> bool {
    &&& boundary_of(f, first, Sign::Output, direction)
    &&& boundary_of(h, second, Sign::Input, direction)
    &&& b.dom == f.dom
    &&& b.cod == h.dom
    &&& b.valid()
    &&& b.surjective()
    &&& b.closed()
    &&& composite(b, h, g)
    &&& pushout_result(&f, &g, p)
}

/// The output boundary of `first` and the input boundary of `second` in
/// `direction` are too large to search, or the search on their Hasse
/// diagrams does not find exactly one isomorphism between them.
pub open spec fn paste_refused(first: FramedPoset, second: FramedPoset, direction: usize) -> bool {
    exists|f: Embedding, h: Embedding, palette: Seq<Seq<usize>>| #[trigger] refused_with(first, second, direction, f, h, palette)
}

/// `f` and `h` are the output boundary of `first` and the input boundary of
/// `second`, and they are too large to search or the search coloured by
/// `palette` finds other than exactly one isomorphism between them.
pub open spec fn refused_with(first: FramedPoset, second: FramedPoset, direction: usize, f: Embedding, h: Embedding,
    palette: Seq<Seq<usize>>) -> bool {
    &&& boundary_of(f, first, Sign::Output, direction)
    &&& boundary_of(h, second, Sign::Input, direction)
    &&& (!search_sized(*f.dom) || !search_sized(*h.dom) || !paste_sized(first, second)
        || (palette_for(palette, *f.dom, *h.dom) && found_isomorphisms(f.dom, h.dom, palette).len() != 1))
}

/// `a` and `b` are oriented framed posets with as many levels, small
/// enough to search, and exactly one isomorphism takes `a` onto `b`.
pub open spec fn uniquely_isomorphic(a: Arc<FramedPoset>, b: Arc<FramedPoset>) -> bool {
    &&& search_sized(*a)
    &&& search_sized(*b)
    &&& a.framed()
    &&& b.framed()
    &&& crate::isomorphism::canonical_sized(*a)
    &&& crate::isomorphism::canonical_sized(*b)
    &&& a.levels() == b.levels()
    &&& exists|e: Embedding| #[trigger] crate::traversal::isomorphism_onto(e, a, b)
    &&& forall|e1: Embedding, e2: Embedding| #[trigger] crate::traversal::isomorphism_onto(e1, a, b)
        && #[trigger] crate::traversal::isomorphism_onto(e2, a, b) ==> tv(e1.map) == tv(e2.map) && tv(e1.inv) == tv(e2.inv)
}

/// Every output boundary of `first` and input boundary of `second` in
/// `direction` are uniquely isomorphic.
pub open spec fn boundaries_uniquely_isomorphic(first: FramedPoset, second: FramedPoset, direction: usize) -> bool {
    forall|f: Embedding, h: Embedding| #[trigger] boundary_of(f, first, Sign::Output, direction)
        && #[trigger] boundary_of(h, second, Sign::Input, direction) ==> uniquely_isomorphic(f.dom, h.dom)
}

/// Paste two framed posets along a uniquely isomorphic directional boundary.
///
/// The output `direction` boundary of `first` is identified with the input
/// `direction` boundary of `second`. The left and right pushout injections
/// therefore have `first` and `second` as their respective domains.
///
/// The result is `None` unless there is exactly one signed, basis-preserving
/// isomorphism from the output boundary of `first` to the input boundary of
/// `second` (or when the framed posets are too large to index).
pub fn paste_along_boundary(first: &Arc<FramedPoset>, second: &Arc<FramedPoset>, direction: usize) -> (r: Option<Pushout>)
    requires
        first.framed(),
        second.framed(),
    ensures
        r is Some ==> exists|f: Embedding, b: Embedding, h: Embedding, g: Embedding|
            #[trigger] pasted_along(**first, **second, direction, f, b, h, g, r->0),
        r is None ==> paste_refused(**first, **second, direction),
        paste_sized(**first, **second) && boundaries_uniquely_isomorphic(**first, **second, direction) ==> r is Some,
{
    proof {
        crate::ofp::lemma_framed_valid(&**first);
        crate::ofp::lemma_framed_valid(&**second);
    }
    let (output_boundary, output_into_first) = boundary(BoundaryMode::Plain, Sign::Output, direction, first);
    let (input_boundary, input_into_second) = boundary(BoundaryMode::Plain, Sign::Input, direction, second);
    let fb: &FramedPoset = first;
    let sb: &FramedPoset = second;
    if !search_fits(&output_boundary) || !search_fits(&input_boundary) || !paste_fits(fb, sb) {
        proof {
            let palette = Seq::<Seq<usize>>::empty();
            assert(boundary_of(output_into_first, **first, Sign::Output, direction));
            assert(boundary_of(input_into_second, **second, Sign::Input, direction));
            let f = output_into_first;
            let h = input_into_second;
            assert(refused_with(**first, **second, direction, f, h, palette));
            if paste_sized(*fb, *sb) && boundaries_uniquely_isomorphic(*fb, *sb, direction) {
                assert(uniquely_isomorphic(f.dom, h.dom));
            }
        }
        return None;
    }
    let found = isomorphisms(&output_boundary, &input_boundary);
    if found.len() != 1 {
        proof {
            let palette = choose|palette: Seq<Seq<usize>>| #[trigger] palette_for(palette, *output_boundary, *input_boundary)
                && embeddings_with_tables(found@, output_boundary, input_boundary, found_isomorphisms(output_boundary, input_boundary, palette));
            assert(boundary_of(output_into_first, **first, Sign::Output, direction));
            assert(boundary_of(input_into_second, **second, Sign::Input, direction));
            assert(palette_for(palette, *output_into_first.dom, *input_into_second.dom));
            assert(refused_with(**first, **second, direction, output_into_first, input_into_second, palette));
            if paste_sized(*fb, *sb) && boundaries_uniquely_isomorphic(*fb, *sb, direction) {
                assert(uniquely_isomorphic(output_into_first.dom, input_into_second.dom));
                let e = choose|e: Embedding| #[trigger] crate::traversal::isomorphism_onto(e, output_boundary, input_boundary);
                assert(crate::traversal::isomorphism_onto(e, output_boundary, input_boundary));
                let i = choose|i: int| 0 <= i < found@.len() && tv(found@[i].map) == tv(e.map) && tv(found@[i].inv) == tv(e.inv);
                assert(found@.len() >= 2);
                let e0 = found@[0];
                let e1 = found@[1];
                assert(crate::traversal::isomorphism_onto(e0, output_boundary, input_boundary));
                assert(crate::traversal::isomorphism_onto(e1, output_boundary, input_boundary));
                assert(tv(e0.map) == tv(e1.map) && tv(e0.inv) == tv(e1.inv));
            }
        }
        return None;
    }
    proof {
        let palette = choose|palette: Seq<Seq<usize>>| #[trigger] palette_for(palette, *output_boundary, *input_boundary)
            && embeddings_with_tables(found@, output_boundary, input_boundary, found_isomorphisms(output_boundary, input_boundary, palette));
        assert(embeddings_with_tables(found@, output_boundary, input_boundary, found_isomorphisms(output_boundary, input_boundary, palette)));
    }
    let ghost found_view = found@;
    let r = paste_along_isomorphisms(first, second, direction, output_into_first, input_into_second, found);
    proof {
        let w = choose|g: Embedding| #[trigger] pasted_along(**first, **second, direction, output_into_first, found_view[0], input_into_second, g, r->0);
        assert(pasted_along(**first, **second, direction, output_into_first, found_view[0], input_into_second, w, r->0));
    }
    r
}


/// Paste `first` and `second` along the isomorphism in `found`, from the
/// output boundary `output_into_first` of `first` in `direction` to the
/// input boundary `input_into_second` of `second`. The result is `None`
/// exactly when `found` does not hold exactly one isomorphism.
pub fn paste_along_isomorphisms(
    first: &Arc<FramedPoset>,
    second: &Arc<FramedPoset>,
    direction: usize,
    output_into_first: Embedding,
    input_into_second: Embedding,
    found: Vec<Embedding>,
) -> (r: Option<Pushout>)
    requires
        first.framed(),
        second.framed(),
        boundary_of(output_into_first, **first, Sign::Output, direction),
        boundary_of(input_into_second, **second, Sign::Input, direction),
        paste_sized(**first, **second),
        forall|i: int| 0 <= i < found@.len() ==> (#[trigger] found@[i]).dom == output_into_first.dom && found@[i].cod == input_into_second.dom
            && found@[i].valid() && found@[i].surjective() && found@[i].closed(),
    ensures
        r is Some <==> found@.len() == 1,
        r is Some ==> exists|g: Embedding| #[trigger] pasted_along(**first, **second, direction, output_into_first, found@[0], input_into_second, g, r->0),
{
    proof {
        crate::ofp::lemma_framed_valid(&**first);
        crate::ofp::lemma_framed_valid(&**second);
    }
    let mut found = found;
    if found.len() != 1 {
        return None;
    }
    let ghost first_iso = found@[0];
    let iso = found.pop().unwrap();
    proof {
        assert(iso == first_iso);
    }
    let output_into_second = Embedding::compose(&iso, &input_into_second);
    proof {
        let f = output_into_first;
        let g = output_into_second;
        assert forall|d: int| 0 <= d < tip_levels(*f.cod, one_span(&f, &g), 1) implies #[trigger] tip_size(*f.cod, one_span(&f, &g), d) <= usize::MAX by {
            let sp = one_span(&f, &g);
            assert(sp.len() == 1);
            assert(fresh_before(sp, 0, d) == 0);
            assert(fresh_before(sp, 1, d) == fresh_count(sp[0], d, sp[0].into_ext.cod.size(d)));
            lemma_fresh_count_bound(sp[0], d, g.cod.size(d));
            assert(f.cod.size(d) + g.cod.size(d) <= usize::MAX);
        }
        assert forall|d: int| 0 <= d < tip_levels(*g.cod, one_span(&g, &f), 1) implies #[trigger] tip_size(*g.cod, one_span(&g, &f), d) <= usize::MAX by {
            let sp = one_span(&g, &f);
            assert(sp.len() == 1);
            assert(fresh_before(sp, 0, d) == 0);
            assert(fresh_before(sp, 1, d) == fresh_count(sp[0], d, sp[0].into_ext.cod.size(d)));
            lemma_fresh_count_bound(sp[0], d, f.cod.size(d));
            assert(g.cod.size(d) + f.cod.size(d) <= usize::MAX);
        }
    }
    let p = pushout(&output_into_first, &output_into_second);
    proof {
        assert(pasted_along(**first, **second, direction, output_into_first, iso, input_into_second, output_into_second, p));
    }
    let r = Some(p);
    proof {
        assert(pasted_along(**first, **second, direction, output_into_first, iso, input_into_second, output_into_second, r->0));
    }
    r
}


/// A direction active in either codomain of a binary pushout is active in
/// its tip: every cell of either side lands on a cell with the same basis.
pub(crate) proof fn lemma_pushout_keeps_active(f: Embedding, g: Embedding, tip: FramedPoset, inl: Embedding, inr: Embedding, v: usize)
    requires
        f.valid(),
        g.valid(),
        f.dom.same_poset(&*g.dom),
        pushed_out(*f.cod, one_span(&f, &g), tip, inl, inr),
    ensures
        f.cod.is_active(v) ==> tip.is_active(v),
        g.cod.is_active(v) ==> tip.is_active(v),
{
    let base = *f.cod;
    let spans = one_span(&f, &g);
    assert(spans[0].into_base == &f);
    assert(span_ok(base, spans[0]));
    assert forall|j: int| 0 <= j < spans.len() implies span_ok(base, #[trigger] spans[j]) by {
        assert(j == 0);
    }
    lemma_tip_levels(base, spans, 1);
    if base.is_active(v) {
        let (d, k) = choose|d: int, k: int| base.cell(d, k) && #[trigger] base.basis_at(d, k).contains(v);
        assert(tip.size(d) == tip_size(base, spans, d));
        assert(tip.cell(d, k));
        assert(tip.basis_at(d, k).contains(v));
    }
    if g.cod.is_active(v) {
        let ext = *g.cod;
        let (d, p) = choose|d: int, p: int| ext.cell(d, p) && #[trigger] ext.basis_at(d, p).contains(v);
        lemma_target_range(base, spans, 0, d, p);
        let t = inr_target(base, spans, 0, d, p);
        assert(tip.size(d) == tip_size(base, spans, d));
        assert(tip.cell(d, t));
        let pre = preimage(g.inv, d, p);
        if pre != NO_PREIMAGE {
            assert(at(g.inv, d, p) == pre);
            assert(at(g.map, d, pre as int) == p);
            assert(g.dom.cell(d, pre as int));
            crate::embedding::lemma_same_poset_sizes(&*f.dom, &*g.dom);
            assert(f.dom.cell(d, pre as int));
            assert(g.dom.basis_at(d, pre as int) == ext.basis_at(d, p));
            assert(f.dom.basis_at(d, pre as int) == g.dom.basis_at(d, pre as int));
            assert(f.dom.basis_at(d, pre as int) == base.basis_at(d, t));
            assert(base.cell(d, t));
            assert(tip.basis_at(d, t).contains(v));
        } else {
            assert(fresh(spans[0], d, p));
            assert(placed(base, spans, 0, d, p, tip.basis, tip.faces_in, tip.faces_out));
            assert(tip.basis_at(d, t).contains(v));
        }
    }
}

} // verus!

//! Finite colimits of framed posets glued along embeddings.

use std::sync::Arc;

use vstd::prelude::*;

use crate::embedding::{Embedding, at};
use crate::intset::{IntSet, strictly_sorted};
use crate::poset::{FramedPoset, Sign, dim_fits, entry, rows};

verus! {

/// Two objects of a diagram glued along a common domain: cell `i` of the
/// domain identifies `into_left(i)` in object `left` with `into_right(i)` in
/// object `right`.
#[derive(Debug, Clone, Copy)]
pub struct ColimitSpan<'a> {
    pub left: usize,
    pub right: usize,
    pub into_left: &'a Embedding,
    pub into_right: &'a Embedding,
}

/// A colimit: its tip, and one injection per object.
#[derive(Debug)]
pub struct FiniteColimit {
    pub tip: Arc<FramedPoset>,
    pub injections: Vec<Embedding>,
}

/// Number of cells at level `d` of the first `n` objects.
pub open spec fn level_total(objects: Seq<Arc<FramedPoset>>, n: int, d: int) -> int
    decreases n,
{
    if n <= 0 {
        0
    } else {
        level_total(objects, n - 1, d) + objects[n - 1].size(d)
    }
}

/// Number of levels of the highest object among the first `n`.
pub open spec fn top_levels(objects: Seq<Arc<FramedPoset>>, n: int) -> int
    decreases n,
{
    if n <= 0 {
        0
    } else if top_levels(objects, n - 1) < objects[n - 1].levels() {
        objects[n - 1].levels()
    } else {
        top_levels(objects, n - 1)
    }
}

/// The cells of every level of all objects together can be counted in `usize`.
pub open spec fn colimit_sized(objects: Seq<Arc<FramedPoset>>) -> bool {
    forall|d: int| #[trigger] level_total(objects, objects.len() as int, d) <= usize::MAX
}

proof fn lemma_level_total_mono(objects: Seq<Arc<FramedPoset>>, m: int, n: int, d: int)
    requires
        0 <= m <= n,
    ensures
        0 <= level_total(objects, m, d) <= level_total(objects, n, d),
    decreases n,
{
    if n > m {
        lemma_level_total_mono(objects, m, n - 1, d);
    } else if n > 0 {
        lemma_level_total_mono(objects, 0, n - 1, d);
    }
}

proof fn lemma_top_levels(objects: Seq<Arc<FramedPoset>>, n: int)
    requires
        0 <= n <= objects.len(),
    ensures
        0 <= top_levels(objects, n),
        forall|o: int| 0 <= o < n ==> #[trigger] objects[o].levels() <= top_levels(objects, n),
        n > 0 ==> exists|o: int| 0 <= o < n && #[trigger] objects[o].levels() == top_levels(objects, n),
    decreases n,
{
    if n > 0 {
        lemma_top_levels(objects, n - 1);
        if n - 1 > 0 {
            let o = choose|o: int| 0 <= o < n - 1 && #[trigger] objects[o].levels() == top_levels(objects, n - 1);
        }
    }
}

/// Offsets of the objects in the flat numbering of the cells at level `d`.
fn level_offsets(objects: &[Arc<FramedPoset>], d: usize) -> (off: Vec<usize>)
    requires
        colimit_sized(objects@),
    ensures
        off@.len() == objects@.len() + 1,
        forall|o: int| 0 <= o <= objects@.len() ==> #[trigger] off@[o] == level_total(objects@, o, d as int),
{
    let n = objects.len();
    let mut off: Vec<usize> = Vec::new();
    off.push(0);
    let mut sum: usize = 0;
    proof {
        assert(level_total(objects@, objects@.len() as int, d as int) <= usize::MAX);
    }
    for o in 0..n
        invariant
            n == objects@.len(),
            level_total(objects@, n as int, d as int) <= usize::MAX,
            sum == level_total(objects@, o as int, d as int),
            off@.len() == o + 1,
            forall|k: int| 0 <= k <= o ==> #[trigger] off@[k] == level_total(objects@, k, d as int),
    {
        proof {
            lemma_level_total_mono(objects@, o + 1, n as int, d as int);
        }
        let size = if d < objects[o].basis.len() { objects[o].basis[d].len() } else { 0 };
        proof {
            assert(size == objects@[o as int].size(d as int));
        }
        sum = sum + size;
        off.push(sum);
    }
    off
}

/// Every label names a root no later than itself, which labels itself.
pub open spec fn rooted(l: Seq<usize>) -> bool {
    forall|g: int| 0 <= g < l.len() ==> #[trigger] l[g] <= g && l[l[g] as int] == l[g]
}

/// Put the classes of `a` and `b` together, relabelling the larger root.
fn merge(labels: &mut Vec<usize>, a: usize, b: usize)
    requires
        a < old(labels)@.len(),
        b < old(labels)@.len(),
        rooted(old(labels)@),
    ensures
        final(labels)@.len() == old(labels)@.len(),
        rooted(final(labels)@),
        final(labels)@[a as int] == final(labels)@[b as int],
        forall|x: int, y: int| 0 <= x < old(labels)@.len() && 0 <= y < old(labels)@.len() && old(labels)@[x] == old(labels)@[y]
            ==> #[trigger] final(labels)@[x] == #[trigger] final(labels)@[y],
        forall|x: int, y: int| 0 <= x < old(labels)@.len() && 0 <= y < old(labels)@.len() ==> (#[trigger] final(labels)@[x] == #[trigger] final(labels)@[y]
            <==> (old(labels)@[x] == old(labels)@[y] || (old(labels)@[x] == old(labels)@[a as int] && old(labels)@[y] == old(labels)@[b as int])
                || (old(labels)@[x] == old(labels)@[b as int] && old(labels)@[y] == old(labels)@[a as int]))),
{
    let la = labels[a];
    let lb = labels[b];
    if la == lb {
        return;
    }
    let (lo, hi) = if la < lb { (la, lb) } else { (lb, la) };
    let n = labels.len();
    let ghost start = labels@;
    for g in 0..n
        invariant
            n == labels@.len(),
            n == start.len(),
            rooted(start),
            lo < n,
            hi < n,
            lo != hi,
            start[lo as int] == lo,
            start[hi as int] == hi,
            forall|k: int| 0 <= k < g ==> #[trigger] labels@[k] == (if start[k] == hi { lo } else { start[k] }),
            forall|k: int| g <= k < n ==> #[trigger] labels@[k] == start[k],
    {
        if labels[g] == hi {
            labels.set(g, lo);
        }
    }
    proof {
        assert forall|x: int, y: int| 0 <= x < n && 0 <= y < n implies (#[trigger] labels@[x] == #[trigger] labels@[y]
            <==> (start[x] == start[y] || (start[x] == start[a as int] && start[y] == start[b as int])
                || (start[x] == start[b as int] && start[y] == start[a as int]))) by {
            assert(labels@[x] == (if start[x] == hi { lo } else { start[x] }));
            assert(labels@[y] == (if start[y] == hi { lo } else { start[y] }));
            assert(start[lo as int] == lo);
            assert(start[x] <= x && start[start[x] as int] == start[x]);
            assert(start[y] <= y && start[start[y] as int] == start[y]);
        }
        assert forall|g: int| 0 <= g < n implies #[trigger] labels@[g] <= g && labels@[labels@[g] as int] == labels@[g] by {
            let s = start[g];
            assert(start[s as int] == s);
            if s == hi {
                assert(labels@[lo as int] == lo);
            } else {
                assert(labels@[s as int] == s);
            }
        }
    }
}


/// The identity labelling of `n` cells.
fn singleton_labels(n: usize) -> (l: Vec<usize>)
    ensures
        l@.len() == n,
        rooted(l@),
        labels_link(l@, Seq::empty()),
{
    let mut l: Vec<usize> = Vec::new();
    for g in 0..n
        invariant
            l@.len() == g,
            forall|k: int| 0 <= k < g ==> #[trigger] l@[k] == k,
    {
        l.push(g);
    }
    proof {
        assert forall|x: int, y: int| 0 <= x < l@.len() && 0 <= y < l@.len() implies (#[trigger] l@[x] == #[trigger] l@[y] <==> linked(Seq::empty(), x, y)) by {}
    }
    l
}

/// The tables of the tip built so far: one row per level below `d`, and per
/// level the tip position of every flat cell.
spec fn tip_ok(objects: Seq<Arc<FramedPoset>>, d: int, basis: Vec<Vec<IntSet>>, faces_in: Vec<Vec<IntSet>>, faces_out: Vec<Vec<IntSet>>, positions: Vec<Vec<usize>>) -> bool {
    &&& basis@.len() == d
    &&& faces_in@.len() == d
    &&& faces_out@.len() == d
    &&& positions@.len() == d
    &&& forall|e: int| 0 <= e < d ==> #[trigger] faces_in@[e]@.len() == basis@[e]@.len() && faces_out@[e]@.len() == basis@[e]@.len()
    &&& forall|e: int| 0 <= e < d ==> (#[trigger] positions@[e])@.len() == level_total(objects, objects.len() as int, e)
    &&& forall|e: int, g: int| 0 <= e < d && 0 <= g < positions@[e]@.len() ==> #[trigger] positions@[e]@[g] < basis@[e]@.len()
    &&& forall|e: int, k: int| 0 <= e < d && 0 <= k < basis@[e]@.len() ==> strictly_sorted(#[trigger] entry(basis, e, k))
    &&& forall|e: int, k: int| 0 <= e < d && 0 <= k < basis@[e]@.len() ==> strictly_sorted(#[trigger] entry(faces_in, e, k))
    &&& forall|e: int, k: int| 0 <= e < d && 0 <= k < basis@[e]@.len() ==> strictly_sorted(#[trigger] entry(faces_out, e, k))
    &&& forall|e: int, k: int, i: int| 0 <= e < d && 0 <= k < basis@[e]@.len() && 0 <= i < entry(faces_in, e, k).len()
        ==> #[trigger] entry(faces_in, e, k)[i] < rows(basis, e - 1)
    &&& forall|e: int, k: int, i: int| 0 <= e < d && 0 <= k < basis@[e]@.len() && 0 <= i < entry(faces_out, e, k).len()
        ==> #[trigger] entry(faces_out, e, k)[i] < rows(basis, e - 1)
}

/// The tip positions of the faces `faces` of a cell of the object whose
/// cells start at `offset` in the flat numbering one level down.
fn tip_faces(faces: &IntSet, offset: usize, positions: &Vec<usize>, bound: Ghost<int>) -> (r: IntSet)
    requires
        forall|i: int| 0 <= i < faces@.len() ==> offset + #[trigger] faces@[i] < positions@.len(),
        forall|g: int| 0 <= g < positions@.len() ==> #[trigger] positions@[g] < bound@,
    ensures
        strictly_sorted(r@),
        forall|i: int| 0 <= i < r@.len() ==> #[trigger] r@[i] < bound@,
{
    let n = faces.len();
    let mut items: Vec<usize> = Vec::new();
    proof {
        assert(positions@.len() == positions.len());
    }
    for k in 0..n
        invariant
            positions@.len() <= usize::MAX,
            n == faces@.len(),
            forall|i: int| 0 <= i < faces@.len() ==> offset + #[trigger] faces@[i] < positions@.len(),
            forall|g: int| 0 <= g < positions@.len() ==> #[trigger] positions@[g] < bound@,
            forall|j: int| 0 <= j < items@.len() ==> #[trigger] items@[j] < bound@,
    {
        proof {
            assert(offset + faces@[k as int] < positions@.len());
        }
        items.push(positions[offset + faces[k]]);
    }
    let r = crate::intset::collect_sorted(items);
    proof {
        assert forall|i: int| 0 <= i < r@.len() implies #[trigger] r@[i] < bound@ by {
            assert(r@.contains(r@[i]));
            assert(items@.contains(r@[i]));
        }
    }
    r
}

/// Span `span` glues cell `i` at level `d` of its domain: both ends name
/// cells of their objects.
pub open spec fn span_glues(objects: Seq<Arc<FramedPoset>>, span: ColimitSpan, d: int, i: int) -> bool {
    &&& span.left < objects.len()
    &&& span.right < objects.len()
    &&& 0 <= d < span.into_left.map@.len()
    &&& d < span.into_right.map@.len()
    &&& 0 <= i < span.into_left.map@[d]@.len()
    &&& i < span.into_right.map@[d]@.len()
    &&& at(span.into_left.map, d, i) < objects[span.left as int].size(d)
    &&& at(span.into_right.map, d, i) < objects[span.right as int].size(d)
}

/// Position of cell `p` of object `o` in the flat numbering of level `d`.
pub open spec fn flat(objects: Seq<Arc<FramedPoset>>, o: int, d: int, p: int) -> int {
    level_total(objects, o, d) + p
}

/// Number of domain cells of `span` at level `d`, as its left leg lists them.
pub open spec fn span_row(span: ColimitSpan, d: int) -> int {
    if 0 <= d < span.into_left.map@.len() {
        span.into_left.map@[d]@.len() as int
    } else {
        0
    }
}

/// The pairs of flat positions that `span` glues at level `d`, for its
/// domain cells below `k`, in order.
pub open spec fn span_pairs(objects: Seq<Arc<FramedPoset>>, span: ColimitSpan, d: int, k: int) -> Seq<(int, int)>
    decreases k,
{
    if k <= 0 {
        Seq::empty()
    } else {
        let prev = span_pairs(objects, span, d, k - 1);
        if span_glues(objects, span, d, k - 1) {
            prev.push((flat(objects, span.left as int, d, at(span.into_left.map, d, k - 1) as int),
                flat(objects, span.right as int, d, at(span.into_right.map, d, k - 1) as int)))
        } else {
            prev
        }
    }
}

/// The pairs of flat positions that the first `s` spans glue at level `d`.
pub open spec fn level_pairs(objects: Seq<Arc<FramedPoset>>, spans: Seq<ColimitSpan>, d: int, s: int) -> Seq<(int, int)>
    decreases s,
{
    if s <= 0 {
        Seq::empty()
    } else {
        level_pairs(objects, spans, d, s - 1) + span_pairs(objects, spans[s - 1], d, span_row(spans[s - 1], d))
    }
}

/// `x` and `y` are joined by a chain of the identifications `pairs`.
pub open spec fn linked(pairs: Seq<(int, int)>, x: int, y: int) -> bool
    decreases pairs.len(),
{
    if pairs.len() == 0 {
        x == y
    } else {
        let ps = pairs.drop_last();
        let a = pairs.last().0;
        let b = pairs.last().1;
        ||| linked(ps, x, y)
        ||| (linked(ps, x, a) && linked(ps, b, y))
        ||| (linked(ps, x, b) && linked(ps, a, y))
    }
}

/// The labels `l` put two positions in one class exactly when `pairs` links
/// them.
spec fn labels_link(l: Seq<usize>, pairs: Seq<(int, int)>) -> bool {
    forall|x: int, y: int| 0 <= x < l.len() && 0 <= y < l.len() ==> (#[trigger] l[x] == #[trigger] l[y] <==> linked(pairs, x, y))
}

/// Cells of the span's domain from `k` on that it does not glue add no pair.
proof fn lemma_span_pairs_stop(objects: Seq<Arc<FramedPoset>>, span: ColimitSpan, d: int, k: int, m: int)
    requires
        0 <= k <= m,
        forall|i: int| k <= i < m ==> !#[trigger] span_glues(objects, span, d, i),
    ensures
        span_pairs(objects, span, d, m) == span_pairs(objects, span, d, k),
    decreases m,
{
    if m > k {
        lemma_span_pairs_stop(objects, span, d, k, m - 1);
    }
}

/// Appending the pair `(a, b)` to `pairs` links as merging `a` and `b`.
proof fn lemma_link_push(old_l: Seq<usize>, new_l: Seq<usize>, pairs: Seq<(int, int)>, a: int, b: int)
    requires
        labels_link(old_l, pairs),
        new_l.len() == old_l.len(),
        0 <= a < old_l.len(),
        0 <= b < old_l.len(),
        forall|x: int, y: int| 0 <= x < old_l.len() && 0 <= y < old_l.len() ==> (#[trigger] new_l[x] == #[trigger] new_l[y]
            <==> (old_l[x] == old_l[y] || (old_l[x] == old_l[a] && old_l[y] == old_l[b]) || (old_l[x] == old_l[b] && old_l[y] == old_l[a]))),
    ensures
        labels_link(new_l, pairs.push((a, b))),
{
    let q = pairs.push((a, b));
    assert(q.drop_last() =~= pairs);
    assert forall|x: int, y: int| 0 <= x < new_l.len() && 0 <= y < new_l.len() implies (#[trigger] new_l[x] == #[trigger] new_l[y] <==> linked(q, x, y)) by {
        assert(old_l[x] == old_l[y] <==> linked(pairs, x, y));
        assert(old_l[x] == old_l[a] <==> linked(pairs, x, a));
        assert(old_l[b] == old_l[y] <==> linked(pairs, b, y));
        assert(old_l[x] == old_l[b] <==> linked(pairs, x, b));
        assert(old_l[a] == old_l[y] <==> linked(pairs, a, y));
    }
}

/// The labels of level `d` put the two cells that span `span` glues at `i`
/// in one class.
spec fn glued_together(objects: Seq<Arc<FramedPoset>>, labels: Seq<Vec<usize>>, span: ColimitSpan, d: int, i: int) -> bool {
    labels[d]@[flat(objects, span.left as int, d, at(span.into_left.map, d, i) as int)]
        == labels[d]@[flat(objects, span.right as int, d, at(span.into_right.map, d, i) as int)]
}

/// The labels `l` keep every class of the labels `k`.
spec fn refines(k: Seq<usize>, l: Seq<usize>) -> bool {
    forall|x: int, y: int| 0 <= x < k.len() && 0 <= y < k.len() && k[x] == k[y] ==> #[trigger] l[x] == #[trigger] l[y]
}

/// Merge, at every level, the cells that the spans glue.
fn glue_labels(objects: &[Arc<FramedPoset>], spans: &[ColimitSpan], levels: usize, offsets: &Vec<Vec<usize>>, labels: &mut Vec<Vec<usize>>)
    requires
        levels == top_levels(objects@, objects@.len() as int),
        forall|o: int| 0 <= o < objects@.len() ==> #[trigger] objects@[o].levels() <= levels,
        offsets@.len() == levels,
        old(labels)@.len() == levels,
        forall|e: int| 0 <= e < levels ==> (#[trigger] offsets@[e])@.len() == objects@.len() + 1,
        forall|e: int, o: int| 0 <= e < levels && 0 <= o <= objects@.len() ==> #[trigger] offsets@[e]@[o] == level_total(objects@, o, e),
        forall|e: int| 0 <= e < levels ==> (#[trigger] old(labels)@[e])@.len() == level_total(objects@, objects@.len() as int, e) && rooted(old(labels)@[e]@),
        forall|e: int| 0 <= e < levels ==> labels_link((#[trigger] old(labels)@[e])@, Seq::empty()),
    ensures
        forall|e: int| 0 <= e < levels ==> labels_link((#[trigger] final(labels)@[e])@, level_pairs(objects@, spans@, e, spans@.len() as int)),
        final(labels)@.len() == levels,
        forall|e: int| 0 <= e < levels ==> (#[trigger] final(labels)@[e])@.len() == level_total(objects@, objects@.len() as int, e) && rooted(final(labels)@[e]@),
        forall|s: int, d: int, i: int| 0 <= s < spans@.len() && #[trigger] span_glues(objects@, spans@[s], d, i)
            ==> glued_together(objects@, final(labels)@, spans@[s], d, i),
{
    let n = objects.len();
    for s in 0..spans.len()
        invariant
            n == objects@.len(),
            forall|o: int| 0 <= o < objects@.len() ==> #[trigger] objects@[o].levels() <= levels,
            offsets@.len() == levels,
            labels@.len() == levels,
            forall|e: int| 0 <= e < levels ==> (#[trigger] offsets@[e])@.len() == n + 1,
            forall|e: int, o: int| 0 <= e < levels && 0 <= o <= n ==> #[trigger] offsets@[e]@[o] == level_total(objects@, o, e),
            forall|e: int| 0 <= e < levels ==> (#[trigger] labels@[e])@.len() == level_total(objects@, n as int, e) && rooted(labels@[e]@),
            forall|s2: int, d: int, i: int| 0 <= s2 < s && #[trigger] span_glues(objects@, spans@[s2], d, i)
                ==> glued_together(objects@, labels@, spans@[s2], d, i),
            forall|e: int| 0 <= e < levels ==> labels_link((#[trigger] labels@[e])@, level_pairs(objects@, spans@, e, s as int)),
    {
        let span = spans[s];
        if span.left < n && span.right < n {
            let il = span.into_left;
            let ir = span.into_right;
            let mut dl = levels;
            if il.map.len() < dl {
                dl = il.map.len();
            }
            if ir.map.len() < dl {
                dl = ir.map.len();
            }
            for d in 0..dl
                invariant
                    n == objects@.len(),
                    span == spans@[s as int],
                    il == span.into_left,
                    ir == span.into_right,
                    span.left < n,
                    span.right < n,
                    dl <= levels,
                    dl <= il.map@.len(),
                    dl <= ir.map@.len(),
                    dl == levels || dl == il.map@.len() || dl == ir.map@.len(),
                    forall|o: int| 0 <= o < objects@.len() ==> #[trigger] objects@[o].levels() <= levels,
                    offsets@.len() == levels,
                    labels@.len() == levels,
                    forall|e: int| 0 <= e < levels ==> (#[trigger] offsets@[e])@.len() == n + 1,
                    forall|e: int, o: int| 0 <= e < levels && 0 <= o <= n ==> #[trigger] offsets@[e]@[o] == level_total(objects@, o, e),
                    forall|e: int| 0 <= e < levels ==> (#[trigger] labels@[e])@.len() == level_total(objects@, n as int, e) && rooted(labels@[e]@),
                    forall|s2: int, e: int, i: int| 0 <= s2 < s && #[trigger] span_glues(objects@, spans@[s2], e, i)
                        ==> glued_together(objects@, labels@, spans@[s2], e, i),
                    forall|e: int, i: int| 0 <= e < d && #[trigger] span_glues(objects@, span, e, i)
                        ==> glued_together(objects@, labels@, span, e, i),
                    forall|e: int| 0 <= e < d ==> labels_link((#[trigger] labels@[e])@, level_pairs(objects@, spans@, e, s + 1)),
                    forall|e: int| d <= e < levels ==> labels_link((#[trigger] labels@[e])@, level_pairs(objects@, spans@, e, s as int)),
            {
                let mut rl = il.map[d].len();
                if ir.map[d].len() < rl {
                    rl = ir.map[d].len();
                }
                let left_size = if d < objects[span.left].basis.len() { objects[span.left].basis[d].len() } else { 0 };
                let right_size = if d < objects[span.right].basis.len() { objects[span.right].basis[d].len() } else { 0 };
                proof {
                    assert(left_size == objects@[span.left as int].size(d as int));
                    assert(right_size == objects@[span.right as int].size(d as int));
                    lemma_level_total_mono(objects@, span.left + 1, n as int, d as int);
                    lemma_level_total_mono(objects@, span.right + 1, n as int, d as int);
                }
                let mut row = labels[d].clone();
                let ghost start = row@;
                proof {
                    assert(start == labels@[d as int]@);
                }
                for i in 0..rl
                    invariant
                        n == objects@.len(),
                        d < levels,
                        span == spans@[s as int],
                        il == span.into_left,
                        ir == span.into_right,
                        span.left < n,
                        span.right < n,
                        d < il.map@.len(),
                        d < ir.map@.len(),
                        rl <= il.map@[d as int]@.len(),
                        rl <= ir.map@[d as int]@.len(),
                        rl == il.map@[d as int]@.len() || rl == ir.map@[d as int]@.len(),
                        offsets@.len() == levels,
                        labels@.len() == levels,
                        forall|e: int| 0 <= e < levels ==> (#[trigger] offsets@[e])@.len() == n + 1,
                        forall|e: int, o: int| 0 <= e < levels && 0 <= o <= n ==> #[trigger] offsets@[e]@[o] == level_total(objects@, o, e),
                        left_size == objects@[span.left as int].size(d as int),
                        right_size == objects@[span.right as int].size(d as int),
                        level_total(objects@, span.left + 1, d as int) <= level_total(objects@, n as int, d as int),
                        level_total(objects@, span.right + 1, d as int) <= level_total(objects@, n as int, d as int),
                        row@.len() == level_total(objects@, n as int, d as int),
                        start.len() == row@.len(),
                        rooted(row@),
                        refines(start, row@),
                        forall|i2: int| 0 <= i2 < i && #[trigger] span_glues(objects@, span, d as int, i2)
                            ==> row@[flat(objects@, span.left as int, d as int, at(il.map, d as int, i2) as int)]
                                == row@[flat(objects@, span.right as int, d as int, at(ir.map, d as int, i2) as int)],
                        labels_link(row@, level_pairs(objects@, spans@, d as int, s as int) + span_pairs(objects@, span, d as int, i as int)),
                {
                    let p = il.map[d][i];
                    let q = ir.map[d][i];
                    if p < left_size && q < right_size {
                        proof {
                            assert(row@.len() == row.len());
                            assert(offsets@[d as int]@[span.left as int] == level_total(objects@, span.left as int, d as int));
                            assert(offsets@[d as int]@[span.right as int] == level_total(objects@, span.right as int, d as int));
                        }
                        let a = offsets[d][span.left] + p;
                        let b = offsets[d][span.right] + q;
                        let ghost r0 = row@;
                        merge(&mut row, a, b);
                        proof {
                            let pp = level_pairs(objects@, spans@, d as int, s as int);
                            let sp0 = span_pairs(objects@, span, d as int, i as int);
                            assert(span_glues(objects@, span, d as int, i as int));
                            assert(span_pairs(objects@, span, d as int, i + 1) == sp0.push((a as int, b as int)));
                            lemma_link_push(r0, row@, pp + sp0, a as int, b as int);
                            assert((pp + sp0).push((a as int, b as int)) =~= pp + span_pairs(objects@, span, d as int, i + 1));
                            assert forall|x: int, y: int| 0 <= x < start.len() && 0 <= y < start.len() && start[x] == start[y]
                                implies #[trigger] row@[x] == #[trigger] row@[y] by {
                                assert(r0[x] == r0[y]);
                            }
                            assert forall|i2: int| 0 <= i2 < i + 1 && #[trigger] span_glues(objects@, span, d as int, i2)
                                implies row@[flat(objects@, span.left as int, d as int, at(il.map, d as int, i2) as int)]
                                    == row@[flat(objects@, span.right as int, d as int, at(ir.map, d as int, i2) as int)] by {
                                let x = flat(objects@, span.left as int, d as int, at(il.map, d as int, i2) as int);
                                let y = flat(objects@, span.right as int, d as int, at(ir.map, d as int, i2) as int);
                                if i2 < i {
                                    assert(r0[x] == r0[y]);
                                }
                            }
                        }
                    } else {
                        proof {
                            assert(!span_glues(objects@, span, d as int, i as int));
                            assert(span_pairs(objects@, span, d as int, i + 1) == span_pairs(objects@, span, d as int, i as int));
                        }
                    }
                }
                proof {
                    assert forall|i2: int| rl <= i2 < span_row(span, d as int) implies !#[trigger] span_glues(objects@, span, d as int, i2) by {}
                    lemma_span_pairs_stop(objects@, span, d as int, rl as int, span_row(span, d as int));
                    assert(level_pairs(objects@, spans@, d as int, s + 1)
                        == level_pairs(objects@, spans@, d as int, s as int) + span_pairs(objects@, span, d as int, span_row(span, d as int)));
                }
                let ghost l0 = labels@;
                labels.set(d, row);
                proof {
                    assert forall|e: int| 0 <= e < levels implies (#[trigger] labels@[e])@.len() == level_total(objects@, n as int, e) && rooted(labels@[e]@) by {
                        if e != d {
                            assert(labels@[e] == l0[e]);
                        }
                    }
                    assert forall|s2: int, e: int, i: int| 0 <= s2 < s && #[trigger] span_glues(objects@, spans@[s2], e, i)
                        implies glued_together(objects@, labels@, spans@[s2], e, i) by {
                        assert(glued_together(objects@, l0, spans@[s2], e, i));
                        assert(objects@[spans@[s2].left as int].levels() <= levels);
                        assert(e < levels);
                        if e != d {
                            assert(labels@[e] == l0[e]);
                        } else {
                            let x = flat(objects@, spans@[s2].left as int, e, at(spans@[s2].into_left.map, e, i) as int);
                            let y = flat(objects@, spans@[s2].right as int, e, at(spans@[s2].into_right.map, e, i) as int);
                            lemma_level_total_mono(objects@, spans@[s2].left + 1, n as int, e);
                            lemma_level_total_mono(objects@, spans@[s2].right + 1, n as int, e);
                            assert(start[x] == start[y]);
                            assert(level_total(objects@, spans@[s2].left + 1, e) == level_total(objects@, spans@[s2].left as int, e) + objects@[spans@[s2].left as int].size(e));
                            assert(level_total(objects@, spans@[s2].right + 1, e) == level_total(objects@, spans@[s2].right as int, e) + objects@[spans@[s2].right as int].size(e));
                            lemma_level_total_mono(objects@, spans@[s2].left as int, spans@[s2].left + 1, e);
                            lemma_level_total_mono(objects@, spans@[s2].right as int, spans@[s2].right + 1, e);
                            assert(0 <= x < start.len() && 0 <= y < start.len());
                            assert(row@[x] == row@[y]);
                            assert(labels@[e]@ == row@);
                        }
                    }
                    assert forall|e: int| 0 <= e < d + 1 implies labels_link((#[trigger] labels@[e])@, level_pairs(objects@, spans@, e, s + 1)) by {
                        if e < d {
                            assert(labels@[e] == l0[e]);
                        }
                    }
                    assert forall|e: int| d + 1 <= e < levels implies labels_link((#[trigger] labels@[e])@, level_pairs(objects@, spans@, e, s as int)) by {
                        assert(labels@[e] == l0[e]);
                    }
                    assert forall|e: int, i: int| 0 <= e < d + 1 && #[trigger] span_glues(objects@, span, e, i)
                        implies glued_together(objects@, labels@, span, e, i) by {
                        if e < d {
                            assert(glued_together(objects@, l0, span, e, i));
                            assert(labels@[e] == l0[e]);
                        } else {
                            if i >= rl {
                                assert(false);
                            }
                        }
                    }
                }
            }
            proof {
                assert forall|s2: int, e: int, i: int| 0 <= s2 < s + 1 && #[trigger] span_glues(objects@, spans@[s2], e, i)
                    implies glued_together(objects@, labels@, spans@[s2], e, i) by {
                    if s2 == s {
                        if e >= dl {
                            assert(objects@[span.left as int].levels() <= levels);
                            assert(false);
                        }
                    }
                }
                assert forall|e: int| 0 <= e < levels implies labels_link((#[trigger] labels@[e])@, level_pairs(objects@, spans@, e, s + 1)) by {
                    if e >= dl {
                        assert forall|i2: int| 0 <= i2 < span_row(span, e) implies !#[trigger] span_glues(objects@, span, e, i2) by {
                            if span_glues(objects@, span, e, i2) {
                                assert(objects@[span.left as int].levels() <= levels);
                            }
                        }
                        lemma_span_pairs_stop(objects@, span, e, 0, span_row(span, e));
                        assert(level_pairs(objects@, spans@, e, s + 1) =~= level_pairs(objects@, spans@, e, s as int));
                    }
                }
            }
        } else {
            proof {
                assert forall|s2: int, e: int, i: int| 0 <= s2 < s + 1 && #[trigger] span_glues(objects@, spans@[s2], e, i)
                    implies glued_together(objects@, labels@, spans@[s2], e, i) by {
                    if s2 == s {
                        assert(!span_glues(objects@, spans@[s2], e, i));
                    }
                }
                assert forall|e: int| 0 <= e < levels implies labels_link((#[trigger] labels@[e])@, level_pairs(objects@, spans@, e, s + 1)) by {
                    assert forall|i2: int| 0 <= i2 < span_row(span, e) implies !#[trigger] span_glues(objects@, span, e, i2) by {}
                    lemma_span_pairs_stop(objects@, span, e, 0, span_row(span, e));
                    assert(level_pairs(objects@, spans@, e, s + 1) =~= level_pairs(objects@, spans@, e, s as int));
                }
            }
        }
    }
}

/// Tip cell `k` of the level under construction was made from a cell of an
/// object, with its basis, and that cell's flat position is given `k`.
spec fn witnessed(objects: Seq<Arc<FramedPoset>>, positions: Seq<usize>, bases: Seq<IntSet>, d: int, k: int) -> bool {
    exists|o: int, p: int| 0 <= o < objects.len() && #[trigger] objects[o].cell(d, p) && flat(objects, o, d, p) < positions.len()
        && positions[flat(objects, o, d, p)] == k && bases[k]@ == objects[o].basis_at(d, p)
}

/// The pairs of flat positions that the spans glue at level `d`.
pub open spec fn colimit_pairs(objects: Seq<Arc<FramedPoset>>, spans: Seq<ColimitSpan>, d: int) -> Seq<(int, int)> {
    level_pairs(objects, spans, d, spans.len() as int)
}

/// Glue the objects of a finite diagram along its spans.
///
/// Cells of equal level identified by a span, directly or through a chain of
/// spans, become one cell of the tip, which takes the basis and faces of the
/// earliest of them in the order of the objects. Identifications that name
/// cells outside their objects are ignored.
pub fn finite_colimit(objects: &[Arc<FramedPoset>], spans: &[ColimitSpan]) -> (r: FiniteColimit)
    requires
        forall|o: int| 0 <= o < objects@.len() ==> (#[trigger] objects@[o]).valid(),
        colimit_sized(objects@),
    ensures
        r.tip.valid(),
        r.injections@.len() == objects@.len(),
        forall|o: int| 0 <= o < objects@.len() ==> (#[trigger] r.injections@[o]).dom == objects@[o] && r.injections@[o].cod == r.tip,
        forall|o: int| 0 <= o < objects@.len() ==> (#[trigger] r.injections@[o]).map@.len() == objects@[o].levels(),
        forall|o: int, d: int| 0 <= o < objects@.len() && 0 <= d < objects@[o].levels() ==> (#[trigger] r.injections@[o].map@[d])@.len() == objects@[o].size(d),
        forall|o: int, d: int, i: int| 0 <= o < objects@.len() && 0 <= d < objects@[o].levels() && 0 <= i < objects@[o].size(d)
            ==> #[trigger] at(r.injections@[o].map, d, i) < r.tip.size(d),
        forall|s: int, d: int, i: int| 0 <= s < spans@.len() && #[trigger] span_glues(objects@, spans@[s], d, i) ==>
            at(r.injections@[spans@[s].left as int].map, d, at(spans@[s].into_left.map, d, i) as int)
                == at(r.injections@[spans@[s].right as int].map, d, at(spans@[s].into_right.map, d, i) as int),
        forall|d: int, o1: int, p1: int, o2: int, p2: int| 0 <= o1 < objects@.len() && 0 <= o2 < objects@.len()
            && objects@[o1].cell(d, p1) && objects@[o2].cell(d, p2) ==>
            (#[trigger] at(r.injections@[o1].map, d, p1) == #[trigger] at(r.injections@[o2].map, d, p2)
                <==> linked(colimit_pairs(objects@, spans@, d), flat(objects@, o1, d, p1), flat(objects@, o2, d, p2))),
        forall|d: int, k: int| #[trigger] r.tip.cell(d, k) ==> exists|o: int, p: int| 0 <= o < objects@.len()
            && #[trigger] objects@[o].cell(d, p) && at(r.injections@[o].map, d, p) == k && r.tip.basis_at(d, k) == objects@[o].basis_at(d, p),
{
    let n = objects.len();
    let mut levels: usize = 0;
    for o in 0..n
        invariant
            n == objects@.len(),
            levels == top_levels(objects@, o as int),
    {
        if levels < objects[o].basis.len() {
            levels = objects[o].basis.len();
        }
    }
    proof {
        lemma_top_levels(objects@, n as int);
    }
    let mut offsets: Vec<Vec<usize>> = Vec::new();
    let mut labels: Vec<Vec<usize>> = Vec::new();
    for d in 0..levels
        invariant
            n == objects@.len(),
            colimit_sized(objects@),
            offsets@.len() == d,
            labels@.len() == d,
            forall|e: int| 0 <= e < d ==> (#[trigger] offsets@[e])@.len() == n + 1,
            forall|e: int, o: int| 0 <= e < d && 0 <= o <= n ==> #[trigger] offsets@[e]@[o] == level_total(objects@, o, e),
            forall|e: int| 0 <= e < d ==> (#[trigger] labels@[e])@.len() == level_total(objects@, n as int, e) && rooted(labels@[e]@),
            forall|e: int| 0 <= e < d ==> labels_link((#[trigger] labels@[e])@, Seq::empty()),
    {
        let off = level_offsets(objects, d);
        let total = off[n];
        labels.push(singleton_labels(total));
        offsets.push(off);
    }
    proof {
        assert forall|o: int| 0 <= o < objects@.len() implies #[trigger] objects@[o].levels() <= levels by {}
    }
    glue_labels(objects, spans, levels, &offsets, &mut labels);
    let mut basis: Vec<Vec<IntSet>> = Vec::new();
    let mut faces_in: Vec<Vec<IntSet>> = Vec::new();
    let mut faces_out: Vec<Vec<IntSet>> = Vec::new();
    let mut positions: Vec<Vec<usize>> = Vec::new();
    for d in 0..levels
        invariant
            n == objects@.len(),
            forall|o: int| 0 <= o < objects@.len() ==> (#[trigger] objects@[o]).valid(),
            offsets@.len() == levels,
            labels@.len() == levels,
            forall|e: int| 0 <= e < levels ==> (#[trigger] offsets@[e])@.len() == n + 1,
            forall|e: int, o: int| 0 <= e < levels && 0 <= o <= n ==> #[trigger] offsets@[e]@[o] == level_total(objects@, o, e),
            forall|e: int| 0 <= e < levels ==> (#[trigger] labels@[e])@.len() == level_total(objects@, n as int, e) && rooted(labels@[e]@),
            tip_ok(objects@, d as int, basis, faces_in, faces_out, positions),
            forall|e: int, g: int| 0 <= e < d && 0 <= g < positions@[e]@.len()
                ==> #[trigger] positions@[e]@[g] == positions@[e]@[labels@[e]@[g] as int],
            forall|e: int, g: int, h: int| 0 <= e < d && 0 <= g < positions@[e]@.len() && 0 <= h < positions@[e]@.len()
                && #[trigger] positions@[e]@[g] == #[trigger] positions@[e]@[h] ==> labels@[e]@[g] == labels@[e]@[h],
            forall|e: int, k: int| 0 <= e < d && 0 <= k < basis@[e]@.len() ==> #[trigger] witnessed(objects@, positions@[e]@, basis@[e]@, e, k),
    {
        let row = &labels[d];
        let mut brow: Vec<IntSet> = Vec::new();
        let mut irow: Vec<IntSet> = Vec::new();
        let mut orow: Vec<IntSet> = Vec::new();
        let mut prow: Vec<usize> = Vec::new();
        for o in 0..n
            invariant
                n == objects@.len(),
                d < levels,
                forall|o2: int| 0 <= o2 < objects@.len() ==> (#[trigger] objects@[o2]).valid(),
                offsets@.len() == levels,
                labels@.len() == levels,
                forall|e: int| 0 <= e < levels ==> (#[trigger] offsets@[e])@.len() == n + 1,
                forall|e: int, o2: int| 0 <= e < levels && 0 <= o2 <= n ==> #[trigger] offsets@[e]@[o2] == level_total(objects@, o2, e),
                row == labels@[d as int],
                row@.len() == level_total(objects@, n as int, d as int),
                rooted(row@),
                tip_ok(objects@, d as int, basis, faces_in, faces_out, positions),
                prow@.len() == level_total(objects@, o as int, d as int),
                forall|g: int| 0 <= g < prow@.len() ==> #[trigger] prow@[g] == prow@[row@[g] as int],
                forall|e: int, g: int| 0 <= e < d && 0 <= g < positions@[e]@.len()
                    ==> #[trigger] positions@[e]@[g] == positions@[e]@[labels@[e]@[g] as int],
                forall|g: int, h: int| 0 <= g < prow@.len() && 0 <= h < prow@.len() && #[trigger] prow@[g] == #[trigger] prow@[h] ==> row@[g] == row@[h],
                forall|e: int, g: int, h: int| 0 <= e < d && 0 <= g < positions@[e]@.len() && 0 <= h < positions@[e]@.len()
                    && #[trigger] positions@[e]@[g] == #[trigger] positions@[e]@[h] ==> labels@[e]@[g] == labels@[e]@[h],
                forall|e: int, k: int| 0 <= e < d && 0 <= k < basis@[e]@.len() ==> #[trigger] witnessed(objects@, positions@[e]@, basis@[e]@, e, k),
                forall|k: int| 0 <= k < brow@.len() ==> #[trigger] witnessed(objects@, prow@, brow@, d as int, k),
                irow@.len() == brow@.len(),
                orow@.len() == brow@.len(),
                forall|g: int| 0 <= g < prow@.len() ==> #[trigger] prow@[g] < brow@.len(),
                forall|k: int| 0 <= k < brow@.len() ==> strictly_sorted(#[trigger] brow@[k]@),
                forall|k: int| 0 <= k < brow@.len() ==> strictly_sorted(#[trigger] irow@[k]@),
                forall|k: int| 0 <= k < brow@.len() ==> strictly_sorted(#[trigger] orow@[k]@),
                forall|k: int, i: int| 0 <= k < brow@.len() && 0 <= i < irow@[k]@.len() ==> #[trigger] irow@[k]@[i] < rows(basis, d - 1),
                forall|k: int, i: int| 0 <= k < brow@.len() && 0 <= i < orow@[k]@.len() ==> #[trigger] orow@[k]@[i] < rows(basis, d - 1),
        {
            let x = &objects[o];
            let size = if d < x.basis.len() { x.basis[d].len() } else { 0 };
            proof {
                assert(size == objects@[o as int].size(d as int));
                lemma_level_total_mono(objects@, o + 1, n as int, d as int);
            }
            for p in 0..size
                invariant
                    n == objects@.len(),
                    o < n,
                    d < levels,
                    *x == objects@[o as int],
                    x.valid(),
                    size == x.size(d as int),
                    offsets@.len() == levels,
                    labels@.len() == levels,
                    forall|e: int| 0 <= e < levels ==> (#[trigger] offsets@[e])@.len() == n + 1,
                    forall|e: int, o2: int| 0 <= e < levels && 0 <= o2 <= n ==> #[trigger] offsets@[e]@[o2] == level_total(objects@, o2, e),
                    row@.len() == level_total(objects@, n as int, d as int),
                    level_total(objects@, o + 1, d as int) <= level_total(objects@, n as int, d as int),
                    rooted(row@),
                    tip_ok(objects@, d as int, basis, faces_in, faces_out, positions),
                    prow@.len() == level_total(objects@, o as int, d as int) + p,
                    forall|g: int| 0 <= g < prow@.len() ==> #[trigger] prow@[g] == prow@[row@[g] as int],
                    forall|e: int, g: int| 0 <= e < d && 0 <= g < positions@[e]@.len()
                        ==> #[trigger] positions@[e]@[g] == positions@[e]@[labels@[e]@[g] as int],
                    forall|g: int, h: int| 0 <= g < prow@.len() && 0 <= h < prow@.len() && #[trigger] prow@[g] == #[trigger] prow@[h] ==> row@[g] == row@[h],
                    forall|e: int, g: int, h: int| 0 <= e < d && 0 <= g < positions@[e]@.len() && 0 <= h < positions@[e]@.len()
                        && #[trigger] positions@[e]@[g] == #[trigger] positions@[e]@[h] ==> labels@[e]@[g] == labels@[e]@[h],
                    forall|e: int, k: int| 0 <= e < d && 0 <= k < basis@[e]@.len() ==> #[trigger] witnessed(objects@, positions@[e]@, basis@[e]@, e, k),
                    forall|k: int| 0 <= k < brow@.len() ==> #[trigger] witnessed(objects@, prow@, brow@, d as int, k),
                    o < objects@.len(),
                    row == labels@[d as int],
                    irow@.len() == brow@.len(),
                    orow@.len() == brow@.len(),
                    forall|g: int| 0 <= g < prow@.len() ==> #[trigger] prow@[g] < brow@.len(),
                    forall|k: int| 0 <= k < brow@.len() ==> strictly_sorted(#[trigger] brow@[k]@),
                    forall|k: int| 0 <= k < brow@.len() ==> strictly_sorted(#[trigger] irow@[k]@),
                    forall|k: int| 0 <= k < brow@.len() ==> strictly_sorted(#[trigger] orow@[k]@),
                    forall|k: int, i: int| 0 <= k < brow@.len() && 0 <= i < irow@[k]@.len() ==> #[trigger] irow@[k]@[i] < rows(basis, d - 1),
                    forall|k: int, i: int| 0 <= k < brow@.len() && 0 <= i < orow@[k]@.len() ==> #[trigger] orow@[k]@[i] < rows(basis, d - 1),
            {
                let g = prow.len();
                proof {
                    assert(x.cell(d as int, p as int));
                    assert(g < row@.len());
                }
                let ghost pr0 = prow@;
                let ghost br0 = brow@;
                if row[g] == g {
                    let k = brow.len();
                    proof {
                        assert(entry(x.basis, d as int, p as int) == x.basis_at(d as int, p as int));
                    }
                    brow.push(x.basis[d][p].clone());
                    if d == 0 {
                        irow.push(Vec::new());
                        orow.push(Vec::new());
                    } else {
                        let fi = x.faces_of(Sign::Input, d, p);
                        let fo = x.faces_of(Sign::Output, d, p);
                        let prev = &positions[d - 1];
                        let off = offsets[d - 1][o];
                        proof {
                            lemma_level_total_mono(objects@, o + 1, n as int, d - 1);
                            assert(off == level_total(objects@, o as int, d - 1));
                            assert forall|i: int| 0 <= i < fi@.len() implies off + #[trigger] fi@[i] < prev@.len() by {
                                assert(entry(x.faces_in, d as int, p as int)[i] < x.size(d - 1));
                            }
                            assert forall|i: int| 0 <= i < fo@.len() implies off + #[trigger] fo@[i] < prev@.len() by {
                                assert(entry(x.faces_out, d as int, p as int)[i] < x.size(d - 1));
                            }
                        }
                        irow.push(tip_faces(fi, off, prev, Ghost(rows(basis, d - 1))));
                        orow.push(tip_faces(fo, off, prev, Ghost(rows(basis, d - 1))));
                    }
                    prow.push(k);
                    proof {
                        assert(flat(objects@, o as int, d as int, p as int) == g);
                        assert forall|k2: int| 0 <= k2 < brow@.len() implies #[trigger] witnessed(objects@, prow@, brow@, d as int, k2) by {
                            if k2 < k {
                                assert(witnessed(objects@, pr0, br0, d as int, k2));
                                let (o2, p2) = choose|o2: int, p2: int| 0 <= o2 < objects@.len() && #[trigger] objects@[o2].cell(d as int, p2)
                                    && flat(objects@, o2, d as int, p2) < pr0.len() && pr0[flat(objects@, o2, d as int, p2)] == k2
                                    && br0[k2]@ == objects@[o2].basis_at(d as int, p2);
                                let f2 = flat(objects@, o2, d as int, p2);
                                lemma_level_total_mono(objects@, 0, o2, d as int);
                                assert(prow@ == pr0.push(k));
                                assert(0 <= f2 < pr0.len());
                                assert(prow@[f2] == pr0[f2]);
                                assert(brow@[k2] == br0[k2]);
                            } else {
                                assert(objects@[o as int].cell(d as int, p as int));
                                assert(prow@[g as int] == k);
                            }
                        }
                    }
                } else {
                    let root = row[g];
                    proof {
                        assert(root < g);
                    }
                    let k = prow[root];
                    prow.push(k);
                    proof {
                        assert forall|k2: int| 0 <= k2 < brow@.len() implies #[trigger] witnessed(objects@, prow@, brow@, d as int, k2) by {
                            assert(witnessed(objects@, pr0, br0, d as int, k2));
                            let (o2, p2) = choose|o2: int, p2: int| 0 <= o2 < objects@.len() && #[trigger] objects@[o2].cell(d as int, p2)
                                && flat(objects@, o2, d as int, p2) < pr0.len() && pr0[flat(objects@, o2, d as int, p2)] == k2
                                && br0[k2]@ == objects@[o2].basis_at(d as int, p2);
                            let f2 = flat(objects@, o2, d as int, p2);
                            lemma_level_total_mono(objects@, 0, o2, d as int);
                            assert(prow@ == pr0.push(k));
                            assert(prow@[f2] == pr0[f2]);
                        }
                    }
                }
            }
        }
        let ghost (b0, i0, o0, p0) = (basis, faces_in, faces_out, positions);
        basis.push(brow);
        faces_in.push(irow);
        faces_out.push(orow);
        positions.push(prow);
        proof {
            assert(basis@ == b0@.push(basis@[d as int]));
            assert(faces_in@ == i0@.push(faces_in@[d as int]));
            assert(faces_out@ == o0@.push(faces_out@[d as int]));
            assert(positions@ == p0@.push(positions@[d as int]));
            assert(rows(basis, d - 1) == rows(b0, d - 1));
            assert forall|e: int, g: int| 0 <= e < d + 1 && 0 <= g < positions@[e]@.len()
                implies #[trigger] positions@[e]@[g] == positions@[e]@[labels@[e]@[g] as int] by {
                if e < d {
                    assert(positions@[e] == p0@[e]);
                } else {
                    assert(positions@[e] == prow);
                }
            }
            lemma_tip_step(objects@, d as int, b0, i0, o0, p0, basis, faces_in, faces_out, positions);
        }
    }
    proof {
        lemma_tip_defining(objects@, levels as int, basis, faces_in, faces_out, positions);
        if n > 0 {
            let o = choose|o: int| 0 <= o < n && #[trigger] objects@[o].levels() == top_levels(objects@, n as int);
            assert(objects@[o].valid());
        }
        assert(dim_fits(basis@.len() as int));
    }
    let tip = Arc::new(FramedPoset::from_faces(basis, faces_in, faces_out));
    let mut injections: Vec<Embedding> = Vec::new();
    for o in 0..n
        invariant
            n == objects@.len(),
            tip.valid(),
            tip.basis == basis,
            forall|e: int| 0 <= e < levels ==> (#[trigger] offsets@[e])@.len() == n + 1,
            forall|e: int, o2: int| 0 <= e < levels && 0 <= o2 <= n ==> #[trigger] offsets@[e]@[o2] == level_total(objects@, o2, e),
            tip_ok(objects@, levels as int, basis, faces_in, faces_out, positions),
            offsets@.len() == levels,
            forall|o2: int| 0 <= o2 < n ==> #[trigger] objects@[o2].levels() <= levels,
            injections@.len() == o,
            forall|k: int| 0 <= k < o ==> (#[trigger] injections@[k]).dom == objects@[k] && injections@[k].cod == tip,
            forall|k: int| 0 <= k < o ==> (#[trigger] injections@[k]).map@.len() == objects@[k].levels(),
            forall|k: int, d: int| 0 <= k < o && 0 <= d < objects@[k].levels() ==> (#[trigger] injections@[k].map@[d])@.len() == objects@[k].size(d),
            forall|k: int, d: int, i: int| 0 <= k < o && 0 <= d < objects@[k].levels() && 0 <= i < objects@[k].size(d)
                ==> #[trigger] at(injections@[k].map, d, i) < tip.size(d),
            forall|k: int, d: int, i: int| 0 <= k < o && 0 <= d < objects@[k].levels() && 0 <= i < objects@[k].size(d)
                ==> #[trigger] at(injections@[k].map, d, i) == positions@[d]@[flat(objects@, k, d, i)],
    {
        let x = &objects[o];
        let xl = x.basis.len();
        let mut map: Vec<Vec<usize>> = Vec::new();
        proof {
            assert(objects@[o as int].levels() <= levels);
        }
        for d in 0..xl
            invariant
                n == objects@.len(),
                o < n,
                *x == objects@[o as int],
                xl == x.levels(),
                xl <= levels,
                offsets@.len() == levels,
                tip.basis == basis,
                forall|e: int| 0 <= e < levels ==> (#[trigger] offsets@[e])@.len() == n + 1,
                forall|e: int, o2: int| 0 <= e < levels && 0 <= o2 <= n ==> #[trigger] offsets@[e]@[o2] == level_total(objects@, o2, e),
                tip_ok(objects@, levels as int, basis, faces_in, faces_out, positions),
                map@.len() == d,
                forall|e: int| 0 <= e < d ==> (#[trigger] map@[e])@.len() == x.size(e),
                forall|e: int, i: int| 0 <= e < d && 0 <= i < map@[e]@.len() ==> #[trigger] at(map, e, i) < tip.size(e),
                forall|e: int, i: int| 0 <= e < d && 0 <= i < map@[e]@.len() ==> #[trigger] at(map, e, i) == positions@[e]@[flat(objects@, o as int, e, i)],
        {
            let size = x.basis[d].len();
            let off = offsets[d][o];
            proof {
                lemma_level_total_mono(objects@, o + 1, n as int, d as int);
                assert(size == objects@[o as int].size(d as int));
            }
            let mut mrow: Vec<usize> = Vec::new();
            proof {
                assert(positions@[d as int]@.len() == positions@[d as int].len());
            }
            for p in 0..size
                invariant
                    d < levels,
                    positions@[d as int]@.len() <= usize::MAX,
                    off + size <= positions@[d as int]@.len(),
                    tip_ok(objects@, levels as int, basis, faces_in, faces_out, positions),
                    tip.basis == basis,
                    forall|i: int| 0 <= i < mrow@.len() ==> #[trigger] mrow@[i] < tip.size(d as int),
                    forall|i: int| 0 <= i < mrow@.len() ==> #[trigger] mrow@[i] == positions@[d as int]@[off + i],
                    mrow@.len() == p,
            {
                mrow.push(positions[d][off + p]);
            }
            let ghost before = map;
            map.push(mrow);
            proof {
                assert forall|e: int, i: int| 0 <= e < d + 1 && 0 <= i < map@[e]@.len() implies #[trigger] at(map, e, i) < tip.size(e) by {
                    if e < d {
                        assert(map@[e] == before@[e]);
                        assert(at(map, e, i) == at(before, e, i));
                    } else {
                        assert(map@[e] == mrow);
                        assert(at(map, e, i) == mrow@[i]);
                    }
                }
                assert forall|e: int| 0 <= e < d + 1 implies (#[trigger] map@[e])@.len() == x.size(e) by {
                    if e < d {
                        assert(map@[e] == before@[e]);
                    }
                }
                assert forall|e: int, i: int| 0 <= e < d + 1 && 0 <= i < map@[e]@.len() implies #[trigger] at(map, e, i) == positions@[e]@[flat(objects@, o as int, e, i)] by {
                    if e < d {
                        assert(map@[e] == before@[e]);
                        assert(at(map, e, i) == at(before, e, i));
                    } else {
                        assert(map@[e] == mrow);
                        assert(at(map, e, i) == mrow@[i]);
                        assert(off == level_total(objects@, o as int, d as int));
                    }
                }
            }
        }
        let ghost before = injections;
        injections.push(Embedding::from_map(x.clone(), tip.clone(), map));
        proof {
            assert forall|k: int, d: int, i: int| 0 <= k < o + 1 && 0 <= d < objects@[k].levels() && 0 <= i < objects@[k].size(d)
                implies #[trigger] at(injections@[k].map, d, i) < tip.size(d) by {
                if k < o {
                    assert(injections@[k] == before@[k]);
                } else {
                    assert(at(map, d, i) < tip.size(d));
                }
            }
            assert forall|k: int, d: int, i: int| 0 <= k < o + 1 && 0 <= d < objects@[k].levels() && 0 <= i < objects@[k].size(d)
                implies #[trigger] at(injections@[k].map, d, i) == positions@[d]@[flat(objects@, k, d, i)] by {
                if k < o {
                    assert(injections@[k] == before@[k]);
                } else {
                    assert(map@[d]@.len() == x.size(d));
                }
            }
        }
    }
    proof {
        assert forall|s: int, d: int, i: int| 0 <= s < spans@.len() && #[trigger] span_glues(objects@, spans@[s], d, i) implies
            at(injections@[spans@[s].left as int].map, d, at(spans@[s].into_left.map, d, i) as int)
                == at(injections@[spans@[s].right as int].map, d, at(spans@[s].into_right.map, d, i) as int) by {
            let sp = spans@[s];
            let l = sp.left as int;
            let rr = sp.right as int;
            let pl = at(sp.into_left.map, d, i) as int;
            let pr = at(sp.into_right.map, d, i) as int;
            let x = flat(objects@, l, d, pl);
            let y = flat(objects@, rr, d, pr);
            assert(objects@[l].levels() <= levels);
            assert(objects@[rr].levels() <= levels);
            assert(glued_together(objects@, labels@, sp, d, i));
            lemma_level_total_mono(objects@, l, l + 1, d);
            lemma_level_total_mono(objects@, rr, rr + 1, d);
            lemma_level_total_mono(objects@, l + 1, n as int, d);
            lemma_level_total_mono(objects@, rr + 1, n as int, d);
            assert(0 <= x < positions@[d]@.len());
            assert(0 <= y < positions@[d]@.len());
            assert(positions@[d]@[x] == positions@[d]@[labels@[d]@[x] as int]);
            assert(positions@[d]@[y] == positions@[d]@[labels@[d]@[y] as int]);
        }
        assert forall|d: int, o1: int, p1: int, o2: int, p2: int| 0 <= o1 < objects@.len() && 0 <= o2 < objects@.len()
            && objects@[o1].cell(d, p1) && objects@[o2].cell(d, p2) implies
            (#[trigger] at(injections@[o1].map, d, p1) == #[trigger] at(injections@[o2].map, d, p2)
                <==> linked(colimit_pairs(objects@, spans@, d), flat(objects@, o1, d, p1), flat(objects@, o2, d, p2))) by {
            let x = flat(objects@, o1, d, p1);
            let y = flat(objects@, o2, d, p2);
            assert(objects@[o1].levels() <= levels);
            lemma_level_total_mono(objects@, o1, o1 + 1, d);
            lemma_level_total_mono(objects@, o2, o2 + 1, d);
            lemma_level_total_mono(objects@, o1 + 1, n as int, d);
            lemma_level_total_mono(objects@, o2 + 1, n as int, d);
            lemma_level_total_mono(objects@, 0, o1, d);
            lemma_level_total_mono(objects@, 0, o2, d);
            assert(0 <= x < positions@[d]@.len());
            assert(0 <= y < positions@[d]@.len());
            assert(labels_link(labels@[d]@, level_pairs(objects@, spans@, d, spans@.len() as int)));
            assert(labels@[d]@[x] == labels@[d]@[y] <==> linked(colimit_pairs(objects@, spans@, d), x, y));
            assert(positions@[d]@[x] == positions@[d]@[labels@[d]@[x] as int]);
            assert(positions@[d]@[y] == positions@[d]@[labels@[d]@[y] as int]);
            if positions@[d]@[x] == positions@[d]@[y] {
                assert(labels@[d]@[x] == labels@[d]@[y]);
            }
        }
        assert forall|d: int, k: int| #[trigger] tip.cell(d, k) implies exists|o: int, p: int| 0 <= o < objects@.len()
            && #[trigger] objects@[o].cell(d, p) && at(injections@[o].map, d, p) == k && tip.basis_at(d, k) == objects@[o].basis_at(d, p) by {
            assert(witnessed(objects@, positions@[d]@, basis@[d]@, d, k));
            let (o, p) = choose|o: int, p: int| 0 <= o < objects@.len() && #[trigger] objects@[o].cell(d, p)
                && flat(objects@, o, d, p) < positions@[d]@.len() && positions@[d]@[flat(objects@, o, d, p)] == k
                && basis@[d]@[k]@ == objects@[o].basis_at(d, p);
            assert(objects@[o].levels() <= levels);
            assert(at(injections@[o].map, d, p) == positions@[d]@[flat(objects@, o, d, p)]);
            assert(tip.basis_at(d, k) == basis@[d]@[k]@);
        }
    }
    FiniteColimit { tip, injections }
}

proof fn lemma_tip_step(
    objects: Seq<Arc<FramedPoset>>,
    d: int,
    b0: Vec<Vec<IntSet>>,
    i0: Vec<Vec<IntSet>>,
    o0: Vec<Vec<IntSet>>,
    p0: Vec<Vec<usize>>,
    basis: Vec<Vec<IntSet>>,
    faces_in: Vec<Vec<IntSet>>,
    faces_out: Vec<Vec<IntSet>>,
    positions: Vec<Vec<usize>>,
)
    requires
        0 <= d,
        tip_ok(objects, d, b0, i0, o0, p0),
        basis@ == b0@.push(basis@[d]),
        faces_in@ == i0@.push(faces_in@[d]),
        faces_out@ == o0@.push(faces_out@[d]),
        positions@ == p0@.push(positions@[d]),
        faces_in@[d]@.len() == basis@[d]@.len(),
        faces_out@[d]@.len() == basis@[d]@.len(),
        positions@[d]@.len() == level_total(objects, objects.len() as int, d),
        forall|g: int| 0 <= g < positions@[d]@.len() ==> #[trigger] positions@[d]@[g] < basis@[d]@.len(),
        forall|k: int| 0 <= k < basis@[d]@.len() ==> strictly_sorted(#[trigger] basis@[d]@[k]@),
        forall|k: int| 0 <= k < basis@[d]@.len() ==> strictly_sorted(#[trigger] faces_in@[d]@[k]@),
        forall|k: int| 0 <= k < basis@[d]@.len() ==> strictly_sorted(#[trigger] faces_out@[d]@[k]@),
        forall|k: int, i: int| 0 <= k < basis@[d]@.len() && 0 <= i < faces_in@[d]@[k]@.len() ==> #[trigger] faces_in@[d]@[k]@[i] < rows(b0, d - 1),
        forall|k: int, i: int| 0 <= k < basis@[d]@.len() && 0 <= i < faces_out@[d]@[k]@.len() ==> #[trigger] faces_out@[d]@[k]@[i] < rows(b0, d - 1),
    ensures
        tip_ok(objects, d + 1, basis, faces_in, faces_out, positions),
{
    assert forall|e: int| 0 <= e < d + 1 implies (#[trigger] positions@[e])@.len() == level_total(objects, objects.len() as int, e) by {
        if e < d {
            assert(positions@[e] == p0@[e]);
        }
    }
    assert forall|e: int, g: int| 0 <= e < d + 1 && 0 <= g < positions@[e]@.len() implies #[trigger] positions@[e]@[g] < basis@[e]@.len() by {
        if e < d {
            assert(positions@[e] == p0@[e]);
            assert(basis@[e] == b0@[e]);
        }
    }
    assert forall|e: int, k: int| 0 <= e < d + 1 && 0 <= k < basis@[e]@.len() implies strictly_sorted(#[trigger] entry(basis, e, k)) by {
        if e < d {
            assert(basis@[e] == b0@[e]);
            assert(entry(basis, e, k) == entry(b0, e, k));
        }
    }
    assert forall|e: int, k: int| 0 <= e < d + 1 && 0 <= k < basis@[e]@.len() implies strictly_sorted(#[trigger] entry(faces_in, e, k)) by {
        if e < d {
            assert(basis@[e] == b0@[e]);
            assert(faces_in@[e] == i0@[e]);
            assert(entry(faces_in, e, k) == entry(i0, e, k));
        }
    }
    assert forall|e: int, k: int| 0 <= e < d + 1 && 0 <= k < basis@[e]@.len() implies strictly_sorted(#[trigger] entry(faces_out, e, k)) by {
        if e < d {
            assert(basis@[e] == b0@[e]);
            assert(faces_out@[e] == o0@[e]);
            assert(entry(faces_out, e, k) == entry(o0, e, k));
        }
    }
    assert forall|e: int, k: int, i: int| 0 <= e < d + 1 && 0 <= k < basis@[e]@.len() && 0 <= i < entry(faces_in, e, k).len()
        implies #[trigger] entry(faces_in, e, k)[i] < rows(basis, e - 1) by {
        if e < d {
            assert(basis@[e] == b0@[e]);
            assert(faces_in@[e] == i0@[e]);
            assert(entry(faces_in, e, k) == entry(i0, e, k));
            if e >= 1 {
                assert(basis@[e - 1] == b0@[e - 1]);
            }
        } else {
            if e >= 1 {
                assert(basis@[e - 1] == b0@[e - 1]);
            }
        }
    }
    assert forall|e: int, k: int, i: int| 0 <= e < d + 1 && 0 <= k < basis@[e]@.len() && 0 <= i < entry(faces_out, e, k).len()
        implies #[trigger] entry(faces_out, e, k)[i] < rows(basis, e - 1) by {
        if e < d {
            assert(basis@[e] == b0@[e]);
            assert(faces_out@[e] == o0@[e]);
            assert(entry(faces_out, e, k) == entry(o0, e, k));
            if e >= 1 {
                assert(basis@[e - 1] == b0@[e - 1]);
            }
        } else {
            if e >= 1 {
                assert(basis@[e - 1] == b0@[e - 1]);
            }
        }
    }
    assert forall|e: int| 0 <= e < d + 1 implies #[trigger] faces_in@[e]@.len() == basis@[e]@.len() && faces_out@[e]@.len() == basis@[e]@.len() by {
        if e < d {
            assert(basis@[e] == b0@[e]);
            assert(faces_in@[e] == i0@[e]);
            assert(faces_out@[e] == o0@[e]);
        }
    }
}


proof fn lemma_tip_defining(
    objects: Seq<Arc<FramedPoset>>,
    levels: int,
    basis: Vec<Vec<IntSet>>,
    faces_in: Vec<Vec<IntSet>>,
    faces_out: Vec<Vec<IntSet>>,
    positions: Vec<Vec<usize>>,
)
    requires
        tip_ok(objects, levels, basis, faces_in, faces_out, positions),
    ensures
        crate::poset::defining_tables(basis, faces_in, faces_out),
{
    assert forall|e: int| 0 <= e < basis@.len() implies #[trigger] faces_out@[e]@.len() == basis@[e]@.len() by {
        assert(faces_in@[e]@.len() == basis@[e]@.len());
    }
    assert forall|e: int, k: int, i: int| 0 <= e < faces_in@.len() && 0 <= k < faces_in@[e]@.len() && 0 <= i < entry(faces_in, e, k).len()
        implies #[trigger] entry(faces_in, e, k)[i] < rows(basis, e - 1) by {
        assert(faces_in@[e]@.len() == basis@[e]@.len());
    }
    assert forall|e: int, k: int, i: int| 0 <= e < faces_out@.len() && 0 <= k < faces_out@[e]@.len() && 0 <= i < entry(faces_out, e, k).len()
        implies #[trigger] entry(faces_out, e, k)[i] < rows(basis, e - 1) by {
        assert(faces_in@[e]@.len() == basis@[e]@.len());
        assert(faces_out@[e]@.len() == basis@[e]@.len());
    }
    assert forall|e: int, k: int| 0 <= e < faces_in@.len() && 0 <= k < faces_in@[e]@.len() implies strictly_sorted(#[trigger] entry(faces_in, e, k)) by {
        assert(faces_in@[e]@.len() == basis@[e]@.len());
    }
    assert forall|e: int, k: int| 0 <= e < faces_out@.len() && 0 <= k < faces_out@[e]@.len() implies strictly_sorted(#[trigger] entry(faces_out, e, k)) by {
        assert(faces_in@[e]@.len() == basis@[e]@.len());
        assert(faces_out@[e]@.len() == basis@[e]@.len());
    }
}


/// Check [`colimit_sized`].
pub fn colimit_fits(objects: &[Arc<FramedPoset>]) -> (r: bool)
    ensures
        r == colimit_sized(objects@),
{
    let n = objects.len();
    let mut levels: usize = 0;
    for o in 0..n
        invariant
            n == objects@.len(),
            levels == top_levels(objects@, o as int),
    {
        if levels < objects[o].basis.len() {
            levels = objects[o].basis.len();
        }
    }
    proof {
        lemma_top_levels(objects@, n as int);
    }
    for d in 0..levels
        invariant
            n == objects@.len(),
            levels == top_levels(objects@, n as int),
            forall|e: int| 0 <= e < d ==> #[trigger] level_total(objects@, n as int, e) <= usize::MAX,
    {
        let mut sum: usize = 0;
        for o in 0..n
            invariant
                n == objects@.len(),
                sum == level_total(objects@, o as int, d as int),
        {
            let size = if d < objects[o].basis.len() { objects[o].basis[d].len() } else { 0 };
            proof {
                assert(size == objects@[o as int].size(d as int));
            }
            if size > usize::MAX - sum {
                proof {
                    lemma_level_total_mono(objects@, o + 1, n as int, d as int);
                }
                return false;
            }
            sum = sum + size;
        }
    }
    proof {
        assert forall|d: int| #[trigger] level_total(objects@, objects@.len() as int, d) <= usize::MAX by {
            if d < 0 || d >= levels {
                lemma_level_total_beyond(objects@, n as int, d);
            }
        }
    }
    true
}

proof fn lemma_level_total_beyond(objects: Seq<Arc<FramedPoset>>, n: int, d: int)
    requires
        0 <= n <= objects.len(),
        d < 0 || d >= top_levels(objects, n),
    ensures
        level_total(objects, n, d) == 0,
    decreases n,
{
    if n > 0 {
        lemma_top_levels(objects, n);
        lemma_top_levels(objects, n - 1);
        lemma_level_total_beyond(objects, n - 1, d);
        assert(objects[n - 1].size(d) == 0);
    }
}

} // verus!

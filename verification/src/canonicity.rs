//! Isomorphic framed posets get equal normal forms.
//!
//! A relabelling of the cells of a framed poset relabels the graph that its
//! canonical labelling is computed on; the canonical labelling then gives
//! both graphs the same relabelled form, which orders the cells of every
//! level of both posets in the same way.

use vstd::prelude::*;

use crate::isomorphism::{
    canonical_arcs, canonical_colors, canonical_order, canonical_sized, cell_covers, cover_relations, cover_total,
    arcs_within, bases_palette, graph_isomorphism, has_arc, has_input_relation, labeling_permutes, level_permutations,
    position_in, rank_colors_upto, relabels, relation_color, relation_graph_arcs, canonical_keys, same_relabelled,
    arcs_distinct, relation_arcs, canonical_labeling, has_basis, key_lt, level_order, level_orders, cell_relations, covers_upto, face_relations, level_covers, lemma_face_below, level_relations, lex_lt, rank_in, relations_upto,
};
use crate::intset::same_elements;
use crate::poset::{FramedPoset, Sign};
use crate::pushout::{cell_total, cells_upto, lemma_cells_upto_mono};

verus! {

proof fn lemma_lex_irreflexive(a: Seq<usize>)
    ensures
        !lex_lt(a, a),
    decreases a.len(),
{
    if a.len() > 0 {
        lemma_lex_irreflexive(a.drop_first());
    }
}

proof fn lemma_lex_transitive(a: Seq<usize>, b: Seq<usize>, c: Seq<usize>)
    requires
        lex_lt(a, b),
        lex_lt(b, c),
    ensures
        lex_lt(a, c),
    decreases a.len(),
{
    if a.len() > 0 && b.len() > 0 && c.len() > 0 && a[0] == b[0] && b[0] == c[0] {
        lemma_lex_transitive(a.drop_first(), b.drop_first(), c.drop_first());
    }
}

proof fn lemma_lex_total(a: Seq<usize>, b: Seq<usize>)
    requires
        a != b,
    ensures
        lex_lt(a, b) || lex_lt(b, a),
    decreases a.len(),
{
    if a.len() > 0 && b.len() > 0 && a[0] == b[0] {
        if a.drop_first() == b.drop_first() {
            assert(a =~= seq![a[0]] + a.drop_first());
            assert(b =~= seq![b[0]] + b.drop_first());
        }
        lemma_lex_total(a.drop_first(), b.drop_first());
    } else if a.len() == 0 && b.len() == 0 {
        assert(a =~= b);
    }
}

/// A set before another in the lexicographic order ranks no higher.
proof fn lemma_rank_mono(p: Seq<Seq<usize>>, b1: Seq<usize>, b2: Seq<usize>)
    requires
        lex_lt(b1, b2),
    ensures
        rank_in(p, b1) <= rank_in(p, b2),
    decreases p.len(),
{
    if p.len() > 0 {
        lemma_rank_mono(p.drop_last(), b1, b2);
        if lex_lt(p.last(), b1) {
            lemma_lex_transitive(p.last(), b1, b2);
        }
    }
}

/// A listed set ranks below every set after it.
proof fn lemma_rank_strict(p: Seq<Seq<usize>>, b1: Seq<usize>, b2: Seq<usize>)
    requires
        lex_lt(b1, b2),
        p.contains(b1),
    ensures
        rank_in(p, b1) < rank_in(p, b2),
    decreases p.len(),
{
    let q = p.drop_last();
    if p.last() == b1 {
        lemma_rank_mono(q, b1, b2);
        lemma_lex_irreflexive(b1);
    } else {
        let i = choose|i: int| 0 <= i < p.len() && p[i] == b1;
        assert(q[i] == b1);
        lemma_rank_strict(q, b1, b2);
        if lex_lt(p.last(), b1) {
            lemma_lex_transitive(p.last(), b1, b2);
        }
    }
}

/// Distinct listed sets have distinct ranks.
pub(crate) proof fn lemma_rank_injective(p: Seq<Seq<usize>>, b1: Seq<usize>, b2: Seq<usize>)
    requires
        p.contains(b1),
        p.contains(b2),
        rank_in(p, b1) == rank_in(p, b2),
    ensures
        b1 == b2,
{
    if b1 != b2 {
        lemma_lex_total(b1, b2);
        if lex_lt(b1, b2) {
            lemma_rank_strict(p, b1, b2);
        } else {
            lemma_rank_strict(p, b2, b1);
        }
    }
}

/// A listed set ranks below the length of a list of distinct sets.
pub(crate) proof fn lemma_rank_below(p: Seq<Seq<usize>>, b: Seq<usize>)
    requires
        p.contains(b),
    ensures
        rank_in(p, b) < p.len(),
    decreases p.len(),
{
    lemma_rank_le(p.drop_last(), b);
    if p.last() == b {
        lemma_lex_irreflexive(b);
    } else {
        let i = choose|i: int| 0 <= i < p.len() && p[i] == b;
        assert(p.drop_last()[i] == b);
        lemma_rank_below(p.drop_last(), b);
    }
}

proof fn lemma_rank_le(p: Seq<Seq<usize>>, b: Seq<usize>)
    ensures
        rank_in(p, b) <= p.len(),
    decreases p.len(),
{
    if p.len() > 0 {
        lemma_rank_le(p.drop_last(), b);
    }
}


/// Relation `a` comes before relation `b`: by coface, then input before
/// output, then by face.
pub open spec fn rel_lt(a: (usize, usize, bool), b: (usize, usize, bool)) -> bool {
    ||| a.1 < b.1
    ||| (a.1 == b.1 && !a.2 && b.2)
    ||| (a.1 == b.1 && a.2 == b.2 && a.0 < b.0)
}

pub open spec fn rels_sorted(s: Seq<(usize, usize, bool)>) -> bool {
    forall|i: int, j: int| 0 <= i < j < s.len() ==> rel_lt(#[trigger] s[i], #[trigger] s[j])
}

pub open spec fn targets_in(s: Seq<(usize, usize, bool)>, lo: int, hi: int) -> bool {
    forall|i: int| 0 <= i < s.len() ==> lo <= (#[trigger] s[i]).1 && s[i].1 < hi
}

/// `f` is an `s`-face of cell `(d, p)`.
pub open spec fn is_cover(x: FramedPoset, d: int, p: int, s: Sign, f: usize) -> bool {
    &&& 1 <= d
    &&& x.cell(d, p)
    &&& x.faces(s, d, p).contains(f)
}

/// The relation from face `f` to cell `(d, p)`, with cells numbered level by
/// level.
pub open spec fn face_rel(x: FramedPoset, d: int, p: int, s: Sign, f: usize) -> (usize, usize, bool) {
    ((cells_upto(x, d - 1) + f) as usize, (cells_upto(x, d) + p) as usize, s == Sign::Output)
}

/// `rel` is the relation of the cover of `(d, p)` by its `s`-face `f`.
pub open spec fn rel_of(x: FramedPoset, rel: (usize, usize, bool), d: int, p: int, s: Sign, f: usize) -> bool {
    is_cover(x, d, p, s, f) && rel == face_rel(x, d, p, s, f)
}

proof fn lemma_sorted_concat(a: Seq<(usize, usize, bool)>, b: Seq<(usize, usize, bool)>)
    requires
        rels_sorted(a),
        rels_sorted(b),
        forall|i: int, j: int| 0 <= i < a.len() && 0 <= j < b.len() ==> rel_lt(#[trigger] a[i], #[trigger] b[j]),
    ensures
        rels_sorted(a + b),
{
    let c = a + b;
    assert forall|i: int, j: int| 0 <= i < j < c.len() implies rel_lt(#[trigger] c[i], #[trigger] c[j]) by {
        if j < a.len() {
            assert(c[i] == a[i] && c[j] == a[j]);
        } else if i >= a.len() {
            assert(c[i] == b[i - a.len()] && c[j] == b[j - a.len()]);
        } else {
            assert(c[i] == a[i] && c[j] == b[j - a.len()]);
        }
    }
}

/// The relations of the `s`-faces of one cell.
proof fn lemma_face_block(x: FramedPoset, d: int, p: int, s: Sign)
    requires
        x.framed(),
        canonical_sized(x),
        1 <= d,
        x.cell(d, p),
    ensures
        ({
            let fr = face_relations(x.faces(s, d, p), cells_upto(x, d - 1), cells_upto(x, d) + p, s == Sign::Output);
            &&& forall|rel: (usize, usize, bool)| fr.contains(rel) <==> exists|f: usize| #[trigger] rel_of(x, rel, d, p, s, f)
            &&& rels_sorted(fr)
            &&& targets_in(fr, cells_upto(x, d) + p, cells_upto(x, d) + p + 1)
        }),
{
    crate::ofp::lemma_framed_valid(&x);
    let faces = x.faces(s, d, p);
    let off = cells_upto(x, d - 1);
    let t = cells_upto(x, d) + p;
    let fr = face_relations(faces, off, t, s == Sign::Output);
    lemma_cells_upto_mono(x, d + 1, x.levels());
    lemma_cells_upto_mono(x, d - 1, d);
    assert(cells_upto(x, d + 1) == cells_upto(x, d) + x.size(d));
    assert(cells_upto(x, d) == cells_upto(x, d - 1) + x.size(d - 1));
    assert(x.cell_sound(d, p));
    lemma_cells_upto_mono(x, 0, d - 1);
    crate::isomorphism::lemma_covers_upto_mono(x, 0, x.levels());
    assert(cell_total(x) <= u32::MAX);
    assert(t as usize as int == t);
    assert forall|k: int| 0 <= k < faces.len() implies #[trigger] faces[k] < x.size(d - 1) by {
        assert(faces.contains(faces[k]));
        lemma_face_below(x, s, d, p, faces[k]);
    }
    assert forall|rel: (usize, usize, bool)| fr.contains(rel) <==> exists|f: usize| #[trigger] rel_of(x, rel, d, p, s, f) by {
        if fr.contains(rel) {
            let k = choose|k: int| 0 <= k < fr.len() && fr[k] == rel;
            assert(faces.contains(faces[k]));
            assert(rel_of(x, rel, d, p, s, faces[k]));
        }
        if exists|f: usize| #[trigger] rel_of(x, rel, d, p, s, f) {
            let f = choose|f: usize| #[trigger] rel_of(x, rel, d, p, s, f);
            let k = choose|k: int| 0 <= k < faces.len() && faces[k] == f;
            assert(fr[k] == rel);
        }
    }
    assert forall|i: int| 0 <= i < fr.len() implies (#[trigger] fr[i]).0 as int == off + faces[i] && fr[i].1 as int == t by {
        assert(faces[i] < x.size(d - 1));
    }
    assert forall|i: int, j: int| 0 <= i < j < fr.len() implies rel_lt(#[trigger] fr[i], #[trigger] fr[j]) by {
        assert(faces[i] < faces[j]);
        assert(fr[i].0 as int == off + faces[i]);
        assert(fr[j].0 as int == off + faces[j]);
    }
}

/// The relations into one cell.
proof fn lemma_cell_block(x: FramedPoset, d: int, p: int)
    requires
        x.framed(),
        canonical_sized(x),
        1 <= d,
        x.cell(d, p),
    ensures
        forall|rel: (usize, usize, bool)| cell_relations(x, d, p).contains(rel) <==> exists|s: Sign, f: usize| #[trigger] rel_of(x, rel, d, p, s, f),
        rels_sorted(cell_relations(x, d, p)),
        targets_in(cell_relations(x, d, p), cells_upto(x, d) + p, cells_upto(x, d) + p + 1),
        cell_relations(x, d, p).len() == cell_covers(x, d, p),
{
    let t = cells_upto(x, d) + p;
    let a = face_relations(x.faces(Sign::Input, d, p), cells_upto(x, d - 1), t, false);
    let b = face_relations(x.faces(Sign::Output, d, p), cells_upto(x, d - 1), t, true);
    lemma_face_block(x, d, p, Sign::Input);
    lemma_face_block(x, d, p, Sign::Output);
    assert(cell_relations(x, d, p) == a + b);
    assert forall|i: int, j: int| 0 <= i < a.len() && 0 <= j < b.len() implies rel_lt(#[trigger] a[i], #[trigger] b[j]) by {}
    lemma_sorted_concat(a, b);
    assert forall|rel: (usize, usize, bool)| (a + b).contains(rel) <==> exists|s: Sign, f: usize| #[trigger] rel_of(x, rel, d, p, s, f) by {
        if (a + b).contains(rel) {
            let k = choose|k: int| 0 <= k < (a + b).len() && (a + b)[k] == rel;
            if k < a.len() {
                assert(a.contains(rel));
                let f = choose|f: usize| #[trigger] rel_of(x, rel, d, p, Sign::Input, f);
            } else {
                assert(b[k - a.len()] == rel);
                assert(b.contains(rel));
                let f = choose|f: usize| #[trigger] rel_of(x, rel, d, p, Sign::Output, f);
            }
        }
        if exists|s: Sign, f: usize| #[trigger] rel_of(x, rel, d, p, s, f) {
            let (s, f) = choose|s: Sign, f: usize| #[trigger] rel_of(x, rel, d, p, s, f);
            if s == Sign::Input {
                assert(a.contains(rel));
                let k = choose|k: int| 0 <= k < a.len() && a[k] == rel;
                assert((a + b)[k] == rel);
            } else {
                assert(b.contains(rel));
                let k = choose|k: int| 0 <= k < b.len() && b[k] == rel;
                assert((a + b)[a.len() + k] == rel);
            }
        }
    }
    assert forall|i: int| 0 <= i < (a + b).len() implies t <= (#[trigger] (a + b)[i]).1 && (a + b)[i].1 < t + 1 by {
        if i < a.len() {
            assert((a + b)[i] == a[i]);
        } else {
            assert((a + b)[i] == b[i - a.len()]);
        }
    }
}

/// The relations into the first `m` cells of level `d`.
proof fn lemma_level_block(x: FramedPoset, d: int, m: int)
    requires
        x.framed(),
        canonical_sized(x),
        1 <= d < x.levels(),
        0 <= m <= x.size(d),
    ensures
        forall|rel: (usize, usize, bool)| level_relations(x, d, m).contains(rel) <==> exists|p: int, s: Sign, f: usize|
            #[trigger] rel_of(x, rel, d, p, s, f) && p < m,
        rels_sorted(level_relations(x, d, m)),
        targets_in(level_relations(x, d, m), cells_upto(x, d), cells_upto(x, d) + m),
        level_relations(x, d, m).len() == level_covers(x, d, m),
    decreases m,
{
    if m > 0 {
        lemma_level_block(x, d, m - 1);
        lemma_cell_block(x, d, m - 1);
        let a = level_relations(x, d, m - 1);
        let b = cell_relations(x, d, m - 1);
        assert(level_relations(x, d, m) == a + b);
        assert forall|i: int, j: int| 0 <= i < a.len() && 0 <= j < b.len() implies rel_lt(#[trigger] a[i], #[trigger] b[j]) by {}
        lemma_sorted_concat(a, b);
        assert forall|rel: (usize, usize, bool)| (a + b).contains(rel) <==> exists|p: int, s: Sign, f: usize|
            #[trigger] rel_of(x, rel, d, p, s, f) && p < m by {
            if (a + b).contains(rel) {
                let k = choose|k: int| 0 <= k < (a + b).len() && (a + b)[k] == rel;
                if k < a.len() {
                    assert(a.contains(rel));
                    let (p, s, f) = choose|p: int, s: Sign, f: usize| #[trigger] rel_of(x, rel, d, p, s, f) && p < m - 1;
                } else {
                    assert(b[k - a.len()] == rel);
                    assert(b.contains(rel));
                    let (s, f) = choose|s: Sign, f: usize| #[trigger] rel_of(x, rel, d, m - 1, s, f);
                }
            }
            if exists|p: int, s: Sign, f: usize| #[trigger] rel_of(x, rel, d, p, s, f) && p < m {
                let (p, s, f) = choose|p: int, s: Sign, f: usize| #[trigger] rel_of(x, rel, d, p, s, f) && p < m;
                if p < m - 1 {
                    assert(a.contains(rel));
                    let k = choose|k: int| 0 <= k < a.len() && a[k] == rel;
                    assert((a + b)[k] == rel);
                } else {
                    assert(b.contains(rel));
                    let k = choose|k: int| 0 <= k < b.len() && b[k] == rel;
                    assert((a + b)[a.len() + k] == rel);
                }
            }
        }
        assert forall|i: int| 0 <= i < (a + b).len() implies cells_upto(x, d) <= (#[trigger] (a + b)[i]).1 && (a + b)[i].1 < cells_upto(x, d) + m by {
            if i < a.len() {
                assert((a + b)[i] == a[i]);
            } else {
                assert((a + b)[i] == b[i - a.len()]);
            }
        }
    }
}

/// The relations into the cells below level `n`.
proof fn lemma_upto_block(x: FramedPoset, n: int)
    requires
        x.framed(),
        canonical_sized(x),
        0 <= n <= x.levels(),
    ensures
        forall|rel: (usize, usize, bool)| relations_upto(x, n).contains(rel) <==> exists|d: int, p: int, s: Sign, f: usize|
            #[trigger] rel_of(x, rel, d, p, s, f) && d < n,
        rels_sorted(relations_upto(x, n)),
        targets_in(relations_upto(x, n), 0, cells_upto(x, n)),
        relations_upto(x, n).len() == covers_upto(x, n),
    decreases n,
{
    if n > 1 {
        lemma_upto_block(x, n - 1);
        lemma_level_block(x, n - 1, x.size(n - 1));
        let a = relations_upto(x, n - 1);
        let b = level_relations(x, n - 1, x.size(n - 1));
        assert(relations_upto(x, n) == a + b);
        assert(cells_upto(x, n) == cells_upto(x, n - 1) + x.size(n - 1));
        assert forall|i: int, j: int| 0 <= i < a.len() && 0 <= j < b.len() implies rel_lt(#[trigger] a[i], #[trigger] b[j]) by {}
        lemma_sorted_concat(a, b);
        assert forall|rel: (usize, usize, bool)| (a + b).contains(rel) <==> exists|d: int, p: int, s: Sign, f: usize|
            #[trigger] rel_of(x, rel, d, p, s, f) && d < n by {
            if (a + b).contains(rel) {
                let k = choose|k: int| 0 <= k < (a + b).len() && (a + b)[k] == rel;
                if k < a.len() {
                    assert(a.contains(rel));
                    let (d, p, s, f) = choose|d: int, p: int, s: Sign, f: usize| #[trigger] rel_of(x, rel, d, p, s, f) && d < n - 1;
                } else {
                    assert(b[k - a.len()] == rel);
                    assert(b.contains(rel));
                    let (p, s, f) = choose|p: int, s: Sign, f: usize| #[trigger] rel_of(x, rel, n - 1, p, s, f) && p < x.size(n - 1);
                }
            }
            if exists|d: int, p: int, s: Sign, f: usize| #[trigger] rel_of(x, rel, d, p, s, f) && d < n {
                let (d, p, s, f) = choose|d: int, p: int, s: Sign, f: usize| #[trigger] rel_of(x, rel, d, p, s, f) && d < n;
                if d < n - 1 {
                    assert(a.contains(rel));
                    let k = choose|k: int| 0 <= k < a.len() && a[k] == rel;
                    assert((a + b)[k] == rel);
                } else {
                    assert(b.contains(rel));
                    let k = choose|k: int| 0 <= k < b.len() && b[k] == rel;
                    assert((a + b)[a.len() + k] == rel);
                }
            }
        }
        assert forall|i: int| 0 <= i < (a + b).len() implies 0 <= (#[trigger] (a + b)[i]).1 && (a + b)[i].1 < cells_upto(x, n) by {
            if i < a.len() {
                assert((a + b)[i] == a[i]);
            } else {
                assert((a + b)[i] == b[i - a.len()]);
            }
        }
    }
}


/// Relations sorted without repetition are distinct.
proof fn lemma_sorted_distinct(s: Seq<(usize, usize, bool)>, i: int, j: int)
    requires
        rels_sorted(s),
        0 <= i < s.len(),
        0 <= j < s.len(),
        s[i] == s[j],
    ensures
        i == j,
{
    if i < j {
        assert(rel_lt(s[i], s[j]));
    } else if j < i {
        assert(rel_lt(s[j], s[i]));
    }
}

/// The cover relations of `x`: each is the relation of a cover, each cover
/// has one, they are distinct, and there are `cover_total(x)` of them, with
/// both ends numbering cells.
pub(crate) proof fn lemma_cover_relations(x: FramedPoset)
    requires
        x.framed(),
        canonical_sized(x),
    ensures
        forall|rel: (usize, usize, bool)| cover_relations(x).contains(rel) <==> exists|d: int, p: int, s: Sign, f: usize|
            #[trigger] rel_of(x, rel, d, p, s, f),
        rels_sorted(cover_relations(x)),
        cover_relations(x).len() == cover_total(x),
        forall|k: int| 0 <= k < cover_relations(x).len() ==> (#[trigger] cover_relations(x)[k]).0 < cell_total(x)
            && cover_relations(x)[k].1 < cell_total(x),
        cell_total(x) + cover_total(x) <= u32::MAX,
        0 <= cover_total(x),
{
    lemma_upto_block(x, x.levels());
    crate::isomorphism::lemma_covers_upto_mono(x, 0, x.levels());
    let rels = cover_relations(x);
    assert forall|k: int| 0 <= k < rels.len() implies (#[trigger] rels[k]).0 < cell_total(x) && rels[k].1 < cell_total(x) by {
        let rel = rels[k];
        assert(rels.contains(rel));
        let (d, p, s, f) = choose|d: int, p: int, s: Sign, f: usize| #[trigger] rel_of(x, rel, d, p, s, f) && d < x.levels();
        crate::ofp::lemma_framed_valid(&x);
        lemma_face_below(x, s, d, p, f);
        lemma_cells_upto_mono(x, d, x.levels());
        lemma_cells_upto_mono(x, 0, d - 1);
        assert(cells_upto(x, d) == cells_upto(x, d - 1) + x.size(d - 1));
    }
}

proof fn lemma_offsets(x: FramedPoset, d1: int, d2: int)
    requires
        0 <= d1 < d2,
    ensures
        cells_upto(x, d1) + x.size(d1) <= cells_upto(x, d2),
        0 <= cells_upto(x, d1),
{
    lemma_cells_upto_mono(x, d1 + 1, d2);
    lemma_cells_upto_mono(x, 0, d1);
}

/// Cells are numbered one to one.
pub(crate) proof fn lemma_cell_vertex_unique(x: FramedPoset, d1: int, p1: int, d2: int, p2: int)
    requires
        x.cell(d1, p1),
        x.cell(d2, p2),
        cells_upto(x, d1) + p1 == cells_upto(x, d2) + p2,
    ensures
        d1 == d2,
        p1 == p2,
{
    if d1 < d2 {
        lemma_offsets(x, d1, d2);
    } else if d2 < d1 {
        lemma_offsets(x, d2, d1);
    }
}

/// The cell numbered `v` below the first `n` levels.
proof fn lemma_vertex_below(x: FramedPoset, v: int, n: int) -> (dp: (int, int))
    requires
        0 <= n <= x.levels(),
        0 <= v < cells_upto(x, n),
    ensures
        x.cell(dp.0, dp.1),
        dp.0 < n,
        v == cells_upto(x, dp.0) + dp.1,
    decreases n,
{
    if n <= 0 {
        assert(false);
        (0, 0)
    } else if v >= cells_upto(x, n - 1) {
        (n - 1, v - cells_upto(x, n - 1))
    } else {
        lemma_vertex_below(x, v, n - 1)
    }
}

/// The cell numbered `v`.
pub open spec fn cell_at(x: FramedPoset, v: int) -> (int, int) {
    choose|dp: (int, int)| x.cell(dp.0, dp.1) && v == cells_upto(x, dp.0) + dp.1
}

pub(crate) proof fn lemma_cell_at(x: FramedPoset, v: int)
    requires
        0 <= v < cell_total(x),
    ensures
        x.cell(cell_at(x, v).0, cell_at(x, v).1),
        v == cells_upto(x, cell_at(x, v).0) + cell_at(x, v).1,
{
    let dp = lemma_vertex_below(x, v, x.levels());
    assert(x.cell(dp.0, dp.1) && v == cells_upto(x, dp.0) + dp.1);
}

/// The colour of the vertex of cell `(d, q)` is the rank of its basis.
proof fn lemma_rank_color(x: FramedPoset, palette: Seq<Seq<usize>>, n: int, d: int, q: int)
    requires
        0 <= d < n,
        0 <= q < x.size(d),
    ensures
        rank_colors_upto(x, palette, n).len() == cells_upto(x, n),
        rank_colors_upto(x, palette, n)[cells_upto(x, d) + q] == rank_in(palette, x.basis_at(d, q)) as u32,
    decreases n,
{
    lemma_rank_colors_len(x, palette, n - 1);
    lemma_cells_upto_mono(x, 0, n - 1);
    if d < n - 1 {
        lemma_rank_color(x, palette, n - 1, d, q);
        lemma_offsets(x, d, n - 1);
    }
}

proof fn lemma_rank_colors_len(x: FramedPoset, palette: Seq<Seq<usize>>, n: int)
    ensures
        rank_colors_upto(x, palette, n).len() == cells_upto(x, n),
    decreases n,
{
    if n > 0 {
        lemma_rank_colors_len(x, palette, n - 1);
    }
}

/// A one to one map from the integers below `n1` into those below `n2`.
pub(crate) proof fn lemma_injection_bound(f: spec_fn(int) -> int, n1: int, n2: int)
    requires
        0 <= n1,
        0 <= n2,
        forall|k: int| 0 <= k < n1 ==> 0 <= #[trigger] f(k) < n2,
        forall|k: int, l: int| 0 <= k < n1 && 0 <= l < n1 && k != l ==> #[trigger] f(k) != #[trigger] f(l),
    ensures
        n1 <= n2,
{
    let x = vstd::set_lib::set_int_range(0, n1);
    let y = vstd::set_lib::set_int_range(0, n2);
    vstd::set_lib::lemma_int_range(0, n1);
    vstd::set_lib::lemma_int_range(0, n2);
    assert(vstd::relations::injective_on(f, x));
    vstd::set_lib::lemma_map_size(x, x.map(f), f);
    assert(x.map(f).subset_of(y));
    vstd::set_lib::lemma_len_subset(x.map(f), y);
}

/// The arcs of the canonical graph: into relation vertex `c + k` from its
/// face, and out of it to its coface.
pub(crate) proof fn lemma_canonical_arc(x: FramedPoset, u: int, v: int)
    requires
        x.framed(),
        canonical_sized(x),
    ensures
        has_arc(canonical_arcs(x), u, v) <==> exists|k: int| 0 <= k < cover_relations(x).len() && (
            (u == (#[trigger] cover_relations(x)[k]).0 && v == cell_total(x) + k)
            || (u == cell_total(x) + k && v == cover_relations(x)[k].1)),
{
    lemma_cover_relations(x);
    let rels = cover_relations(x);
    let c = cell_total(x);
    let arcs = canonical_arcs(x);
    assert(arcs == relation_graph_arcs(rels, c));
    if has_arc(arcs, u, v) {
        let a = choose|a: int| 0 <= a < arcs.len() && (#[trigger] arcs[a]).0 == u && arcs[a].1 == v;
        let k = a / 2;
        assert(0 <= k < rels.len());
        assert(rels[k].0 < c && rels[k].1 < c);
    }
    if exists|k: int| 0 <= k < rels.len() && ((u == (#[trigger] rels[k]).0 && v == c + k) || (u == c + k && v == rels[k].1)) {
        let k = choose|k: int| 0 <= k < rels.len() && ((u == (#[trigger] rels[k]).0 && v == c + k) || (u == c + k && v == rels[k].1));
        assert(rels[k].0 < c && rels[k].1 < c);
        if u == rels[k].0 && v == c + k {
            assert(arcs[2 * k].0 == u && arcs[2 * k].1 == v);
        } else {
            assert(arcs[2 * k + 1].0 == u && arcs[2 * k + 1].1 == v);
        }
    }
}


/// The arcs of the canonical graph join its vertices.
proof fn lemma_canonical_within(x: FramedPoset)
    requires
        x.framed(),
        canonical_sized(x),
    ensures
        arcs_within(canonical_arcs(x), canonical_order(x)),
        canonical_order(x) == cell_total(x) + cover_relations(x).len(),
{
    lemma_cover_relations(x);
    lemma_cells_upto_mono(x, 0, x.levels());
    let rels = cover_relations(x);
    let c = cell_total(x);
    let arcs = canonical_arcs(x);
    assert(arcs.len() == 2 * rels.len());
    assert forall|a: int| 0 <= a < arcs.len() implies (#[trigger] arcs[a]).0 < canonical_order(x) && arcs[a].1 < canonical_order(x) by {
        let k = a / 2;
        assert(0 <= k < rels.len());
        assert(rels[k].0 < c && rels[k].1 < c);
        assert((c + k) as u32 as int == c + k);
    }
}

/// `b` is `a` with the cells of each level renumbered by `o`, and `pa`, `pb`
/// list their bases.
pub open spec fn relabel_ctx(a: FramedPoset, b: FramedPoset, o: Seq<Seq<usize>>, pa: Seq<Seq<usize>>, pb: Seq<Seq<usize>>) -> bool {
    &&& a.framed()
    &&& b.framed()
    &&& canonical_sized(a)
    &&& canonical_sized(b)
    &&& level_permutations(a, o)
    &&& relabels(a, o, b)
    &&& bases_palette(pa, a)
    &&& bases_palette(pb, b)
}

/// The position in `b` of cell `(d, p)` of `a`.
pub open spec fn pos(a: FramedPoset, o: Seq<Seq<usize>>, d: int, p: int) -> int {
    position_in(o, a.size(d), d, p)
}

/// The vertex of `b` of the cell numbered `v` in `a`.
pub open spec fn cell_map(a: FramedPoset, o: Seq<Seq<usize>>, v: int) -> int {
    cells_upto(a, cell_at(a, v).0) + pos(a, o, cell_at(a, v).0, cell_at(a, v).1)
}

/// Some cell vertex of `a` goes to `w`.
pub open spec fn cell_hit(a: FramedPoset, o: Seq<Seq<usize>>, w: int) -> bool {
    exists|v: int| 0 <= v < cell_total(a) && #[trigger] cell_map(a, o, v) == w
}

/// The relation of `b` matching relation `rel` of `a`.
pub open spec fn rel_image(a: FramedPoset, o: Seq<Seq<usize>>, rel: (usize, usize, bool)) -> (usize, usize, bool) {
    (cell_map(a, o, rel.0 as int) as usize, cell_map(a, o, rel.1 as int) as usize, rel.2)
}

/// The index in `b`'s relations of the image of relation `k` of `a`.
pub open spec fn rel_map(a: FramedPoset, b: FramedPoset, o: Seq<Seq<usize>>, k: int) -> int {
    choose|l: int| 0 <= l < cover_relations(b).len() && cover_relations(b)[l] == rel_image(a, o, cover_relations(a)[k])
}

proof fn lemma_ctx_sizes(a: FramedPoset, b: FramedPoset, o: Seq<Seq<usize>>, pa: Seq<Seq<usize>>, pb: Seq<Seq<usize>>, n: int)
    requires
        relabel_ctx(a, b, o, pa, pb),
    ensures
        a.levels() == b.levels(),
        forall|d: int| #[trigger] b.size(d) == a.size(d),
        cells_upto(a, n) == cells_upto(b, n),
    decreases n,
{
    assert forall|d: int| #[trigger] b.size(d) == a.size(d) by {
        if 0 <= d < a.levels() {
        }
    }
    if n > 0 {
        lemma_ctx_sizes(a, b, o, pa, pb, n - 1);
    }
}

proof fn lemma_pos(a: FramedPoset, o: Seq<Seq<usize>>, d: int, p: int)
    requires
        level_permutations(a, o),
        a.cell(d, p),
    ensures
        0 <= pos(a, o, d, p) < a.size(d),
        o[d][pos(a, o, d, p)] == p,
{
    assert(a.basis@[d]@.len() == a.basis@[d].len());
    assert(o[d].len() == a.size(d));
    assert(o[d].contains(p as usize));
    let k = choose|k: int| 0 <= k < o[d].len() && o[d][k] == p as usize;
    assert(0 <= k < a.size(d) && o[d][k] == p);
}

proof fn lemma_pos_of(a: FramedPoset, o: Seq<Seq<usize>>, d: int, q: int)
    requires
        level_permutations(a, o),
        0 <= d < a.levels(),
        0 <= q < a.size(d),
    ensures
        pos(a, o, d, o[d][q] as int) == q,
{
    let p = o[d][q] as int;
    assert(a.cell(d, p));
    lemma_pos(a, o, d, p);
    let r = pos(a, o, d, p);
    if r != q {
        assert(o[d][r] != o[d][q]);
    }
}

/// The image of the vertex of cell `(d, p)`.
proof fn lemma_cell_map(a: FramedPoset, b: FramedPoset, o: Seq<Seq<usize>>, pa: Seq<Seq<usize>>, pb: Seq<Seq<usize>>, d: int, p: int)
    requires
        relabel_ctx(a, b, o, pa, pb),
        a.cell(d, p),
    ensures
        cell_map(a, o, cells_upto(a, d) + p) == cells_upto(b, d) + pos(a, o, d, p),
        b.cell(d, pos(a, o, d, p)),
        0 <= cells_upto(a, d) + p < cell_total(a),
{
    lemma_ctx_sizes(a, b, o, pa, pb, d);
    lemma_cells_upto_mono(a, d + 1, a.levels());
    lemma_cells_upto_mono(a, 0, d);
    assert(cells_upto(a, d + 1) == cells_upto(a, d) + a.size(d));
    let v = cells_upto(a, d) + p;
    lemma_cell_at(a, v);
    let dp = cell_at(a, v);
    lemma_cell_vertex_unique(a, dp.0, dp.1, d, p);
    lemma_pos(a, o, d, p);
}

/// Cell vertices of `a` go one to one onto those of `b`.
proof fn lemma_cell_map_bijective(a: FramedPoset, b: FramedPoset, o: Seq<Seq<usize>>, pa: Seq<Seq<usize>>, pb: Seq<Seq<usize>>)
    requires
        relabel_ctx(a, b, o, pa, pb),
    ensures
        cell_total(a) == cell_total(b),
        forall|v: int| 0 <= v < cell_total(a) ==> 0 <= #[trigger] cell_map(a, o, v) < cell_total(a),
        forall|v: int, w: int| 0 <= v < cell_total(a) && 0 <= w < cell_total(a) && #[trigger] cell_map(a, o, v) == #[trigger] cell_map(a, o, w) ==> v == w,
        forall|w: int| 0 <= w < cell_total(b) ==> #[trigger] cell_hit(a, o, w),
{
    lemma_ctx_sizes(a, b, o, pa, pb, a.levels());
    assert forall|v: int| 0 <= v < cell_total(a) implies 0 <= #[trigger] cell_map(a, o, v) < cell_total(a) by {
        lemma_cell_at(a, v);
        let dp = cell_at(a, v);
        lemma_cell_map(a, b, o, pa, pb, dp.0, dp.1);
        lemma_ctx_sizes(a, b, o, pa, pb, dp.0);
        lemma_cells_upto_mono(b, dp.0 + 1, b.levels());
        lemma_cells_upto_mono(b, 0, dp.0);
        assert(cells_upto(b, dp.0 + 1) == cells_upto(b, dp.0) + b.size(dp.0));
        assert(b.cell(dp.0, pos(a, o, dp.0, dp.1)));
        assert(cell_map(a, o, v) == cells_upto(b, dp.0) + pos(a, o, dp.0, dp.1));
        assert(cell_total(b) == cell_total(a));
    }
    assert forall|v: int, w: int| 0 <= v < cell_total(a) && 0 <= w < cell_total(a) && #[trigger] cell_map(a, o, v) == #[trigger] cell_map(a, o, w)
        implies v == w by {
        lemma_cell_at(a, v);
        lemma_cell_at(a, w);
        let dv = cell_at(a, v);
        let dw = cell_at(a, w);
        lemma_cell_map(a, b, o, pa, pb, dv.0, dv.1);
        lemma_cell_map(a, b, o, pa, pb, dw.0, dw.1);
        lemma_ctx_sizes(a, b, o, pa, pb, dv.0);
        lemma_ctx_sizes(a, b, o, pa, pb, dw.0);
        lemma_cell_vertex_unique(b, dv.0, pos(a, o, dv.0, dv.1), dw.0, pos(a, o, dw.0, dw.1));
        lemma_pos(a, o, dv.0, dv.1);
        lemma_pos(a, o, dw.0, dw.1);
    }
    assert forall|w: int| 0 <= w < cell_total(b) implies #[trigger] cell_hit(a, o, w) by {
        lemma_cell_at(b, w);
        let dq = cell_at(b, w);
        let d = dq.0;
        let q = dq.1;
        let p = o[d][q] as int;
        assert(a.cell(d, p));
        lemma_cell_map(a, b, o, pa, pb, d, p);
        lemma_pos_of(a, o, d, q);
        lemma_ctx_sizes(a, b, o, pa, pb, d);
        assert(cell_map(a, o, cells_upto(a, d) + p) == w);
    }
}


/// The image of the relation of a cover of `a` is the relation of the
/// matching cover of `b`.
proof fn lemma_rel_image_cover(
    a: FramedPoset,
    b: FramedPoset,
    o: Seq<Seq<usize>>,
    pa: Seq<Seq<usize>>,
    pb: Seq<Seq<usize>>,
    rel: (usize, usize, bool),
    d: int,
    p: int,
    s: Sign,
    f: usize,
)
    requires
        relabel_ctx(a, b, o, pa, pb),
        rel_of(a, rel, d, p, s, f),
    ensures
        rel_of(b, rel_image(a, o, rel), d, pos(a, o, d, p), s, pos(a, o, d - 1, f as int) as usize),
{
    crate::ofp::lemma_framed_valid(&a);
    lemma_face_below(a, s, d, p, f);
    assert(a.cell(d - 1, f as int));
    lemma_cell_map(a, b, o, pa, pb, d, p);
    lemma_cell_map(a, b, o, pa, pb, d - 1, f as int);
    lemma_ctx_sizes(a, b, o, pa, pb, d);
    lemma_ctx_sizes(a, b, o, pa, pb, d - 1);
    lemma_cover_relations(a);
    lemma_cells_upto_mono(a, d + 1, a.levels());
    lemma_cells_upto_mono(a, 0, d - 1);
    assert(cells_upto(a, d + 1) == cells_upto(a, d) + a.size(d));
    assert(cells_upto(a, d) == cells_upto(a, d - 1) + a.size(d - 1));
    let q = pos(a, o, d, p);
    let g = pos(a, o, d - 1, f as int);
    lemma_pos(a, o, d, p);
    lemma_pos(a, o, d - 1, f as int);
    assert(b.cell(d, q));
    assert(relabels(a, o, b));
    assert(crate::isomorphism::relabeled_faces(a, o, s, d, o[d][q] as int, b.faces(s, d, q)));
    assert(o[d][q] == p);
    assert(o[d - 1][g] == f);
    assert(g as usize as int == g);
    assert(b.faces(s, d, q).contains(g as usize));
    assert(rel_image(a, o, rel) == face_rel(b, d, q, s, g as usize));
}

/// Where relation `k` of `a` goes among the relations of `b`.
proof fn lemma_rel_map(a: FramedPoset, b: FramedPoset, o: Seq<Seq<usize>>, pa: Seq<Seq<usize>>, pb: Seq<Seq<usize>>, k: int)
    requires
        relabel_ctx(a, b, o, pa, pb),
        0 <= k < cover_relations(a).len(),
    ensures
        0 <= rel_map(a, b, o, k) < cover_relations(b).len(),
        cover_relations(b)[rel_map(a, b, o, k)] == rel_image(a, o, cover_relations(a)[k]),
{
    lemma_cover_relations(a);
    lemma_cover_relations(b);
    let rel = cover_relations(a)[k];
    assert(cover_relations(a).contains(rel));
    let (d, p, s, f) = choose|d: int, p: int, s: Sign, f: usize| #[trigger] rel_of(a, rel, d, p, s, f);
    lemma_rel_image_cover(a, b, o, pa, pb, rel, d, p, s, f);
    let img = rel_image(a, o, rel);
    assert(rel_of(b, img, d, pos(a, o, d, p), s, pos(a, o, d - 1, f as int) as usize));
    assert(cover_relations(b).contains(img));
}

/// The relations of `a` go one to one onto those of `b`.
proof fn lemma_rel_map_bijective(a: FramedPoset, b: FramedPoset, o: Seq<Seq<usize>>, pa: Seq<Seq<usize>>, pb: Seq<Seq<usize>>)
    requires
        relabel_ctx(a, b, o, pa, pb),
    ensures
        cover_relations(a).len() == cover_relations(b).len(),
        forall|k: int, l: int| 0 <= k < cover_relations(a).len() && 0 <= l < cover_relations(a).len()
            && #[trigger] rel_map(a, b, o, k) == #[trigger] rel_map(a, b, o, l) ==> k == l,
        forall|l: int| 0 <= l < cover_relations(b).len() ==> #[trigger] rel_hit(a, b, o, l),
{
    lemma_cover_relations(a);
    lemma_cover_relations(b);
    lemma_cell_map_bijective(a, b, o, pa, pb);
    let ra = cover_relations(a);
    let rb = cover_relations(b);
    assert forall|k: int, l: int| 0 <= k < ra.len() && 0 <= l < ra.len() && #[trigger] rel_map(a, b, o, k) == #[trigger] rel_map(a, b, o, l)
        implies k == l by {
        lemma_rel_map(a, b, o, pa, pb, k);
        lemma_rel_map(a, b, o, pa, pb, l);
        assert(rel_image(a, o, ra[k]) == rel_image(a, o, ra[l]));
        assert(cell_map(a, o, ra[k].0 as int) == cell_map(a, o, ra[l].0 as int));
        assert(cell_map(a, o, ra[k].1 as int) == cell_map(a, o, ra[l].1 as int));
        assert(ra[k] == ra[l]);
        lemma_sorted_distinct(ra, k, l);
    }
    assert forall|l: int| 0 <= l < rb.len() implies #[trigger] rel_hit(a, b, o, l) by {
        let rel = rb[l];
        assert(rb.contains(rel));
        let (d, q, s, g) = choose|d: int, q: int, s: Sign, g: usize| #[trigger] rel_of(b, rel, d, q, s, g);
        lemma_ctx_sizes(a, b, o, pa, pb, d);
        let p = o[d][q] as int;
        let f = o[d - 1][g as int];
        crate::ofp::lemma_framed_valid(&b);
        lemma_face_below(b, s, d, q, g);
        assert(crate::isomorphism::relabeled_faces(a, o, s, d, o[d][q] as int, b.faces(s, d, q)));
        assert(a.faces(s, d, p).contains(f));
        assert(a.cell(d, p));
        let arel = face_rel(a, d, p, s, f);
        assert(rel_of(a, arel, d, p, s, f));
        assert(ra.contains(arel));
        let k = choose|k: int| 0 <= k < ra.len() && ra[k] == arel;
        lemma_rel_image_cover(a, b, o, pa, pb, arel, d, p, s, f);
        lemma_pos_of(a, o, d, q);
        lemma_pos_of(a, o, d - 1, g as int);
        assert(rel_image(a, o, arel) == rel);
        lemma_rel_map(a, b, o, pa, pb, k);
        lemma_sorted_distinct(rb, rel_map(a, b, o, k), l);
    }
    let f1 = |k: int| rel_map(a, b, o, k);
    assert forall|k: int| 0 <= k < ra.len() implies 0 <= #[trigger] f1(k) < rb.len() by {
        lemma_rel_map(a, b, o, pa, pb, k);
    }
    lemma_injection_bound(f1, ra.len() as int, rb.len() as int);
    let f2 = |l: int| choose|k: int| 0 <= k < ra.len() && rel_map(a, b, o, k) == l;
    assert forall|l: int| 0 <= l < rb.len() implies 0 <= #[trigger] f2(l) < ra.len() && rel_map(a, b, o, f2(l)) == l by {
        assert(rel_hit(a, b, o, l));
    }
    lemma_injection_bound(f2, rb.len() as int, ra.len() as int);
}

/// Some relation of `a` goes to relation `l` of `b`.
pub open spec fn rel_hit(a: FramedPoset, b: FramedPoset, o: Seq<Seq<usize>>, l: int) -> bool {
    exists|k: int| 0 <= k < cover_relations(a).len() && #[trigger] rel_map(a, b, o, k) == l
}


/// Where vertex `v` of the canonical graph of `a` goes in that of `b`.
pub open spec fn vertex_map(a: FramedPoset, b: FramedPoset, o: Seq<Seq<usize>>, v: int) -> int {
    if v < cell_total(a) {
        cell_map(a, o, v)
    } else {
        cell_total(a) + rel_map(a, b, o, v - cell_total(a))
    }
}

/// The vertex map as a labelling.
pub open spec fn vertex_labels(a: FramedPoset, b: FramedPoset, o: Seq<Seq<usize>>) -> Seq<u32> {
    Seq::new(canonical_order(a), |v: int| vertex_map(a, b, o, v) as u32)
}

/// The two posets have the same bases, so their palettes rank alike.
proof fn lemma_ctx_palettes(a: FramedPoset, b: FramedPoset, o: Seq<Seq<usize>>, pa: Seq<Seq<usize>>, pb: Seq<Seq<usize>>)
    requires
        relabel_ctx(a, b, o, pa, pb),
    ensures
        pa.len() == pb.len(),
        forall|x: Seq<usize>| #[trigger] rank_in(pa, x) == rank_in(pb, x),
        forall|x: Seq<usize>| #[trigger] pa.contains(x) <==> pb.contains(x),
{
    assert forall|x: Seq<usize>| pa.contains(x) <==> pb.contains(x) by {
        if pa.contains(x) {
            let (d, p) = choose|d: int, p: int| #[trigger] a.cell(d, p) && a.basis_at(d, p) == x;
            lemma_pos(a, o, d, p);
            lemma_ctx_sizes(a, b, o, pa, pb, d);
            let q = pos(a, o, d, p);
            assert(b.cell(d, q));
            assert(b.basis_at(d, q) == a.basis_at(d, o[d][q] as int));
        }
        if pb.contains(x) {
            let (d, q) = choose|d: int, q: int| #[trigger] b.cell(d, q) && b.basis_at(d, q) == x;
            lemma_ctx_sizes(a, b, o, pa, pb, d);
            assert(b.basis_at(d, q) == a.basis_at(d, o[d][q] as int));
            assert(a.cell(d, o[d][q] as int));
        }
    }
    assert forall|x: Seq<usize>| #[trigger] rank_in(pa, x) == rank_in(pb, x) by {
        crate::isomorphism::lemma_rank_same_members(pa, pb, x);
    }
    crate::isomorphism::lemma_rank_same_members(pa, pb, Seq::empty());
}

/// The vertex map permutes the vertices.
proof fn lemma_labels_permute(a: FramedPoset, b: FramedPoset, o: Seq<Seq<usize>>, pa: Seq<Seq<usize>>, pb: Seq<Seq<usize>>)
    requires
        relabel_ctx(a, b, o, pa, pb),
    ensures
        labeling_permutes(canonical_order(a), vertex_labels(a, b, o)),
        canonical_order(a) == canonical_order(b),
{
    lemma_cover_relations(a);
    lemma_cover_relations(b);
    lemma_cell_map_bijective(a, b, o, pa, pb);
    lemma_rel_map_bijective(a, b, o, pa, pb);
    lemma_canonical_within(a);
    lemma_canonical_within(b);
    lemma_ctx_palettes(a, b, o, pa, pb);
    lemma_ctx_sizes(a, b, o, pa, pb, a.levels());
    let c = cell_total(a);
    let n = canonical_order(a);
    let ra = cover_relations(a);
    let rb = cover_relations(b);
    let m = vertex_labels(a, b, o);
    assert(n == canonical_order(b));
    assert forall|v: int| 0 <= v < n implies 0 <= #[trigger] vertex_map(a, b, o, v) < n by {
        if v >= c {
            lemma_rel_map(a, b, o, pa, pb, v - c);
        }
    }
    assert forall|v: int| 0 <= v < n implies #[trigger] m[v] as int == vertex_map(a, b, o, v) by {
        assert(0 <= vertex_map(a, b, o, v) < n);
    }
    // The labels permute the vertices.
    assert forall|v: int| 0 <= v < n implies #[trigger] m[v] < n by {
        assert(m[v] as int == vertex_map(a, b, o, v));
    }
    assert forall|v: int, w: int| 0 <= v < n && 0 <= w < n && v != w implies #[trigger] m[v] != #[trigger] m[w] by {
        assert(m[v] as int == vertex_map(a, b, o, v));
        assert(m[w] as int == vertex_map(a, b, o, w));
        if v >= c {
            lemma_rel_map(a, b, o, pa, pb, v - c);
        }
        if w >= c {
            lemma_rel_map(a, b, o, pa, pb, w - c);
        }
    }
    assert forall|i: int| 0 <= i < n implies #[trigger] crate::isomorphism::hit(n, m, i) by {
        if i < c {
            assert(cell_hit(a, o, i));
            let v = choose|v: int| 0 <= v < c && #[trigger] cell_map(a, o, v) == i;
            assert(m[v] as int == vertex_map(a, b, o, v));
        } else {
            assert(rel_hit(a, b, o, i - c));
            let k = choose|k: int| 0 <= k < ra.len() && #[trigger] rel_map(a, b, o, k) == i - c;
            assert(m[c + k] as int == vertex_map(a, b, o, c + k));
        }
    }
    assert(labeling_permutes(n, m));
}

/// The vertex map keeps colours.
proof fn lemma_labels_colors(a: FramedPoset, b: FramedPoset, o: Seq<Seq<usize>>, pa: Seq<Seq<usize>>, pb: Seq<Seq<usize>>)
    requires
        relabel_ctx(a, b, o, pa, pb),
    ensures
        has_input_relation(cover_relations(a)) == has_input_relation(cover_relations(b)),
        forall|v: int| 0 <= v < canonical_order(a) ==> #[trigger] canonical_colors(b, pb)[vertex_labels(a, b, o)[v] as int] == canonical_colors(a, pa)[v],
{
    lemma_cover_relations(a);
    lemma_cover_relations(b);
    lemma_cell_map_bijective(a, b, o, pa, pb);
    lemma_rel_map_bijective(a, b, o, pa, pb);
    lemma_canonical_within(a);
    lemma_canonical_within(b);
    lemma_ctx_palettes(a, b, o, pa, pb);
    lemma_ctx_sizes(a, b, o, pa, pb, a.levels());
    let c = cell_total(a);
    let n = canonical_order(a);
    let ra = cover_relations(a);
    let rb = cover_relations(b);
    let m = vertex_labels(a, b, o);
    assert(n == canonical_order(b));
    assert forall|v: int| 0 <= v < n implies 0 <= #[trigger] vertex_map(a, b, o, v) < n by {
        if v >= c {
            lemma_rel_map(a, b, o, pa, pb, v - c);
        }
    }
    assert forall|v: int| 0 <= v < n implies #[trigger] m[v] as int == vertex_map(a, b, o, v) by {
        assert(0 <= vertex_map(a, b, o, v) < n);
    }
    let ca = canonical_colors(a, pa);
    let cb = canonical_colors(b, pb);
    lemma_rank_colors_len(a, pa, a.levels());
    lemma_rank_colors_len(b, pb, b.levels());
    assert(has_input_relation(ra) == has_input_relation(rb)) by {
        if has_input_relation(ra) {
            let k = choose|k: int| 0 <= k < ra.len() && !(#[trigger] ra[k]).2;
            lemma_rel_map(a, b, o, pa, pb, k);
            assert(!rb[rel_map(a, b, o, k)].2);
        }
        if has_input_relation(rb) {
            let l = choose|l: int| 0 <= l < rb.len() && !(#[trigger] rb[l]).2;
            assert(rel_hit(a, b, o, l));
            let k = choose|k: int| 0 <= k < ra.len() && #[trigger] rel_map(a, b, o, k) == l;
            lemma_rel_map(a, b, o, pa, pb, k);
            assert(!ra[k].2);
        }
    }
    assert forall|v: int| 0 <= v < n implies #[trigger] cb[m[v] as int] == ca[v] by {
        assert(m[v] as int == vertex_map(a, b, o, v));
        if v < c {
            lemma_cell_at(a, v);
            let dp = cell_at(a, v);
            let d = dp.0;
            let p = dp.1;
            lemma_cell_map(a, b, o, pa, pb, d, p);
            lemma_ctx_sizes(a, b, o, pa, pb, d);
            lemma_pos(a, o, d, p);
            let q = pos(a, o, d, p);
            lemma_rank_color(a, pa, a.levels(), d, p);
            lemma_rank_color(b, pb, b.levels(), d, q);
            assert(b.basis_at(d, q) == a.basis_at(d, o[d][q] as int));
            assert(ca[v] == rank_in(pa, a.basis_at(d, p)) as u32);
            assert(cb[m[v] as int] == rank_in(pb, b.basis_at(d, q)) as u32);
        } else {
            let k = v - c;
            lemma_rel_map(a, b, o, pa, pb, k);
            let l = rel_map(a, b, o, k);
            assert(ca[v] == relation_color(ra[k], has_input_relation(ra), pa.len() as int));
            assert(cb[c + l] == relation_color(rb[l], has_input_relation(rb), pb.len() as int));
        }
    }
}

/// The vertex map keeps arcs.
proof fn lemma_labels_arcs(a: FramedPoset, b: FramedPoset, o: Seq<Seq<usize>>, pa: Seq<Seq<usize>>, pb: Seq<Seq<usize>>)
    requires
        relabel_ctx(a, b, o, pa, pb),
    ensures
        forall|u: int, v: int| 0 <= u < canonical_order(a) && 0 <= v < canonical_order(a) ==> (#[trigger] has_arc(canonical_arcs(a), u, v)
            <==> has_arc(canonical_arcs(b), vertex_labels(a, b, o)[u] as int, vertex_labels(a, b, o)[v] as int)),
{
    lemma_labels_permute(a, b, o, pa, pb);
    lemma_cover_relations(a);
    lemma_cover_relations(b);
    lemma_cell_map_bijective(a, b, o, pa, pb);
    lemma_rel_map_bijective(a, b, o, pa, pb);
    lemma_canonical_within(a);
    lemma_canonical_within(b);
    lemma_ctx_palettes(a, b, o, pa, pb);
    lemma_ctx_sizes(a, b, o, pa, pb, a.levels());
    let c = cell_total(a);
    let n = canonical_order(a);
    let ra = cover_relations(a);
    let rb = cover_relations(b);
    let m = vertex_labels(a, b, o);
    assert(n == canonical_order(b));
    assert forall|v: int| 0 <= v < n implies 0 <= #[trigger] vertex_map(a, b, o, v) < n by {
        if v >= c {
            lemma_rel_map(a, b, o, pa, pb, v - c);
        }
    }
    assert forall|v: int| 0 <= v < n implies #[trigger] m[v] as int == vertex_map(a, b, o, v) by {
        assert(0 <= vertex_map(a, b, o, v) < n);
    }
    assert forall|u: int, v: int| 0 <= u < n && 0 <= v < n implies (#[trigger] has_arc(canonical_arcs(a), u, v)
        <==> has_arc(canonical_arcs(b), m[u] as int, m[v] as int)) by {
        assert(m[u] as int == vertex_map(a, b, o, u));
        assert(m[v] as int == vertex_map(a, b, o, v));
        lemma_canonical_arc(a, u, v);
        lemma_canonical_arc(b, m[u] as int, m[v] as int);
        if has_arc(canonical_arcs(a), u, v) {
            let k = choose|k: int| 0 <= k < ra.len() && ((u == (#[trigger] ra[k]).0 && v == c + k) || (u == c + k && v == ra[k].1));
            lemma_rel_map(a, b, o, pa, pb, k);
            let l = rel_map(a, b, o, k);
            assert(ra[k].0 < c && ra[k].1 < c);
            assert(rb[l].0 as int == cell_map(a, o, ra[k].0 as int));
            assert(rb[l].1 as int == cell_map(a, o, ra[k].1 as int));
            assert(0 <= l < rb.len() && ((m[u] as int == (rb[l]).0 && m[v] as int == c + l) || (m[u] as int == c + l && m[v] as int == rb[l].1)));
        }
        if has_arc(canonical_arcs(b), m[u] as int, m[v] as int) {
            let l = choose|l: int| 0 <= l < rb.len() && ((m[u] as int == (#[trigger] rb[l]).0 && m[v] as int == c + l)
                || (m[u] as int == c + l && m[v] as int == rb[l].1));
            assert(rel_hit(a, b, o, l));
            let k = choose|k: int| 0 <= k < ra.len() && #[trigger] rel_map(a, b, o, k) == l;
            lemma_rel_map(a, b, o, pa, pb, k);
            assert(ra[k].0 < c && ra[k].1 < c);
            assert(rb[l].0 < c && rb[l].1 < c);
            assert(m[c + k] as int == vertex_map(a, b, o, c + k));
            assert(m[ra[k].0 as int] as int == vertex_map(a, b, o, ra[k].0 as int));
            assert(m[ra[k].1 as int] as int == vertex_map(a, b, o, ra[k].1 as int));
            if m[u] as int == rb[l].0 && m[v] as int == c + l {
                assert(m[v] == m[c + k]);
                assert(v == c + k);
                assert(m[u] == m[ra[k].0 as int]);
                assert(u == ra[k].0);
            } else {
                assert(m[u] == m[c + k]);
                assert(u == c + k);
                assert(m[v] == m[ra[k].1 as int]);
                assert(v == ra[k].1);
            }
        }
    }
}

/// A relabelling of a framed poset relabels the graph of its canonical
/// labelling: the two graphs are isomorphic as coloured graphs.
pub(crate) proof fn lemma_relabelled_graphs(a: FramedPoset, b: FramedPoset, o: Seq<Seq<usize>>, pa: Seq<Seq<usize>>, pb: Seq<Seq<usize>>)
    requires
        relabel_ctx(a, b, o, pa, pb),
    ensures
        graph_isomorphism(canonical_order(a), canonical_arcs(a), canonical_colors(a, pa), canonical_order(b), canonical_arcs(b),
            canonical_colors(b, pb), vertex_labels(a, b, o)),
{
    lemma_labels_permute(a, b, o, pa, pb);
    lemma_labels_colors(a, b, o, pa, pb);
    lemma_labels_arcs(a, b, o, pa, pb);
    lemma_canonical_within(a);
    lemma_canonical_within(b);
    lemma_cover_relations(a);
    lemma_cover_relations(b);
    lemma_rank_colors_len(a, pa, a.levels());
    lemma_rank_colors_len(b, pb, b.levels());
    lemma_ctx_sizes(a, b, o, pa, pb, a.levels());
}


/// The canonical graph has no repeated arc.
pub(crate) proof fn lemma_canonical_arcs_distinct(x: FramedPoset)
    requires
        x.framed(),
        canonical_sized(x),
    ensures
        arcs_distinct(canonical_arcs(x)),
{
    lemma_cover_relations(x);
    let rels = cover_relations(x);
    let c = cell_total(x);
    let arcs = canonical_arcs(x);
    assert(arcs.len() == 2 * rels.len());
    assert forall|a: int| 0 <= a < arcs.len() implies (a % 2 == 0 ==> (#[trigger] arcs[a]).1 == c + a / 2 && arcs[a].0 < c)
        && (a % 2 == 1 ==> arcs[a].0 == c + a / 2 && arcs[a].1 < c) by {
        let k = a / 2;
        assert(rels[k].0 < c && rels[k].1 < c);
        assert((c + k) as u32 as int == c + k);
    }
    assert(relation_arcs(arcs, c));
    crate::isomorphism::lemma_relation_arcs_distinct(arcs, c);
}

/// A list of the distinct bases of `x` has no more entries than `x` has
/// cells.
proof fn lemma_palette_bound(x: FramedPoset, p: Seq<Seq<usize>>)
    requires
        bases_palette(p, x),
    ensures
        p.len() <= cell_total(x),
{
    let f = |i: int| {
        let dp = choose|dp: (int, int)| x.cell(dp.0, dp.1) && x.basis_at(dp.0, dp.1) == p[i];
        cells_upto(x, dp.0) + dp.1
    };
    assert forall|i: int| 0 <= i < p.len() implies 0 <= #[trigger] f(i) < cell_total(x) by {
        assert(p.contains(p[i]));
        assert(has_basis(x, p[i]));
        let (d, q) = choose|d: int, q: int| #[trigger] x.cell(d, q) && x.basis_at(d, q) == p[i];
        assert(x.cell((d, q).0, (d, q).1) && x.basis_at((d, q).0, (d, q).1) == p[i]);
        let dp = choose|dp: (int, int)| x.cell(dp.0, dp.1) && x.basis_at(dp.0, dp.1) == p[i];
        lemma_cells_upto_mono(x, dp.0 + 1, x.levels());
        lemma_cells_upto_mono(x, 0, dp.0);
        assert(cells_upto(x, dp.0 + 1) == cells_upto(x, dp.0) + x.size(dp.0));
    }
    assert forall|i: int, j: int| 0 <= i < p.len() && 0 <= j < p.len() && i != j implies #[trigger] f(i) != #[trigger] f(j) by {
        assert(p.contains(p[i]));
        assert(p.contains(p[j]));
        assert(has_basis(x, p[i]));
        assert(has_basis(x, p[j]));
        let (d1, q1) = choose|d: int, q: int| #[trigger] x.cell(d, q) && x.basis_at(d, q) == p[i];
        assert(x.cell((d1, q1).0, (d1, q1).1) && x.basis_at((d1, q1).0, (d1, q1).1) == p[i]);
        let (d2, q2) = choose|d: int, q: int| #[trigger] x.cell(d, q) && x.basis_at(d, q) == p[j];
        assert(x.cell((d2, q2).0, (d2, q2).1) && x.basis_at((d2, q2).0, (d2, q2).1) == p[j]);
        let di = choose|dp: (int, int)| x.cell(dp.0, dp.1) && x.basis_at(dp.0, dp.1) == p[i];
        let dj = choose|dp: (int, int)| x.cell(dp.0, dp.1) && x.basis_at(dp.0, dp.1) == p[j];
        if f(i) == f(j) {
            lemma_cell_vertex_unique(x, di.0, di.1, dj.0, dj.1);
            if i < j {
                assert(p[i] != p[j]);
            } else {
                assert(p[j] != p[i]);
            }
        }
    }
    lemma_cells_upto_mono(x, 0, x.levels());
    lemma_injection_bound(f, p.len() as int, cell_total(x));
}

/// Two framed posets whose canonical graphs the canonical labellings
/// `lx`, `ly` relabel into the same graph, with the same cells per level,
/// bases and signs.
pub open spec fn canon_pair(x: FramedPoset, y: FramedPoset, px: Seq<Seq<usize>>, py: Seq<Seq<usize>>, lx: Seq<u32>, ly: Seq<u32>) -> bool {
    &&& x.framed()
    &&& y.framed()
    &&& canonical_sized(x)
    &&& canonical_sized(y)
    &&& bases_palette(px, x)
    &&& bases_palette(py, y)
    &&& lx == canonical_keys(x, px)
    &&& ly == canonical_keys(y, py)
    &&& labeling_permutes(canonical_order(x), lx)
    &&& labeling_permutes(canonical_order(y), ly)
    &&& canonical_order(x) == canonical_order(y)
    &&& x.levels() == y.levels()
    &&& forall|d: int| #[trigger] x.size(d) == y.size(d)
    &&& px.len() == py.len()
    &&& forall|b: Seq<usize>| #[trigger] rank_in(px, b) == rank_in(py, b)
    &&& forall|b: Seq<usize>| #[trigger] px.contains(b) <==> py.contains(b)
    &&& has_input_relation(cover_relations(x)) == has_input_relation(cover_relations(y))
    &&& same_relabelled(canonical_order(x), canonical_arcs(x), canonical_colors(x, px), lx, canonical_arcs(y), canonical_colors(y, py), ly)
}

proof fn lemma_canon_pair_symmetric(x: FramedPoset, y: FramedPoset, px: Seq<Seq<usize>>, py: Seq<Seq<usize>>, lx: Seq<u32>, ly: Seq<u32>)
    requires
        canon_pair(x, y, px, py, lx, ly),
    ensures
        canon_pair(y, x, py, px, ly, lx),
{
    let n = canonical_order(x);
    let ax = canonical_arcs(x);
    let ay = canonical_arcs(y);
    let cx = canonical_colors(x, px);
    let cy = canonical_colors(y, py);
    assert forall|v1: int, v2: int| 0 <= v1 < n && 0 <= v2 < n && #[trigger] ly[v1] == #[trigger] lx[v2] implies cy[v1] == cx[v2] by {}
    assert forall|u1: int, v1: int, u2: int, v2: int|
        0 <= u1 < n && 0 <= v1 < n && 0 <= u2 < n && 0 <= v2 < n && #[trigger] ly[u1] == #[trigger] lx[u2] && #[trigger] ly[v1] == #[trigger] lx[v2]
        implies (has_arc(ay, u1, v1) <==> has_arc(ax, u2, v2)) by {}
}

/// The vertex of `y` whose label is that of vertex `v` of `x`.
pub open spec fn tau(n: nat, lx: Seq<u32>, ly: Seq<u32>, v: int) -> int {
    choose|w: int| 0 <= w < n && ly[w] == lx[v]
}

proof fn lemma_tau(n: nat, lx: Seq<u32>, ly: Seq<u32>, v: int)
    requires
        labeling_permutes(n, lx),
        labeling_permutes(n, ly),
        0 <= v < n,
    ensures
        0 <= tau(n, lx, ly, v) < n,
        ly[tau(n, lx, ly, v)] == lx[v],
        tau(n, ly, lx, tau(n, lx, ly, v)) == v,
{
    assert(crate::isomorphism::hit(n, ly, lx[v] as int));
    let w = tau(n, lx, ly, v);
    assert(crate::isomorphism::hit(n, lx, ly[w] as int));
    let v2 = tau(n, ly, lx, w);
    if v2 != v {
        assert(lx[v2] != lx[v]);
    }
}


pub(crate) proof fn lemma_pair_cells(x: FramedPoset, y: FramedPoset, n: int)
    requires
        x.levels() == y.levels(),
        forall|d: int| #[trigger] x.size(d) == y.size(d),
    ensures
        cells_upto(x, n) == cells_upto(y, n),
    decreases n,
{
    if n > 0 {
        lemma_pair_cells(x, y, n - 1);
        assert(x.size(n - 1) == y.size(n - 1));
    }
}

/// The colour of a vertex of the canonical graph: the rank of a cell's basis,
/// below the palette's length, or a relation's colour, not below it.
proof fn lemma_vertex_color(x: FramedPoset, px: Seq<Seq<usize>>, v: int)
    requires
        x.framed(),
        canonical_sized(x),
        bases_palette(px, x),
        0 <= v < canonical_order(x),
    ensures
        v < cell_total(x) ==> canonical_colors(x, px)[v] as int == rank_in(px, x.basis_at(cell_at(x, v).0, cell_at(x, v).1))
            && rank_in(px, x.basis_at(cell_at(x, v).0, cell_at(x, v).1)) < px.len(),
        v >= cell_total(x) ==> canonical_colors(x, px)[v] as int >= px.len(),
{
    lemma_cover_relations(x);
    lemma_canonical_within(x);
    lemma_palette_bound(x, px);
    lemma_rank_colors_len(x, px, x.levels());
    lemma_cells_upto_mono(x, 0, x.levels());
    if v < cell_total(x) {
        lemma_cell_at(x, v);
        let dp = cell_at(x, v);
        lemma_rank_color(x, px, x.levels(), dp.0, dp.1);
        assert(px.contains(x.basis_at(dp.0, dp.1)));
        lemma_rank_below(px, x.basis_at(dp.0, dp.1));
    } else {
        let rels = cover_relations(x);
        let k = v - cell_total(x);
        assert(canonical_colors(x, px)[v] == relation_color(rels[k], has_input_relation(rels), px.len() as int));
    }
}

/// The cell of `y` labelled like cell `(d, p)` of `x` is at the same level
/// and has the same basis.
proof fn lemma_tau_cell(x: FramedPoset, y: FramedPoset, px: Seq<Seq<usize>>, py: Seq<Seq<usize>>, lx: Seq<u32>, ly: Seq<u32>, d: int, p: int)
    requires
        canon_pair(x, y, px, py, lx, ly),
        x.cell(d, p),
    ensures
        0 <= tau(canonical_order(x), lx, ly, cells_upto(x, d) + p) < cell_total(y),
        cell_at(y, tau(canonical_order(x), lx, ly, cells_upto(x, d) + p)).0 == d,
        y.cell(d, cell_at(y, tau(canonical_order(x), lx, ly, cells_upto(x, d) + p)).1),
        y.basis_at(d, cell_at(y, tau(canonical_order(x), lx, ly, cells_upto(x, d) + p)).1) == x.basis_at(d, p),
        tau(canonical_order(x), lx, ly, cells_upto(x, d) + p) == cells_upto(y, d) + cell_at(y, tau(canonical_order(x), lx, ly, cells_upto(x, d) + p)).1,
{
    let n = canonical_order(x);
    let v = cells_upto(x, d) + p;
    lemma_pair_cells(x, y, x.levels());
    lemma_canonical_within(x);
    lemma_cells_upto_mono(x, d + 1, x.levels());
    lemma_cells_upto_mono(x, 0, d);
    assert(cells_upto(x, d + 1) == cells_upto(x, d) + x.size(d));
    lemma_cell_at(x, v);
    lemma_cell_vertex_unique(x, cell_at(x, v).0, cell_at(x, v).1, d, p);
    lemma_tau(n, lx, ly, v);
    let w = tau(n, lx, ly, v);
    lemma_vertex_color(x, px, v);
    lemma_vertex_color(y, py, w);
    assert(canonical_colors(x, px)[v] == canonical_colors(y, py)[w]);
    lemma_cells_upto_mono(y, 0, y.levels());
    assert(w < cell_total(y));
    lemma_cell_at(y, w);
    let dq = cell_at(y, w);
    let xb = x.basis_at(d, p);
    let yb = y.basis_at(dq.0, dq.1);
    assert(px.contains(xb));
    assert(py.contains(xb));
    assert(py.contains(yb));
    assert(rank_in(px, xb) == rank_in(py, xb));
    crate::canonicity::lemma_rank_injective(py, xb, yb);
    assert(x.bases_graded());
    assert(y.bases_graded());
}

/// The cover of `(d, p)` by its `s`-face `f` in `x` has a matching cover in
/// `y`, between the cells labelled alike.
#[verifier::spinoff_prover]
#[verifier::rlimit(40)]
proof fn lemma_tau_cover(
    x: FramedPoset,
    y: FramedPoset,
    px: Seq<Seq<usize>>,
    py: Seq<Seq<usize>>,
    lx: Seq<u32>,
    ly: Seq<u32>,
    d: int,
    p: int,
    s: Sign,
    f: usize,
)
    requires
        canon_pair(x, y, px, py, lx, ly),
        is_cover(x, d, p, s, f),
    ensures
        is_cover(y, d, cell_at(y, tau(canonical_order(x), lx, ly, cells_upto(x, d) + p)).1, s,
            cell_at(y, tau(canonical_order(x), lx, ly, cells_upto(x, d - 1) + f)).1 as usize),
{
    let n = canonical_order(x);
    let c = cell_total(x);
    crate::ofp::lemma_framed_valid(&x);
    lemma_face_below(x, s, d, p, f);
    lemma_cover_relations(x);
    lemma_cover_relations(y);
    lemma_canonical_within(x);
    lemma_canonical_within(y);
    lemma_pair_cells(x, y, x.levels());
    let rx = cover_relations(x);
    let ry = cover_relations(y);
    let rel = face_rel(x, d, p, s, f);
    assert(rel_of(x, rel, d, p, s, f));
    assert(rx.contains(rel));
    let k = choose|k: int| 0 <= k < rx.len() && rx[k] == rel;
    let vp = cells_upto(x, d) + p;
    let vf = cells_upto(x, d - 1) + f;
    let r = c + k;
    lemma_tau_cell(x, y, px, py, lx, ly, d, p);
    lemma_tau_cell(x, y, px, py, lx, ly, d - 1, f as int);
    lemma_cells_upto_mono(x, d, x.levels());
    lemma_cells_upto_mono(x, 0, d - 1);
    assert(cells_upto(x, d) == cells_upto(x, d - 1) + x.size(d - 1));
    lemma_cells_upto_mono(x, d + 1, x.levels());
    assert(cells_upto(x, d + 1) == cells_upto(x, d) + x.size(d));
    assert(vp < c && vf < c);
    assert(rel.0 as int == vf && rel.1 as int == vp);
    let wp = tau(n, lx, ly, vp);
    let wf = tau(n, lx, ly, vf);
    lemma_tau(n, lx, ly, r);
    let wr = tau(n, lx, ly, r);
    // The two arcs through the relation vertex.
    lemma_canonical_arc(x, vf, r);
    lemma_canonical_arc(x, r, vp);
    assert(has_arc(canonical_arcs(x), vf, r));
    assert(has_arc(canonical_arcs(x), r, vp));
    lemma_tau(n, lx, ly, vf);
    lemma_tau(n, lx, ly, vp);
    assert(has_arc(canonical_arcs(y), wf, wr));
    assert(has_arc(canonical_arcs(y), wr, wp));
    // The relation vertex goes to a relation vertex.
    lemma_vertex_color(x, px, r);
    lemma_vertex_color(y, py, wr);
    assert(canonical_colors(x, px)[r] == canonical_colors(y, py)[wr]);
    if wr < c {
        lemma_cell_at(y, wr);
        assert(false);
    }
    let l = wr - c;
    lemma_canonical_arc(y, wf, wr);
    lemma_canonical_arc(y, wr, wp);
    let l1 = choose|l1: int| 0 <= l1 < ry.len() && ((wf == (#[trigger] ry[l1]).0 && wr == c + l1) || (wf == c + l1 && wr == ry[l1].1));
    assert(ry[l1].0 < c && ry[l1].1 < c);
    assert(l1 == l && ry[l].0 as int == wf);
    let l2 = choose|l2: int| 0 <= l2 < ry.len() && ((wr == (#[trigger] ry[l2]).0 && wp == c + l2) || (wr == c + l2 && wp == ry[l2].1));
    assert(ry[l2].0 < c && ry[l2].1 < c);
    assert(l2 == l && ry[l].1 as int == wp);
    // Read the cover off the relation.
    assert(ry.contains(ry[l]));
    let (d2, q2, s2, g2) = choose|d2: int, q2: int, s2: Sign, g2: usize| #[trigger] rel_of(y, ry[l], d2, q2, s2, g2);
    crate::ofp::lemma_framed_valid(&y);
    lemma_face_below(y, s2, d2, q2, g2);
    lemma_cells_upto_mono(y, d2, y.levels());
    lemma_cells_upto_mono(y, 0, d2 - 1);
    assert(cells_upto(y, d2) == cells_upto(y, d2 - 1) + y.size(d2 - 1));
    lemma_cells_upto_mono(y, d2 + 1, y.levels());
    assert(cells_upto(y, d2 + 1) == cells_upto(y, d2) + y.size(d2));
    assert(cells_upto(y, d2) + q2 < cell_total(y));
    assert((cells_upto(y, d2) + q2) as usize as int == cells_upto(y, d2) + q2);
    assert((cells_upto(y, d2 - 1) + g2) as usize as int == cells_upto(y, d2 - 1) + g2);
    let qp = cell_at(y, wp).1;
    let qf = cell_at(y, wf).1;
    lemma_cell_vertex_unique(y, d2, q2, d, qp);
    assert(y.cell(d2 - 1, g2 as int));
    lemma_cell_vertex_unique(y, d2 - 1, g2 as int, d - 1, qf);
    // The sign.
    let hx = has_input_relation(rx);
    let base = px.len() as int;
    lemma_rank_colors_len(x, px, x.levels());
    lemma_rank_colors_len(y, py, y.levels());
    assert(canonical_colors(x, px)[r] == relation_color(rx[k], hx, base));
    assert(canonical_colors(y, py)[wr] == relation_color(ry[l], hx, py.len() as int));
    lemma_palette_bound(x, px);
    if hx {
        assert(rx[k].2 == ry[l].2);
    } else {
        assert(rx[k].2) by {
            if !rx[k].2 {
                assert(has_input_relation(rx));
            }
        }
        assert(ry[l].2) by {
            if !ry[l].2 {
                assert(has_input_relation(ry));
            }
        }
    }
    assert(s2 == s);
}


/// The position in `y` of the cell labelled like cell `(d, p)` of `x`.
pub open spec fn tm(x: FramedPoset, y: FramedPoset, lx: Seq<u32>, ly: Seq<u32>, d: int, p: int) -> int {
    cell_at(y, tau(canonical_order(x), lx, ly, cells_upto(x, d) + p)).1
}

/// Going to `y` and back gives the cell back.
proof fn lemma_tm_back(x: FramedPoset, y: FramedPoset, px: Seq<Seq<usize>>, py: Seq<Seq<usize>>, lx: Seq<u32>, ly: Seq<u32>, d: int, p: int)
    requires
        canon_pair(x, y, px, py, lx, ly),
        x.cell(d, p),
    ensures
        y.cell(d, tm(x, y, lx, ly, d, p)),
        y.basis_at(d, tm(x, y, lx, ly, d, p)) == x.basis_at(d, p),
        tm(y, x, ly, lx, d, tm(x, y, lx, ly, d, p)) == p,
{
    let n = canonical_order(x);
    let v = cells_upto(x, d) + p;
    lemma_tau_cell(x, y, px, py, lx, ly, d, p);
    lemma_canonical_within(x);
    lemma_cells_upto_mono(x, d + 1, x.levels());
    lemma_cells_upto_mono(x, 0, d);
    assert(cells_upto(x, d + 1) == cells_upto(x, d) + x.size(d));
    lemma_tau(n, lx, ly, v);
    let w = tau(n, lx, ly, v);
    let q = tm(x, y, lx, ly, d, p);
    assert(w == cells_upto(y, d) + q);
    assert(canonical_order(y) == n);
    assert(tau(n, ly, lx, w) == v);
    lemma_cell_at(x, v);
    lemma_cell_vertex_unique(x, cell_at(x, v).0, cell_at(x, v).1, d, p);
}

/// The order of level `d` of `y` by its labels is that of `x`, carried over.
proof fn lemma_pair_level_order(
    x: FramedPoset,
    y: FramedPoset,
    px: Seq<Seq<usize>>,
    py: Seq<Seq<usize>>,
    lx: Seq<u32>,
    ly: Seq<u32>,
    ox: Seq<usize>,
    d: int,
)
    requires
        canon_pair(x, y, px, py, lx, ly),
        0 <= d < x.levels(),
        level_order(lx, cells_upto(x, d), x.size(d), ox),
    ensures
        level_order(ly, cells_upto(y, d), y.size(d), Seq::new(x.size(d) as nat, |k: int| tm(x, y, lx, ly, d, ox[k] as int) as usize)),
{
    let n = canonical_order(x);
    let size = x.size(d);
    let sq = Seq::new(size as nat, |k: int| tm(x, y, lx, ly, d, ox[k] as int) as usize);
    lemma_canon_pair_symmetric(x, y, px, py, lx, ly);
    lemma_pair_cells(x, y, d);
    lemma_canonical_within(x);
    lemma_cells_upto_mono(x, d + 1, x.levels());
    lemma_cells_upto_mono(x, 0, d);
    assert(cells_upto(x, d + 1) == cells_upto(x, d) + x.size(d));
    assert(y.basis@[d]@.len() == y.basis@[d].len());
    assert forall|k: int| 0 <= k < size implies #[trigger] sq[k] < y.size(d) && sq[k] as int == tm(x, y, lx, ly, d, ox[k] as int)
        && ly[cells_upto(y, d) + sq[k]] == lx[cells_upto(x, d) + ox[k]] by {
        let p = ox[k] as int;
        assert(x.cell(d, p));
        lemma_tm_back(x, y, px, py, lx, ly, d, p);
        lemma_tau_cell(x, y, px, py, lx, ly, d, p);
        lemma_tau(n, lx, ly, cells_upto(x, d) + p);
    }
    assert forall|i: int, j: int| 0 <= i < j < size implies key_lt(ly, cells_upto(y, d), #[trigger] sq[i] as int, #[trigger] sq[j] as int) by {
        assert(key_lt(lx, cells_upto(x, d), ox[i] as int, ox[j] as int));
        assert(sq[i] < y.size(d) && sq[j] < y.size(d));
        if ox[i] == ox[j] {
            lemma_lex_irreflexive(Seq::empty());
        }
        let vi = cells_upto(x, d) + ox[i];
        let vj = cells_upto(x, d) + ox[j];
        if ox[i] != ox[j] {
            assert(lx[vi] != lx[vj]);
        }
    }
    assert forall|q: int| 0 <= q < size implies #[trigger] sq.contains(q as usize) by {
        assert(y.cell(d, q));
        let p = tm(y, x, ly, lx, d, q);
        lemma_tm_back(y, x, py, px, ly, lx, d, q);
        assert(ox.contains(p as usize));
        let k = choose|k: int| 0 <= k < ox.len() && ox[k] == p as usize;
        assert(sq[k] as int == tm(x, y, lx, ly, d, p));
    }
}

/// Two framed posets whose canonical graphs are relabelled into the same
/// graph have the same normal form.
pub(crate) proof fn lemma_pair_normal_forms(
    x: FramedPoset,
    y: FramedPoset,
    px: Seq<Seq<usize>>,
    py: Seq<Seq<usize>>,
    lx: Seq<u32>,
    ly: Seq<u32>,
    ox: Seq<Seq<usize>>,
    oy: Seq<Seq<usize>>,
    nx: FramedPoset,
    ny: FramedPoset,
)
    requires
        canon_pair(x, y, px, py, lx, ly),
        level_orders(x, lx, ox),
        relabels(x, ox, nx),
        level_orders(y, ly, oy),
        relabels(y, oy, ny),
        nx.valid(),
        ny.valid(),
    ensures
        nx.same_poset(&ny),
{
    lemma_canon_pair_symmetric(x, y, px, py, lx, ly);
    assert forall|d: int| 0 <= d < x.levels() implies #[trigger] oy[d] == Seq::new(x.size(d) as nat, |k: int| tm(x, y, lx, ly, d, ox[d][k] as int) as usize) by {
        lemma_pair_cells(x, y, d);
        lemma_pair_level_order(x, y, px, py, lx, ly, ox[d], d);
        crate::isomorphism::lemma_level_order_unique(ly, cells_upto(y, d), y.size(d), oy[d],
            Seq::new(x.size(d) as nat, |k: int| tm(x, y, lx, ly, d, ox[d][k] as int) as usize));
    }
    assert forall|d: int| #[trigger] nx.size(d) == ny.size(d) by {
        if 0 <= d < x.levels() {
            assert(nx.size(d) == x.size(d));
            assert(ny.size(d) == y.size(d));
        }
    }
    assert forall|d: int, k: int| #[trigger] nx.cell(d, k) implies same_elements(nx.basis_at(d, k), ny.basis_at(d, k)) by {
        assert(ny.cell(d, k));
        let big_p = ox[d][k] as int;
        assert(level_order(lx, cells_upto(x, d), x.size(d), ox[d]));
        assert(x.cell(d, big_p));
        lemma_tm_back(x, y, px, py, lx, ly, d, big_p);
        assert(oy[d] == Seq::new(x.size(d) as nat, |k: int| tm(x, y, lx, ly, d, ox[d][k] as int) as usize));
        assert(nx.size(d) == x.size(d));
        assert(y.basis@[d]@.len() == y.basis@[d].len());
        assert(oy[d][k] as int == tm(x, y, lx, ly, d, big_p));
    }
    assert forall|s: Sign, d: int, k: int| nx.cell(d, k) implies same_elements(#[trigger] nx.faces(s, d, k), ny.faces(s, d, k)) by {
        assert(ny.cell(d, k));
        let big_p = ox[d][k] as int;
        assert(level_order(lx, cells_upto(x, d), x.size(d), ox[d]));
        assert(x.cell(d, big_p));
        lemma_tm_back(x, y, px, py, lx, ly, d, big_p);
        let q = tm(x, y, lx, ly, d, big_p);
        assert(oy[d] == Seq::new(x.size(d) as nat, |k: int| tm(x, y, lx, ly, d, ox[d][k] as int) as usize));
        assert(nx.size(d) == x.size(d));
        assert(y.basis@[d]@.len() == y.basis@[d].len());
        assert(oy[d][k] as int == q);
        assert(crate::isomorphism::relabeled_faces(x, ox, s, d, big_p, nx.faces(s, d, k)));
        assert(crate::isomorphism::relabeled_faces(y, oy, s, d, q, ny.faces(s, d, k)));
        assert forall|z: usize| nx.faces(s, d, k).contains(z) <==> ny.faces(s, d, k).contains(z) by {
            if 1 <= d && z < x.size(d - 1) {
                assert(level_order(lx, cells_upto(x, d - 1), x.size(d - 1), ox[d - 1]));
                let big_f = ox[d - 1][z as int];
                assert(x.cell(d - 1, big_f as int));
                lemma_tm_back(x, y, px, py, lx, ly, d - 1, big_f as int);
                let g = tm(x, y, lx, ly, d - 1, big_f as int);
                assert(oy[d - 1] == Seq::new(x.size(d - 1) as nat, |k: int| tm(x, y, lx, ly, d - 1, ox[d - 1][k] as int) as usize));
                assert(y.basis@[d - 1]@.len() == y.basis@[d - 1].len());
                assert(y.cell(d - 1, g));
                assert(oy[d - 1][z as int] as int == g);
                if x.faces(s, d, big_p).contains(big_f) {
                    lemma_tau_cover(x, y, px, py, lx, ly, d, big_p, s, big_f);
                    assert(y.faces(s, d, q).contains(g as usize));
                }
                if y.faces(s, d, q).contains(g as usize) {
                    lemma_tau_cover(y, x, py, px, ly, lx, d, q, s, g as usize);
                    assert(x.faces(s, d, big_p).contains(big_f));
                }
            }
        }
    }
    crate::symmetry::lemma_same_poset_by_elements(nx, ny);
}


/// `n` is the normal form that every relabelling of `x` has too.
pub open spec fn canonical_among(x: FramedPoset, n: FramedPoset) -> bool {
    forall|b: FramedPoset, nb: FramedPoset| #![trigger crate::isomorphism::relabelling_of(x, b), crate::isomorphism::is_normal_form(b, nb)]
        b.framed() && canonical_sized(b) && !b.normal && crate::isomorphism::relabelling_of(x, b)
            && crate::isomorphism::is_normal_form(b, nb) ==> n.same_poset(&nb)
}

/// When the canonical labelling of `a`'s graph has the invariance that its
/// documentation promises, the normal form it gives `a` is also the normal
/// form of every relabelling of `a`.
pub(crate) proof fn lemma_canonical_normal_form(a: FramedPoset, na: FramedPoset, pa: Seq<Seq<usize>>, oa: Seq<Seq<usize>>)
    requires
        a.framed(),
        canonical_sized(a),
        bases_palette(pa, a),
        level_orders(a, canonical_keys(a, pa), oa),
        relabels(a, oa, na),
        na.valid(),
        labeling_permutes(canonical_order(a), canonical_keys(a, pa)),
        crate::isomorphism::canonical_form_invariant(canonical_order(a), canonical_arcs(a), canonical_colors(a, pa), canonical_keys(a, pa)),
    ensures
        canonical_among(a, na),
{
    assert forall|b: FramedPoset, nb: FramedPoset|
        b.framed() && canonical_sized(b) && !b.normal && crate::isomorphism::relabelling_of(a, b) && #[trigger] crate::isomorphism::is_normal_form(b, nb)
        implies na.same_poset(&nb) by {
        let o = choose|o: Seq<Seq<usize>>| #[trigger] level_permutations(a, o) && relabels(a, o, b);
        let (pb, ob) = choose|palette: Seq<Seq<usize>>, orders: Seq<Seq<usize>>|
            #![trigger level_orders(b, canonical_keys(b, palette), orders)]
            bases_palette(palette, b) && level_orders(b, canonical_keys(b, palette), orders) && relabels(b, orders, nb);
        assert(relabel_ctx(a, b, o, pa, pb));
        lemma_relabelled_graphs(a, b, o, pa, pb);
        lemma_canonical_arcs_distinct(b);
        let m = vertex_labels(a, b, o);
        assert(graph_isomorphism(canonical_order(a), canonical_arcs(a), canonical_colors(a, pa), canonical_order(b), canonical_arcs(b),
            canonical_colors(b, pb), m));
        assert(canonical_keys(b, pb) == canonical_labeling(canonical_order(b), canonical_arcs(b), canonical_colors(b, pb)));
        lemma_ctx_sizes(a, b, o, pa, pb, a.levels());
        lemma_ctx_palettes(a, b, o, pa, pb);
        lemma_labels_colors(a, b, o, pa, pb);
        assert(canon_pair(a, b, pa, pb, canonical_keys(a, pa), canonical_keys(b, pb)));
        lemma_pair_normal_forms(a, b, pa, pb, canonical_keys(a, pa), canonical_keys(b, pb), oa, ob, na, nb);
    }
}

} // verus!

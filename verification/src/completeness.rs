//! Every isomorphism of framed posets is found by the search on their
//! Hasse diagrams.

use vstd::prelude::*;

use crate::canonicity::{cell_at, face_rel, lemma_cell_at, lemma_cell_vertex_unique, lemma_cover_relations, lemma_injection_bound, lemma_pair_cells, rel_lt, rel_of};
use crate::embedding::{Embedding, NO_PREIMAGE, at, tv};
use crate::isomorphism::{
    accepted_tables, arc_colors_upto, arc_matched, arc_reached, arcs_distinct, arcs_upto, arcs_within, canonical_sized, cell_arc_colors,
    cell_arcs, cell_relations, cells_list_upto, color_of, colors_upto, cover_relations, face_arcs, face_relations, graph_sized,
    hasse_arc_colors, hasse_arcs, hasse_cells, hasse_colors, hasse_order, hit, inv_after, labeling_permutes, level_arc_colors, level_arcs,
    level_relations, map_accepted, map_after, relations_upto, tables_isomorphism, vertex_ok, vf2_map,
};
use crate::intset::same_elements;
use crate::poset::{FramedPoset, Sign};
use crate::pushout::{cell_total, cells_upto, lemma_cells_upto_mono};

verus! {

/// The arc of the Hasse diagram for a cover relation.
pub open spec fn rel_arc(rel: (usize, usize, bool)) -> (u32, u32) {
    (rel.0 as u32, rel.1 as u32)
}

/// The colour of that arc: `1` for an output relation, `0` for an input one.
pub open spec fn rel_arc_color(rel: (usize, usize, bool)) -> u32 {
    if rel.2 {
        1u32
    } else {
        0u32
    }
}

proof fn lemma_face_arcs(x: FramedPoset, s: Sign, d: int, p: int)
    requires
        x.valid(),
        graph_sized(x),
        1 <= d < x.levels(),
        x.cell(d, p),
    ensures
        ({
            let rels = face_relations(x.faces(s, d, p), cells_upto(x, d - 1), cells_upto(x, d) + p, s == Sign::Output);
            &&& face_arcs(x.faces(s, d, p), cells_upto(x, d - 1), (cells_upto(x, d) + p) as u32) == rels.map_values(|r: (usize, usize, bool)| rel_arc(r))
            &&& Seq::new(x.faces(s, d, p).len(), |i: int| if s == Sign::Output { 1u32 } else { 0u32 }) == rels.map_values(|r: (usize, usize, bool)| rel_arc_color(r))
        }),
{
    let faces = x.faces(s, d, p);
    let off = cells_upto(x, d - 1);
    let t = cells_upto(x, d) + p;
    let rels = face_relations(faces, off, t, s == Sign::Output);
    lemma_cells_upto_mono(x, d + 1, x.levels());
    lemma_cells_upto_mono(x, 0, d - 1);
    assert(cells_upto(x, d + 1) == cells_upto(x, d) + x.size(d));
    assert(cells_upto(x, d) == cells_upto(x, d - 1) + x.size(d - 1));
    assert forall|k: int| 0 <= k < faces.len() implies #[trigger] faces[k] < x.size(d - 1) by {
        assert(faces.contains(faces[k]));
        crate::isomorphism::lemma_face_below(x, s, d, p, faces[k]);
    }
    let a = face_arcs(faces, off, t as u32);
    let b = rels.map_values(|r: (usize, usize, bool)| rel_arc(r));
    assert forall|k: int| 0 <= k < a.len() implies a[k] == b[k] by {
        assert(faces[k] < x.size(d - 1));
        assert((off + faces[k]) as usize as int == off + faces[k]);
        assert(t as usize as int == t);
    }
    assert(a =~= b);
    let c = Seq::new(faces.len(), |i: int| if s == Sign::Output { 1u32 } else { 0u32 });
    let e = rels.map_values(|r: (usize, usize, bool)| rel_arc_color(r));
    assert(c =~= e);
}

proof fn lemma_cell_arcs(x: FramedPoset, d: int, p: int)
    requires
        x.valid(),
        graph_sized(x),
        1 <= d < x.levels(),
        x.cell(d, p),
    ensures
        cell_arcs(x, d, p) == cell_relations(x, d, p).map_values(|r: (usize, usize, bool)| rel_arc(r)),
        cell_arc_colors(x, d, p) == cell_relations(x, d, p).map_values(|r: (usize, usize, bool)| rel_arc_color(r)),
{
    lemma_face_arcs(x, Sign::Input, d, p);
    lemma_face_arcs(x, Sign::Output, d, p);
    let ri = face_relations(x.faces(Sign::Input, d, p), cells_upto(x, d - 1), cells_upto(x, d) + p, false);
    let ro = face_relations(x.faces(Sign::Output, d, p), cells_upto(x, d - 1), cells_upto(x, d) + p, true);
    assert(cell_relations(x, d, p) == ri + ro);
    assert((ri + ro).map_values(|r: (usize, usize, bool)| rel_arc(r)) =~= ri.map_values(|r: (usize, usize, bool)| rel_arc(r))
        + ro.map_values(|r: (usize, usize, bool)| rel_arc(r)));
    assert((ri + ro).map_values(|r: (usize, usize, bool)| rel_arc_color(r)) =~= ri.map_values(|r: (usize, usize, bool)| rel_arc_color(r))
        + ro.map_values(|r: (usize, usize, bool)| rel_arc_color(r)));
    assert(Seq::new(x.faces(Sign::Input, d, p).len(), |i: int| 0u32) =~= Seq::new(x.faces(Sign::Input, d, p).len(),
        |i: int| if Sign::Input == Sign::Output { 1u32 } else { 0u32 }));
    assert(Seq::new(x.faces(Sign::Output, d, p).len(), |i: int| 1u32) =~= Seq::new(x.faces(Sign::Output, d, p).len(),
        |i: int| if Sign::Output == Sign::Output { 1u32 } else { 0u32 }));
}

proof fn lemma_level_arcs(x: FramedPoset, d: int, m: int)
    requires
        x.valid(),
        graph_sized(x),
        1 <= d < x.levels(),
        0 <= m <= x.size(d),
    ensures
        level_arcs(x, d, m) == level_relations(x, d, m).map_values(|r: (usize, usize, bool)| rel_arc(r)),
        level_arc_colors(x, d, m) == level_relations(x, d, m).map_values(|r: (usize, usize, bool)| rel_arc_color(r)),
    decreases m,
{
    if m > 0 {
        lemma_level_arcs(x, d, m - 1);
        lemma_cell_arcs(x, d, m - 1);
        let a = level_relations(x, d, m - 1);
        let b = cell_relations(x, d, m - 1);
        assert((a + b).map_values(|r: (usize, usize, bool)| rel_arc(r)) =~= a.map_values(|r: (usize, usize, bool)| rel_arc(r))
            + b.map_values(|r: (usize, usize, bool)| rel_arc(r)));
        assert((a + b).map_values(|r: (usize, usize, bool)| rel_arc_color(r)) =~= a.map_values(|r: (usize, usize, bool)| rel_arc_color(r))
            + b.map_values(|r: (usize, usize, bool)| rel_arc_color(r)));
    } else {
        assert(level_relations(x, d, m).map_values(|r: (usize, usize, bool)| rel_arc(r)) =~= Seq::<(u32, u32)>::empty());
        assert(level_relations(x, d, m).map_values(|r: (usize, usize, bool)| rel_arc_color(r)) =~= Seq::<u32>::empty());
    }
}

/// The arcs of the Hasse diagram below level `n`, with their colours, are
/// those of the cover relations below level `n`, in the same order.
pub(crate) proof fn lemma_arcs_upto(x: FramedPoset, n: int)
    requires
        x.valid(),
        graph_sized(x),
        0 <= n <= x.levels(),
    ensures
        arcs_upto(x, n) == relations_upto(x, n).map_values(|r: (usize, usize, bool)| rel_arc(r)),
        arc_colors_upto(x, n) == relations_upto(x, n).map_values(|r: (usize, usize, bool)| rel_arc_color(r)),
    decreases n,
{
    if n > 1 {
        lemma_arcs_upto(x, n - 1);
        lemma_level_arcs(x, n - 1, x.size(n - 1));
        let a = relations_upto(x, n - 1);
        let b = level_relations(x, n - 1, x.size(n - 1));
        assert((a + b).map_values(|r: (usize, usize, bool)| rel_arc(r)) =~= a.map_values(|r: (usize, usize, bool)| rel_arc(r))
            + b.map_values(|r: (usize, usize, bool)| rel_arc(r)));
        assert((a + b).map_values(|r: (usize, usize, bool)| rel_arc_color(r)) =~= a.map_values(|r: (usize, usize, bool)| rel_arc_color(r))
            + b.map_values(|r: (usize, usize, bool)| rel_arc_color(r)));
    } else {
        assert(relations_upto(x, n).map_values(|r: (usize, usize, bool)| rel_arc(r)) =~= Seq::<(u32, u32)>::empty());
        assert(relations_upto(x, n).map_values(|r: (usize, usize, bool)| rel_arc_color(r)) =~= Seq::<u32>::empty());
    }
}

/// Vertex `cells_upto(x, d) + p` of the Hasse diagram below level `n` is
/// cell `(d, p)`, coloured by its basis.
pub(crate) proof fn lemma_vertex_entries(x: FramedPoset, palette: Seq<Seq<usize>>, n: int, d: int, p: int)
    requires
        0 <= n <= x.levels(),
    ensures
        cells_list_upto(x, n).len() == cells_upto(x, n),
        colors_upto(x, palette, n).len() == cells_upto(x, n),
        0 <= d < n && 0 <= p < x.size(d) ==> cells_list_upto(x, n)[cells_upto(x, d) + p] == (d as usize, p as usize)
            && colors_upto(x, palette, n)[cells_upto(x, d) + p] == color_of(palette, x.basis_at(d, p)) as u32,
    decreases n,
{
    if n > 0 {
        lemma_vertex_entries(x, palette, n - 1, d, p);
        lemma_cells_upto_mono(x, 0, n - 1);
        let pre = cells_list_upto(x, n - 1);
        let cpre = colors_upto(x, palette, n - 1);
        let row = Seq::new(x.size(n - 1) as nat, |q: int| ((n - 1) as usize, q as usize));
        let crow = Seq::new(x.size(n - 1) as nat, |q: int| color_of(palette, x.basis_at(n - 1, q)) as u32);
        assert(cells_list_upto(x, n) == pre + row);
        assert(colors_upto(x, palette, n) == cpre + crow);
        if 0 <= d < n - 1 && 0 <= p < x.size(d) {
            lemma_cells_upto_mono(x, d + 1, n - 1);
            lemma_cells_upto_mono(x, 0, d);
            assert(cells_upto(x, d + 1) == cells_upto(x, d) + x.size(d));
            assert((pre + row)[cells_upto(x, d) + p] == pre[cells_upto(x, d) + p]);
            assert((cpre + crow)[cells_upto(x, d) + p] == cpre[cells_upto(x, d) + p]);
        } else if d == n - 1 && 0 <= p < x.size(d) {
            lemma_cells_upto_mono(x, 0, d);
            assert((pre + row)[cells_upto(x, d) + p] == row[p]);
            assert((cpre + crow)[cells_upto(x, d) + p] == crow[p]);
        }
    }
}

/// An isomorphism of framed posets with as many levels on both sides has
/// levels of equal sizes, numbered alike.
pub(crate) proof fn lemma_iso_sizes(e: Embedding)
    requires
        e.valid(),
        e.surjective(),
        e.dom.levels() == e.cod.levels(),
    ensures
        forall|d: int| #[trigger] e.dom.size(d) == e.cod.size(d),
        forall|n: int| #[trigger] cells_upto(*e.dom, n) == cells_upto(*e.cod, n),
        cell_total(*e.dom) == cell_total(*e.cod),
        forall|d: int, j: int| e.cod.cell(d, j) ==> e.dom.cell(d, at(e.inv, d, j) as int)
            && #[trigger] at(e.map, d, at(e.inv, d, j) as int) == j,
        forall|d: int, i: int| e.dom.cell(d, i) ==> e.cod.cell(d, at(e.map, d, i) as int)
            && #[trigger] at(e.inv, d, at(e.map, d, i) as int) == i,
{
    let x = *e.dom;
    let y = *e.cod;
    assert forall|d: int, j: int| y.cell(d, j) implies x.cell(d, at(e.inv, d, j) as int) && #[trigger] at(e.map, d, at(e.inv, d, j) as int) == j by {
        assert(at(e.inv, d, j) != NO_PREIMAGE);
    }
    assert forall|d: int, i: int| x.cell(d, i) implies y.cell(d, at(e.map, d, i) as int) && #[trigger] at(e.inv, d, at(e.map, d, i) as int) == i by {
    }
    assert forall|d: int| #[trigger] x.size(d) == y.size(d) by {
        if 0 <= d < x.levels() {
            let f = |i: int| at(e.map, d, i) as int;
            assert forall|i: int| 0 <= i < x.size(d) implies 0 <= #[trigger] f(i) < y.size(d) by {
                assert(x.cell(d, i));
            }
            assert forall|i: int, k: int| 0 <= i < x.size(d) && 0 <= k < x.size(d) && i != k implies #[trigger] f(i) != #[trigger] f(k) by {
                assert(x.cell(d, i) && x.cell(d, k));
            }
            lemma_injection_bound(f, x.size(d), y.size(d));
            let g = |j: int| at(e.inv, d, j) as int;
            assert forall|j: int| 0 <= j < y.size(d) implies 0 <= #[trigger] g(j) < x.size(d) by {
                assert(y.cell(d, j));
            }
            assert forall|j: int, k: int| 0 <= j < y.size(d) && 0 <= k < y.size(d) && j != k implies #[trigger] g(j) != #[trigger] g(k) by {
                assert(y.cell(d, j) && y.cell(d, k));
                assert(at(e.map, d, at(e.inv, d, j) as int) == j);
                assert(at(e.map, d, at(e.inv, d, k) as int) == k);
            }
            lemma_injection_bound(g, y.size(d), x.size(d));
        }
    }
    assert forall|n: int| #[trigger] cells_upto(x, n) == cells_upto(y, n) by {
        lemma_pair_cells(x, y, n);
    }
}

/// The vertex of the domain's Hasse diagram that vertex `j` of the
/// codomain's comes from under `e`.
pub open spec fn vertex_preimage(e: Embedding, j: int) -> u32 {
    let c = cell_at(*e.cod, j);
    (cells_upto(*e.dom, c.0) + at(e.inv, c.0, c.1)) as u32
}

/// The vertex map, from the codomain's Hasse diagram to the domain's, of `e`.
pub open spec fn vertex_preimages(e: Embedding) -> Seq<u32> {
    Seq::new(cell_total(*e.cod) as nat, |j: int| vertex_preimage(e, j))
}

/// The vertex of cell `(d, p)` of the codomain comes from the vertex of its
/// preimage.
pub(crate) proof fn lemma_vertex_preimage(e: Embedding, d: int, p: int)
    requires
        e.valid(),
        e.surjective(),
        e.dom.levels() == e.cod.levels(),
        cell_total(*e.cod) <= u32::MAX,
        e.cod.cell(d, p),
    ensures
        vertex_preimages(e)[cells_upto(*e.cod, d) + p] as int == cells_upto(*e.dom, d) + at(e.inv, d, p),
        0 <= cells_upto(*e.cod, d) + p < cell_total(*e.cod),
{
    let x = *e.dom;
    let y = *e.cod;
    lemma_iso_sizes(e);
    let j = cells_upto(y, d) + p;
    lemma_cells_upto_mono(y, d + 1, y.levels());
    lemma_cells_upto_mono(y, 0, d);
    assert(cells_upto(y, d + 1) == cells_upto(y, d) + y.size(d));
    lemma_cell_at(y, j);
    let c = cell_at(y, j);
    lemma_cell_vertex_unique(y, c.0, c.1, d, p);
    assert(x.cell(d, at(e.inv, d, p) as int));
    assert(cells_upto(x, d) == cells_upto(y, d));
    assert(cells_upto(x, d + 1) == cells_upto(y, d + 1));
}

/// The vertex map of an isomorphism permutes the vertices.
pub(crate) proof fn lemma_preimages_permute(e: Embedding)
    requires
        e.valid(),
        e.surjective(),
        e.dom.levels() == e.cod.levels(),
        cell_total(*e.cod) <= u32::MAX,
    ensures
        labeling_permutes(cell_total(*e.cod) as nat, vertex_preimages(e)),
{
    let x = *e.dom;
    let y = *e.cod;
    lemma_cells_upto_mono(y, 0, y.levels());
    let n = cell_total(y) as nat;
    let m = vertex_preimages(e);
    lemma_iso_sizes(e);
    assert forall|v: int| 0 <= v < n implies #[trigger] m[v] < n by {
        lemma_cell_at(y, v);
        let c = cell_at(y, v);
        lemma_vertex_preimage(e, c.0, c.1);
        lemma_cells_upto_mono(x, c.0 + 1, x.levels());
        assert(cells_upto(x, c.0 + 1) == cells_upto(x, c.0) + x.size(c.0));
        assert(x.cell(c.0, at(e.inv, c.0, c.1) as int));
    }
    assert forall|v: int, w: int| 0 <= v < n && 0 <= w < n && v != w implies #[trigger] m[v] != #[trigger] m[w] by {
        lemma_cell_at(y, v);
        lemma_cell_at(y, w);
        let c1 = cell_at(y, v);
        let c2 = cell_at(y, w);
        lemma_vertex_preimage(e, c1.0, c1.1);
        lemma_vertex_preimage(e, c2.0, c2.1);
        let i1 = at(e.inv, c1.0, c1.1) as int;
        let i2 = at(e.inv, c2.0, c2.1) as int;
        assert(x.cell(c1.0, i1));
        assert(x.cell(c2.0, i2));
        if m[v] == m[w] {
            lemma_cell_vertex_unique(x, c1.0, i1, c2.0, i2);
            assert(at(e.map, c1.0, i1) == c1.1);
            assert(at(e.map, c2.0, i2) == c2.1);
        }
    }
    assert forall|i: int| 0 <= i < n implies #[trigger] hit(n, m, i) by {
        assert(cell_total(x) == cell_total(y));
        lemma_cell_at(x, i);
        let c = cell_at(x, i);
        let p = at(e.map, c.0, c.1) as int;
        assert(y.cell(c.0, p));
        lemma_vertex_preimage(e, c.0, p);
        assert(at(e.inv, c.0, p) == c.1);
        assert(cells_upto(x, c.0) == cells_upto(y, c.0));
        let j = cells_upto(y, c.0) + p;
        assert(0 <= j < n && m[j] == i);
    }
}

/// A cell's vertex is below the number of cells.
pub(crate) proof fn lemma_flat_range(x: FramedPoset, d: int, p: int)
    requires
        x.cell(d, p),
    ensures
        0 <= cells_upto(x, d) + p < cell_total(x),
        cells_upto(x, d) + p < cells_upto(x, d + 1),
{
    lemma_cells_upto_mono(x, d + 1, x.levels());
    lemma_cells_upto_mono(x, 0, d);
    assert(cells_upto(x, d + 1) == cells_upto(x, d) + x.size(d));
}

/// The Hasse arcs and their colours are those of the cover relations, which
/// are cover relations of `x` and distinct.
pub(crate) proof fn lemma_hasse_arcs(x: FramedPoset)
    requires
        x.framed(),
        canonical_sized(x),
    ensures
        hasse_arcs(x) == cover_relations(x).map_values(|r: (usize, usize, bool)| rel_arc(r)),
        hasse_arc_colors(x) == cover_relations(x).map_values(|r: (usize, usize, bool)| rel_arc_color(r)),
        graph_sized(x),
        arcs_distinct(hasse_arcs(x)),
        arcs_within(hasse_arcs(x), hasse_order(x)),
{
    crate::ofp::lemma_framed_valid(&x);
    lemma_cover_relations(x);
    lemma_cells_upto_mono(x, 0, x.levels());
    lemma_arcs_upto(x, x.levels());
    let rels = cover_relations(x);
    let arcs = hasse_arcs(x);
    assert forall|i: int, j: int| 0 <= i < j < arcs.len() implies #[trigger] arcs[i] != #[trigger] arcs[j] by {
        assert(rel_lt(rels[i], rels[j]));
        let ri = rels[i];
        let rj = rels[j];
        assert(rels.contains(ri));
        assert(rels.contains(rj));
        if arcs[i] == arcs[j] {
            assert(ri.0 as u32 == rj.0 as u32 && ri.1 as u32 == rj.1 as u32);
            assert(ri.0 == rj.0 && ri.1 == rj.1);
            let (d, p, s, f) = choose|d: int, p: int, s: Sign, f: usize| #[trigger] rel_of(x, ri, d, p, s, f);
            let (d2, p2, s2, f2) = choose|d: int, p: int, s: Sign, f: usize| #[trigger] rel_of(x, rj, d, p, s, f);
            lemma_flat_range(x, d, p);
            lemma_flat_range(x, d2, p2);
            lemma_cell_vertex_unique(x, d, p, d2, p2);
            assert(x.cell_sound(d, p));
            crate::isomorphism::lemma_face_below(x, s, d, p, f);
            crate::isomorphism::lemma_face_below(x, s2, d, p, f2);
            assert(x.cell(d - 1, f as int) && x.cell(d - 1, f2 as int));
            lemma_flat_range(x, d - 1, f as int);
            lemma_flat_range(x, d - 1, f2 as int);
            lemma_cell_vertex_unique(x, d - 1, f as int, d - 1, f2 as int);
            if s != s2 {
                assert(x.faces(Sign::Input, d, p).contains(f) && x.faces(Sign::Output, d, p).contains(f));
            }
        }
    }
    assert forall|i: int| 0 <= i < arcs.len() implies (#[trigger] arcs[i]).0 < hasse_order(x) && arcs[i].1 < hasse_order(x) by {
        assert(rels[i].0 < cell_total(x) && rels[i].1 < cell_total(x));
    }
}

/// The facts about an isomorphism `e` of framed posets that the proofs on
/// its Hasse diagrams use.
pub open spec fn iso_setting(e: Embedding) -> bool {
    &&& e.valid()
    &&& e.surjective()
    &&& e.closed()
    &&& e.dom.levels() == e.cod.levels()
    &&& e.dom.framed()
    &&& e.cod.framed()
    &&& canonical_sized(*e.dom)
    &&& canonical_sized(*e.cod)
}

/// A face of a cell of the codomain comes from a face of its preimage.
proof fn lemma_face_preimage(e: Embedding, s: Sign, d: int, p: int, f: usize)
    requires
        iso_setting(e),
        1 <= d,
        e.cod.cell(d, p),
        e.cod.faces(s, d, p).contains(f),
    ensures
        e.dom.cell(d, at(e.inv, d, p) as int),
        e.cod.cell(d - 1, f as int),
        e.dom.cell(d - 1, at(e.inv, d - 1, f as int) as int),
        e.dom.faces(s, d, at(e.inv, d, p) as int).contains(at(e.inv, d - 1, f as int) as usize),
{
    let x = *e.dom;
    let y = *e.cod;
    crate::ofp::lemma_framed_valid(&x);
    crate::ofp::lemma_framed_valid(&y);
    lemma_iso_sizes(e);
    let q = at(e.inv, d, p) as int;
    assert(x.cell(d, q) && at(e.map, d, q) == p);
    assert(same_elements(y.faces(s, d, at(e.map, d, q) as int), e.image_faces(s, d, q)));
    assert(e.image_faces(s, d, q).contains(f));
    let img = e.image_faces(s, d, q);
    let idx = choose|idx: int| 0 <= idx < img.len() && img[idx] == f;
    let h = x.faces(s, d, q)[idx];
    assert(x.faces(s, d, q).contains(h));
    crate::isomorphism::lemma_face_below(x, s, d, q, h);
    crate::isomorphism::lemma_face_below(y, s, d, p, f);
    assert(x.cell(d - 1, h as int));
    assert(at(e.map, d - 1, h as int) == f);
    assert(at(e.inv, d - 1, at(e.map, d - 1, h as int) as int) == h);
}

/// A face of a cell of the domain goes to a face of its image.
proof fn lemma_face_image(e: Embedding, s: Sign, d: int, q: int, g: usize)
    requires
        iso_setting(e),
        1 <= d,
        e.dom.cell(d, q),
        e.dom.faces(s, d, q).contains(g),
    ensures
        e.cod.cell(d, at(e.map, d, q) as int),
        e.dom.cell(d - 1, g as int),
        e.cod.cell(d - 1, at(e.map, d - 1, g as int) as int),
        e.cod.faces(s, d, at(e.map, d, q) as int).contains(at(e.map, d - 1, g as int)),
        at(e.inv, d, at(e.map, d, q) as int) == q,
        at(e.inv, d - 1, at(e.map, d - 1, g as int) as int) == g,
{
    let x = *e.dom;
    crate::ofp::lemma_framed_valid(&x);
    lemma_iso_sizes(e);
    crate::isomorphism::lemma_face_below(x, s, d, q, g);
    let p = at(e.map, d, q) as int;
    assert(same_elements(e.cod.faces(s, d, p), e.image_faces(s, d, q)));
    let k = choose|k: int| 0 <= k < x.faces(s, d, q).len() && x.faces(s, d, q)[k] == g;
    assert(e.image_faces(s, d, q)[k] == at(e.map, d - 1, g as int));
    assert(e.image_faces(s, d, q).contains(at(e.map, d - 1, g as int)));
}

/// Every arc of the codomain's Hasse diagram goes to an arc of the domain's
/// of the same colour.
proof fn lemma_arcs_matched(e: Embedding, k: int)
    requires
        iso_setting(e),
        0 <= k < hasse_arcs(*e.cod).len(),
    ensures
        arc_matched(hasse_arcs(*e.dom), hasse_arc_colors(*e.dom), hasse_arcs(*e.cod), hasse_arc_colors(*e.cod), vertex_preimages(e), k),
{
    let x = *e.dom;
    let y = *e.cod;
    lemma_hasse_arcs(x);
    lemma_hasse_arcs(y);
    lemma_cover_relations(x);
    lemma_cover_relations(y);
    lemma_iso_sizes(e);
    let rel = cover_relations(y)[k];
    assert(cover_relations(y).contains(rel));
    let (d, p, s, f) = choose|d: int, p: int, s: Sign, f: usize| #[trigger] rel_of(y, rel, d, p, s, f);
    lemma_face_preimage(e, s, d, p, f);
    let q = at(e.inv, d, p) as int;
    let g = at(e.inv, d - 1, f as int);
    let rx = face_rel(x, d, q, s, g);
    assert(rel_of(x, rx, d, q, s, g));
    assert(cover_relations(x).contains(rx));
    let k1 = choose|k1: int| 0 <= k1 < cover_relations(x).len() && cover_relations(x)[k1] == rx;
    lemma_flat_range(y, d, p);
    lemma_flat_range(y, d - 1, f as int);
    lemma_flat_range(x, d, q);
    lemma_flat_range(x, d - 1, g as int);
    lemma_vertex_preimage(e, d, p);
    lemma_vertex_preimage(e, d - 1, f as int);
    let m = vertex_preimages(e);
    let a2 = hasse_arcs(y)[k];
    assert(a2 == rel_arc(rel));
    assert(a2.0 as int == cells_upto(y, d - 1) + f);
    assert(a2.1 as int == cells_upto(y, d) + p);
    let a1 = hasse_arcs(x)[k1];
    assert(a1 == rel_arc(rx));
    assert(a1.0 == m[a2.0 as int]);
    assert(a1.1 == m[a2.1 as int]);
    assert(hasse_arc_colors(x)[k1] == hasse_arc_colors(y)[k]);
}

/// Every arc of the domain's Hasse diagram is where an arc of the
/// codomain's of the same colour goes.
proof fn lemma_arcs_reached(e: Embedding, k1: int)
    requires
        iso_setting(e),
        0 <= k1 < hasse_arcs(*e.dom).len(),
    ensures
        arc_reached(hasse_arcs(*e.dom), hasse_arc_colors(*e.dom), hasse_arcs(*e.cod), hasse_arc_colors(*e.cod), vertex_preimages(e), k1),
{
    let x = *e.dom;
    let y = *e.cod;
    lemma_hasse_arcs(x);
    lemma_hasse_arcs(y);
    lemma_cover_relations(x);
    lemma_cover_relations(y);
    lemma_iso_sizes(e);
    let rx = cover_relations(x)[k1];
    assert(cover_relations(x).contains(rx));
    let (d, q, s, g) = choose|d: int, p: int, s: Sign, f: usize| #[trigger] rel_of(x, rx, d, p, s, f);
    lemma_face_image(e, s, d, q, g);
    let p = at(e.map, d, q) as int;
    let f = at(e.map, d - 1, g as int);
    let rel = face_rel(y, d, p, s, f);
    assert(rel_of(y, rel, d, p, s, f));
    assert(cover_relations(y).contains(rel));
    let k = choose|k: int| 0 <= k < cover_relations(y).len() && cover_relations(y)[k] == rel;
    lemma_flat_range(y, d, p);
    lemma_flat_range(y, d - 1, f as int);
    lemma_flat_range(x, d, q);
    lemma_flat_range(x, d - 1, g as int);
    lemma_vertex_preimage(e, d, p);
    lemma_vertex_preimage(e, d - 1, f as int);
    let m = vertex_preimages(e);
    let a2 = hasse_arcs(y)[k];
    assert(a2 == rel_arc(rel));
    let a1 = hasse_arcs(x)[k1];
    assert(a1 == rel_arc(rx));
    assert(m[a2.0 as int] == a1.0);
    assert(m[a2.1 as int] == a1.1);
    assert(hasse_arc_colors(x)[k1] == hasse_arc_colors(y)[k]);
}

/// The vertex map of an isomorphism of framed posets is an isomorphism of
/// their coloured Hasse diagrams, for any palette.
pub(crate) proof fn lemma_preimages_vf2(e: Embedding, palette: Seq<Seq<usize>>)
    requires
        iso_setting(e),
    ensures
        vf2_map(hasse_order(*e.dom), hasse_arcs(*e.dom), hasse_colors(*e.dom, palette), hasse_arc_colors(*e.dom),
            hasse_order(*e.cod), hasse_arcs(*e.cod), hasse_colors(*e.cod, palette), hasse_arc_colors(*e.cod), vertex_preimages(e)),
        arcs_distinct(hasse_arcs(*e.dom)),
        arcs_distinct(hasse_arcs(*e.cod)),
{
    let x = *e.dom;
    let y = *e.cod;
    lemma_hasse_arcs(x);
    lemma_hasse_arcs(y);
    lemma_cover_relations(x);
    lemma_cover_relations(y);
    lemma_iso_sizes(e);
    lemma_preimages_permute(e);
    let m = vertex_preimages(e);
    lemma_vertex_entries(x, palette, x.levels(), 0, 0);
    lemma_vertex_entries(y, palette, y.levels(), 0, 0);
    assert forall|j: int| 0 <= j < hasse_order(y) implies hasse_colors(x, palette)[#[trigger] m[j] as int] == hasse_colors(y, palette)[j] by {
        lemma_cell_at(y, j);
        let c = cell_at(y, j);
        lemma_vertex_preimage(e, c.0, c.1);
        let q = at(e.inv, c.0, c.1) as int;
        assert(x.cell(c.0, q));
        lemma_vertex_entries(x, palette, x.levels(), c.0, q);
        lemma_vertex_entries(y, palette, y.levels(), c.0, c.1);
        assert(x.basis_at(c.0, q) == y.basis_at(c.0, at(e.map, c.0, q) as int));
    }
    assert forall|k: int| 0 <= k < hasse_arcs(y).len() implies
        #[trigger] arc_matched(hasse_arcs(x), hasse_arc_colors(x), hasse_arcs(y), hasse_arc_colors(y), m, k) by {
        lemma_arcs_matched(e, k);
    }
    assert forall|k1: int| 0 <= k1 < hasse_arcs(x).len() implies
        #[trigger] arc_reached(hasse_arcs(x), hasse_arc_colors(x), hasse_arcs(y), hasse_arc_colors(y), m, k1) by {
        lemma_arcs_reached(e, k1);
    }
}

/// The forward table after the first `j` vertices of the codomain's
/// diagram: the entries of the cells whose images come before `j`.
pub open spec fn map_so_far(e: Embedding, j: int) -> Seq<Seq<usize>> {
    Seq::new(e.dom.levels() as nat, |d: int| Seq::new(e.dom.size(d) as nat, |q: int|
        if cells_upto(*e.cod, d) + at(e.map, d, q) < j { at(e.map, d, q) } else { NO_PREIMAGE }))
}

/// The inverse table after the first `j` vertices of the codomain's diagram.
pub open spec fn inv_so_far(e: Embedding, j: int) -> Seq<Seq<usize>> {
    Seq::new(e.cod.levels() as nat, |d: int| Seq::new(e.cod.size(d) as nat, |p: int|
        if cells_upto(*e.cod, d) + p < j { at(e.inv, d, p) } else { NO_PREIMAGE }))
}

proof fn lemma_tables_after(e: Embedding, j: int)
    requires
        iso_setting(e),
        0 <= j <= cell_total(*e.cod),
    ensures
        map_after(*e.dom, hasse_cells(*e.dom), hasse_cells(*e.cod), vertex_preimages(e), j) == map_so_far(e, j),
        inv_after(*e.cod, hasse_cells(*e.dom), hasse_cells(*e.cod), vertex_preimages(e), j) == inv_so_far(e, j),
    decreases j,
{
    let x = *e.dom;
    let y = *e.cod;
    lemma_iso_sizes(e);
    lemma_cover_relations(x);
    lemma_cover_relations(y);
    crate::ofp::lemma_framed_valid(&x);
    crate::ofp::lemma_framed_valid(&y);
    let dc = hasse_cells(x);
    let cc = hasse_cells(y);
    let m = vertex_preimages(e);
    if j == 0 {
        assert forall|d: int| 0 <= d implies #[trigger] cells_upto(y, d) >= 0 by {
            lemma_cells_upto_mono(y, 0, d);
        }
        assert(map_after(x, dc, cc, m, 0) =~~= map_so_far(e, 0));
        assert(inv_after(y, dc, cc, m, 0) =~~= inv_so_far(e, 0));
    } else {
        lemma_tables_after(e, j - 1);
        lemma_cell_at(y, j - 1);
        let c = cell_at(y, j - 1);
        let d0 = c.0;
        let p0 = c.1;
        lemma_vertex_preimage(e, d0, p0);
        let q0 = at(e.inv, d0, p0) as int;
        assert(x.cell(d0, q0));
        lemma_vertex_entries(x, Seq::empty(), x.levels(), d0, q0);
        lemma_vertex_entries(y, Seq::empty(), y.levels(), d0, p0);
        assert(dc[m[j - 1] as int] == (d0 as usize, q0 as usize));
        assert(cc[j - 1] == (d0 as usize, p0 as usize));
        let prev = map_so_far(e, j - 1);
        let next = map_so_far(e, j);
        assert(map_after(x, dc, cc, m, j) == prev.update(d0, prev[d0].update(q0, p0 as usize)));
        assert forall|d: int, q: int| 0 <= d < x.levels() && 0 <= q < x.size(d) implies
            #[trigger] next[d][q] == (if d == d0 && q == q0 { p0 as usize } else { prev[d][q] }) by {
            assert(x.cell(d, q));
            let pm = at(e.map, d, q) as int;
            assert(y.cell(d, pm));
            if d == d0 && q == q0 {
                assert(pm == p0);
            } else if cells_upto(y, d) + pm == j - 1 {
                lemma_cell_vertex_unique(y, d, pm, d0, p0);
                assert(at(e.inv, d, pm) == q);
            }
        }
        assert(map_after(x, dc, cc, m, j) =~~= next);
        let iprev = inv_so_far(e, j - 1);
        let inext = inv_so_far(e, j);
        assert(inv_after(y, dc, cc, m, j) == iprev.update(d0, iprev[d0].update(p0, q0 as usize)));
        assert forall|d: int, p: int| 0 <= d < y.levels() && 0 <= p < y.size(d) implies
            #[trigger] inext[d][p] == (if d == d0 && p == p0 { q0 as usize } else { iprev[d][p] }) by {
            if cells_upto(y, d) + p == j - 1 && !(d == d0 && p == p0) {
                lemma_cell_vertex_unique(y, d, p, d0, p0);
            }
        }
        assert(inv_after(y, dc, cc, m, j) =~~= inext);
    }
}

/// The vertex map of an isomorphism of framed posets is accepted, with the
/// tables of the isomorphism.
pub(crate) proof fn lemma_preimages_accepted(e: Embedding)
    requires
        iso_setting(e),
    ensures
        map_accepted(e.dom, e.cod, hasse_cells(*e.dom), hasse_cells(*e.cod), vertex_preimages(e)),
        map_after(*e.dom, hasse_cells(*e.dom), hasse_cells(*e.cod), vertex_preimages(e), vertex_preimages(e).len() as int) == tv(e.map),
        inv_after(*e.cod, hasse_cells(*e.dom), hasse_cells(*e.cod), vertex_preimages(e), vertex_preimages(e).len() as int) == tv(e.inv),
{
    let x = *e.dom;
    let y = *e.cod;
    lemma_iso_sizes(e);
    lemma_cover_relations(x);
    lemma_cover_relations(y);
    lemma_cells_upto_mono(y, 0, y.levels());
    let n = cell_total(y);
    let m = vertex_preimages(e);
    let dc = hasse_cells(x);
    let cc = hasse_cells(y);
    lemma_tables_after(e, n);
    lemma_vertex_entries(x, Seq::empty(), x.levels(), 0, 0);
    lemma_vertex_entries(y, Seq::empty(), y.levels(), 0, 0);
    assert(map_so_far(e, n) =~~= tv(e.map)) by {
        assert forall|d: int, q: int| #[trigger] x.cell(d, q) implies cells_upto(y, d) + at(e.map, d, q) < n by {
            assert(x.cell(d, q));
            lemma_flat_range(y, d, at(e.map, d, q) as int);
        }
        assert forall|d: int| 0 <= d < x.levels() implies #[trigger] tv(e.map)[d] == e.map@[d]@ by {}
    }
    assert(inv_so_far(e, n) =~~= tv(e.inv)) by {
        assert forall|d: int, p: int| #[trigger] y.cell(d, p) implies cells_upto(y, d) + p < n by {
            lemma_flat_range(y, d, p);
        }
        assert forall|d: int| 0 <= d < y.levels() implies #[trigger] tv(e.inv)[d] == e.inv@[d]@ by {}
    }
    assert forall|j: int| 0 <= j < m.len() implies #[trigger] vertex_ok(x, y, dc, cc, m, j) by {
        lemma_cell_at(y, j);
        let c = cell_at(y, j);
        lemma_vertex_preimage(e, c.0, c.1);
        let q = at(e.inv, c.0, c.1) as int;
        assert(x.cell(c.0, q));
        lemma_vertex_entries(x, Seq::empty(), x.levels(), c.0, q);
        lemma_vertex_entries(y, Seq::empty(), y.levels(), c.0, c.1);
        lemma_flat_range(x, c.0, q);
    }
    assert(e.wf());
    assert(tables_isomorphism(e.dom, e.cod, map_after(x, dc, cc, m, m.len() as int), inv_after(y, dc, cc, m, m.len() as int)));
}

/// The tables of every accepted vertex map in `maps` are in the accepted
/// tables.
pub(crate) proof fn lemma_accepted_contains(dom: std::sync::Arc<FramedPoset>, cod: std::sync::Arc<FramedPoset>, x: FramedPoset,
    y: FramedPoset, dc: Seq<(usize, usize)>, cc: Seq<(usize, usize)>, maps: Seq<Seq<u32>>, m: Seq<u32>)
    requires
        *dom == x,
        *cod == y,
        maps.contains(m),
        map_accepted(dom, cod, dc, cc, m),
    ensures
        accepted_tables(dom, cod, dc, cc, maps).contains((map_after(*dom, dc, cc, m, m.len() as int), inv_after(*cod, dc, cc, m, m.len() as int))),
    decreases maps.len(),
{
    let t = (map_after(x, dc, cc, m, m.len() as int), inv_after(y, dc, cc, m, m.len() as int));
    if maps.last() == m {
        let prev = accepted_tables(dom, cod, dc, cc, maps.drop_last());
        assert(accepted_tables(dom, cod, dc, cc, maps) == prev.push(t));
        assert(prev.push(t)[prev.len() as int] == t);
    } else {
        let i = choose|i: int| 0 <= i < maps.len() && maps[i] == m;
        assert(maps.drop_last()[i] == m);
        lemma_accepted_contains(dom, cod, x, y, dc, cc, maps.drop_last(), m);
        let prev = accepted_tables(dom, cod, dc, cc, maps.drop_last());
        let k = choose|k: int| 0 <= k < prev.len() && prev[k] == t;
        if map_accepted(dom, cod, dc, cc, maps.last()) {
            let last = maps.last();
            let nt = (map_after(x, dc, cc, last, last.len() as int), inv_after(y, dc, cc, last, last.len() as int));
            assert(accepted_tables(dom, cod, dc, cc, maps) == prev.push(nt));
            assert(prev.push(nt)[k] == t);
        }
    }
}

/// When the search lists every isomorphism of the coloured Hasse diagrams,
/// the tables of every isomorphism of framed posets are accepted.
pub(crate) proof fn lemma_isomorphism_found(e: Embedding, palette: Seq<Seq<usize>>, maps: Seq<Seq<u32>>)
    requires
        iso_setting(e),
        forall|m: Seq<u32>| arcs_distinct(hasse_arcs(*e.dom)) && arcs_distinct(hasse_arcs(*e.cod)) && #[trigger] vf2_map(
            hasse_order(*e.dom), hasse_arcs(*e.dom), hasse_colors(*e.dom, palette), hasse_arc_colors(*e.dom),
            hasse_order(*e.cod), hasse_arcs(*e.cod), hasse_colors(*e.cod, palette), hasse_arc_colors(*e.cod), m) ==> maps.contains(m),
    ensures
        accepted_tables(e.dom, e.cod, hasse_cells(*e.dom), hasse_cells(*e.cod), maps).contains((tv(e.map), tv(e.inv))),
{
    lemma_preimages_vf2(e, palette);
    lemma_preimages_accepted(e);
    let m = vertex_preimages(e);
    assert(maps.contains(m));
    let x = *e.dom;
    let y = *e.cod;
    let dc = hasse_cells(x);
    let cc = hasse_cells(y);
    lemma_accepted_contains(e.dom, e.cod, x, y, dc, cc, maps, m);
}

/// The inverse table of a vertex map after its first `j` vertices.
pub open spec fn inv_of_map(x: FramedPoset, y: FramedPoset, m: Seq<u32>, j: int) -> Seq<Seq<usize>> {
    Seq::new(y.levels() as nat, |d: int| Seq::new(y.size(d) as nat, |p: int|
        if cells_upto(y, d) + p < j { hasse_cells(x)[m[cells_upto(y, d) + p] as int].1 } else { NO_PREIMAGE }))
}

proof fn lemma_inv_of_map(x: FramedPoset, y: FramedPoset, m: Seq<u32>, j: int)
    requires
        0 <= j <= cell_total(y),
        cell_total(y) <= u32::MAX,
    ensures
        inv_after(y, hasse_cells(x), hasse_cells(y), m, j) == inv_of_map(x, y, m, j),
    decreases j,
{
    let dc = hasse_cells(x);
    let cc = hasse_cells(y);
    if j == 0 {
        assert forall|d: int| 0 <= d implies #[trigger] cells_upto(y, d) >= 0 by {
            lemma_cells_upto_mono(y, 0, d);
        }
        assert(inv_after(y, dc, cc, m, 0) =~~= inv_of_map(x, y, m, 0));
    } else {
        lemma_inv_of_map(x, y, m, j - 1);
        lemma_cells_upto_mono(y, 0, y.levels());
        lemma_cell_at(y, j - 1);
        let c = cell_at(y, j - 1);
        lemma_vertex_entries(y, Seq::empty(), y.levels(), c.0, c.1);
        assert(cc[j - 1] == (c.0 as usize, c.1 as usize));
        assert(y.basis@.len() == y.basis.len());
        assert(y.size(c.0) == y.basis@[c.0]@.len());
        assert(y.basis@[c.0]@.len() == y.basis@[c.0].len());
        assert((c.0 as usize) as int == c.0);
        assert((c.1 as usize) as int == c.1);
        let prev = inv_of_map(x, y, m, j - 1);
        let next = inv_of_map(x, y, m, j);
        let v = dc[m[j - 1] as int].1;
        assert(inv_after(y, dc, cc, m, j) == prev.update(c.0, prev[c.0].update(c.1, v)));
        assert forall|d: int, p: int| 0 <= d < y.levels() && 0 <= p < y.size(d) implies
            #[trigger] next[d][p] == (if d == c.0 && p == c.1 { v } else { prev[d][p] }) by {
            if cells_upto(y, d) + p == j - 1 && !(d == c.0 && p == c.1) {
                lemma_cell_vertex_unique(y, d, p, c.0, c.1);
            }
        }
        assert(inv_after(y, dc, cc, m, j) =~~= next);
    }
}

/// Two accepted vertex maps with the same inverse table are equal.
pub(crate) proof fn lemma_accepted_injective(dom: std::sync::Arc<FramedPoset>, cod: std::sync::Arc<FramedPoset>, x: FramedPoset,
    y: FramedPoset, m1: Seq<u32>, m2: Seq<u32>)
    requires
        *dom == x,
        *cod == y,
        cell_total(y) <= u32::MAX,
        cell_total(x) <= u32::MAX,
        map_accepted(dom, cod, hasse_cells(x), hasse_cells(y), m1),
        map_accepted(dom, cod, hasse_cells(x), hasse_cells(y), m2),
        inv_after(y, hasse_cells(x), hasse_cells(y), m1, m1.len() as int) == inv_after(y, hasse_cells(x), hasse_cells(y), m2, m2.len() as int),
    ensures
        m1 == m2,
{
    let dc = hasse_cells(x);
    let cc = hasse_cells(y);
    lemma_vertex_entries(x, Seq::empty(), x.levels(), 0, 0);
    lemma_vertex_entries(y, Seq::empty(), y.levels(), 0, 0);
    lemma_cells_upto_mono(y, 0, y.levels());
    lemma_cells_upto_mono(x, 0, x.levels());
    let n = cell_total(y);
    lemma_inv_of_map(x, y, m1, n);
    lemma_inv_of_map(x, y, m2, n);
    assert forall|j: int| 0 <= j < m1.len() implies m1[j] == m2[j] by {
        lemma_cell_at(y, j);
        let c = cell_at(y, j);
        assert(vertex_ok(x, y, dc, cc, m1, j));
        assert(vertex_ok(x, y, dc, cc, m2, j));
        assert(inv_of_map(x, y, m1, n)[c.0][c.1] == inv_of_map(x, y, m2, n)[c.0][c.1]);
        let v1 = m1[j] as int;
        let v2 = m2[j] as int;
        lemma_cell_at(x, v1);
        lemma_cell_at(x, v2);
        let a1 = cell_at(x, v1);
        let a2 = cell_at(x, v2);
        lemma_vertex_entries(x, Seq::empty(), x.levels(), a1.0, a1.1);
        lemma_vertex_entries(x, Seq::empty(), x.levels(), a2.0, a2.1);
        lemma_flat_range(x, a1.0, a1.1);
        lemma_flat_range(x, a2.0, a2.1);
        assert(dc[v1] == dc[v2]);
        assert(x.basis@.len() == x.basis.len());
        assert((a1.0 as usize) as int == a1.0);
        assert((a2.0 as usize) as int == a2.0);
        assert(a1.0 == a2.0);
        assert(x.size(a1.0) == x.basis@[a1.0]@.len());
        assert(x.basis@[a1.0]@.len() == x.basis@[a1.0].len());
        assert((a1.1 as usize) as int == a1.1);
        assert((a2.1 as usize) as int == a2.1);
        assert(a1.1 == a2.1);
    }
    assert(m1 =~= m2);
}

/// The tables of vertex map `m`.
pub open spec fn tables_of(x: FramedPoset, y: FramedPoset, m: Seq<u32>) -> (Seq<Seq<usize>>, Seq<Seq<usize>>) {
    (map_after(x, hasse_cells(x), hasse_cells(y), m, m.len() as int), inv_after(y, hasse_cells(x), hasse_cells(y), m, m.len() as int))
}

/// The maps that an entry of the accepted tables comes from.
pub open spec fn table_source(dom: std::sync::Arc<FramedPoset>, cod: std::sync::Arc<FramedPoset>, x: FramedPoset, y: FramedPoset,
    maps: Seq<Seq<u32>>, t: (Seq<Seq<usize>>, Seq<Seq<usize>>)) -> bool {
    exists|m: Seq<u32>| #[trigger] maps.contains(m) && map_accepted(dom, cod, hasse_cells(x), hasse_cells(y), m) && t == tables_of(x, y, m)
}

/// Distinct vertex maps give distinct accepted tables.
pub(crate) proof fn lemma_accepted_distinct(dom: std::sync::Arc<FramedPoset>, cod: std::sync::Arc<FramedPoset>, x: FramedPoset,
    y: FramedPoset, maps: Seq<Seq<u32>>)
    requires
        *dom == x,
        *cod == y,
        cell_total(y) <= u32::MAX,
        cell_total(x) <= u32::MAX,
        maps.no_duplicates(),
    ensures
        forall|i: int| 0 <= i < accepted_tables(dom, cod, hasse_cells(x), hasse_cells(y), maps).len()
            ==> table_source(dom, cod, x, y, maps, #[trigger] accepted_tables(dom, cod, hasse_cells(x), hasse_cells(y), maps)[i]),
        forall|i: int, k: int| 0 <= i < k < accepted_tables(dom, cod, hasse_cells(x), hasse_cells(y), maps).len()
            ==> #[trigger] accepted_tables(dom, cod, hasse_cells(x), hasse_cells(y), maps)[i]
                != #[trigger] accepted_tables(dom, cod, hasse_cells(x), hasse_cells(y), maps)[k],
    decreases maps.len(),
{
    let dc = hasse_cells(x);
    let cc = hasse_cells(y);
    if maps.len() > 0 {
        let rest = maps.drop_last();
        let last = maps.last();
        assert(rest.no_duplicates());
        lemma_accepted_distinct(dom, cod, x, y, rest);
        let prev = accepted_tables(dom, cod, dc, cc, rest);
        assert forall|i: int| 0 <= i < prev.len() implies table_source(dom, cod, x, y, maps, #[trigger] prev[i]) by {
            assert(table_source(dom, cod, x, y, rest, prev[i]));
            let m = choose|m: Seq<u32>| #[trigger] rest.contains(m) && map_accepted(dom, cod, dc, cc, m) && prev[i] == tables_of(x, y, m);
            let w = choose|w: int| 0 <= w < rest.len() && rest[w] == m;
            assert(maps[w] == m);
            assert(maps.contains(m));
        }
        if map_accepted(dom, cod, dc, cc, last) {
            let t = tables_of(x, y, last);
            let all = prev.push(t);
            assert(accepted_tables(dom, cod, dc, cc, maps) == all);
            assert(maps.contains(last)) by {
                assert(maps[maps.len() - 1] == last);
            }
            assert forall|i: int| 0 <= i < prev.len() implies #[trigger] prev[i] != t by {
                let m = choose|m: Seq<u32>| #[trigger] maps.contains(m) && map_accepted(dom, cod, dc, cc, m) && prev[i] == tables_of(x, y, m);
                assert(table_source(dom, cod, x, y, rest, prev[i]));
                let m2 = choose|m2: Seq<u32>| #[trigger] rest.contains(m2) && map_accepted(dom, cod, dc, cc, m2) && prev[i] == tables_of(x, y, m2);
                if prev[i] == t {
                    lemma_accepted_injective(dom, cod, x, y, m2, last);
                    let w = choose|w: int| 0 <= w < rest.len() && rest[w] == m2;
                    assert(maps[w] == maps[maps.len() - 1]);
                }
            }
            assert forall|i: int| 0 <= i < all.len() implies table_source(dom, cod, x, y, maps, #[trigger] all[i]) by {
                if i < prev.len() {
                    assert(all[i] == prev[i]);
                }
            }
            assert forall|i: int, k: int| 0 <= i < k < all.len() implies #[trigger] all[i] != #[trigger] all[k] by {
                if k < prev.len() {
                    assert(all[i] == prev[i] && all[k] == prev[k]);
                } else {
                    assert(all[i] == prev[i] && all[k] == t);
                }
            }
        }
    }
}

} // verus!

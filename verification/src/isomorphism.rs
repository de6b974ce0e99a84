//! Isomorphisms of oriented framed posets.
//!
//! Isomorphisms are found on the Hasse diagram: a directed graph with one
//! vertex per cell, coloured by the cell's basis, and one arc per signed
//! cover relation, coloured by its sign.

use std::sync::Arc;

use rust_igraph::{Graph, canonical_permutation, get_isomorphisms_vf2};
use vstd::prelude::*;

use crate::embedding::{Embedding, NO_PREIMAGE, at, inv_ok, map_ok, share, tv};
use crate::intset::{IntSet, same_elements, strictly_sorted};
use crate::poset::{FramedPoset, Sign, sets_equal};
use crate::pushout::{cell_total, cells_upto, lemma_cells_upto_mono, total_cells};

verus! {

#[verifier::external_type_specification]
#[verifier::external_body]
pub struct ExGraph(Graph);

/// The arcs of a graph, as (source, target) pairs in insertion order.
pub uninterp spec fn graph_arcs(g: Graph) -> Seq<(u32, u32)>;

/// The number of vertices of a graph.
pub uninterp spec fn graph_order(g: Graph) -> nat;

/// Whether a graph was made directed.
pub uninterp spec fn graph_directed(g: Graph) -> bool;

/// What `rust_igraph::get_isomorphisms_vf2` returns for two directed,
/// loop-free graphs given by their orders and arcs, with vertex and arc
/// colours: one vertex map from the second graph to the first per
/// isomorphism.
pub uninterp spec fn vf2_isomorphisms(
    order1: nat,
    arcs1: Seq<(u32, u32)>,
    colors1: Seq<u32>,
    arc_colors1: Seq<u32>,
    order2: nat,
    arcs2: Seq<(u32, u32)>,
    colors2: Seq<u32>,
    arc_colors2: Seq<u32>,
) -> Seq<Seq<u32>>;

/// What `rust_igraph::canonical_permutation` returns for a directed graph
/// without repeated arcs, given by its order and arcs, with vertex colours.
pub uninterp spec fn canonical_labeling(order: nat, arcs: Seq<(u32, u32)>, colors: Seq<u32>) -> Seq<u32>;

/// `rust_igraph::Graph::new(n, true)`: an empty directed graph on `n`
/// vertices. The call only adds `n` vertices to a graph with none, which
/// cannot overflow, so it always succeeds.
#[verifier::external_body]
fn new_digraph(n: u32) -> (g: Option<Graph>)
    ensures
        g is Some,
        graph_order(g->0) == n,
        graph_arcs(g->0) == Seq::<(u32, u32)>::empty(),
        graph_directed(g->0),
{
    Graph::new(n, true).ok()
}

/// `rust_igraph::Graph::add_edge` on a directed graph: appends the arc
/// `(u, v)` as given (an undirected graph would store its endpoints
/// ordered, which the precondition rules out). It fails only for an
/// endpoint that is not a vertex or when the arc count would pass
/// `u32::MAX`, which the precondition also rules out.
#[verifier::external_body]
fn add_arc(g: &mut Graph, u: u32, v: u32) -> (ok: bool)
    requires
        graph_directed(*old(g)),
        u < graph_order(*old(g)),
        v < graph_order(*old(g)),
        graph_arcs(*old(g)).len() < u32::MAX,
    ensures
        ok,
        graph_order(*final(g)) == graph_order(*old(g)),
        graph_directed(*final(g)) == graph_directed(*old(g)),
        graph_arcs(*final(g)) == graph_arcs(*old(g)).push((u, v)),
{
    g.add_edge(u, v).is_ok()
}

/// Arc `k` of the second graph goes, under the vertex map `m` from the
/// second graph's vertices to the first's, to an arc of the first graph of
/// the same colour.
pub open spec fn arc_matched(arcs1: Seq<(u32, u32)>, ec1: Seq<u32>, arcs2: Seq<(u32, u32)>, ec2: Seq<u32>, m: Seq<u32>, k: int) -> bool {
    exists|k1: int| 0 <= k1 < arcs1.len() && (#[trigger] arcs1[k1]).0 == m[arcs2[k].0 as int] && arcs1[k1].1 == m[arcs2[k].1 as int]
        && ec1[k1] == ec2[k]
}

/// Arc `k1` of the first graph is where `m` sends an arc of the second graph
/// of the same colour.
pub open spec fn arc_reached(arcs1: Seq<(u32, u32)>, ec1: Seq<u32>, arcs2: Seq<(u32, u32)>, ec2: Seq<u32>, m: Seq<u32>, k1: int) -> bool {
    exists|k: int| 0 <= k < arcs2.len() && m[(#[trigger] arcs2[k]).0 as int] == arcs1[k1].0 && m[arcs2[k].1 as int] == arcs1[k1].1
        && ec2[k] == ec1[k1]
}

/// `m`, listing for each vertex of the second graph a vertex of the first,
/// is an isomorphism of graphs with coloured vertices and arcs from the
/// second graph onto the first: a permutation of the vertices that keeps
/// vertex colours and sends the arcs of each graph onto those of the other,
/// keeping their colours.
pub open spec fn vf2_map(
    n1: nat,
    arcs1: Seq<(u32, u32)>,
    c1: Seq<u32>,
    ec1: Seq<u32>,
    n2: nat,
    arcs2: Seq<(u32, u32)>,
    c2: Seq<u32>,
    ec2: Seq<u32>,
    m: Seq<u32>,
) -> bool {
    &&& n1 == n2
    &&& c1.len() == n1
    &&& c2.len() == n2
    &&& ec1.len() == arcs1.len()
    &&& ec2.len() == arcs2.len()
    &&& arcs_within(arcs1, n1)
    &&& arcs_within(arcs2, n2)
    &&& labeling_permutes(n2, m)
    &&& forall|j: int| 0 <= j < n2 ==> c1[#[trigger] m[j] as int] == c2[j]
    &&& forall|k: int| 0 <= k < arcs2.len() ==> #[trigger] arc_matched(arcs1, ec1, arcs2, ec2, m, k)
    &&& forall|k1: int| 0 <= k1 < arcs1.len() ==> #[trigger] arc_reached(arcs1, ec1, arcs2, ec2, m, k1)
}

/// `rust_igraph::get_isomorphisms_vf2` on two coloured directed graphs. It
/// fails only on loops, on a directed and an undirected graph, or on colour
/// vectors of the wrong length, which the precondition rules out; the
/// result is then named by [`vf2_isomorphisms`]. Its documentation promises
/// every isomorphic mapping of the coloured graphs, each as a vector that
/// gives for every vertex of the second graph its vertex of the first, so
/// that, as its example shows, an edge's two automorphisms make two entries;
/// the contract states that no mapping is listed twice and that each such
/// mapping is listed when neither graph repeats an arc.
#[verifier::external_body]
fn vf2_maps(g1: &Graph, g2: &Graph, c1: &Vec<u32>, c2: &Vec<u32>, ec1: &Vec<u32>, ec2: &Vec<u32>) -> (r: Vec<Vec<u32>>)
    requires
        graph_directed(*g1),
        graph_directed(*g2),
        loop_free(graph_arcs(*g1)),
        loop_free(graph_arcs(*g2)),
        c1@.len() == graph_order(*g1),
        c2@.len() == graph_order(*g2),
        ec1@.len() == graph_arcs(*g1).len(),
        ec2@.len() == graph_arcs(*g2).len(),
    ensures
        forall|m: Seq<u32>| arcs_distinct(graph_arcs(*g1)) && arcs_distinct(graph_arcs(*g2)) && #[trigger] vf2_map(graph_order(*g1),
            graph_arcs(*g1), c1@, ec1@, graph_order(*g2), graph_arcs(*g2), c2@, ec2@, m) ==> r@.map_values(|v: Vec<u32>| v@).contains(m),
        r@.map_values(|v: Vec<u32>| v@).no_duplicates(),
        r@.map_values(|m: Vec<u32>| m@) == vf2_isomorphisms(
            graph_order(*g1),
            graph_arcs(*g1),
            c1@,
            ec1@,
            graph_order(*g2),
            graph_arcs(*g2),
            c2@,
            ec2@,
        ),
{
    match get_isomorphisms_vf2(g1, g2, Some(c1.as_slice()), Some(c2.as_slice()), Some(ec1.as_slice()), Some(ec2.as_slice())) {
        Ok(maps) => maps,
        Err(_) => Vec::new(),
    }
}

/// `rust_igraph::canonical_permutation` on a coloured directed graph. It
/// fails only on repeated arcs or a colour vector of the wrong length,
/// which the precondition rules out. Its documentation promises a vertex to
/// position map that is a permutation of the vertices, named by
/// [`canonical_labeling`], and that two graphs are isomorphic exactly when
/// relabelling each by its canonical permutation gives the same graph, with
/// vertices of different colours never identified. The contract states the
/// direction used here: every colour-preserving isomorphic copy without
/// repeated arcs gets a permutation too, and the same relabelled graph.
#[verifier::external_body]
fn canonical_positions(g: &Graph, colors: &Vec<u32>) -> (r: Vec<u32>)
    requires
        graph_directed(*g),
        colors@.len() == graph_order(*g),
        arcs_distinct(graph_arcs(*g)),
    ensures
        r@ == canonical_labeling(graph_order(*g), graph_arcs(*g), colors@),
        labeling_permutes(graph_order(*g), r@),
        canonical_form_invariant(graph_order(*g), graph_arcs(*g), colors@, r@),
{
    match canonical_permutation(g, Some(colors.as_slice())) {
        Ok(p) => p,
        Err(_) => Vec::new(),
    }
}

/// No arc joins a vertex to itself.
pub open spec fn loop_free(arcs: Seq<(u32, u32)>) -> bool {
    forall|i: int| 0 <= i < arcs.len() ==> (#[trigger] arcs[i]).0 != arcs[i].1
}

/// `lab` sends the vertices below `n` one to one onto the positions below `n`.
pub open spec fn labeling_permutes(n: nat, lab: Seq<u32>) -> bool {
    &&& lab.len() == n
    &&& forall|v: int| 0 <= v < n ==> #[trigger] lab[v] < n
    &&& forall|v: int, w: int| 0 <= v < n && 0 <= w < n && v != w ==> #[trigger] lab[v] != #[trigger] lab[w]
    &&& forall|i: int| 0 <= i < n ==> #[trigger] hit(n, lab, i)
}

/// Some vertex below `n` has position `i` under `lab`.
pub open spec fn hit(n: nat, lab: Seq<u32>, i: int) -> bool {
    exists|v: int| 0 <= v < n && #[trigger] lab[v] == i
}

/// Some arc goes from `u` to `v`.
pub open spec fn has_arc(arcs: Seq<(u32, u32)>, u: int, v: int) -> bool {
    exists|k: int| 0 <= k < arcs.len() && (#[trigger] arcs[k]).0 == u && arcs[k].1 == v
}

/// `m` is an isomorphism of coloured graphs from the first graph to the
/// second: a permutation of the vertices that keeps colours and arcs.
pub open spec fn graph_isomorphism(
    n1: nat,
    arcs1: Seq<(u32, u32)>,
    colors1: Seq<u32>,
    n2: nat,
    arcs2: Seq<(u32, u32)>,
    colors2: Seq<u32>,
    m: Seq<u32>,
) -> bool {
    &&& n1 == n2
    &&& colors1.len() == n1
    &&& colors2.len() == n2
    &&& arcs_within(arcs1, n1)
    &&& arcs_within(arcs2, n2)
    &&& labeling_permutes(n1, m)
    &&& forall|v: int| 0 <= v < n1 ==> #[trigger] colors2[m[v] as int] == colors1[v]
    &&& forall|u: int, v: int| 0 <= u < n1 && 0 <= v < n1 ==> (#[trigger] has_arc(arcs1, u, v) <==> has_arc(arcs2, m[u] as int, m[v] as int))
}

/// Relabelling the first graph by `lab1` and the second by `lab2` gives the
/// same coloured graph.
pub open spec fn same_relabelled(
    n: nat,
    arcs1: Seq<(u32, u32)>,
    colors1: Seq<u32>,
    lab1: Seq<u32>,
    arcs2: Seq<(u32, u32)>,
    colors2: Seq<u32>,
    lab2: Seq<u32>,
) -> bool {
    &&& forall|v1: int, v2: int| 0 <= v1 < n && 0 <= v2 < n && #[trigger] lab1[v1] == #[trigger] lab2[v2] ==> colors1[v1] == colors2[v2]
    &&& forall|u1: int, v1: int, u2: int, v2: int|
        0 <= u1 < n && 0 <= v1 < n && 0 <= u2 < n && 0 <= v2 < n && #[trigger] lab1[u1] == #[trigger] lab2[u2] && #[trigger] lab1[v1] == #[trigger] lab2[v2]
        ==> (has_arc(arcs1, u1, v1) <==> has_arc(arcs2, u2, v2))
}

/// Every colour-preserving isomorphic copy of the graph, without repeated
/// arcs, has a canonical labelling that permutes its vertices and gives the
/// same relabelled graph as `lab` gives this one.
pub open spec fn canonical_form_invariant(n: nat, arcs: Seq<(u32, u32)>, colors: Seq<u32>, lab: Seq<u32>) -> bool {
    forall|n2: nat, arcs2: Seq<(u32, u32)>, colors2: Seq<u32>, m: Seq<u32>|
        #[trigger] graph_isomorphism(n, arcs, colors, n2, arcs2, colors2, m) && arcs_distinct(arcs2)
        ==> labeling_permutes(n2, canonical_labeling(n2, arcs2, colors2))
            && same_relabelled(n, arcs, colors, lab, arcs2, colors2, canonical_labeling(n2, arcs2, colors2))
}

/// No arc occurs twice.
pub open spec fn arcs_distinct(arcs: Seq<(u32, u32)>) -> bool {
    forall|i: int, j: int| 0 <= i < j < arcs.len() ==> #[trigger] arcs[i] != #[trigger] arcs[j]
}

/// Every arc joins two vertices below `n`.
pub open spec fn arcs_within(arcs: Seq<(u32, u32)>, n: nat) -> bool {
    forall|i: int| 0 <= i < arcs.len() ==> (#[trigger] arcs[i]).0 < n && arcs[i].1 < n
}

/// Number of signed faces of cell `(d, p)`.
pub open spec fn cell_covers(x: FramedPoset, d: int, p: int) -> int {
    (x.faces(Sign::Input, d, p).len() + x.faces(Sign::Output, d, p).len()) as int
}

/// Number of signed faces of the first `n` cells at level `d`.
pub open spec fn level_covers(x: FramedPoset, d: int, n: int) -> int
    decreases n,
{
    if n <= 0 {
        0
    } else {
        level_covers(x, d, n - 1) + cell_covers(x, d, n - 1)
    }
}

/// Number of signed cover relations below level `n`.
pub open spec fn covers_upto(x: FramedPoset, n: int) -> int
    decreases n,
{
    if n <= 1 {
        0
    } else {
        covers_upto(x, n - 1) + level_covers(x, n - 1, x.size(n - 1))
    }
}

/// Number of signed cover relations.
pub open spec fn cover_total(x: FramedPoset) -> int {
    covers_upto(x, x.levels())
}

pub(crate) proof fn lemma_level_covers_mono(x: FramedPoset, d: int, m: int, n: int)
    requires
        0 <= m <= n,
    ensures
        0 <= level_covers(x, d, m) <= level_covers(x, d, n),
    decreases n,
{
    if n > m {
        lemma_level_covers_mono(x, d, m, n - 1);
    } else if n > 0 {
        lemma_level_covers_mono(x, d, 0, n - 1);
    }
}

pub(crate) proof fn lemma_covers_upto_mono(x: FramedPoset, m: int, n: int)
    requires
        0 <= m <= n,
    ensures
        0 <= covers_upto(x, m) <= covers_upto(x, n),
    decreases n,
{
    if n > 1 {
        lemma_level_covers_mono(x, n - 1, 0, x.size(n - 1));
        if n > m {
            lemma_covers_upto_mono(x, m, n - 1);
        } else {
            lemma_covers_upto_mono(x, 0, n - 1);
        }
    }
}

/// The Hasse diagram of a framed poset fits the graph library's `u32`
/// vertex and arc indices.
pub open spec fn graph_sized(x: FramedPoset) -> bool {
    &&& cell_total(x) <= u32::MAX
    &&& cover_total(x) <= u32::MAX
}

/// Offsets of the levels in the flat numbering of cells.
fn level_offsets(x: &FramedPoset) -> (r: Vec<usize>)
    requires
        cell_total(*x) <= u32::MAX,
    ensures
        r@.len() == x.levels() + 1,
        forall|d: int| 0 <= d <= x.levels() ==> #[trigger] r@[d] == cells_upto(*x, d),
{
    let sizes = x.sizes();
    let n = sizes.len();
    let mut r: Vec<usize> = Vec::new();
    r.push(0);
    let mut sum: usize = 0;
    for d in 0..n
        invariant
            n == x.levels(),
            sizes@ == x.size_seq(),
            cell_total(*x) <= u32::MAX,
            sum == cells_upto(*x, d as int),
            r@.len() == d + 1,
            forall|e: int| 0 <= e <= d ==> #[trigger] r@[e] == cells_upto(*x, e),
    {
        proof {
            lemma_cells_upto_mono(*x, d + 1, x.levels());
        }
        sum = sum + sizes[d];
        r.push(sum);
    }
    r
}

/// `s` is the basis of some cell of `x`.
pub open spec fn has_basis(x: FramedPoset, s: Seq<usize>) -> bool {
    exists|d: int, p: int| #[trigger] x.cell(d, p) && x.basis_at(d, p) == s
}

/// A list of integer sets in which every basis of `x` occurs.
pub open spec fn covers_bases(palette: Seq<Seq<usize>>, x: FramedPoset) -> bool {
    forall|d: int, p: int| #[trigger] x.cell(d, p) ==> palette.contains(x.basis_at(d, p))
}

/// The view of a list of integer sets.
pub open spec fn sets_view(v: Vec<IntSet>) -> Seq<Seq<usize>> {
    v@.map_values(|s: IntSet| s@)
}

/// Add to `palette` every basis of `x` that it lacks.
fn extend_palette(palette: &mut Vec<IntSet>, x: &FramedPoset)
    requires
        x.valid(),
        cell_total(*x) <= usize::MAX,
    ensures
        covers_bases(sets_view(*final(palette)), *x),
        forall|s: Seq<usize>| sets_view(*old(palette)).contains(s) ==> #[trigger] sets_view(*final(palette)).contains(s),
        final(palette)@.len() <= old(palette)@.len() + cell_total(*x),
        distinct_sets(sets_view(*old(palette))) ==> distinct_sets(sets_view(*final(palette))),
        forall|s: Seq<usize>| #[trigger] sets_view(*final(palette)).contains(s) ==> sets_view(*old(palette)).contains(s) || has_basis(*x, s),
{
    let sizes = x.sizes();
    let n = sizes.len();
    let ghost start = *palette;
    for d in 0..n
        invariant
            x.valid(),
            n == x.levels(),
            sizes@ == x.size_seq(),
            forall|e: int, p: int| 0 <= e < d && #[trigger] x.cell(e, p) ==> sets_view(*palette).contains(x.basis_at(e, p)),
            forall|s: Seq<usize>| sets_view(start).contains(s) ==> #[trigger] sets_view(*palette).contains(s),
            palette@.len() <= start@.len() + cells_upto(*x, d as int),
            distinct_sets(sets_view(start)) ==> distinct_sets(sets_view(*palette)),
            forall|s: Seq<usize>| #[trigger] sets_view(*palette).contains(s) ==> sets_view(start).contains(s) || has_basis(*x, s),
    {
        let size = sizes[d];
        for p in 0..size
            invariant
                x.valid(),
                n == x.levels(),
                d < n,
                size == x.size(d as int),
                forall|e: int, q: int| #[trigger] x.cell(e, q) && (e < d || (e == d && q < p)) ==> sets_view(*palette).contains(x.basis_at(e, q)),
                forall|s: Seq<usize>| sets_view(start).contains(s) ==> #[trigger] sets_view(*palette).contains(s),
                palette@.len() <= start@.len() + cells_upto(*x, d as int) + p,
                distinct_sets(sets_view(start)) ==> distinct_sets(sets_view(*palette)),
                forall|s: Seq<usize>| #[trigger] sets_view(*palette).contains(s) ==> sets_view(start).contains(s) || has_basis(*x, s),
        {
            let b = x.basis_of(d, p);
            let mut found = false;
            let m = palette.len();
            for i in 0..m
                invariant
                    m == palette@.len(),
                    found ==> sets_view(*palette).contains(b@),
                    !found ==> forall|j: int| 0 <= j < i ==> palette@[j]@ != b@,
            {
                if sets_equal(&palette[i], b) {
                    proof {
                        assert(sets_view(*palette)[i as int] == b@);
                    }
                    found = true;
                }
            }
            if !found {
                let ghost before = *palette;
                palette.push(b.clone());
                proof {
                    assert(sets_view(*palette)[before@.len() as int] == b@);
                    assert(x.cell(d as int, p as int) && x.basis_at(d as int, p as int) == b@);
                    assert forall|s: Seq<usize>| #[trigger] sets_view(*palette).contains(s) implies sets_view(start).contains(s) || has_basis(*x, s) by {
                        let i = choose|i: int| 0 <= i < sets_view(*palette).len() && sets_view(*palette)[i] == s;
                        if i < before@.len() {
                            assert(sets_view(before)[i] == s);
                            assert(sets_view(before).contains(s));
                        } else {
                            assert(s == b@);
                        }
                    }
                    assert forall|s: Seq<usize>| sets_view(before).contains(s) implies #[trigger] sets_view(*palette).contains(s) by {
                        let i = choose|i: int| 0 <= i < sets_view(before).len() && sets_view(before)[i] == s;
                        assert(sets_view(*palette)[i] == s);
                    }
                    if distinct_sets(sets_view(before)) {
                        assert forall|i: int, j: int| 0 <= i < j < sets_view(*palette).len() implies
                            #[trigger] sets_view(*palette)[i] != #[trigger] sets_view(*palette)[j] by {
                            if j < before@.len() {
                                assert(sets_view(*palette)[i] == sets_view(before)[i]);
                                assert(sets_view(*palette)[j] == sets_view(before)[j]);
                            } else {
                                assert(before@[i]@ != b@);
                                assert(sets_view(*palette)[i] == before@[i]@);
                            }
                        }
                    }
                }
            }
        }
    }
}

/// The shared list of bases of two framed posets, used to colour cells.
fn basis_palette(a: &FramedPoset, b: &FramedPoset) -> (r: Vec<IntSet>)
    requires
        a.valid(),
        b.valid(),
        cell_total(*a) <= u32::MAX,
        cell_total(*b) <= u32::MAX,
    ensures
        covers_bases(sets_view(r), *a),
        covers_bases(sets_view(r), *b),
        r@.len() <= cell_total(*a) + cell_total(*b),
        distinct_sets(sets_view(r)),
{
    let mut palette: Vec<IntSet> = Vec::new();
    proof {
        assert(distinct_sets(sets_view(palette)));
    }
    extend_palette(&mut palette, a);
    extend_palette(&mut palette, b);
    palette
}

/// Position in `palette` of the set `b`.
fn palette_color(palette: &Vec<IntSet>, b: &IntSet) -> (c: u32)
    requires
        sets_view(*palette).contains(b@),
        palette@.len() <= u32::MAX + 1,
        distinct_sets(sets_view(*palette)),
    ensures
        c < palette@.len(),
        palette@[c as int]@ == b@,
        c == color_of(sets_view(*palette), b@),
{
    proof {
        lemma_color_of(sets_view(*palette), b@);
    }
    let m = palette.len();
    let ghost w = choose|i: int| 0 <= i < sets_view(*palette).len() && sets_view(*palette)[i] == b@;
    for i in 0..m
        invariant
            m == palette@.len(),
            m <= u32::MAX + 1,
            0 <= w < m,
            palette@[w]@ == b@,
            forall|j: int| 0 <= j < i ==> palette@[j]@ != b@,
            forall|j: int| 0 <= j < m && #[trigger] sets_view(*palette)[j] == b@ ==> j == color_of(sets_view(*palette), b@),
    {
        if sets_equal(&palette[i], b) {
            proof {
                assert(sets_view(*palette)[i as int] == b@);
            }
            return i as u32;
        }
    }
    proof {
        assert(palette@[w]@ == b@);
    }
    0
}

/// No set occurs twice.
pub open spec fn distinct_sets(s: Seq<Seq<usize>>) -> bool {
    forall|i: int, j: int| 0 <= i < j < s.len() ==> #[trigger] s[i] != #[trigger] s[j]
}

/// The position of `b` in `palette`.
pub open spec fn color_of(palette: Seq<Seq<usize>>, b: Seq<usize>) -> int {
    choose|i: int| 0 <= i < palette.len() && palette[i] == b
}

proof fn lemma_color_of(palette: Seq<Seq<usize>>, b: Seq<usize>)
    requires
        palette.contains(b),
        distinct_sets(palette),
    ensures
        0 <= color_of(palette, b) < palette.len(),
        palette[color_of(palette, b)] == b,
        forall|i: int| 0 <= i < palette.len() && palette[i] == b ==> i == color_of(palette, b),
{
    let c = color_of(palette, b);
    assert forall|i: int| 0 <= i < palette.len() && palette[i] == b implies i == c by {
        if i < c {
            assert(palette[i] != palette[c]);
        } else if c < i {
            assert(palette[c] != palette[i]);
        }
    }
}

/// Arc colour of a cover relation of sign `s`.
fn sign_color(s: Sign) -> (c: u32)
    ensures
        c == (match s {
            Sign::Input => 0u32,
            Sign::Output => 1u32,
        }),
{
    match s {
        Sign::Input => 0,
        Sign::Output => 1,
    }
}


/// The coloured Hasse diagram of a framed poset, with the cell behind each
/// vertex.
struct HasseGraph {
    graph: Graph,
    colors: Vec<u32>,
    arc_colors: Vec<u32>,
    cells: Vec<(usize, usize)>,
}

impl HasseGraph {
    /// A directed, loop-free graph with one coloured vertex per cell and one
    /// coloured arc per signed cover relation.
    spec fn sound(&self, x: FramedPoset) -> bool {
        &&& graph_directed(self.graph)
        &&& graph_order(self.graph) == cell_total(x)
        &&& self.colors@.len() == graph_order(self.graph)
        &&& self.cells@.len() == graph_order(self.graph)
        &&& self.arc_colors@.len() == graph_arcs(self.graph).len()
        &&& graph_arcs(self.graph).len() == cover_total(x)
        &&& loop_free(graph_arcs(self.graph))
        &&& arcs_within(graph_arcs(self.graph), graph_order(self.graph))
    }
}

/// One arc into `target` from each of `faces`, shifted by `offset`.
pub open spec fn face_arcs(faces: Seq<usize>, offset: int, target: u32) -> Seq<(u32, u32)> {
    faces.map_values(|f: usize| ((offset + f) as u32, target))
}

/// The arcs of the Hasse diagram into cell `(d, p)`: from its input faces,
/// then from its output faces, with cells numbered level by level.
pub open spec fn cell_arcs(x: FramedPoset, d: int, p: int) -> Seq<(u32, u32)> {
    face_arcs(x.faces(Sign::Input, d, p), cells_upto(x, d - 1), (cells_upto(x, d) + p) as u32)
        + face_arcs(x.faces(Sign::Output, d, p), cells_upto(x, d - 1), (cells_upto(x, d) + p) as u32)
}

/// The arc colours into cell `(d, p)`: `0` for input, `1` for output faces.
pub open spec fn cell_arc_colors(x: FramedPoset, d: int, p: int) -> Seq<u32> {
    Seq::new(x.faces(Sign::Input, d, p).len(), |i: int| 0u32) + Seq::new(x.faces(Sign::Output, d, p).len(), |i: int| 1u32)
}

/// The arcs into the first `n` cells at level `d`.
pub open spec fn level_arcs(x: FramedPoset, d: int, n: int) -> Seq<(u32, u32)>
    decreases n,
{
    if n <= 0 {
        Seq::empty()
    } else {
        level_arcs(x, d, n - 1) + cell_arcs(x, d, n - 1)
    }
}

/// The arc colours into the first `n` cells at level `d`.
pub open spec fn level_arc_colors(x: FramedPoset, d: int, n: int) -> Seq<u32>
    decreases n,
{
    if n <= 0 {
        Seq::empty()
    } else {
        level_arc_colors(x, d, n - 1) + cell_arc_colors(x, d, n - 1)
    }
}

/// The arcs into the cells below level `n`.
pub open spec fn arcs_upto(x: FramedPoset, n: int) -> Seq<(u32, u32)>
    decreases n,
{
    if n <= 1 {
        Seq::empty()
    } else {
        arcs_upto(x, n - 1) + level_arcs(x, n - 1, x.size(n - 1))
    }
}

/// The arc colours into the cells below level `n`.
pub open spec fn arc_colors_upto(x: FramedPoset, n: int) -> Seq<u32>
    decreases n,
{
    if n <= 1 {
        Seq::empty()
    } else {
        arc_colors_upto(x, n - 1) + level_arc_colors(x, n - 1, x.size(n - 1))
    }
}

/// The vertex colours of the cells below level `n`: each basis's position in
/// `palette`.
pub open spec fn colors_upto(x: FramedPoset, palette: Seq<Seq<usize>>, n: int) -> Seq<u32>
    decreases n,
{
    if n <= 0 {
        Seq::empty()
    } else {
        colors_upto(x, palette, n - 1) + Seq::new(x.size(n - 1) as nat, |p: int| color_of(palette, x.basis_at(n - 1, p)) as u32)
    }
}

/// The cells below level `n`, level by level.
pub open spec fn cells_list_upto(x: FramedPoset, n: int) -> Seq<(usize, usize)>
    decreases n,
{
    if n <= 0 {
        Seq::empty()
    } else {
        cells_list_upto(x, n - 1) + Seq::new(x.size(n - 1) as nat, |p: int| ((n - 1) as usize, p as usize))
    }
}

/// The coloured Hasse diagram of `x` for `palette`: its order, arcs, vertex
/// colours and arc colours, as handed to the isomorphism search.
pub open spec fn hasse_order(x: FramedPoset) -> nat {
    cell_total(x) as nat
}

pub open spec fn hasse_arcs(x: FramedPoset) -> Seq<(u32, u32)> {
    arcs_upto(x, x.levels())
}

pub open spec fn hasse_arc_colors(x: FramedPoset) -> Seq<u32> {
    arc_colors_upto(x, x.levels())
}

pub open spec fn hasse_colors(x: FramedPoset, palette: Seq<Seq<usize>>) -> Seq<u32> {
    colors_upto(x, palette, x.levels())
}

pub open spec fn hasse_cells(x: FramedPoset) -> Seq<(usize, usize)> {
    cells_list_upto(x, x.levels())
}

/// Append one arc from each of `faces`, shifted by `offset`, into `target`.
fn add_face_arcs(graph: &mut Graph, arc_colors: &mut Vec<u32>, faces: &IntSet, offset: usize, target: u32, color: u32)
    requires
        graph_directed(*old(graph)),
        old(arc_colors)@.len() == graph_arcs(*old(graph)).len(),
        graph_arcs(*old(graph)).len() + faces@.len() <= u32::MAX,
        loop_free(graph_arcs(*old(graph))),
        arcs_within(graph_arcs(*old(graph)), graph_order(*old(graph))),
        target < graph_order(*old(graph)),
        forall|i: int| 0 <= i < faces@.len() ==> offset + #[trigger] faces@[i] < target,
    ensures
        graph_directed(*final(graph)) == graph_directed(*old(graph)),
        graph_order(*final(graph)) == graph_order(*old(graph)),
        graph_arcs(*final(graph)).len() == graph_arcs(*old(graph)).len() + faces@.len(),
        final(arc_colors)@.len() == graph_arcs(*final(graph)).len(),
        loop_free(graph_arcs(*final(graph))),
        arcs_within(graph_arcs(*final(graph)), graph_order(*final(graph))),
        graph_arcs(*final(graph)) == graph_arcs(*old(graph)) + face_arcs(faces@, offset as int, target),
        final(arc_colors)@ == old(arc_colors)@ + Seq::new(faces@.len(), |i: int| color),
{
    let n = faces.len();
    let ghost start = graph_arcs(*graph).len();
    let ghost arcs0 = graph_arcs(*graph);
    let ghost colors0 = arc_colors@;
    for k in 0..n
        invariant
            n == faces@.len(),
            start + n <= u32::MAX,
            start == arcs0.len(),
            graph_arcs(*graph) == arcs0 + face_arcs(faces@.take(k as int), offset as int, target),
            arc_colors@ == colors0 + Seq::new(k as nat, |i: int| color),
            graph_arcs(*graph).len() == start + k,
            arc_colors@.len() == graph_arcs(*graph).len(),
            graph_directed(*graph) == graph_directed(*old(graph)),
            graph_directed(*graph),
            graph_order(*graph) == graph_order(*old(graph)),
            loop_free(graph_arcs(*graph)),
            arcs_within(graph_arcs(*graph), graph_order(*graph)),
            target < graph_order(*graph),
            forall|i: int| 0 <= i < faces@.len() ==> offset + #[trigger] faces@[i] < target,
    {
        let f = faces[k];
        proof {
            assert(offset + faces@[k as int] < target);
        }
        let source = (offset + f) as u32;
        let ghost before = graph_arcs(*graph);
        add_arc(graph, source, target);
        arc_colors.push(color);
        proof {
            assert(faces@.take(k + 1) == faces@.take(k as int).push(faces@[k as int]));
            assert(face_arcs(faces@.take(k + 1), offset as int, target) =~= face_arcs(faces@.take(k as int), offset as int, target).push((source, target)));
            assert(Seq::new((k + 1) as nat, |i: int| color) =~= Seq::new(k as nat, |i: int| color).push(color));
            let arcs = graph_arcs(*graph);
            assert forall|i: int| 0 <= i < arcs.len() implies (#[trigger] arcs[i]).0 != arcs[i].1 && arcs[i].0 < graph_order(*graph) && arcs[i].1 < graph_order(*graph) by {
                if i < before.len() {
                    assert(arcs[i] == before[i]);
                }
            }
        }
    }
}

/// The coloured Hasse diagram of `x`, colouring cells by their position in
/// `palette`.
fn hasse_graph(x: &FramedPoset, palette: &Vec<IntSet>) -> (h: HasseGraph)
    requires
        x.valid(),
        graph_sized(*x),
        covers_bases(sets_view(*palette), *x),
        palette@.len() <= u32::MAX + 1,
        distinct_sets(sets_view(*palette)),
    ensures
        h.sound(*x),
        graph_arcs(h.graph) == hasse_arcs(*x),
        h.arc_colors@ == hasse_arc_colors(*x),
        h.colors@ == hasse_colors(*x, sets_view(*palette)),
        h.cells@ == hasse_cells(*x),
{
    let sizes = x.sizes();
    let levels = sizes.len();
    let mut colors: Vec<u32> = Vec::new();
    let mut cells: Vec<(usize, usize)> = Vec::new();
    for d in 0..levels
        invariant
            x.valid(),
            levels == x.levels(),
            sizes@ == x.size_seq(),
            covers_bases(sets_view(*palette), *x),
            palette@.len() <= u32::MAX + 1,
            distinct_sets(sets_view(*palette)),
            colors@.len() == cells_upto(*x, d as int),
            cells@.len() == cells_upto(*x, d as int),
            colors@ == colors_upto(*x, sets_view(*palette), d as int),
            cells@ == cells_list_upto(*x, d as int),
    {
        let size = sizes[d];
        for p in 0..size
            invariant
                x.valid(),
                d < levels,
                levels == x.levels(),
                size == x.size(d as int),
                covers_bases(sets_view(*palette), *x),
                palette@.len() <= u32::MAX + 1,
                distinct_sets(sets_view(*palette)),
                colors@.len() == cells_upto(*x, d as int) + p,
                cells@.len() == cells_upto(*x, d as int) + p,
                colors@ == colors_upto(*x, sets_view(*palette), d as int)
                    + Seq::new(x.size(d as int) as nat, |q: int| color_of(sets_view(*palette), x.basis_at(d as int, q)) as u32).take(p as int),
                cells@ == cells_list_upto(*x, d as int) + Seq::new(x.size(d as int) as nat, |q: int| (d as usize, q as usize)).take(p as int),
        {
            proof {
                assert(x.cell(d as int, p as int));
            }
            let c = palette_color(palette, x.basis_of(d, p));
            let ghost c0 = colors@;
            let ghost e0 = cells@;
            colors.push(c);
            cells.push((d, p));
            proof {
                let row = Seq::new(x.size(d as int) as nat, |q: int| color_of(sets_view(*palette), x.basis_at(d as int, q)) as u32);
                let crow = Seq::new(x.size(d as int) as nat, |q: int| (d as usize, q as usize));
                assert(row.take(p + 1) == row.take(p as int).push(row[p as int]));
                assert(crow.take(p + 1) == crow.take(p as int).push(crow[p as int]));
                assert(colors@ =~= colors_upto(*x, sets_view(*palette), d as int) + row.take(p + 1));
                assert(cells@ =~= cells_list_upto(*x, d as int) + crow.take(p + 1));
            }
        }
        proof {
            let row = Seq::new(x.size(d as int) as nat, |q: int| color_of(sets_view(*palette), x.basis_at(d as int, q)) as u32);
            let crow = Seq::new(x.size(d as int) as nat, |q: int| (d as usize, q as usize));
            assert(row.take(size as int) == row);
            assert(crow.take(size as int) == crow);
            assert(crow =~= Seq::new(x.size(d as int) as nat, |q: int| (((d + 1) - 1) as usize, q as usize)));
        }
    }
    let offsets = level_offsets(x);
    proof {
        assert(offsets@[levels as int] == cell_total(*x));
    }
    let order = offsets[levels] as u32;
    let mut graph = new_digraph(order).unwrap();
    let mut arc_colors: Vec<u32> = Vec::new();
    let first: usize = if levels == 0 { 0 } else { 1 };
    for d in first..levels
        invariant
            x.valid(),
            1 <= d || levels == 0,
            colors@.len() == cell_total(*x),
            cells@.len() == cell_total(*x),
            levels == x.levels(),
            sizes@ == x.size_seq(),
            offsets@.len() == levels + 1,
            forall|e: int| 0 <= e <= levels ==> #[trigger] offsets@[e] == cells_upto(*x, e),
            graph_sized(*x),
            graph_directed(graph),
            graph_order(graph) == cell_total(*x),
            graph_arcs(graph).len() == covers_upto(*x, d as int),
            arc_colors@.len() == graph_arcs(graph).len(),
            loop_free(graph_arcs(graph)),
            arcs_within(graph_arcs(graph), graph_order(graph)),
            graph_arcs(graph) == arcs_upto(*x, d as int),
            arc_colors@ == arc_colors_upto(*x, d as int),
            colors@ == hasse_colors(*x, sets_view(*palette)),
            cells@ == hasse_cells(*x),
    {
        let size = sizes[d];
        proof {
            lemma_cells_upto_mono(*x, d as int + 1, x.levels());
            lemma_covers_upto_mono(*x, d as int + 1, x.levels());
            assert(covers_upto(*x, d as int + 1) == covers_upto(*x, d as int) + level_covers(*x, d as int, x.size(d as int)));
        }
        for p in 0..size
            invariant
                x.valid(),
                1 <= d < levels,
                colors@.len() == cell_total(*x),
                cells@.len() == cell_total(*x),
                levels == x.levels(),
                size == x.size(d as int),
                offsets@.len() == levels + 1,
                forall|e: int| 0 <= e <= levels ==> #[trigger] offsets@[e] == cells_upto(*x, e),
                cells_upto(*x, d as int + 1) <= cell_total(*x),
                covers_upto(*x, d as int + 1) <= cover_total(*x),
                covers_upto(*x, d as int + 1) == covers_upto(*x, d as int) + level_covers(*x, d as int, x.size(d as int)),
                graph_sized(*x),
                graph_directed(graph),
                graph_order(graph) == cell_total(*x),
                graph_arcs(graph).len() == covers_upto(*x, d as int) + level_covers(*x, d as int, p as int),
                arc_colors@.len() == graph_arcs(graph).len(),
                loop_free(graph_arcs(graph)),
                arcs_within(graph_arcs(graph), graph_order(graph)),
                graph_arcs(graph) == arcs_upto(*x, d as int) + level_arcs(*x, d as int, p as int),
                arc_colors@ == arc_colors_upto(*x, d as int) + level_arc_colors(*x, d as int, p as int),
                colors@ == hasse_colors(*x, sets_view(*palette)),
                cells@ == hasse_cells(*x),
        {
            proof {
                assert(x.cell(d as int, p as int));
                lemma_level_covers_mono(*x, d as int, p as int + 1, x.size(d as int));
                assert(offsets@[d as int + 1] == offsets@[d as int] + x.size(d as int));
                assert(offsets@[d as int] == offsets@[d as int - 1] + x.size(d as int - 1));
            }
            let target = (offsets[d] + p) as u32;
            let fin = x.faces_of(Sign::Input, d, p);
            let fout = x.faces_of(Sign::Output, d, p);
            proof {
                assert forall|i: int| 0 <= i < fin@.len() implies offsets[d - 1] + #[trigger] fin@[i] < target by {
                    assert(crate::poset::entry(x.faces_in, d as int, p as int)[i] < x.size(d as int - 1));
                }
                assert forall|i: int| 0 <= i < fout@.len() implies offsets[d - 1] + #[trigger] fout@[i] < target by {
                    assert(crate::poset::entry(x.faces_out, d as int, p as int)[i] < x.size(d as int - 1));
                }
            }
            let ghost g0 = graph_arcs(graph);
            let ghost a0 = arc_colors@;
            add_face_arcs(&mut graph, &mut arc_colors, fin, offsets[d - 1], target, sign_color(Sign::Input));
            add_face_arcs(&mut graph, &mut arc_colors, fout, offsets[d - 1], target, sign_color(Sign::Output));
            proof {
                assert((target as int) == cells_upto(*x, d as int) + p);
                assert(graph_arcs(graph) =~= arcs_upto(*x, d as int) + level_arcs(*x, d as int, p + 1)) by {
                    assert(level_arcs(*x, d as int, p + 1) == level_arcs(*x, d as int, p as int) + cell_arcs(*x, d as int, p as int));
                }
                assert(Seq::new(fin@.len(), |i: int| 0u32) =~= Seq::new(x.faces(Sign::Input, d as int, p as int).len(), |i: int| 0u32));
                assert(arc_colors@ =~= arc_colors_upto(*x, d as int) + level_arc_colors(*x, d as int, p + 1)) by {
                    assert(level_arc_colors(*x, d as int, p + 1) == level_arc_colors(*x, d as int, p as int) + cell_arc_colors(*x, d as int, p as int));
                }
            }
        }
        proof {
            assert(arcs_upto(*x, d + 1) == arcs_upto(*x, d as int) + level_arcs(*x, d as int, x.size(d as int)));
            assert(arc_colors_upto(*x, d + 1) == arc_colors_upto(*x, d as int) + level_arc_colors(*x, d as int, x.size(d as int)));
        }
    }
    proof {
        if levels <= 1 {
            assert(covers_upto(*x, levels as int) == 0);
        }
    }
    HasseGraph { graph, colors, arc_colors, cells }
}


/// A table with `sizes[d]` entries at level `d`, all `NO_PREIMAGE`.
fn unmapped_table(sizes: &Vec<usize>) -> (t: Vec<Vec<usize>>)
    ensures
        t@.len() == sizes@.len(),
        forall|d: int| 0 <= d < sizes@.len() ==> #[trigger] t@[d]@.len() == sizes@[d],
        tv(t) == unmapped(sizes@),
{
    let n = sizes.len();
    let mut t: Vec<Vec<usize>> = Vec::new();
    for d in 0..n
        invariant
            n == sizes@.len(),
            t@.len() == d,
            forall|e: int| 0 <= e < d ==> #[trigger] t@[e]@.len() == sizes@[e],
            forall|e: int| 0 <= e < d ==> #[trigger] t@[e]@ == unmapped(sizes@)[e],
    {
        let row = vec![NO_PREIMAGE; sizes[d]];
        proof {
            assert forall|i: int| 0 <= i < row@.len() implies #[trigger] row@[i] == NO_PREIMAGE by {
                assert(cloned(NO_PREIMAGE, row@[i]));
            }
            assert(row@ =~= unmapped(sizes@)[d as int]);
        }
        t.push(row);
    }
    proof {
        assert(tv(t) =~= unmapped(sizes@));
    }
    t
}

/// Rows of `NO_PREIMAGE` of the given lengths.
pub open spec fn unmapped(sizes: Seq<usize>) -> Seq<Seq<usize>> {
    Seq::new(sizes.len(), |d: int| Seq::new(sizes[d] as nat, |i: int| NO_PREIMAGE))
}

/// Vertex `j` of the codomain's diagram and its image under
/// `inverse_mapping` name cells of equal level of `cod` and `dom`.
pub open spec fn vertex_ok(dom: FramedPoset, cod: FramedPoset, dom_cells: Seq<(usize, usize)>, cod_cells: Seq<(usize, usize)>,
    inverse_mapping: Seq<u32>, j: int) -> bool {
    let v = inverse_mapping[j] as int;
    &&& v < dom_cells.len()
    &&& j < cod_cells.len()
    &&& dom_cells[v].0 == cod_cells[j].0
    &&& dom_cells[v].0 < dom.levels()
    &&& cod_cells[j].0 < cod.levels()
    &&& dom_cells[v].1 < dom.size(dom_cells[v].0 as int)
    &&& cod_cells[j].1 < cod.size(cod_cells[j].0 as int)
}

/// The forward table after recording the first `j` vertices: each sends the
/// domain cell of its image to its codomain cell.
pub open spec fn map_after(dom: FramedPoset, dom_cells: Seq<(usize, usize)>, cod_cells: Seq<(usize, usize)>, inverse_mapping: Seq<u32>, j: int)
    -> Seq<Seq<usize>>
    decreases j,
{
    if j <= 0 {
        unmapped(dom.size_seq())
    } else {
        let prev = map_after(dom, dom_cells, cod_cells, inverse_mapping, j - 1);
        let c = dom_cells[inverse_mapping[j - 1] as int];
        prev.update(c.0 as int, prev[c.0 as int].update(c.1 as int, cod_cells[j - 1].1))
    }
}

/// The inverse table after recording the first `j` vertices.
pub open spec fn inv_after(cod: FramedPoset, dom_cells: Seq<(usize, usize)>, cod_cells: Seq<(usize, usize)>, inverse_mapping: Seq<u32>, j: int)
    -> Seq<Seq<usize>>
    decreases j,
{
    if j <= 0 {
        unmapped(cod.size_seq())
    } else {
        let prev = inv_after(cod, dom_cells, cod_cells, inverse_mapping, j - 1);
        let c = cod_cells[j - 1];
        prev.update(c.0 as int, prev[c.0 as int].update(c.1 as int, dom_cells[inverse_mapping[j - 1] as int].1))
    }
}

/// Some isomorphism of framed posets from `dom` onto `cod` has the tables
/// `m` and `i`.
pub open spec fn tables_isomorphism(dom: Arc<FramedPoset>, cod: Arc<FramedPoset>, m: Seq<Seq<usize>>, i: Seq<Seq<usize>>) -> bool {
    exists|e: Embedding| e.dom == dom && e.cod == cod && tv(e.map) == m && tv(e.inv) == i && #[trigger] e.wf() && e.surjective() && e.closed()
}

/// The vertex map `m`, from the vertices of the codomain's diagram to those
/// of the domain's, pairs cells of equal level and its tables are those of
/// an isomorphism of framed posets.
pub open spec fn map_accepted(dom: Arc<FramedPoset>, cod: Arc<FramedPoset>, dom_cells: Seq<(usize, usize)>, cod_cells: Seq<(usize, usize)>,
    m: Seq<u32>) -> bool {
    &&& m.len() == cod_cells.len()
    &&& dom.levels() <= cod.levels()
    &&& forall|j: int| 0 <= j < m.len() ==> #[trigger] vertex_ok(*dom, *cod, dom_cells, cod_cells, m, j)
    &&& tables_isomorphism(dom, cod, map_after(*dom, dom_cells, cod_cells, m, m.len() as int),
        inv_after(*cod, dom_cells, cod_cells, m, m.len() as int))
}

/// The forward and inverse tables of the vertex maps `maps` that are
/// accepted, in order.
pub open spec fn accepted_tables(dom: Arc<FramedPoset>, cod: Arc<FramedPoset>, dom_cells: Seq<(usize, usize)>, cod_cells: Seq<(usize, usize)>,
    maps: Seq<Seq<u32>>) -> Seq<(Seq<Seq<usize>>, Seq<Seq<usize>>)>
    decreases maps.len(),
{
    if maps.len() == 0 {
        Seq::empty()
    } else {
        let prev = accepted_tables(dom, cod, dom_cells, cod_cells, maps.drop_last());
        let m = maps.last();
        if map_accepted(dom, cod, dom_cells, cod_cells, m) {
            prev.push((map_after(*dom, dom_cells, cod_cells, m, m.len() as int), inv_after(*cod, dom_cells, cod_cells, m, m.len() as int)))
        } else {
            prev
        }
    }
}

/// A list of distinct sets in which every basis of `a` and of `b` occurs.
pub open spec fn palette_for(palette: Seq<Seq<usize>>, a: FramedPoset, b: FramedPoset) -> bool {
    &&& covers_bases(palette, a)
    &&& covers_bases(palette, b)
    &&& distinct_sets(palette)
}

/// The tables of the isomorphisms from `dom` to `cod` that the search on the
/// Hasse diagrams, coloured by `palette`, finds, in the order found.
pub open spec fn found_isomorphisms(dom: Arc<FramedPoset>, cod: Arc<FramedPoset>, palette: Seq<Seq<usize>>)
    -> Seq<(Seq<Seq<usize>>, Seq<Seq<usize>>)> {
    accepted_tables(dom, cod, hasse_cells(*dom), hasse_cells(*cod), vf2_isomorphisms(
        hasse_order(*dom),
        hasse_arcs(*dom),
        hasse_colors(*dom, palette),
        hasse_arc_colors(*dom),
        hasse_order(*cod),
        hasse_arcs(*cod),
        hasse_colors(*cod, palette),
        hasse_arc_colors(*cod),
    ))
}

/// `r` lists isomorphisms from `dom` onto `cod` with the tables `t`, in order.
pub open spec fn embeddings_with_tables(r: Seq<Embedding>, dom: Arc<FramedPoset>, cod: Arc<FramedPoset>,
    t: Seq<(Seq<Seq<usize>>, Seq<Seq<usize>>)>) -> bool {
    &&& r.len() == t.len()
    &&& forall|i: int| 0 <= i < r.len() ==> (#[trigger] r[i]).dom == dom && r[i].cod == cod && r[i].valid()
        && r[i].surjective() && r[i].closed() && tv(r[i].map) == t[i].0 && tv(r[i].inv) == t[i].1
}

/// Rows of the forward and inverse tables agree.
spec fn same_rows(a: Embedding, b: Embedding) -> bool {
    &&& a.dom == b.dom
    &&& a.cod == b.cod
    &&& a.map@.len() == b.map@.len()
    &&& a.inv@.len() == b.inv@.len()
    &&& forall|d: int, i: int| 0 <= d < a.map@.len() ==> #[trigger] at(a.map, d, i) == #[trigger] at(b.map, d, i)
    &&& forall|d: int| 0 <= d < a.map@.len() ==> #[trigger] a.map@[d]@.len() == #[trigger] b.map@[d]@.len()
    &&& forall|d: int, j: int| 0 <= d < a.inv@.len() ==> #[trigger] at(a.inv, d, j) == #[trigger] at(b.inv, d, j)
    &&& forall|d: int| 0 <= d < a.inv@.len() ==> #[trigger] a.inv@[d]@.len() == #[trigger] b.inv@[d]@.len()
}

proof fn lemma_map_ok_transfer(a: Embedding, b: Embedding)
    requires
        same_rows(a, b) || same_rows(b, a),
    ensures
        map_ok(&*a.dom, &*a.cod, a.map) ==> map_ok(&*b.dom, &*b.cod, b.map),
{
    if map_ok(&*a.dom, &*a.cod, a.map) {
        let x = *a.dom;
        let y = *a.cod;
        assert forall|d: int| 0 <= d < x.levels() implies #[trigger] b.map@[d]@.len() == x.size(d) by {
            assert(a.map@[d]@.len() == x.size(d));
        }
        assert forall|d: int, i: int| x.cell(d, i) implies #[trigger] at(b.map, d, i) < y.size(d) by {
            assert(at(a.map, d, i) < y.size(d));
        }
        assert forall|d: int, i: int, j: int| x.cell(d, i) && x.cell(d, j) && i != j implies #[trigger] at(b.map, d, i) != #[trigger] at(b.map, d, j) by {
            assert(at(a.map, d, i) != at(a.map, d, j));
        }
        assert forall|d: int, i: int| x.cell(d, i) implies #[trigger] x.basis_at(d, i) == y.basis_at(d, at(b.map, d, i) as int) by {
            assert(x.basis_at(d, i) == y.basis_at(d, at(a.map, d, i) as int));
        }
    }
}

proof fn lemma_inv_ok_transfer(a: Embedding, b: Embedding)
    requires
        same_rows(a, b) || same_rows(b, a),
        map_ok(&*a.dom, &*a.cod, a.map),
        a.dom.levels() <= a.cod.levels(),
    ensures
        inv_ok(&*a.cod, a.map, a.inv) ==> inv_ok(&*b.cod, b.map, b.inv),
{
    if inv_ok(&*a.cod, a.map, a.inv) {
        let y = *a.cod;
        assert forall|d: int| 0 <= d < y.levels() implies #[trigger] b.inv@[d]@.len() == y.size(d) by {
            assert(a.inv@[d]@.len() == y.size(d));
        }
        assert forall|d: int, i: int| 0 <= d < b.map@.len() && 0 <= i < b.map@[d]@.len() implies #[trigger] at(b.inv, d, at(b.map, d, i) as int) == i by {
            assert(at(a.map, d, i) == at(b.map, d, i));
            assert(at(a.inv, d, at(a.map, d, i) as int) == i);
            assert(at(a.inv, d, at(a.map, d, i) as int) == at(b.inv, d, at(a.map, d, i) as int));
        }
        assert forall|d: int, j: int| y.cell(d, j) && #[trigger] at(b.inv, d, j) != NO_PREIMAGE implies
            d < b.map@.len() && at(b.inv, d, j) < b.map@[d]@.len() && at(b.map, d, at(b.inv, d, j) as int) == j by {
            assert(at(a.inv, d, j) == at(b.inv, d, j));
            assert(at(a.map, d, at(a.inv, d, j) as int) == at(b.map, d, at(a.inv, d, j) as int));
        }
    }
}

/// Whether an embedding satisfies the conditions on its tables depends on
/// the tables only through their views.
proof fn lemma_tables_decide(a: Embedding, b: Embedding)
    requires
        a.dom == b.dom,
        a.cod == b.cod,
        tv(a.map) == tv(b.map),
        tv(a.inv) == tv(b.inv),
        a.dom.levels() <= a.cod.levels(),
    ensures
        a.wf() == b.wf(),
        a.wf() ==> (a.surjective() == b.surjective() && a.closed() == b.closed()),
{
    assert(a.map@.len() == tv(a.map).len());
    assert(b.map@.len() == tv(b.map).len());
    assert(a.inv@.len() == tv(a.inv).len());
    assert(b.inv@.len() == tv(b.inv).len());
    assert forall|d: int| 0 <= d < a.map@.len() implies #[trigger] a.map@[d]@ == b.map@[d]@ by {
        assert(tv(a.map)[d] == a.map@[d]@);
        assert(tv(b.map)[d] == b.map@[d]@);
    }
    assert forall|d: int| 0 <= d < a.inv@.len() implies #[trigger] a.inv@[d]@ == b.inv@[d]@ by {
        assert(tv(a.inv)[d] == a.inv@[d]@);
        assert(tv(b.inv)[d] == b.inv@[d]@);
    }
    assert forall|d: int, i: int| 0 <= d < a.map@.len() implies #[trigger] at(a.map, d, i) == #[trigger] at(b.map, d, i) by {
        assert(a.map@[d]@ == b.map@[d]@);
    }
    assert forall|d: int, j: int| 0 <= d < a.inv@.len() implies #[trigger] at(a.inv, d, j) == #[trigger] at(b.inv, d, j) by {
        assert(a.inv@[d]@ == b.inv@[d]@);
    }
    assert(same_rows(a, b));
    lemma_map_ok_transfer(a, b);
    lemma_map_ok_transfer(b, a);
    if map_ok(&*a.dom, &*a.cod, a.map) {
        lemma_inv_ok_transfer(a, b);
        lemma_inv_ok_transfer(b, a);
    }
    assert(a.surjective() == b.surjective()) by {
        assert forall|d: int| 0 <= d < a.inv@.len() implies #[trigger] a.inv@[d]@.len() == b.inv@[d]@.len() by {
            assert(a.inv@[d]@ == b.inv@[d]@);
        }
        if a.surjective() {
            assert forall|d: int, j: int| 0 <= d < b.inv@.len() && 0 <= j < b.inv@[d]@.len() implies #[trigger] at(b.inv, d, j) != NO_PREIMAGE by {
                assert(a.inv@[d]@.len() == b.inv@[d]@.len());
                assert(at(a.inv, d, j) == at(b.inv, d, j));
            }
        }
        if b.surjective() {
            assert forall|d: int, j: int| 0 <= d < a.inv@.len() && 0 <= j < a.inv@[d]@.len() implies #[trigger] at(a.inv, d, j) != NO_PREIMAGE by {
                assert(a.inv@[d]@.len() == b.inv@[d]@.len());
                assert(at(a.inv, d, j) == at(b.inv, d, j));
            }
        }
    }
    if a.wf() {
        assert forall|s: Sign, d: int, i: int| 1 <= d && a.dom.cell(d, i) implies a.image_faces(s, d, i) == b.image_faces(s, d, i) by {
            assert forall|k: int| 0 <= k < a.dom.faces(s, d, i).len() implies
                #[trigger] at(a.map, d - 1, a.dom.faces(s, d, i)[k] as int) == at(b.map, d - 1, a.dom.faces(s, d, i)[k] as int) by {}
            assert(a.image_faces(s, d, i) =~= b.image_faces(s, d, i));
        }
        assert(a.closed() == b.closed()) by {
            if a.closed() {
                assert forall|s: Sign, d: int, i: int| 1 <= d && b.dom.cell(d, i) implies
                    same_elements(#[trigger] b.cod.faces(s, d, at(b.map, d, i) as int), b.image_faces(s, d, i)) by {
                    assert(same_elements(a.cod.faces(s, d, at(a.map, d, i) as int), a.image_faces(s, d, i)));
                    assert(a.image_faces(s, d, i) == b.image_faces(s, d, i));
                }
            }
            if b.closed() {
                assert forall|s: Sign, d: int, i: int| 1 <= d && a.dom.cell(d, i) implies
                    same_elements(#[trigger] a.cod.faces(s, d, at(a.map, d, i) as int), a.image_faces(s, d, i)) by {
                    assert(same_elements(b.cod.faces(s, d, at(b.map, d, i) as int), b.image_faces(s, d, i)));
                    assert(a.image_faces(s, d, i) == b.image_faces(s, d, i));
                }
            }
        }
    }
}

/// Overwrite entry `(d, i)` of a table.
fn set_entry(t: &mut Vec<Vec<usize>>, d: usize, i: usize, v: usize)
    requires
        d < old(t)@.len(),
        i < old(t)@[d as int]@.len(),
    ensures
        final(t)@.len() == old(t)@.len(),
        forall|e: int| 0 <= e < old(t)@.len() ==> #[trigger] final(t)@[e]@.len() == old(t)@[e]@.len(),
        final(t)@[d as int]@ == old(t)@[d as int]@.update(i as int, v),
        forall|e: int| 0 <= e < old(t)@.len() && e != d ==> #[trigger] final(t)@[e] == old(t)@[e],
{
    let mut row = t[d].clone();
    row.set(i, v);
    t.set(d, row);
}

/// Turn a vertex map of two Hasse diagrams, from the vertices of the
/// codomain's diagram to those of the domain's, into an embedding.
///
/// `dom_cells` and `cod_cells` give the cell behind each vertex. The result
/// is `None` when the map does not describe an isomorphism of framed posets.
pub fn mapping_to_embedding(
    dom: &Arc<FramedPoset>,
    cod: &Arc<FramedPoset>,
    dom_cells: &Vec<(usize, usize)>,
    cod_cells: &Vec<(usize, usize)>,
    inverse_mapping: &Vec<u32>,
) -> (r: Option<Embedding>)
    requires
        dom.valid(),
        cod.valid(),
    ensures
        r matches Some(e) ==> e.dom == *dom && e.cod == *cod && e.valid() && e.surjective() && e.closed()
            && tv(e.map) == map_after(**dom, dom_cells@, cod_cells@, inverse_mapping@, inverse_mapping@.len() as int)
            && tv(e.inv) == inv_after(**cod, dom_cells@, cod_cells@, inverse_mapping@, inverse_mapping@.len() as int),
        r is Some <==> map_accepted(*dom, *cod, dom_cells@, cod_cells@, inverse_mapping@),
{
    if inverse_mapping.len() != cod_cells.len() {
        return None;
    }
    let dom_sizes = dom.sizes();
    let cod_sizes = cod.sizes();
    if dom_sizes.len() > cod_sizes.len() {
        return None;
    }
    let mut map = unmapped_table(&dom_sizes);
    let mut inv = unmapped_table(&cod_sizes);
    let n = inverse_mapping.len();
    let ghost dc = dom_cells@;
    let ghost cc = cod_cells@;
    let ghost im = inverse_mapping@;
    for j in 0..n
        invariant
            n == inverse_mapping@.len(),
            n == cod_cells@.len(),
            dc == dom_cells@,
            cc == cod_cells@,
            im == inverse_mapping@,
            dom_sizes@ == dom.size_seq(),
            cod_sizes@ == cod.size_seq(),
            map@.len() == dom_sizes@.len(),
            inv@.len() == cod_sizes@.len(),
            forall|d: int| 0 <= d < dom_sizes@.len() ==> #[trigger] map@[d]@.len() == dom_sizes@[d],
            forall|d: int| 0 <= d < cod_sizes@.len() ==> #[trigger] inv@[d]@.len() == cod_sizes@[d],
            tv(map) == map_after(**dom, dc, cc, im, j as int),
            tv(inv) == inv_after(**cod, dc, cc, im, j as int),
            forall|k: int| 0 <= k < j ==> #[trigger] vertex_ok(**dom, **cod, dc, cc, im, k),
    {
        let v = inverse_mapping[j] as usize;
        if v >= dom_cells.len() || j >= cod_cells.len() {
            proof {
                assert(!vertex_ok(**dom, **cod, dc, cc, im, j as int));
            }
            return None;
        }
        let (dd, dp) = dom_cells[v];
        let (cd, cp) = cod_cells[j];
        if dd != cd || dd >= map.len() || cd >= inv.len() {
            proof {
                assert(!vertex_ok(**dom, **cod, dc, cc, im, j as int));
            }
            return None;
        }
        if dp >= map[dd].len() || cp >= inv[cd].len() {
            proof {
                assert(!vertex_ok(**dom, **cod, dc, cc, im, j as int));
            }
            return None;
        }
        proof {
            assert(vertex_ok(**dom, **cod, dc, cc, im, j as int));
        }
        let ghost m0 = map;
        let ghost i0 = inv;
        set_entry(&mut map, dd, dp, cp);
        set_entry(&mut inv, cd, cp, dp);
        proof {
            assert(tv(map) =~= tv(m0).update(dd as int, tv(m0)[dd as int].update(dp as int, cp))) by {
                assert forall|d: int| 0 <= d < map@.len() implies #[trigger] tv(map)[d] == tv(m0).update(dd as int, tv(m0)[dd as int].update(dp as int, cp))[d] by {
                    if d != dd {
                        assert(map@[d] == m0@[d]);
                    }
                }
            }
            assert(tv(inv) =~= tv(i0).update(cd as int, tv(i0)[cd as int].update(cp as int, dp))) by {
                assert forall|d: int| 0 <= d < inv@.len() implies #[trigger] tv(inv)[d] == tv(i0).update(cd as int, tv(i0)[cd as int].update(cp as int, dp))[d] by {
                    if d != cd {
                        assert(inv@[d] == i0@[d]);
                    }
                }
            }
            assert(map_after(**dom, dc, cc, im, j + 1) == tv(m0).update(dd as int, tv(m0)[dd as int].update(dp as int, cp)));
            assert(inv_after(**cod, dc, cc, im, j + 1) == tv(i0).update(cd as int, tv(i0)[cd as int].update(cp as int, dp)));
        }
    }
    let e = Embedding::make(share(dom), share(cod), map, inv);
    proof {
        assert(e.dom.levels() <= e.cod.levels());
    }
    let ok = e.well_formed() && e.is_isomorphism();
    let dx: &FramedPoset = dom;
    let cx: &FramedPoset = cod;
    proof {
        let m = map_after(*dx, dc, cc, im, n as int);
        let iv = inv_after(*cx, dc, cc, im, n as int);
        if ok {
            assert(tables_isomorphism(*dom, *cod, m, iv)) by {
                assert(e.wf());
            }
        } else {
            assert forall|e2: Embedding| !(e2.dom == *dom && e2.cod == *cod && tv(e2.map) == m && tv(e2.inv) == iv
                && #[trigger] e2.wf() && e2.surjective() && e2.closed()) by {
                if e2.dom == *dom && e2.cod == *cod && tv(e2.map) == m && tv(e2.inv) == iv {
                    lemma_tables_decide(e, e2);
                }
            }
        }
    }
    if ok {
        Some(e)
    } else {
        None
    }
}

/// Enumerate all isomorphisms from `dom` to `cod`.
///
/// The result can be extremely large: a framed poset consisting of `n`
/// indistinguishable isolated points has `n!` automorphisms.
pub fn isomorphisms(dom: &Arc<FramedPoset>, cod: &Arc<FramedPoset>) -> (r: Vec<Embedding>)
    requires
        dom.valid(),
        cod.valid(),
        graph_sized(**dom),
        graph_sized(**cod),
        cell_total(**dom) + cell_total(**cod) <= u32::MAX + 1,
    ensures
        exists|palette: Seq<Seq<usize>>| #[trigger] palette_for(palette, **dom, **cod)
            && embeddings_with_tables(r@, *dom, *cod, found_isomorphisms(*dom, *cod, palette)),
        forall|e: Embedding| #[trigger] crate::traversal::isomorphism_onto(e, *dom, *cod) && dom.framed() && cod.framed()
            && canonical_sized(**dom) && canonical_sized(**cod) && dom.levels() == cod.levels()
            ==> exists|i: int| 0 <= i < r@.len() && tv(r@[i].map) == tv(e.map) && tv(r@[i].inv) == tv(e.inv),
        forall|i: int, k: int| 0 <= i < k < r@.len() ==> !(tv(#[trigger] r@[i].map) == tv(#[trigger] r@[k].map) && tv(r@[i].inv) == tv(r@[k].inv)),
{
    let dom_poset: &FramedPoset = dom;
    let cod_poset: &FramedPoset = cod;
    let palette = basis_palette(dom_poset, cod_poset);
    let dom_graph = hasse_graph(dom_poset, &palette);
    let cod_graph = hasse_graph(cod_poset, &palette);
    let maps = vf2_maps(
        &dom_graph.graph,
        &cod_graph.graph,
        &dom_graph.colors,
        &cod_graph.colors,
        &dom_graph.arc_colors,
        &cod_graph.arc_colors,
    );
    let ghost mv = maps@.map_values(|m: Vec<u32>| m@);
    let ghost dc = dom_graph.cells@;
    let ghost cc = cod_graph.cells@;
    let mut r: Vec<Embedding> = Vec::new();
    let n = maps.len();
    proof {
        assert(mv.take(0) =~= Seq::<Seq<u32>>::empty());
    }
    for k in 0..n
        invariant
            n == maps@.len(),
            mv == maps@.map_values(|m: Vec<u32>| m@),
            dc == dom_graph.cells@,
            cc == cod_graph.cells@,
            dom.valid(),
            cod.valid(),
            embeddings_with_tables(r@, *dom, *cod, accepted_tables(*dom, *cod, dc, cc, mv.take(k as int))),
    {
        let ghost before = r@;
        proof {
            assert(mv.take(k + 1).drop_last() =~= mv.take(k as int));
            assert(mv.take(k + 1).last() == maps@[k as int]@);
        }
        match mapping_to_embedding(dom, cod, &dom_graph.cells, &cod_graph.cells, &maps[k]) {
            Some(e) => {
                r.push(e);
                proof {
                    let t = accepted_tables(*dom, *cod, dc, cc, mv.take(k + 1));
                    assert forall|i: int| 0 <= i < r@.len() implies (#[trigger] r@[i]).dom == *dom && r@[i].cod == *cod && r@[i].valid()
                        && r@[i].surjective() && r@[i].closed() && tv(r@[i].map) == t[i].0 && tv(r@[i].inv) == t[i].1 by {
                        if i < before.len() {
                            assert(r@[i] == before[i]);
                        }
                    }
                }
            },
            None => {},
        }
    }
    proof {
        assert(mv.take(n as int) =~= mv);
        assert(palette_for(sets_view(palette), **dom, **cod));
        assert forall|e: Embedding| #[trigger] crate::traversal::isomorphism_onto(e, *dom, *cod) && dom.framed() && cod.framed()
            && canonical_sized(**dom) && canonical_sized(**cod) && dom.levels() == cod.levels()
            implies exists|i: int| 0 <= i < r@.len() && tv(r@[i].map) == tv(e.map) && tv(r@[i].inv) == tv(e.inv) by {
            crate::completeness::lemma_isomorphism_found(e, sets_view(palette), mv);
            let t = accepted_tables(*dom, *cod, dc, cc, mv);
            let i = choose|i: int| 0 <= i < t.len() && t[i] == (tv(e.map), tv(e.inv));
            assert(tv(r@[i].map) == t[i].0);
        }
        let gd = *dom;
        let gc = *cod;
        let x = *gd;
        let y = *gc;
        crate::completeness::lemma_accepted_distinct(gd, gc, x, y, mv);
        let t = accepted_tables(*dom, *cod, dc, cc, mv);
        assert forall|i: int, k: int| 0 <= i < k < r@.len() implies !(tv(#[trigger] r@[i].map) == tv(#[trigger] r@[k].map)
            && tv(r@[i].inv) == tv(r@[k].inv)) by {
            assert(t[i] != t[k]);
            assert(tv(r@[i].map) == t[i].0 && tv(r@[i].inv) == t[i].1);
            assert(tv(r@[k].map) == t[k].0 && tv(r@[k].inv) == t[k].1);
        }
    }
    r
}


/// Position `p` comes before position `q` of a level whose cells have the
/// keys `keys[off..]`: by key, then by position.
pub open spec fn key_lt(keys: Seq<u32>, off: int, p: int, q: int) -> bool {
    ||| keys[off + p] < keys[off + q]
    ||| (keys[off + p] == keys[off + q] && p < q)
}

/// `order` lists the positions `0..size` sorted by their keys.
pub open spec fn level_order(keys: Seq<u32>, off: int, size: int, order: Seq<usize>) -> bool {
    &&& order.len() == size
    &&& forall|i: int| 0 <= i < size ==> #[trigger] order[i] < size
    &&& forall|i: int, j: int| 0 <= i < j < size ==> key_lt(keys, off, #[trigger] order[i] as int, #[trigger] order[j] as int)
    &&& forall|p: int| 0 <= p < size ==> #[trigger] order.contains(p as usize)
}

/// The positions `0..size` of a level sorted by their keys `keys[off..]`.
fn sort_positions(keys: &Vec<u32>, off: usize, size: usize) -> (order: Vec<usize>)
    requires
        off + size <= keys@.len(),
    ensures
        level_order(keys@, off as int, size as int, order@),
{
    let mut order: Vec<usize> = Vec::new();
    proof {
        assert(keys@.len() == keys.len());
    }
    for p in 0..size
        invariant
            keys@.len() <= usize::MAX,
            off + size <= keys@.len(),
            order@.len() == p,
            forall|i: int| 0 <= i < p ==> #[trigger] order@[i] < p,
            forall|i: int, j: int| 0 <= i < j < p ==> key_lt(keys@, off as int, #[trigger] order@[i] as int, #[trigger] order@[j] as int),
            forall|q: int| 0 <= q < p ==> #[trigger] order@.contains(q as usize),
    {
        let mut i: usize = 0;
        while i < order.len() && !(keys[off + p] < keys[off + order[i]])
            invariant
                keys@.len() <= usize::MAX,
                off + size <= keys@.len(),
                p < size,
                order@.len() == p,
                i <= p,
                forall|k: int| 0 <= k < p ==> #[trigger] order@[k] < p,
                forall|j: int| 0 <= j < i ==> key_lt(keys@, off as int, #[trigger] order@[j] as int, p as int),
            decreases p - i,
        {
            proof {
                assert(order@[i as int] < p);
            }
            i = i + 1;
        }
        let ghost before = order@;
        order.insert(i, p);
        proof {
            let after = order@;
            assert(after.len() == p + 1);
            assert forall|j: int| 0 <= j < p + 1 implies #[trigger] after[j] == (if j < i { before[j] } else if j == i { p } else { before[j - 1] }) by {
                assert(after == before.insert(i as int, p));
            }
            if i < p {
                assert(keys@[off + p] < keys@[off + before[i as int]]);
            }
            assert forall|a: int, b: int| 0 <= a < b < p + 1 implies key_lt(keys@, off as int, #[trigger] after[a] as int, #[trigger] after[b] as int) by {
                assert(after[a] == (if a < i { before[a] } else if a == i { p } else { before[a - 1] }));
                assert(after[b] == (if b < i { before[b] } else if b == i { p } else { before[b - 1] }));
                if b == i {
                } else if a == i {
                    assert(b > i);
                    if b - 1 > i {
                        assert(key_lt(keys@, off as int, before[i as int] as int, before[b - 1] as int));
                    }
                } else if a < i && b > i {
                    assert(key_lt(keys@, off as int, before[a] as int, p as int));
                    if b - 1 > i {
                        assert(key_lt(keys@, off as int, before[i as int] as int, before[b - 1] as int));
                    }
                    assert(before[b - 1] < p);
                } else if a > i {
                    assert(key_lt(keys@, off as int, before[a - 1] as int, before[b - 1] as int));
                } else {
                    assert(key_lt(keys@, off as int, before[a] as int, before[b] as int));
                }
            }
            assert forall|k: int| 0 <= k < p + 1 implies #[trigger] after[k] < p + 1 by {
                assert(after[k] == (if k < i { before[k] } else if k == i { p } else { before[k - 1] }));
            }
            assert forall|q: int| 0 <= q < p + 1 implies #[trigger] after.contains(q as usize) by {
                if q == p {
                    assert(after[i as int] == p);
                } else {
                    assert(before.contains(q as usize));
                    let w = choose|w: int| 0 <= w < before.len() && before[w] == q as usize;
                    if w < i {
                        assert(after[w] == q as usize);
                    } else {
                        assert(after[w + 1] == q as usize);
                    }
                }
            }
        }
    }
    order
}

/// The inverse of a level order: the new position of every old position.
fn invert_order(order: &Vec<usize>, ghost_keys: Ghost<Seq<u32>>, off: Ghost<int>) -> (inv: Vec<usize>)
    requires
        level_order(ghost_keys@, off@, order@.len() as int, order@),
    ensures
        inv@.len() == order@.len(),
        forall|k: int| 0 <= k < order@.len() ==> #[trigger] inv@[order@[k] as int] == k,
        forall|q: int| 0 <= q < order@.len() ==> #[trigger] inv@[q] < order@.len() && order@[inv@[q] as int] == q,
{
    let size = order.len();
    let mut inv: Vec<usize> = vec![0; size];
    for k in 0..size
        invariant
            size == order@.len(),
            inv@.len() == size,
            level_order(ghost_keys@, off@, size as int, order@),
            forall|j: int| 0 <= j < k ==> #[trigger] inv@[order@[j] as int] == j,
    {
        let ghost before = inv@;
        inv.set(order[k], k);
        proof {
            assert forall|j: int| 0 <= j < k + 1 implies #[trigger] inv@[order@[j] as int] == j by {
                if j < k {
                    assert(key_lt(ghost_keys@, off@, order@[j] as int, order@[k as int] as int));
                    assert(order@[j] != order@[k as int]);
                }
            }
        }
    }
    proof {
        assert forall|q: int| 0 <= q < size implies #[trigger] inv@[q] < size && order@[inv@[q] as int] == q by {
            assert(order@.contains(q as usize));
            let w = choose|w: int| 0 <= w < size && order@[w] == q as usize;
            assert(inv@[order@[w] as int] == w);
        }
    }
    inv
}


/// `orders[d]` lists the positions of level `d` of `x` sorted by the keys
/// `keys`, read in the flat numbering of cells.
pub open spec fn level_orders(x: FramedPoset, keys: Seq<u32>, orders: Seq<Seq<usize>>) -> bool {
    &&& orders.len() == x.levels()
    &&& forall|d: int| 0 <= d < x.levels() ==> level_order(keys, cells_upto(x, d), x.size(d), #[trigger] orders[d])
}

/// The set `faces` describes the `s`-faces of cell `old` of `x` at level `d`,
/// renumbered one level down by `orders`.
pub open spec fn relabeled_faces(x: FramedPoset, orders: Seq<Seq<usize>>, s: Sign, d: int, old: int, faces: Seq<usize>) -> bool {
    &&& strictly_sorted(faces)
    &&& forall|y: usize| #[trigger] faces.contains(y) <==> (1 <= d && y < x.size(d - 1) && x.faces(s, d, old).contains(orders[d - 1][y as int]))
}

/// `r` is `x` with the cells of every level `d` put in the order `orders[d]`:
/// new cell `k` is old cell `orders[d][k]`.
pub open spec fn relabels(x: FramedPoset, orders: Seq<Seq<usize>>, r: FramedPoset) -> bool {
    &&& r.levels() == x.levels()
    &&& forall|d: int| 0 <= d < x.levels() ==> #[trigger] r.size(d) == x.size(d)
    &&& forall|d: int, k: int| #[trigger] r.cell(d, k) ==> r.basis_at(d, k) == x.basis_at(d, orders[d][k] as int)
    &&& forall|s: Sign, d: int, k: int| r.cell(d, k) ==> relabeled_faces(x, orders, s, d, orders[d][k] as int, #[trigger] r.faces(s, d, k))
}

/// Renumber a set of positions by `inv`, sorting the result.
fn renumber(faces: &IntSet, inv: &Vec<usize>) -> (r: IntSet)
    requires
        forall|i: int| 0 <= i < faces@.len() ==> #[trigger] faces@[i] < inv@.len(),
    ensures
        strictly_sorted(r@),
        forall|y: usize| #[trigger] r@.contains(y) <==> exists|f: usize| #[trigger] faces@.contains(f) && inv@[f as int] == y,
{
    let n = faces.len();
    let mut items: Vec<usize> = Vec::new();
    for k in 0..n
        invariant
            n == faces@.len(),
            forall|i: int| 0 <= i < faces@.len() ==> #[trigger] faces@[i] < inv@.len(),
            items@.len() == k,
            forall|j: int| 0 <= j < k ==> #[trigger] items@[j] == inv@[faces@[j] as int],
    {
        items.push(inv[faces[k]]);
    }
    let r = crate::intset::collect_sorted(items);
    proof {
        assert forall|y: usize| #[trigger] r@.contains(y) <==> exists|f: usize| #[trigger] faces@.contains(f) && inv@[f as int] == y by {
            if r@.contains(y) {
                assert(items@.contains(y));
                let j = choose|j: int| 0 <= j < items@.len() && items@[j] == y;
                assert(faces@.contains(faces@[j]));
            }
            if exists|f: usize| #[trigger] faces@.contains(f) && inv@[f as int] == y {
                let f = choose|f: usize| #[trigger] faces@.contains(f) && inv@[f as int] == y;
                let j = choose|j: int| 0 <= j < faces@.len() && faces@[j] == f;
                assert(items@[j] == y);
                assert(items@.contains(y));
            }
        }
    }
    r
}

/// Put the cells of every level of `shape` in the order of their labels in
/// `labeling` (read in the flat numbering of cells, ties broken by
/// position), and mark the result as normalized.
pub fn normalize_with_labeling(shape: &FramedPoset, labeling: &Vec<u32>) -> (r: FramedPoset)
    requires
        shape.valid(),
        cell_total(*shape) <= u32::MAX,
        labeling@.len() >= cell_total(*shape),
    ensures
        r.normal,
        r.valid(),
        exists|orders: Seq<Seq<usize>>| #[trigger] level_orders(*shape, labeling@, orders) && relabels(*shape, orders, r),
{
    let sizes = shape.sizes();
    let levels = sizes.len();
    let offsets = level_offsets(shape);
    let mut orders: Vec<Vec<usize>> = Vec::new();
    let mut invs: Vec<Vec<usize>> = Vec::new();
    for d in 0..levels
        invariant
            levels == shape.levels(),
            sizes@ == shape.size_seq(),
            offsets@.len() == levels + 1,
            forall|e: int| 0 <= e <= levels ==> #[trigger] offsets@[e] == cells_upto(*shape, e),
            cell_total(*shape) <= u32::MAX,
            labeling@.len() >= cell_total(*shape),
            orders@.len() == d,
            invs@.len() == d,
            forall|e: int| 0 <= e < d ==> level_order(labeling@, cells_upto(*shape, e), shape.size(e), #[trigger] orders@[e]@),
            forall|e: int| 0 <= e < d ==> (#[trigger] invs@[e])@.len() == shape.size(e),
            forall|e: int, q: int| 0 <= e < d && 0 <= q < shape.size(e) ==> #[trigger] invs@[e]@[q] < shape.size(e)
                && orders@[e]@[invs@[e]@[q] as int] == q,
    {
        proof {
            lemma_cells_upto_mono(*shape, d + 1, shape.levels());
            assert(offsets@[d as int + 1] == offsets@[d as int] + sizes@[d as int]);
        }
        let order = sort_positions(labeling, offsets[d], sizes[d]);
        let inv = invert_order(&order, Ghost(labeling@), Ghost(offsets@[d as int] as int));
        orders.push(order);
        invs.push(inv);
    }
    let ghost ov = orders@.map_values(|o: Vec<usize>| o@);
    let mut basis: Vec<Vec<IntSet>> = Vec::new();
    let mut faces_in: Vec<Vec<IntSet>> = Vec::new();
    let mut faces_out: Vec<Vec<IntSet>> = Vec::new();
    for d in 0..levels
        invariant
            shape.valid(),
            levels == shape.levels(),
            sizes@ == shape.size_seq(),
            ov == orders@.map_values(|o: Vec<usize>| o@),
            orders@.len() == levels,
            invs@.len() == levels,
            forall|e: int| 0 <= e < levels ==> level_order(labeling@, cells_upto(*shape, e), shape.size(e), #[trigger] orders@[e]@),
            forall|e: int| 0 <= e < levels ==> (#[trigger] invs@[e])@.len() == shape.size(e),
            forall|e: int, q: int| 0 <= e < levels && 0 <= q < shape.size(e) ==> #[trigger] invs@[e]@[q] < shape.size(e)
                && orders@[e]@[invs@[e]@[q] as int] == q,
            basis@.len() == d,
            faces_in@.len() == d,
            faces_out@.len() == d,
            forall|e: int| 0 <= e < d ==> #[trigger] basis@[e]@.len() == shape.size(e),
            forall|e: int| 0 <= e < d ==> #[trigger] faces_in@[e]@.len() == shape.size(e),
            forall|e: int| 0 <= e < d ==> #[trigger] faces_out@[e]@.len() == shape.size(e),
            forall|e: int, k: int| 0 <= e < d && 0 <= k < shape.size(e) ==> #[trigger] crate::poset::entry(basis, e, k)
                == shape.basis_at(e, ov[e][k] as int),
            forall|e: int, k: int| 0 <= e < d && 0 <= k < shape.size(e) ==> relabeled_faces(*shape, ov, Sign::Input, e, ov[e][k] as int,
                #[trigger] crate::poset::entry(faces_in, e, k)),
            forall|e: int, k: int| 0 <= e < d && 0 <= k < shape.size(e) ==> relabeled_faces(*shape, ov, Sign::Output, e, ov[e][k] as int,
                #[trigger] crate::poset::entry(faces_out, e, k)),
    {
        let size = sizes[d];
        let mut brow: Vec<IntSet> = Vec::new();
        let mut irow: Vec<IntSet> = Vec::new();
        let mut orow: Vec<IntSet> = Vec::new();
        for k in 0..size
            invariant
                shape.valid(),
                d < levels,
                levels == shape.levels(),
                size == shape.size(d as int),
                ov == orders@.map_values(|o: Vec<usize>| o@),
                orders@.len() == levels,
                invs@.len() == levels,
                forall|e: int| 0 <= e < levels ==> level_order(labeling@, cells_upto(*shape, e), shape.size(e), #[trigger] orders@[e]@),
                forall|e: int| 0 <= e < levels ==> (#[trigger] invs@[e])@.len() == shape.size(e),
                forall|e: int, q: int| 0 <= e < levels && 0 <= q < shape.size(e) ==> #[trigger] invs@[e]@[q] < shape.size(e)
                    && orders@[e]@[invs@[e]@[q] as int] == q,
                brow@.len() == k,
                irow@.len() == k,
                orow@.len() == k,
                forall|j: int| 0 <= j < k ==> #[trigger] brow@[j]@ == shape.basis_at(d as int, ov[d as int][j] as int),
                forall|j: int| 0 <= j < k ==> relabeled_faces(*shape, ov, Sign::Input, d as int, ov[d as int][j] as int, #[trigger] irow@[j]@),
                forall|j: int| 0 <= j < k ==> relabeled_faces(*shape, ov, Sign::Output, d as int, ov[d as int][j] as int, #[trigger] orow@[j]@),
        {
            let old = orders[d][k];
            proof {
                assert(ov[d as int] == orders@[d as int]@);
                assert(orders@[d as int]@[k as int] < size);
                assert(shape.cell(d as int, old as int));
            }
            brow.push(shape.basis_of(d, old).clone());
            if d == 0 {
                irow.push(Vec::new());
                orow.push(Vec::new());
                proof {
                    assert(irow@[k as int]@ =~= Seq::<usize>::empty());
                    assert(orow@[k as int]@ =~= Seq::<usize>::empty());
                }
            } else {
                let fi = shape.faces_of(Sign::Input, d, old);
                let fo = shape.faces_of(Sign::Output, d, old);
                let inv = &invs[d - 1];
                proof {
                    assert forall|i: int| 0 <= i < fi@.len() implies #[trigger] fi@[i] < inv@.len() by {
                        assert(crate::poset::entry(shape.faces_in, d as int, old as int)[i] < shape.size(d - 1));
                    }
                    assert forall|i: int| 0 <= i < fo@.len() implies #[trigger] fo@[i] < inv@.len() by {
                        assert(crate::poset::entry(shape.faces_out, d as int, old as int)[i] < shape.size(d - 1));
                    }
                }
                let ri = renumber(fi, inv);
                let ro = renumber(fo, inv);
                proof {
                    assert(ov[d - 1] == orders@[d - 1]@);
                    lemma_order_injective(labeling@, cells_upto(*shape, d - 1), shape.size(d - 1), ov[d - 1]);
                    lemma_renumbered(*shape, ov, Sign::Input, d as int, old as int, fi@, inv@, ri@);
                    lemma_renumbered(*shape, ov, Sign::Output, d as int, old as int, fo@, inv@, ro@);
                }
                irow.push(ri);
                orow.push(ro);
            }
        }
        let ghost (b0, i0, o0) = (basis, faces_in, faces_out);
        basis.push(brow);
        faces_in.push(irow);
        faces_out.push(orow);
        proof {
            assert forall|e: int, k: int| 0 <= e < d + 1 && 0 <= k < shape.size(e) implies #[trigger] crate::poset::entry(basis, e, k)
                == shape.basis_at(e, ov[e][k] as int) by {
                if e < d {
                    assert(basis@[e] == b0@[e]);
                    assert(crate::poset::entry(basis, e, k) == crate::poset::entry(b0, e, k));
                } else {
                    assert(basis@[e] == brow);
                    assert(crate::poset::entry(basis, e, k) == brow@[k]@);
                }
            }
            assert forall|e: int, k: int| 0 <= e < d + 1 && 0 <= k < shape.size(e) implies relabeled_faces(*shape, ov, Sign::Input, e, ov[e][k] as int,
                #[trigger] crate::poset::entry(faces_in, e, k)) by {
                if e < d {
                    assert(faces_in@[e] == i0@[e]);
                    assert(crate::poset::entry(faces_in, e, k) == crate::poset::entry(i0, e, k));
                } else {
                    assert(faces_in@[e] == irow);
                    assert(crate::poset::entry(faces_in, e, k) == irow@[k]@);
                }
            }
            assert forall|e: int, k: int| 0 <= e < d + 1 && 0 <= k < shape.size(e) implies relabeled_faces(*shape, ov, Sign::Output, e, ov[e][k] as int,
                #[trigger] crate::poset::entry(faces_out, e, k)) by {
                if e < d {
                    assert(faces_out@[e] == o0@[e]);
                    assert(crate::poset::entry(faces_out, e, k) == crate::poset::entry(o0, e, k));
                } else {
                    assert(faces_out@[e] == orow);
                    assert(crate::poset::entry(faces_out, e, k) == orow@[k]@);
                }
            }
        }
    }
    proof {
        assert(crate::poset::defining_tables(basis, faces_in, faces_out)) by {
            assert forall|e: int, k: int| 0 <= e < basis@.len() && 0 <= k < basis@[e]@.len() implies
                strictly_sorted(#[trigger] crate::poset::entry(basis, e, k)) by {
                assert(crate::poset::entry(shape.basis, e, ov[e][k] as int) == shape.basis_at(e, ov[e][k] as int));
                assert(ov[e][k] < shape.size(e)) by {
                    assert(ov[e] == orders@[e]@);
                }
            }
            assert forall|e: int, k: int, i: int| 0 <= e < faces_in@.len() && 0 <= k < faces_in@[e]@.len() && 0 <= i < crate::poset::entry(faces_in, e, k).len()
                implies #[trigger] crate::poset::entry(faces_in, e, k)[i] < crate::poset::rows(basis, e - 1) by {
                let y = crate::poset::entry(faces_in, e, k)[i];
                assert(crate::poset::entry(faces_in, e, k).contains(y));
            }
            assert forall|e: int, k: int, i: int| 0 <= e < faces_out@.len() && 0 <= k < faces_out@[e]@.len() && 0 <= i < crate::poset::entry(faces_out, e, k).len()
                implies #[trigger] crate::poset::entry(faces_out, e, k)[i] < crate::poset::rows(basis, e - 1) by {
                let y = crate::poset::entry(faces_out, e, k)[i];
                assert(crate::poset::entry(faces_out, e, k).contains(y));
            }
        }
        assert(crate::poset::dim_fits(basis@.len() as int));
    }
    let mut r = FramedPoset::from_faces(basis, faces_in, faces_out);
    r.normal = true;
    proof {
        assert(level_orders(*shape, labeling@, ov));
        assert(relabels(*shape, ov, r));
    }
    r
}

proof fn lemma_renumbered(
    x: FramedPoset,
    ov: Seq<Seq<usize>>,
    s: Sign,
    d: int,
    old: int,
    faces: Seq<usize>,
    inv: Seq<usize>,
    r: Seq<usize>,
)
    requires
        1 <= d,
        faces == x.faces(s, d, old),
        forall|i: int| 0 <= i < faces.len() ==> #[trigger] faces[i] < x.size(d - 1),
        inv.len() == x.size(d - 1),
        forall|q: int| 0 <= q < x.size(d - 1) ==> #[trigger] inv[q] < x.size(d - 1) && ov[d - 1][inv[q] as int] == q,
        ov[d - 1].len() == x.size(d - 1),
        forall|i: int| 0 <= i < x.size(d - 1) ==> #[trigger] ov[d - 1][i] < x.size(d - 1),
        forall|i: int, j: int| 0 <= i < x.size(d - 1) && 0 <= j < x.size(d - 1) && i != j ==> #[trigger] ov[d - 1][i] != #[trigger] ov[d - 1][j],
        strictly_sorted(r),
        forall|y: usize| #[trigger] r.contains(y) <==> exists|f: usize| #[trigger] faces.contains(f) && inv[f as int] == y,
    ensures
        relabeled_faces(x, ov, s, d, old, r),
{
    assert forall|y: usize| #[trigger] r.contains(y) <==> (1 <= d && y < x.size(d - 1) && x.faces(s, d, old).contains(ov[d - 1][y as int])) by {
        if r.contains(y) {
            let f = choose|f: usize| #[trigger] faces.contains(f) && inv[f as int] == y;
            let i = choose|i: int| 0 <= i < faces.len() && faces[i] == f;
            assert(f < x.size(d - 1));
            assert(ov[d - 1][y as int] == f);
        }
        if 1 <= d && y < x.size(d - 1) && x.faces(s, d, old).contains(ov[d - 1][y as int]) {
            let f = ov[d - 1][y as int];
            assert(faces.contains(f));
            let i = choose|i: int| 0 <= i < faces.len() && faces[i] == f;
            assert(f < x.size(d - 1));
            assert(ov[d - 1][inv[f as int] as int] == f);
            assert(inv[f as int] == y) by {
                let z = inv[f as int];
                if z != y {
                    assert(ov[d - 1][z as int] == ov[d - 1][y as int]);
                }
            }
        }
    }
}


/// A level order names every position once.
proof fn lemma_order_injective(keys: Seq<u32>, off: int, size: int, order: Seq<usize>)
    requires
        level_order(keys, off, size, order),
    ensures
        forall|i: int, j: int| 0 <= i < size && 0 <= j < size && i != j ==> #[trigger] order[i] != #[trigger] order[j],
{
    assert forall|i: int, j: int| 0 <= i < size && 0 <= j < size && i != j implies #[trigger] order[i] != #[trigger] order[j] by {
        if i < j {
            assert(key_lt(keys, off, order[i] as int, order[j] as int));
        } else {
            assert(key_lt(keys, off, order[j] as int, order[i] as int));
        }
    }
}


/// Lexicographic order of integer sequences, a proper prefix first.
pub open spec fn lex_lt(a: Seq<usize>, b: Seq<usize>) -> bool
    decreases a.len(),
{
    if b.len() == 0 {
        false
    } else if a.len() == 0 {
        true
    } else if a[0] != b[0] {
        a[0] < b[0]
    } else {
        lex_lt(a.drop_first(), b.drop_first())
    }
}

/// Compare two integer sets lexicographically.
fn lex_less(a: &IntSet, b: &IntSet) -> (r: bool)
    ensures
        r == lex_lt(a@, b@),
{
    let mut i: usize = 0;
    proof {
        assert(a@.skip(0) =~= a@);
        assert(b@.skip(0) =~= b@);
    }
    while i < a.len() && i < b.len()
        invariant
            i <= a@.len(),
            i <= b@.len(),
            lex_lt(a@, b@) == lex_lt(a@.skip(i as int), b@.skip(i as int)),
        decreases a@.len() - i,
    {
        if a[i] != b[i] {
            return a[i] < b[i];
        }
        proof {
            assert(a@.skip(i as int).drop_first() =~= a@.skip(i + 1));
            assert(b@.skip(i as int).drop_first() =~= b@.skip(i + 1));
        }
        i = i + 1;
    }
    i < b.len()
}

/// Number of sets in `d` lexicographically below `b`.
pub open spec fn rank_in(d: Seq<Seq<usize>>, b: Seq<usize>) -> nat
    decreases d.len(),
{
    if d.len() == 0 {
        0
    } else {
        rank_in(d.drop_last(), b) + if lex_lt(d.last(), b) { 1nat } else { 0nat }
    }
}

/// The rank of `b` among the sets `distinct`.
fn basis_rank(distinct: &Vec<IntSet>, b: &IntSet) -> (r: u32)
    requires
        distinct@.len() <= u32::MAX,
    ensures
        r == rank_in(sets_view(*distinct), b@),
        r <= distinct@.len(),
{
    let n = distinct.len();
    let mut count: u32 = 0;
    for i in 0..n
        invariant
            n == distinct@.len(),
            n <= u32::MAX,
            count == rank_in(sets_view(*distinct).take(i as int), b@),
            count <= i,
    {
        proof {
            assert(sets_view(*distinct).take(i + 1).drop_last() =~= sets_view(*distinct).take(i as int));
            assert(sets_view(*distinct).take(i + 1).last() == distinct@[i as int]@);
        }
        if lex_less(&distinct[i], b) {
            count = count + 1;
        }
    }
    proof {
        assert(sets_view(*distinct).take(n as int) =~= sets_view(*distinct));
    }
    count
}

/// The canonical-labelling graph of a framed poset fits the graph library's
/// `u32` indices: one vertex per cell and per signed cover relation, two
/// arcs per relation.
pub open spec fn canonical_sized(x: FramedPoset) -> bool {
    &&& cell_total(x) + cover_total(x) <= u32::MAX
    &&& 2 * cover_total(x) <= u32::MAX
}

/// Arcs `2k` and `2k + 1` pass through relation vertex `c + k`, from and to
/// a cell vertex below `c`.
pub open spec fn relation_arcs(arcs: Seq<(u32, u32)>, c: int) -> bool {
    &&& arcs.len() % 2 == 0
    &&& forall|a: int| 0 <= a < arcs.len() ==> (a % 2 == 0 ==> (#[trigger] arcs[a]).1 == c + a / 2 && arcs[a].0 < c)
        && (a % 2 == 1 ==> arcs[a].0 == c + a / 2 && arcs[a].1 < c)
}

pub(crate) proof fn lemma_relation_arcs_distinct(arcs: Seq<(u32, u32)>, c: int)
    requires
        relation_arcs(arcs, c),
    ensures
        arcs_distinct(arcs),
{
    assert forall|i: int, j: int| 0 <= i < j < arcs.len() implies #[trigger] arcs[i] != #[trigger] arcs[j] by {
        if i % 2 == 0 && j % 2 == 0 {
            assert(i / 2 < j / 2);
        } else if i % 2 == 1 && j % 2 == 1 {
            assert(i / 2 < j / 2);
        }
    }
}

/// A signed cover relation: the vertices of its face and of its coface, and
/// whether it is an output relation.
type Relation = (usize, usize, bool);

/// One relation from each of `faces`, shifted by `offset`, to `target`.
pub open spec fn face_relations(faces: Seq<usize>, offset: int, target: int, output: bool) -> Seq<(usize, usize, bool)> {
    faces.map_values(|f: usize| ((offset + f) as usize, target as usize, output))
}

/// The relations into cell `(d, p)`: from its input faces, then from its
/// output faces, with cells numbered level by level.
pub open spec fn cell_relations(x: FramedPoset, d: int, p: int) -> Seq<(usize, usize, bool)> {
    face_relations(x.faces(Sign::Input, d, p), cells_upto(x, d - 1), cells_upto(x, d) + p, false)
        + face_relations(x.faces(Sign::Output, d, p), cells_upto(x, d - 1), cells_upto(x, d) + p, true)
}

/// The relations into the first `n` cells at level `d`.
pub open spec fn level_relations(x: FramedPoset, d: int, n: int) -> Seq<(usize, usize, bool)>
    decreases n,
{
    if n <= 0 {
        Seq::empty()
    } else {
        level_relations(x, d, n - 1) + cell_relations(x, d, n - 1)
    }
}

/// The relations into the cells below level `n`.
pub open spec fn relations_upto(x: FramedPoset, n: int) -> Seq<(usize, usize, bool)>
    decreases n,
{
    if n <= 1 {
        Seq::empty()
    } else {
        relations_upto(x, n - 1) + level_relations(x, n - 1, x.size(n - 1))
    }
}

/// The signed cover relations of `x`, level by level, cell by cell, input
/// faces before output faces.
pub open spec fn cover_relations(x: FramedPoset) -> Seq<(usize, usize, bool)> {
    relations_upto(x, x.levels())
}

/// Relation `k` becomes vertex `c + k`, with an arc from its face and an arc
/// to its coface.
pub open spec fn relation_graph_arcs(rels: Seq<(usize, usize, bool)>, c: int) -> Seq<(u32, u32)> {
    Seq::new(2 * rels.len(), |a: int| if a % 2 == 0 {
        (rels[a / 2].0 as u32, (c + a / 2) as u32)
    } else {
        ((c + a / 2) as u32, rels[a / 2].1 as u32)
    })
}

/// Some relation is an input relation.
pub open spec fn has_input_relation(rels: Seq<(usize, usize, bool)>) -> bool {
    exists|k: int| 0 <= k < rels.len() && !(#[trigger] rels[k]).2
}

/// Colour of relation `rel`: `base + 1` for an output relation when input
/// relations exist too, else `base`.
pub open spec fn relation_color(rel: (usize, usize, bool), has_input: bool, base: int) -> u32 {
    if rel.2 && has_input {
        (base + 1) as u32
    } else {
        base as u32
    }
}

/// The colours of the cells below level `n`: each basis's rank in `palette`.
pub open spec fn rank_colors_upto(x: FramedPoset, palette: Seq<Seq<usize>>, n: int) -> Seq<u32>
    decreases n,
{
    if n <= 0 {
        Seq::empty()
    } else {
        rank_colors_upto(x, palette, n - 1) + Seq::new(x.size(n - 1) as nat, |p: int| rank_in(palette, x.basis_at(n - 1, p)) as u32)
    }
}

/// The canonical-labelling graph of `x`: its order, arcs and vertex colours,
/// for the list `palette` of its distinct bases.
pub open spec fn canonical_order(x: FramedPoset) -> nat {
    (cell_total(x) + cover_total(x)) as nat
}

pub open spec fn canonical_arcs(x: FramedPoset) -> Seq<(u32, u32)> {
    relation_graph_arcs(cover_relations(x), cell_total(x))
}

pub open spec fn canonical_colors(x: FramedPoset, palette: Seq<Seq<usize>>) -> Seq<u32> {
    let rels = cover_relations(x);
    rank_colors_upto(x, palette, x.levels()) + Seq::new(rels.len(), |k: int| relation_color(rels[k], has_input_relation(rels), palette.len() as int))
}

/// The labels that the canonical labelling gives the cells of `x`.
pub open spec fn canonical_keys(x: FramedPoset, palette: Seq<Seq<usize>>) -> Seq<u32> {
    canonical_labeling(canonical_order(x), canonical_arcs(x), canonical_colors(x, palette))
}

/// `palette` lists the bases of `x`, each once.
pub open spec fn bases_palette(palette: Seq<Seq<usize>>, x: FramedPoset) -> bool {
    &&& distinct_sets(palette)
    &&& covers_bases(palette, x)
    &&& forall|s: Seq<usize>| #[trigger] palette.contains(s) ==> has_basis(x, s)
}

/// Append one relation from each of `faces`, shifted by `offset`, to `target`.
fn push_relations(rels: &mut Vec<Relation>, faces: &IntSet, offset: usize, target: usize, output: bool, ghost_cells: Ghost<int>)
    requires
        target < ghost_cells@,
        forall|i: int| 0 <= i < faces@.len() ==> offset + #[trigger] faces@[i] < target,
        forall|i: int| 0 <= i < old(rels)@.len() ==> (#[trigger] old(rels)@[i]).0 < ghost_cells@ && old(rels)@[i].1 < ghost_cells@,
    ensures
        final(rels)@.len() == old(rels)@.len() + faces@.len(),
        forall|i: int| 0 <= i < final(rels)@.len() ==> (#[trigger] final(rels)@[i]).0 < ghost_cells@ && final(rels)@[i].1 < ghost_cells@,
        final(rels)@ == old(rels)@ + face_relations(faces@, offset as int, target as int, output),
{
    let n = faces.len();
    let ghost start = rels@.len();
    let ghost rels0 = rels@;
    for k in 0..n
        invariant
            n == faces@.len(),
            rels@.len() == start + k,
            start == rels0.len(),
            rels@ == rels0 + face_relations(faces@.take(k as int), offset as int, target as int, output),
            target < ghost_cells@,
            forall|i: int| 0 <= i < faces@.len() ==> offset + #[trigger] faces@[i] < target,
            forall|i: int| 0 <= i < rels@.len() ==> (#[trigger] rels@[i]).0 < ghost_cells@ && rels@[i].1 < ghost_cells@,
    {
        proof {
            assert(offset + faces@[k as int] < target);
        }
        rels.push((offset + faces[k], target, output));
        proof {
            assert(faces@.take(k + 1) == faces@.take(k as int).push(faces@[k as int]));
            assert(face_relations(faces@.take(k + 1), offset as int, target as int, output)
                =~= face_relations(faces@.take(k as int), offset as int, target as int, output).push(((offset + faces@[k as int]) as usize, target, output)));
        }
    }
    proof {
        assert(faces@.take(n as int) =~= faces@);
    }
}

/// The graph whose canonical labelling orders the cells of a framed poset:
/// one vertex per cell, coloured by the rank of its basis, and one vertex per
/// signed cover relation, coloured by its sign, between the face and the
/// coface.
struct CanonicalGraph {
    graph: Graph,
    colors: Vec<u32>,
    palette: Ghost<Seq<Seq<usize>>>,
}

impl CanonicalGraph {
    spec fn sound(&self, x: FramedPoset) -> bool {
        &&& graph_directed(self.graph)
        &&& graph_order(self.graph) == canonical_order(x)
        &&& self.colors@.len() == graph_order(self.graph)
        &&& arcs_distinct(graph_arcs(self.graph))
        &&& bases_palette(self.palette@, x)
        &&& graph_arcs(self.graph) == canonical_arcs(x)
        &&& self.colors@ == canonical_colors(x, self.palette@)
    }
}

/// The signed cover relations of `x`, level by level, cell by cell, input
/// faces before output faces.
fn relations_of(x: &FramedPoset, offsets: &Vec<usize>) -> (rels: Vec<Relation>)
    requires
        x.valid(),
        canonical_sized(*x),
        offsets@.len() == x.levels() + 1,
        forall|e: int| 0 <= e <= x.levels() ==> #[trigger] offsets@[e] == cells_upto(*x, e),
    ensures
        rels@.len() == cover_total(*x),
        forall|i: int| 0 <= i < rels@.len() ==> (#[trigger] rels@[i]).0 < cell_total(*x) && rels@[i].1 < cell_total(*x),
        rels@ == cover_relations(*x),
{
    let sizes = x.sizes();
    let levels = sizes.len();
    let mut rels: Vec<Relation> = Vec::new();
    let first: usize = if levels == 0 { 0 } else { 1 };
    for d in first..levels
        invariant
            x.valid(),
            1 <= d || levels == 0,
            levels == x.levels(),
            sizes@ == x.size_seq(),
            offsets@.len() == levels + 1,
            forall|e: int| 0 <= e <= levels ==> #[trigger] offsets@[e] == cells_upto(*x, e),
            canonical_sized(*x),
            rels@.len() == covers_upto(*x, d as int),
            forall|i: int| 0 <= i < rels@.len() ==> (#[trigger] rels@[i]).0 < cell_total(*x) && rels@[i].1 < cell_total(*x),
            rels@ == relations_upto(*x, d as int),
    {
        let size = sizes[d];
        proof {
            lemma_cells_upto_mono(*x, d as int + 1, x.levels());
            assert(covers_upto(*x, d as int + 1) == covers_upto(*x, d as int) + level_covers(*x, d as int, x.size(d as int)));
        }
        for p in 0..size
            invariant
                x.valid(),
                1 <= d < levels,
                levels == x.levels(),
                size == x.size(d as int),
                offsets@.len() == levels + 1,
                forall|e: int| 0 <= e <= levels ==> #[trigger] offsets@[e] == cells_upto(*x, e),
                cells_upto(*x, d as int + 1) <= cell_total(*x),
                canonical_sized(*x),
                rels@.len() == covers_upto(*x, d as int) + level_covers(*x, d as int, p as int),
                forall|i: int| 0 <= i < rels@.len() ==> (#[trigger] rels@[i]).0 < cell_total(*x) && rels@[i].1 < cell_total(*x),
                rels@ == relations_upto(*x, d as int) + level_relations(*x, d as int, p as int),
        {
            proof {
                assert(x.cell(d as int, p as int));
                assert(offsets@[d as int + 1] == offsets@[d as int] + x.size(d as int));
                assert(offsets@[d as int] == offsets@[d as int - 1] + x.size(d as int - 1));
            }
            let target = offsets[d] + p;
            let fin = x.faces_of(Sign::Input, d, p);
            let fout = x.faces_of(Sign::Output, d, p);
            proof {
                assert forall|i: int| 0 <= i < fin@.len() implies offsets[d - 1] + #[trigger] fin@[i] < target by {
                    assert(crate::poset::entry(x.faces_in, d as int, p as int)[i] < x.size(d as int - 1));
                }
                assert forall|i: int| 0 <= i < fout@.len() implies offsets[d - 1] + #[trigger] fout@[i] < target by {
                    assert(crate::poset::entry(x.faces_out, d as int, p as int)[i] < x.size(d as int - 1));
                }
            }
            push_relations(&mut rels, fin, offsets[d - 1], target, false, Ghost(cell_total(*x)));
            push_relations(&mut rels, fout, offsets[d - 1], target, true, Ghost(cell_total(*x)));
            proof {
                assert(level_relations(*x, d as int, p + 1) == level_relations(*x, d as int, p as int) + cell_relations(*x, d as int, p as int));
                assert(rels@ =~= relations_upto(*x, d as int) + level_relations(*x, d as int, p + 1));
            }
        }
        proof {
            assert(relations_upto(*x, d + 1) == relations_upto(*x, d as int) + level_relations(*x, d as int, x.size(d as int)));
        }
    }
    proof {
        if levels <= 1 {
            assert(covers_upto(*x, levels as int) == 0);
        }
    }
    rels
}

/// Build the canonical-labelling graph of `x`.
fn canonical_graph(x: &FramedPoset) -> (h: CanonicalGraph)
    requires
        x.valid(),
        canonical_sized(*x),
    ensures
        h.sound(*x),
{
    proof {
        lemma_covers_upto_mono(*x, 0, x.levels());
    }
    let sizes = x.sizes();
    let levels = sizes.len();
    let mut distinct: Vec<IntSet> = Vec::new();
    let ghost d0 = sets_view(distinct);
    proof {
        assert(distinct_sets(sets_view(distinct)));
        assert(d0.len() == 0);
    }
    extend_palette(&mut distinct, x);
    let ghost palette = sets_view(distinct);
    proof {
        assert forall|s: Seq<usize>| #[trigger] palette.contains(s) implies has_basis(*x, s) by {
            assert(!d0.contains(s));
        }
    }
    let mut colors: Vec<u32> = Vec::new();
    for d in 0..levels
        invariant
            x.valid(),
            levels == x.levels(),
            sizes@ == x.size_seq(),
            canonical_sized(*x),
            cell_total(*x) <= u32::MAX,
            distinct@.len() <= cell_total(*x),
            palette == sets_view(distinct),
            colors@.len() == cells_upto(*x, d as int),
            colors@ == rank_colors_upto(*x, palette, d as int),
    {
        let size = sizes[d];
        for p in 0..size
            invariant
                x.valid(),
                d < levels,
                levels == x.levels(),
                size == x.size(d as int),
                canonical_sized(*x),
                cell_total(*x) <= u32::MAX,
                distinct@.len() <= cell_total(*x),
                palette == sets_view(distinct),
                colors@.len() == cells_upto(*x, d as int) + p,
                colors@ == rank_colors_upto(*x, palette, d as int)
                    + Seq::new(x.size(d as int) as nat, |q: int| rank_in(palette, x.basis_at(d as int, q)) as u32).take(p as int),
        {
            proof {
                assert(x.cell(d as int, p as int));
            }
            colors.push(basis_rank(&distinct, x.basis_of(d, p)));
            proof {
                let row = Seq::new(x.size(d as int) as nat, |q: int| rank_in(palette, x.basis_at(d as int, q)) as u32);
                assert(row.take(p + 1) == row.take(p as int).push(row[p as int]));
                assert(colors@ =~= rank_colors_upto(*x, palette, d as int) + row.take(p + 1));
            }
        }
        proof {
            let row = Seq::new(x.size(d as int) as nat, |q: int| rank_in(palette, x.basis_at(d as int, q)) as u32);
            assert(row.take(size as int) == row);
        }
    }
    let offsets = level_offsets(x);
    let rels = relations_of(x, &offsets);
    let cells = offsets[levels];
    let count = rels.len();
    let mut has_input = false;
    for k in 0..count
        invariant
            count == rels@.len(),
            has_input == exists|i: int| 0 <= i < k && !(#[trigger] rels@[i]).2,
    {
        if !rels[k].2 {
            has_input = true;
        }
    }
    proof {
        assert(has_input == has_input_relation(rels@));
    }
    let base = distinct.len() as u32;
    let ghost cell_colors = colors@;
    let mut graph = new_digraph((cells + count) as u32).unwrap();
    for k in 0..count
        invariant
            count == rels@.len(),
            count == cover_total(*x),
            cells == cell_total(*x),
            canonical_sized(*x),
            distinct@.len() <= cell_total(*x),
            base == distinct@.len(),
            forall|i: int| 0 <= i < rels@.len() ==> (#[trigger] rels@[i]).0 < cell_total(*x) && rels@[i].1 < cell_total(*x),
            graph_directed(graph),
            graph_order(graph) == cells + count,
            graph_arcs(graph).len() == 2 * k,
            relation_arcs(graph_arcs(graph), cells as int),
            graph_arcs(graph) == relation_graph_arcs(rels@.take(k as int), cells as int),
            cell_colors.len() == cells,
            colors@ == cell_colors + Seq::new(k as nat, |i: int| relation_color(rels@[i], has_input, base as int)),
    {
        let (source, target, output) = rels[k];
        let relation = (cells + k) as u32;
        let ghost before = graph_arcs(graph);
        add_arc(&mut graph, source as u32, relation);
        let ghost middle = graph_arcs(graph);
        add_arc(&mut graph, relation, target as u32);
        proof {
            let arcs = graph_arcs(graph);
            assert forall|a: int| 0 <= a < arcs.len() implies (a % 2 == 0 ==> (#[trigger] arcs[a]).1 == cells + a / 2 && arcs[a].0 < cells)
                && (a % 2 == 1 ==> arcs[a].0 == cells + a / 2 && arcs[a].1 < cells) by {
                if a < 2 * k {
                    assert(arcs[a] == before[a]);
                }
            }
            let want = relation_graph_arcs(rels@.take(k + 1), cells as int);
            assert forall|a: int| 0 <= a < arcs.len() implies #[trigger] arcs[a] == want[a] by {
                if a < 2 * k {
                    assert(arcs[a] == before[a]);
                    assert(rels@.take(k + 1)[a / 2] == rels@.take(k as int)[a / 2]);
                }
            }
            assert(arcs =~= want);
        }
        let ghost c0 = colors@;
        if output && has_input {
            colors.push(base + 1);
        } else {
            colors.push(base);
        }
        proof {
            assert(colors@ =~= cell_colors + Seq::new((k + 1) as nat, |i: int| relation_color(rels@[i], has_input, base as int)));
        }
    }
    proof {
        lemma_relation_arcs_distinct(graph_arcs(graph), cells as int);
        assert(rels@.take(count as int) =~= rels@);
        assert(colors@ =~= canonical_colors(*x, palette));
    }
    CanonicalGraph { graph, colors, palette: Ghost(palette) }
}

/// `n` is the normal form of `x`: marked normal, and `x` itself when `x` is
/// marked normal, else `x` with the cells of each level put in the order of
/// the canonical labelling of its graph of cells and signed cover relations.
pub open spec fn is_normal_form(x: FramedPoset, n: FramedPoset) -> bool {
    &&& n.normal
    &&& n.valid()
    &&& x.normal ==> n.same_poset(&x)
    &&& !x.normal ==> exists|palette: Seq<Seq<usize>>, orders: Seq<Seq<usize>>|
        #![trigger level_orders(x, canonical_keys(x, palette), orders)]
        bases_palette(palette, x) && level_orders(x, canonical_keys(x, palette), orders) && relabels(x, orders, n)
}

/// Return the canonical normal form of a framed poset.
///
/// The cells of each level are put in the order of the canonical labelling
/// that `rust_igraph::canonical_permutation` gives the graph of cells and
/// signed cover relations, so isomorphic framed posets get equal normal
/// forms: every relabelling of an oriented framed poset not marked normal
/// has this normal form too.
pub fn normalize(shape: &FramedPoset) -> (r: FramedPoset)
    requires
        shape.valid(),
        canonical_sized(*shape),
    ensures
        is_normal_form(*shape, r),
        shape.framed() && !shape.normal ==> crate::canonicity::canonical_among(*shape, r),
{
    proof {
        lemma_covers_upto_mono(*shape, 0, shape.levels());
    }
    if shape.is_normal() {
        return crate::poset::copy_poset(shape);
    }
    let canonical = canonical_graph(shape);
    let labeling = canonical_positions(&canonical.graph, &canonical.colors);
    let r = normalize_with_labeling(shape, &labeling);
    proof {
        let palette = canonical.palette@;
        assert(labeling@ == canonical_keys(*shape, palette));
        let orders = choose|orders: Seq<Seq<usize>>| #[trigger] level_orders(*shape, labeling@, orders) && relabels(*shape, orders, r);
        assert(level_orders(*shape, canonical_keys(*shape, palette), orders));
        if shape.framed() {
            crate::canonicity::lemma_canonical_normal_form(*shape, r, palette, orders);
        }
    }
    r
}

/// Test whether two framed posets are isomorphic, by comparing normal forms.
pub fn isomorphic(a: &FramedPoset, b: &FramedPoset) -> (r: bool)
    requires
        a.valid(),
        b.valid(),
        canonical_sized(*a),
        canonical_sized(*b),
    ensures
        exists|na: FramedPoset, nb: FramedPoset| #![trigger is_normal_form(*a, na), is_normal_form(*b, nb)]
            is_normal_form(*a, na) && is_normal_form(*b, nb) && r == na.same_poset(&nb),
        *a == *b ==> r,
        a.framed() && b.framed() && !a.normal && !b.normal ==> (r <==> relabelling_of(*a, *b)),
{
    let na = normalize(a);
    let nb = normalize(b);
    proof {
        if *a == *b {
            normal_form_unique(*a, na, nb);
        }
    }
    let r = FramedPoset::equal(&na, &nb);
    proof {
        if a.framed() && b.framed() && !a.normal && !b.normal {
            if relabelling_of(*a, *b) {
                assert(crate::canonicity::canonical_among(*a, na));
                assert(is_normal_form(*b, nb));
            }
            if r {
                law_equal_normal_forms_relabel(*a, *b, na, nb);
            }
        }
    }
    r
}


/// Normalizing is idempotent: the normal form of a normal form is that
/// normal form again.
pub proof fn normal_form_is_stable(x: FramedPoset, n: FramedPoset, m: FramedPoset)
    requires
        is_normal_form(x, n),
        is_normal_form(n, m),
    ensures
        m.same_poset(&n),
{
}

/// Test whether two framed posets are isomorphic by searching for an
/// isomorphism of their coloured Hasse diagrams.
pub fn vf2_isomorphic(a: &FramedPoset, b: &FramedPoset) -> (r: bool)
    requires
        a.valid(),
        b.valid(),
        graph_sized(*a),
        graph_sized(*b),
        cell_total(*a) + cell_total(*b) <= u32::MAX + 1,
    ensures
        exists|x: Arc<FramedPoset>, y: Arc<FramedPoset>, palette: Seq<Seq<usize>>| #[trigger] palette_for(palette, *x, *y)
            && x.same_poset(a) && x.normal == a.normal && y.same_poset(b) && y.normal == b.normal
            && r == (found_isomorphisms(x, y, palette).len() > 0),
        r ==> exists|e: Embedding| e.dom.same_poset(a) && e.cod.same_poset(b) && #[trigger] e.valid() && e.surjective() && e.closed(),
{
    let ca = crate::poset::copy_poset(a);
    let cb = crate::poset::copy_poset(b);
    proof {
        lemma_same_poset_totals(*a, ca);
        lemma_same_poset_totals(*b, cb);
    }
    let dom = Arc::new(ca);
    let cod = Arc::new(cb);
    let found = isomorphisms(&dom, &cod);
    proof {
        let palette = choose|palette: Seq<Seq<usize>>| #[trigger] palette_for(palette, *dom, *cod)
            && embeddings_with_tables(found@, dom, cod, found_isomorphisms(dom, cod, palette));
        assert(palette_for(palette, *dom, *cod));
    }
    if found.len() > 0 {
        proof {
            let e = found@[0];
            assert(e.valid());
        }
        true
    } else {
        false
    }
}


/// Equal framed posets have equal cell and cover counts.
pub(crate) proof fn lemma_same_poset_totals(a: FramedPoset, b: FramedPoset)
    requires
        a.valid(),
        a.same_poset(&b),
    ensures
        cell_total(a) == cell_total(b),
        cover_total(a) == cover_total(b),
{
    assert forall|d: int| #![trigger a.size(d)] 0 <= d < a.levels() implies a.size(d) == b.size(d) by {
        assert(a.basis@[d]@.len() == b.basis@[d]@.len());
    }
    lemma_cells_upto_same(a, b, a.levels());
    lemma_covers_upto_same(a, b, a.levels());
}

proof fn lemma_cells_upto_same(a: FramedPoset, b: FramedPoset, n: int)
    requires
        0 <= n <= a.levels(),
        forall|d: int| #![trigger a.size(d)] 0 <= d < a.levels() ==> a.size(d) == b.size(d),
    ensures
        cells_upto(a, n) == cells_upto(b, n),
    decreases n,
{
    if n > 0 {
        lemma_cells_upto_same(a, b, n - 1);
        assert(a.size(n - 1) == b.size(n - 1));
    }
}

proof fn lemma_level_covers_same(a: FramedPoset, b: FramedPoset, d: int, n: int)
    requires
        a.valid(),
        a.same_poset(&b),
        1 <= d < a.levels(),
        0 <= n <= a.size(d),
    ensures
        level_covers(a, d, n) == level_covers(b, d, n),
    decreases n,
{
    if n > 0 {
        lemma_level_covers_same(a, b, d, n - 1);
        assert(crate::poset::entry(a.faces_in, d, n - 1) == crate::poset::entry(b.faces_in, d, n - 1));
        assert(crate::poset::entry(a.faces_out, d, n - 1) == crate::poset::entry(b.faces_out, d, n - 1));
    }
}

proof fn lemma_covers_upto_same(a: FramedPoset, b: FramedPoset, n: int)
    requires
        a.valid(),
        a.same_poset(&b),
        0 <= n <= a.levels(),
        forall|d: int| #![trigger a.size(d)] 0 <= d < a.levels() ==> a.size(d) == b.size(d),
    ensures
        covers_upto(a, n) == covers_upto(b, n),
    decreases n,
{
    if n > 1 {
        lemma_covers_upto_same(a, b, n - 1);
        lemma_level_covers_same(a, b, n - 1, a.size(n - 1));
        assert(a.size(n - 1) == b.size(n - 1));
    }
}


/// The numbers of cells and of signed cover relations of `x`, when both fit
/// `u32`.
fn graph_totals(x: &FramedPoset) -> (r: Option<(usize, usize)>)
    requires
        x.valid(),
    ensures
        r matches Some(t) ==> t.0 == cell_total(*x) && t.1 == cover_total(*x) && t.0 <= u32::MAX && t.1 <= u32::MAX,
        r is None ==> !graph_sized(*x),
{
    let sizes = x.sizes();
    let levels = sizes.len();
    let bound: usize = 4294967295;
    let mut cells: usize = 0;
    for d in 0..levels
        invariant
            levels == x.levels(),
            sizes@ == x.size_seq(),
            bound == u32::MAX,
            cells == cells_upto(*x, d as int),
            cells <= bound,
    {
        if sizes[d] > bound - cells {
            proof {
                lemma_cells_upto_mono(*x, d + 1, x.levels());
            }
            return None;
        }
        cells = cells + sizes[d];
    }
    let mut covers: usize = 0;
    let first: usize = if levels == 0 { 0 } else { 1 };
    for d in first..levels
        invariant
            x.valid(),
            1 <= d || levels == 0,
            levels == x.levels(),
            sizes@ == x.size_seq(),
            bound == u32::MAX,
            covers == covers_upto(*x, d as int),
            covers <= bound,
            cells == cell_total(*x),
    {
        let size = sizes[d];
        proof {
            lemma_covers_upto_mono(*x, d as int + 1, x.levels());
            assert(covers_upto(*x, d as int + 1) == covers_upto(*x, d as int) + level_covers(*x, d as int, x.size(d as int)));
        }
        for p in 0..size
            invariant
                x.valid(),
                1 <= d < levels,
                levels == x.levels(),
                size == x.size(d as int),
                bound == u32::MAX,
                covers == covers_upto(*x, d as int) + level_covers(*x, d as int, p as int),
                covers <= bound,
                covers_upto(*x, d as int + 1) <= cover_total(*x),
                covers_upto(*x, d as int + 1) == covers_upto(*x, d as int) + level_covers(*x, d as int, x.size(d as int)),
                cells == cell_total(*x),
        {
            proof {
                assert(x.cell(d as int, p as int));
                lemma_level_covers_mono(*x, d as int, p as int + 1, x.size(d as int));
            }
            let n = x.faces_of(Sign::Input, d, p).len();
            let m = x.faces_of(Sign::Output, d, p).len();
            if n > bound - covers || m > bound - covers - n {
                return None;
            }
            covers = covers + n + m;
        }
    }
    proof {
        if levels <= 1 {
            assert(covers_upto(*x, levels as int) == 0);
        }
    }
    Some((cells, covers))
}

/// Check [`canonical_sized`].
pub(crate) fn canonical_fits(x: &FramedPoset) -> (r: bool)
    requires
        x.valid(),
    ensures
        r == canonical_sized(*x),
{
    proof {
        lemma_covers_upto_mono(*x, 0, x.levels());
        lemma_cells_upto_mono(*x, 0, x.levels());
    }
    match graph_totals(x) {
        Some((cells, covers)) => cells as u64 + covers as u64 <= 4294967295 && 2 * (covers as u64) <= 4294967295,
        None => false,
    }
}

/// Whether the isomorphisms between `a` and `b` can be searched for: both
/// graphs and their joint vertex count fit `u32`.
pub(crate) fn isomorphisms_fit(a: &FramedPoset, b: &FramedPoset) -> (r: bool)
    requires
        a.valid(),
        b.valid(),
    ensures
        r == (graph_sized(*a) && graph_sized(*b) && cell_total(*a) + cell_total(*b) <= u32::MAX + 1),
{
    match (graph_totals(a), graph_totals(b)) {
        (Some((ca, _)), Some((cb, _))) => ca as u64 + cb as u64 <= 4294967296,
        _ => false,
    }
}


/// Removing entry `i` from `s` removes its share of the rank of `b`.
proof fn lemma_rank_remove(s: Seq<Seq<usize>>, i: int, b: Seq<usize>)
    requires
        0 <= i < s.len(),
    ensures
        rank_in(s, b) == rank_in(s.remove(i), b) + (if lex_lt(s[i], b) { 1int } else { 0int }),
    decreases s.len(),
{
    if i == s.len() - 1 {
        assert(s.remove(i) =~= s.drop_last());
    } else {
        lemma_rank_remove(s.drop_last(), i, b);
        assert(s.remove(i).drop_last() =~= s.drop_last().remove(i));
        assert(s.remove(i).last() == s.last());
    }
}

/// Two lists of distinct sets with the same members have the same length
/// and give every set the same rank.
pub(crate) proof fn lemma_rank_same_members(p1: Seq<Seq<usize>>, p2: Seq<Seq<usize>>, b: Seq<usize>)
    requires
        distinct_sets(p1),
        distinct_sets(p2),
        forall|s: Seq<usize>| p1.contains(s) <==> p2.contains(s),
    ensures
        rank_in(p1, b) == rank_in(p2, b),
        p1.len() == p2.len(),
    decreases p1.len(),
{
    if p1.len() == 0 {
        if p2.len() > 0 {
            assert(p2.contains(p2[0]));
        }
    } else {
        let l = p1.last();
        assert(p1.contains(l)) by {
            assert(p1[p1.len() - 1] == l);
        }
        assert(p2.contains(l));
        let i = choose|i: int| 0 <= i < p2.len() && p2[i] == l;
        let q1 = p1.drop_last();
        let q2 = p2.remove(i);
        assert forall|k: int| 0 <= k < q2.len() implies #[trigger] q2[k] == (if k < i { p2[k] } else { p2[k + 1] }) by {}
        assert(distinct_sets(q1)) by {
            assert forall|a: int, c: int| 0 <= a < c < q1.len() implies #[trigger] q1[a] != #[trigger] q1[c] by {
                assert(p1[a] != p1[c]);
            }
        }
        assert(distinct_sets(q2)) by {
            assert forall|a: int, c: int| 0 <= a < c < q2.len() implies #[trigger] q2[a] != #[trigger] q2[c] by {
                let a2 = if a < i { a } else { a + 1 };
                let c2 = if c < i { c } else { c + 1 };
                assert(q2[a] == p2[a2]);
                assert(q2[c] == p2[c2]);
                assert(p2[a2] != p2[c2]);
            }
        }
        assert forall|s: Seq<usize>| q1.contains(s) <==> q2.contains(s) by {
            if q1.contains(s) {
                let j = choose|j: int| 0 <= j < q1.len() && q1[j] == s;
                assert(p1[j] == s);
                assert(p1[j] != p1[p1.len() - 1]);
                assert(p1.contains(s));
                assert(p2.contains(s));
                let k = choose|k: int| 0 <= k < p2.len() && p2[k] == s;
                assert(k != i);
                if k < i {
                    assert(q2[k] == s);
                } else {
                    assert(q2[k - 1] == s);
                }
            }
            if q2.contains(s) {
                let k = choose|k: int| 0 <= k < q2.len() && q2[k] == s;
                let k2 = if k < i { k } else { k + 1 };
                assert(p2[k2] == s);
                if k2 < i {
                    assert(p2[k2] != p2[i]);
                } else {
                    assert(p2[i] != p2[k2]);
                }
                assert(p2.contains(s));
                assert(p1.contains(s));
                let j = choose|j: int| 0 <= j < p1.len() && p1[j] == s;
                assert(j != p1.len() - 1);
                assert(q1[j] == s);
            }
        }
        lemma_rank_same_members(q1, q2, b);
        lemma_rank_remove(p2, i, b);
        assert(rank_in(p1, b) == rank_in(q1, b) + (if lex_lt(l, b) { 1int } else { 0int }));
    }
}

proof fn lemma_rank_colors_same(x: FramedPoset, p1: Seq<Seq<usize>>, p2: Seq<Seq<usize>>, n: int)
    requires
        forall|b: Seq<usize>| #[trigger] rank_in(p1, b) == rank_in(p2, b),
    ensures
        rank_colors_upto(x, p1, n) == rank_colors_upto(x, p2, n),
    decreases n,
{
    if n > 0 {
        lemma_rank_colors_same(x, p1, p2, n - 1);
        assert(Seq::new(x.size(n - 1) as nat, |p: int| rank_in(p1, x.basis_at(n - 1, p)) as u32)
            =~= Seq::new(x.size(n - 1) as nat, |p: int| rank_in(p2, x.basis_at(n - 1, p)) as u32));
    }
}

/// The canonical labels of `x` do not depend on which list of its bases is
/// used.
pub(crate) proof fn lemma_canonical_keys_same(x: FramedPoset, p1: Seq<Seq<usize>>, p2: Seq<Seq<usize>>)
    requires
        bases_palette(p1, x),
        bases_palette(p2, x),
    ensures
        canonical_keys(x, p1) == canonical_keys(x, p2),
{
    assert forall|s: Seq<usize>| p1.contains(s) <==> p2.contains(s) by {
        if p1.contains(s) {
            let (d, p) = choose|d: int, p: int| #[trigger] x.cell(d, p) && x.basis_at(d, p) == s;
            assert(p2.contains(x.basis_at(d, p)));
        }
        if p2.contains(s) {
            let (d, p) = choose|d: int, p: int| #[trigger] x.cell(d, p) && x.basis_at(d, p) == s;
            assert(p1.contains(x.basis_at(d, p)));
        }
    }
    assert forall|b: Seq<usize>| #[trigger] rank_in(p1, b) == rank_in(p2, b) by {
        lemma_rank_same_members(p1, p2, b);
    }
    lemma_rank_same_members(p1, p2, Seq::empty());
    lemma_rank_colors_same(x, p1, p2, x.levels());
    assert(canonical_colors(x, p1) =~= canonical_colors(x, p2));
}

/// The first `i` entries of two orders of a level by its keys agree.
proof fn lemma_level_order_prefix(keys: Seq<u32>, off: int, size: int, o1: Seq<usize>, o2: Seq<usize>, i: int)
    requires
        level_order(keys, off, size, o1),
        level_order(keys, off, size, o2),
        0 <= i <= size,
    ensures
        forall|j: int| 0 <= j < i ==> o1[j] == o2[j],
    decreases i,
{
    if i > 0 {
        lemma_level_order_prefix(keys, off, size, o1, o2, i - 1);
        let m = i - 1;
        if o1[m] != o2[m] {
            let a = o1[m];
            let b = o2[m];
            let bi = b as int;
            let ai = a as int;
            assert(o2[m] < size);
            assert(o1[m] < size);
            assert(o1.contains(bi as usize));
            assert(o2.contains(ai as usize));
            let j = choose|j: int| 0 <= j < o1.len() && o1[j] == b;
            let k = choose|k: int| 0 <= k < o2.len() && o2[k] == a;
            if j < m {
                assert(o2[j] == b);
                assert(key_lt(keys, off, o2[j] as int, o2[m] as int));
            }
            if k < m {
                assert(o1[k] == a);
                assert(key_lt(keys, off, o1[k] as int, o1[m] as int));
            }
            assert(j > m);
            assert(k > m);
            assert(key_lt(keys, off, o1[m] as int, o1[j] as int));
            assert(key_lt(keys, off, o2[m] as int, o2[k] as int));
        }
    }
}

/// A level has one order by its keys.
pub(crate) proof fn lemma_level_order_unique(keys: Seq<u32>, off: int, size: int, o1: Seq<usize>, o2: Seq<usize>)
    requires
        level_order(keys, off, size, o1),
        level_order(keys, off, size, o2),
    ensures
        o1 == o2,
{
    lemma_level_order_prefix(keys, off, size, o1, o2, size);
    assert(o1 =~= o2);
}

/// Reordering the cells of a framed poset by given orders gives one framed
/// poset.
proof fn lemma_relabels_unique(x: FramedPoset, orders: Seq<Seq<usize>>, n1: FramedPoset, n2: FramedPoset)
    requires
        n1.valid(),
        n2.valid(),
        relabels(x, orders, n1),
        relabels(x, orders, n2),
    ensures
        n1.same_poset(&n2),
{
    assert forall|d: int, p: int| 0 <= d < n1.basis@.len() && 0 <= p < n1.basis@[d]@.len() implies
        #[trigger] crate::poset::entry(n1.basis, d, p) == crate::poset::entry(n2.basis, d, p) by {
        assert(n1.cell(d, p));
        assert(n2.cell(d, p));
    }
    assert forall|d: int| 0 <= d < n1.basis@.len() implies #[trigger] n1.basis@[d]@.len() == n2.basis@[d]@.len()
        && n1.faces_in@[d]@.len() == n2.faces_in@[d]@.len() && n1.faces_out@[d]@.len() == n2.faces_out@[d]@.len() by {
        assert(n1.size(d) == x.size(d));
        assert(n2.size(d) == x.size(d));
        assert(crate::poset::rows(n1.faces_in, d) == crate::poset::rows(n1.basis, d));
        assert(crate::poset::rows(n2.faces_in, d) == crate::poset::rows(n2.basis, d));
        assert(crate::poset::rows(n1.faces_out, d) == crate::poset::rows(n1.basis, d));
        assert(crate::poset::rows(n2.faces_out, d) == crate::poset::rows(n2.basis, d));
    }
    assert forall|s: Sign, d: int, k: int| n1.cell(d, k) implies #[trigger] n1.faces(s, d, k) == n2.faces(s, d, k) by {
        assert(n2.cell(d, k));
        let f1 = n1.faces(s, d, k);
        let f2 = n2.faces(s, d, k);
        assert(relabeled_faces(x, orders, s, d, orders[d][k] as int, f1));
        assert(relabeled_faces(x, orders, s, d, orders[d][k] as int, f2));
        assert forall|y: usize| f1.contains(y) <==> f2.contains(y) by {}
        crate::intset::lemma_sorted_same_elements(f1, f2);
    }
    assert forall|d: int, p: int| 0 <= d < n1.faces_in@.len() && 0 <= p < n1.faces_in@[d]@.len() implies
        #[trigger] crate::poset::entry(n1.faces_in, d, p) == crate::poset::entry(n2.faces_in, d, p) by {
        assert(n1.cell(d, p));
        assert(n1.faces(Sign::Input, d, p) == n2.faces(Sign::Input, d, p));
    }
    assert forall|d: int, p: int| 0 <= d < n1.faces_out@.len() && 0 <= p < n1.faces_out@[d]@.len() implies
        #[trigger] crate::poset::entry(n1.faces_out, d, p) == crate::poset::entry(n2.faces_out, d, p) by {
        assert(n1.cell(d, p));
        assert(n1.faces(Sign::Output, d, p) == n2.faces(Sign::Output, d, p));
    }
}

/// Normal forms are unique: any two normal forms of a framed poset are the
/// same framed poset.
pub proof fn normal_form_unique(x: FramedPoset, n1: FramedPoset, n2: FramedPoset)
    requires
        is_normal_form(x, n1),
        is_normal_form(x, n2),
    ensures
        n1.same_poset(&n2),
{
    if x.normal {
        crate::poset::lemma_same_poset_symmetric(&n2, &x);
        assert forall|d: int, p: int| 0 <= d < n1.basis@.len() && 0 <= p < n1.basis@[d]@.len() implies
            #[trigger] crate::poset::entry(n1.basis, d, p) == crate::poset::entry(n2.basis, d, p) by {
            assert(crate::poset::entry(n1.basis, d, p) == crate::poset::entry(x.basis, d, p));
        }
        assert forall|d: int, p: int| 0 <= d < n1.faces_in@.len() && 0 <= p < n1.faces_in@[d]@.len() implies
            #[trigger] crate::poset::entry(n1.faces_in, d, p) == crate::poset::entry(n2.faces_in, d, p) by {
            assert(crate::poset::entry(n1.faces_in, d, p) == crate::poset::entry(x.faces_in, d, p));
        }
        assert forall|d: int, p: int| 0 <= d < n1.faces_out@.len() && 0 <= p < n1.faces_out@[d]@.len() implies
            #[trigger] crate::poset::entry(n1.faces_out, d, p) == crate::poset::entry(n2.faces_out, d, p) by {
            assert(crate::poset::entry(n1.faces_out, d, p) == crate::poset::entry(x.faces_out, d, p));
        }
    } else {
        let (p1, o1) = choose|palette: Seq<Seq<usize>>, orders: Seq<Seq<usize>>| #![trigger level_orders(x, canonical_keys(x, palette), orders)]
            bases_palette(palette, x) && level_orders(x, canonical_keys(x, palette), orders) && relabels(x, orders, n1);
        let (p2, o2) = choose|palette: Seq<Seq<usize>>, orders: Seq<Seq<usize>>| #![trigger level_orders(x, canonical_keys(x, palette), orders)]
            bases_palette(palette, x) && level_orders(x, canonical_keys(x, palette), orders) && relabels(x, orders, n2);
        lemma_canonical_keys_same(x, p1, p2);
        let keys = canonical_keys(x, p1);
        assert forall|d: int| 0 <= d < x.levels() implies o1[d] == o2[d] by {
            lemma_level_order_unique(keys, cells_upto(x, d), x.size(d), o1[d], o2[d]);
        }
        assert(o1 =~= o2);
        lemma_relabels_unique(x, o1, n1, n2);
    }
}


/// Equality of framed posets is transitive.
proof fn lemma_same_poset_trans(a: FramedPoset, b: FramedPoset, c: FramedPoset)
    requires
        a.same_poset(&b),
        b.same_poset(&c),
    ensures
        a.same_poset(&c),
{
    assert forall|d: int, p: int| 0 <= d < a.basis@.len() && 0 <= p < a.basis@[d]@.len() implies
        #[trigger] crate::poset::entry(a.basis, d, p) == crate::poset::entry(c.basis, d, p) by {
        assert(crate::poset::entry(a.basis, d, p) == crate::poset::entry(b.basis, d, p));
    }
    assert forall|d: int, p: int| 0 <= d < a.faces_in@.len() && 0 <= p < a.faces_in@[d]@.len() implies
        #[trigger] crate::poset::entry(a.faces_in, d, p) == crate::poset::entry(c.faces_in, d, p) by {
        assert(crate::poset::entry(a.faces_in, d, p) == crate::poset::entry(b.faces_in, d, p));
    }
    assert forall|d: int, p: int| 0 <= d < a.faces_out@.len() && 0 <= p < a.faces_out@[d]@.len() implies
        #[trigger] crate::poset::entry(a.faces_out, d, p) == crate::poset::entry(c.faces_out, d, p) by {
        assert(crate::poset::entry(a.faces_out, d, p) == crate::poset::entry(b.faces_out, d, p));
    }
    assert forall|d: int| 0 <= d < a.basis@.len() implies #[trigger] a.basis@[d]@.len() == c.basis@[d]@.len() by {
        assert(a.basis@[d]@.len() == b.basis@[d]@.len());
    }
    assert forall|d: int| 0 <= d < a.faces_in@.len() implies #[trigger] a.faces_in@[d]@.len() == c.faces_in@[d]@.len() by {
        assert(a.faces_in@[d]@.len() == b.faces_in@[d]@.len());
    }
    assert forall|d: int| 0 <= d < a.faces_out@.len() implies #[trigger] a.faces_out@[d]@.len() == c.faces_out@[d]@.len() by {
        assert(a.faces_out@[d]@.len() == b.faces_out@[d]@.len());
    }
}

/// Comparing normal forms is symmetric and does not depend on which normal
/// forms are compared: `a` and `b` have equal normal forms exactly when `b`
/// and `a` do.
pub proof fn normal_form_comparison_symmetric(a: FramedPoset, b: FramedPoset, na: FramedPoset, nb: FramedPoset, na2: FramedPoset, nb2: FramedPoset)
    requires
        is_normal_form(a, na),
        is_normal_form(b, nb),
        is_normal_form(a, na2),
        is_normal_form(b, nb2),
    ensures
        na.same_poset(&nb) == nb2.same_poset(&na2),
{
    normal_form_unique(a, na, na2);
    normal_form_unique(b, nb, nb2);
    normal_form_unique(a, na2, na);
    normal_form_unique(b, nb2, nb);
    if na.same_poset(&nb) {
        crate::poset::lemma_same_poset_symmetric(&na, &nb);
        lemma_same_poset_trans(nb2, nb, na);
        lemma_same_poset_trans(nb2, na, na2);
    }
    if nb2.same_poset(&na2) {
        crate::poset::lemma_same_poset_symmetric(&nb2, &na2);
        lemma_same_poset_trans(na, na2, nb2);
        lemma_same_poset_trans(na, nb2, nb);
    }
}


/// `orders[d]` is a permutation of the positions of level `d` of `x`.
pub open spec fn level_permutations(x: FramedPoset, orders: Seq<Seq<usize>>) -> bool {
    &&& orders.len() == x.levels()
    &&& forall|d: int| 0 <= d < x.levels() ==> #[trigger] orders[d].len() == x.size(d)
    &&& forall|d: int, i: int| 0 <= d < x.levels() && 0 <= i < x.size(d) ==> #[trigger] orders[d][i] < x.size(d)
    &&& forall|d: int, i: int, j: int| 0 <= d < x.levels() && 0 <= i < x.size(d) && 0 <= j < x.size(d) && i != j
        ==> #[trigger] orders[d][i] != #[trigger] orders[d][j]
    &&& forall|d: int, p: int| #[trigger] x.cell(d, p) ==> orders[d].contains(p as usize)
}

/// `y` is `x` with the cells of each level renumbered: an isomorphism of
/// framed posets that keeps every basis and signed face.
pub open spec fn relabelling_of(x: FramedPoset, y: FramedPoset) -> bool {
    exists|orders: Seq<Seq<usize>>| #[trigger] level_permutations(x, orders) && relabels(x, orders, y)
}

/// Faces of a valid framed poset lie one level down.
pub(crate) proof fn lemma_face_below(x: FramedPoset, s: Sign, d: int, p: int, f: usize)
    requires
        x.valid(),
        x.cell(d, p),
        x.faces(s, d, p).contains(f),
    ensures
        1 <= d,
        f < x.size(d - 1),
{
    let k = choose|k: int| 0 <= k < x.faces(s, d, p).len() && x.faces(s, d, p)[k] == f;
    match s {
        Sign::Input => assert(crate::poset::entry(x.faces_in, d, p)[k] < crate::poset::rows(x.basis, d - 1)),
        Sign::Output => assert(crate::poset::entry(x.faces_out, d, p)[k] < crate::poset::rows(x.basis, d - 1)),
    }
}

/// A normal form of a valid framed poset is a relabelling of it.
pub(crate) proof fn lemma_normal_form_orders(x: FramedPoset, n: FramedPoset) -> (orders: Seq<Seq<usize>>)
    requires
        x.valid(),
        is_normal_form(x, n),
    ensures
        level_permutations(x, orders),
        relabels(x, orders, n),
{
    if x.normal {
        crate::embedding::lemma_same_poset_sizes(&n, &x);
        let orders = Seq::new(x.levels() as nat, |d: int| Seq::new(x.size(d) as nat, |i: int| i as usize));
        assert forall|d: int, p: int| #[trigger] x.cell(d, p) implies orders[d].contains(p as usize) by {
            assert(x.basis@[d].len() == x.basis@[d]@.len());
            assert(orders[d][p] == p as usize);
        }
        assert forall|d: int, i: int, j: int| 0 <= d < x.levels() && 0 <= i < x.size(d) && 0 <= j < x.size(d) && i != j
            implies #[trigger] orders[d][i] != #[trigger] orders[d][j] by {
            assert(x.basis@[d].len() == x.basis@[d]@.len());
        }
        assert forall|d: int, i: int| 0 <= d < x.levels() && 0 <= i < x.size(d) implies #[trigger] orders[d][i] < x.size(d) by {
            assert(x.basis@[d].len() == x.basis@[d]@.len());
        }
        assert forall|d: int, k: int| #[trigger] n.cell(d, k) implies n.basis_at(d, k) == x.basis_at(d, orders[d][k] as int) by {
            assert(x.basis@[d].len() == x.basis@[d]@.len());
            assert(orders[d][k] == k as usize);
        }
        assert forall|s: Sign, d: int, k: int| n.cell(d, k) implies relabeled_faces(x, orders, s, d, orders[d][k] as int, #[trigger] n.faces(s, d, k)) by {
            assert(x.basis@[d].len() == x.basis@[d]@.len());
            assert(orders[d][k] == k as usize);
            assert(n.faces(s, d, k) == x.faces(s, d, k));
            assert forall|y: usize| #[trigger] n.faces(s, d, k).contains(y) <==> (1 <= d && y < x.size(d - 1) && x.faces(s, d, k).contains(orders[d - 1][y as int])) by {
                if x.faces(s, d, k).contains(y) {
                    lemma_face_below(x, s, d, k, y);
                    assert(x.basis@[d - 1].len() == x.basis@[d - 1]@.len());
                    assert(orders[d - 1][y as int] == y);
                }
                if 1 <= d && y < x.size(d - 1) {
                    assert(x.basis@[d - 1].len() == x.basis@[d - 1]@.len());
                    assert(orders[d - 1][y as int] == y);
                }
            }
        }
        orders
    } else {
        let (palette, orders) = choose|palette: Seq<Seq<usize>>, orders: Seq<Seq<usize>>|
            #![trigger level_orders(x, canonical_keys(x, palette), orders)]
            bases_palette(palette, x) && level_orders(x, canonical_keys(x, palette), orders) && relabels(x, orders, n);
        let keys = canonical_keys(x, palette);
        assert forall|d: int, i: int, j: int| 0 <= d < x.levels() && 0 <= i < x.size(d) && 0 <= j < x.size(d) && i != j
            implies #[trigger] orders[d][i] != #[trigger] orders[d][j] by {
            assert(level_order(keys, cells_upto(x, d), x.size(d), orders[d]));
            if i < j {
                assert(key_lt(keys, cells_upto(x, d), orders[d][i] as int, orders[d][j] as int));
            } else {
                assert(key_lt(keys, cells_upto(x, d), orders[d][j] as int, orders[d][i] as int));
            }
        }
        assert forall|d: int, i: int| 0 <= d < x.levels() && 0 <= i < x.size(d) implies #[trigger] orders[d][i] < x.size(d) by {
            assert(level_order(keys, cells_upto(x, d), x.size(d), orders[d]));
        }
        assert forall|d: int| 0 <= d < x.levels() implies #[trigger] orders[d].len() == x.size(d) by {
            assert(level_order(keys, cells_upto(x, d), x.size(d), orders[d]));
        }
        assert forall|d: int, p: int| #[trigger] x.cell(d, p) implies orders[d].contains(p as usize) by {
            assert(level_order(keys, cells_upto(x, d), x.size(d), orders[d]));
            assert(x.basis@[d].len() == x.basis@[d]@.len());
            assert((p as usize) as int == p);
        }
        orders
    }
}

/// The position at which `orders[d]` lists `j`.
pub open spec fn position_in(orders: Seq<Seq<usize>>, size: int, d: int, j: int) -> int {
    choose|k: int| 0 <= k < size && #[trigger] orders[d][k] == j
}

/// Valid framed posets with equal normal forms are relabellings of each
/// other: the cells of `b`, numbered as in the normal form and then as in
/// `a`, keep their bases and signed faces.
pub proof fn law_equal_normal_forms_relabel(a: FramedPoset, b: FramedPoset, na: FramedPoset, nb: FramedPoset)
    requires
        a.valid(),
        b.valid(),
        is_normal_form(a, na),
        is_normal_form(b, nb),
        na.same_poset(&nb),
    ensures
        relabelling_of(a, b),
{
    let oa = lemma_normal_form_orders(a, na);
    let ob = lemma_normal_form_orders(b, nb);
    crate::embedding::lemma_same_poset_sizes(&na, &nb);
    assert(a.levels() == b.levels());
    assert forall|d: int| #[trigger] a.size(d) == b.size(d) by {
        if 0 <= d < a.levels() {
            assert(na.size(d) == a.size(d));
            assert(nb.size(d) == b.size(d));
            assert(na.size(d) == nb.size(d));
        }
    }
    let o = Seq::new(b.levels() as nat, |d: int| Seq::new(b.size(d) as nat, |j: int| oa[d][position_in(ob, b.size(d), d, j)]));
    assert forall|d: int, j: int| #[trigger] b.cell(d, j) implies 0 <= position_in(ob, b.size(d), d, j) < b.size(d)
        && ob[d][position_in(ob, b.size(d), d, j)] == j by {
        assert(ob[d].contains(j as usize));
        assert(b.basis@[d].len() == b.basis@[d]@.len());
        let k = choose|k: int| 0 <= k < ob[d].len() && ob[d][k] == j as usize;
        assert(ob[d][k] == j);
    }
    assert forall|d: int, k: int| 0 <= d < b.levels() && 0 <= k < b.size(d) implies #[trigger] position_in(ob, b.size(d), d, ob[d][k] as int) == k by {
        let j = ob[d][k] as int;
        assert(b.cell(d, j));
        let q = position_in(ob, b.size(d), d, j);
        if q != k {
            assert(ob[d][q] != ob[d][k]);
        }
    }
    assert(level_permutations(a, o)) by {
        assert forall|d: int, i: int| 0 <= d < a.levels() && 0 <= i < a.size(d) implies #[trigger] o[d][i] < a.size(d) by {
            assert(b.cell(d, i));
        }
        assert forall|d: int, i: int, j: int| 0 <= d < a.levels() && 0 <= i < a.size(d) && 0 <= j < a.size(d) && i != j
            implies #[trigger] o[d][i] != #[trigger] o[d][j] by {
            assert(b.cell(d, i));
            assert(b.cell(d, j));
            let pi = position_in(ob, b.size(d), d, i);
            let pj = position_in(ob, b.size(d), d, j);
            if pi == pj {
                assert(ob[d][pi] == ob[d][pj]);
            }
        }
        assert forall|d: int, p: int| #[trigger] a.cell(d, p) implies o[d].contains(p as usize) by {
            assert(oa[d].contains(p as usize));
            let k = choose|k: int| 0 <= k < oa[d].len() && oa[d][k] == p as usize;
            let j = ob[d][k] as int;
            assert(position_in(ob, b.size(d), d, j) == k);
            assert(o[d][j] == p as usize);
        }
    }
    assert(relabels(a, o, b)) by {
        assert forall|d: int, j: int| #[trigger] b.cell(d, j) implies b.basis_at(d, j) == a.basis_at(d, o[d][j] as int) by {
            let k = position_in(ob, b.size(d), d, j);
            assert(na.cell(d, k));
            assert(nb.cell(d, k));
            assert(ob[d][k] as int == j);
            assert(nb.basis_at(d, k) == b.basis_at(d, ob[d][k] as int));
            assert(na.basis_at(d, k) == a.basis_at(d, oa[d][k] as int));
        }
        assert forall|s: Sign, d: int, j: int| b.cell(d, j) implies relabeled_faces(a, o, s, d, o[d][j] as int, #[trigger] b.faces(s, d, j)) by {
            let k = position_in(ob, b.size(d), d, j);
            assert(na.cell(d, k));
            assert(nb.cell(d, k));
            assert(relabeled_faces(b, ob, s, d, ob[d][k] as int, nb.faces(s, d, k)));
            assert(relabeled_faces(a, oa, s, d, oa[d][k] as int, na.faces(s, d, k)));
            assert(na.faces(s, d, k) == nb.faces(s, d, k));
            assert(o[d][j] == oa[d][k]);
            assert(ob[d][k] as int == j);
            assert forall|y: usize| #[trigger] b.faces(s, d, j).contains(y) <==> (1 <= d && y < a.size(d - 1)
                && a.faces(s, d, o[d][j] as int).contains(o[d - 1][y as int])) by {
                if b.faces(s, d, j).contains(y) {
                    lemma_face_below(b, s, d, j, y);
                    assert(b.cell(d - 1, y as int));
                    let z = position_in(ob, b.size(d - 1), d - 1, y as int);
                    assert(ob[d - 1][z] == y);
                    assert(z < b.size(d - 1));
                    assert(ob[d][k] as int == j);
                    assert(b.basis@[d - 1].len() == b.basis@[d - 1]@.len());
                    assert((z as usize) as int == z);
                    assert(ob[d - 1][(z as usize) as int] == y);
                    assert(b.faces(s, d, ob[d][k] as int).contains(ob[d - 1][(z as usize) as int]));
                    assert(nb.faces(s, d, k).contains(z as usize));
                    assert(na.faces(s, d, k).contains(z as usize));
                    assert(a.faces(s, d, oa[d][k] as int).contains(oa[d - 1][(z as usize) as int]));
                    assert(o[d - 1][y as int] == oa[d - 1][z]);
                    assert(y < a.size(d - 1));
                }
                if 1 <= d && y < a.size(d - 1) && a.faces(s, d, o[d][j] as int).contains(o[d - 1][y as int]) {
                    assert(b.cell(d - 1, y as int));
                    let z = position_in(ob, b.size(d - 1), d - 1, y as int);
                    assert(ob[d - 1][z] == y);
                    assert(o[d - 1][y as int] == oa[d - 1][z]);
                    assert(b.basis@[d - 1].len() == b.basis@[d - 1]@.len());
                    assert((z as usize) as int == z);
                    assert(a.faces(s, d, oa[d][k] as int).contains(oa[d - 1][(z as usize) as int]));
                    assert(na.faces(s, d, k).contains(z as usize));
                    assert(nb.faces(s, d, k).contains(z as usize));
                    assert(b.faces(s, d, ob[d][k] as int).contains(ob[d - 1][(z as usize) as int]));
                }
            }
        }
    }
}

} // verus!

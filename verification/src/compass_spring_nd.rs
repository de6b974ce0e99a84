//! Graphs with compass constraints on their edges, laid out in `n`
//! dimensions: the integer side of the compass-spring layout.

use vstd::prelude::*;
use vstd::arithmetic::power2::{pow2, lemma_pow2, lemma_pow2_unfold, lemma_pow2_strictly_increases};
use vstd::arithmetic::power::lemma_pow0;

use crate::intset::{IntSet, cover_direction, first_new_index, strictly_sorted};
use crate::poset::{FramedPoset, Sign};
use crate::pushout::{cell_total, cells_upto, lemma_cells_upto_mono};

verus! {

/// A compass direction generalized to n dimensions: positive or negative
/// along a single basis axis.
#[derive(Clone, Copy, Debug, PartialEq, Eq, Structural)]
pub struct AxisPort {
    pub axis: usize,
    pub positive: bool,
}

impl AxisPort {
    pub fn new(axis: usize, positive: bool) -> (r: Self)
        ensures
            r == (AxisPort { axis, positive }),
    {
        AxisPort { axis, positive }
    }
}

/// A directed edge with an optional compass constraint at each end:
/// `tail_port` constrains the direction from tail to head, `head_port` from
/// head to tail.
#[derive(Clone, Copy, Debug)]
pub struct Edge {
    pub tail: usize,
    pub head: usize,
    pub tail_port: Option<AxisPort>,
    pub head_port: Option<AxisPort>,
    /// Whether this edge joins a point (empty basis) to a line
    /// (one-element basis).
    pub one_dimensional: bool,
}

/// A graph to lay out in `dim` dimensions: `node_count` nodes, indexed
/// `0..node_count`, and a list of edges between them.
#[derive(Clone, Debug)]
pub struct CompassGraph {
    pub dim: usize,
    pub node_count: usize,
    pub edges: Vec<Edge>,
}

/// Bit `axis` of `node` is clear, and setting it stays among the `2^n`
/// nodes: `node` and `node + 2^axis` differ in exactly that bit.
pub open spec fn cube_edge(n: nat, node: int, axis: int) -> bool {
    &&& 0 <= axis < n
    &&& 0 <= node
    &&& node + pow2(axis as nat) < pow2(n)
    &&& (node / pow2(axis as nat) as int) % 2 == 0
}

/// The edge of the hypercube that flips bit `axis` upward from `node`,
/// leaving along the positive axis and arriving along the negative one.
pub open spec fn axis_edge(node: int, axis: int) -> Edge {
    Edge {
        tail: node as usize,
        head: (node + pow2(axis as nat)) as usize,
        tail_port: Some(AxisPort { axis: axis as usize, positive: true }),
        head_port: Some(AxisPort { axis: axis as usize, positive: false }),
        one_dimensional: false,
    }
}

/// `a` comes before `b` ordered by tail, then head.
pub open spec fn edge_before(a: Edge, b: Edge) -> bool {
    a.tail < b.tail || (a.tail == b.tail && a.head < b.head)
}

/// Builds the graph of the n-dimensional hypercube: `2^n` nodes (one per
/// n-bit binary string), with an edge between every pair of nodes that
/// differ in exactly one bit, ordered by tail and then head. The edge's
/// compass port is that bit's axis, signed by which direction the bit flips.
#[verifier::rlimit(60)]
pub fn hypercube(n: usize) -> (g: CompassGraph)
    requires
        pow2(n as nat) <= usize::MAX,
    ensures
        g.dim == n,
        g.node_count == pow2(n as nat),
        forall|k: int| #![trigger g.edges@[k]] 0 <= k < g.edges@.len() ==> exists|axis: int| #[trigger] cube_edge(n as nat, g.edges@[k].tail as int, axis)
            && g.edges@[k] == axis_edge(g.edges@[k].tail as int, axis),
        forall|node: int, axis: int| #[trigger] cube_edge(n as nat, node, axis) ==> exists|k: int| 0 <= k < g.edges@.len()
            && #[trigger] g.edges@[k] == axis_edge(node, axis),
        forall|k1: int, k2: int| 0 <= k1 < k2 < g.edges@.len() ==> edge_before(#[trigger] g.edges@[k1], #[trigger] g.edges@[k2]),
{
    let mut node_count: usize = 1;
    proof {
        lemma_pow2(0);
        lemma_pow0(2);
    }
    let mut b: usize = 0;
    while b < n
        invariant
            b <= n,
            node_count == pow2(b as nat),
            pow2(n as nat) <= usize::MAX,
        decreases n - b,
    {
        proof {
            lemma_pow2_unfold((b + 1) as nat);
            if b + 1 < n {
                lemma_pow2_strictly_increases((b + 1) as nat, n as nat);
            }
        }
        node_count = node_count * 2;
        b = b + 1;
    }
    let mut edges: Vec<Edge> = Vec::new();
    let mut i: usize = 0;
    while i < node_count
        invariant
            i <= node_count,
            node_count == pow2(n as nat),
            forall|k: int| #![trigger edges@[k]] 0 <= k < edges@.len() ==> exists|axis: int| #[trigger] cube_edge(n as nat, edges@[k].tail as int, axis)
                && edges@[k] == axis_edge(edges@[k].tail as int, axis),
            forall|k: int| 0 <= k < edges@.len() ==> (#[trigger] edges@[k]).tail < i,
            forall|node: int, axis: int| #[trigger] cube_edge(n as nat, node, axis) && node < i ==> exists|k: int| 0 <= k < edges@.len()
                && #[trigger] edges@[k] == axis_edge(node, axis),
            forall|k1: int, k2: int| 0 <= k1 < k2 < edges@.len() ==> edge_before(#[trigger] edges@[k1], #[trigger] edges@[k2]),
        decreases node_count - i,
    {
        let mut p: usize = 1;
        proof {
            lemma_pow2(0);
            lemma_pow0(2);
        }
        let mut b: usize = 0;
        while b < n
            invariant
                i < node_count,
                node_count == pow2(n as nat),
                b <= n,
                p == pow2(b as nat),
                0 < p <= node_count,
                forall|k: int| #![trigger edges@[k]] 0 <= k < edges@.len() ==> exists|axis: int| #[trigger] cube_edge(n as nat, edges@[k].tail as int, axis)
                    && edges@[k] == axis_edge(edges@[k].tail as int, axis),
                forall|k: int| 0 <= k < edges@.len() ==> (#[trigger] edges@[k]).tail < i || ((edges@[k]).tail == i && edges@[k].head < i + p),
                forall|node: int, axis: int| #[trigger] cube_edge(n as nat, node, axis) && (node < i || (node == i && axis < b))
                    ==> exists|k: int| 0 <= k < edges@.len() && #[trigger] edges@[k] == axis_edge(node, axis),
                forall|k1: int, k2: int| 0 <= k1 < k2 < edges@.len() ==> edge_before(#[trigger] edges@[k1], #[trigger] edges@[k2]),
            decreases n - b,
        {
            proof {
                vstd::arithmetic::power2::lemma_pow2_pos((b + 1) as nat);
                lemma_pow2_unfold((b + 1) as nat);
                if b + 1 <= n {
                    if b + 1 < n {
                        lemma_pow2_strictly_increases((b + 1) as nat, n as nat);
                    }
                }
            }
            let ghost before = edges@;
            if (i / p) % 2 == 0 && i < node_count - p {
                let e = Edge {
                    tail: i,
                    head: i + p,
                    tail_port: Some(AxisPort::new(b, true)),
                    head_port: Some(AxisPort::new(b, false)),
                    one_dimensional: false,
                };
                proof {
                    assert(cube_edge(n as nat, i as int, b as int));
                    assert(e == axis_edge(i as int, b as int));
                }
                edges.push(e);
                proof {
                    assert forall|k: int| #![trigger edges@[k]] 0 <= k < edges@.len() implies exists|axis: int| #[trigger] cube_edge(n as nat, edges@[k].tail as int, axis)
                        && edges@[k] == axis_edge(edges@[k].tail as int, axis) by {
                        if k < before.len() {
                            assert(edges@[k] == before[k]);
                        } else {
                            assert(cube_edge(n as nat, edges@[k].tail as int, b as int));
                        }
                    }
                    assert forall|node: int, axis: int| #[trigger] cube_edge(n as nat, node, axis) && (node < i || (node == i && axis < b + 1))
                        implies exists|k: int| 0 <= k < edges@.len() && #[trigger] edges@[k] == axis_edge(node, axis) by {
                        if node < i || (node == i && axis < b) {
                            let k = choose|k: int| 0 <= k < before.len() && #[trigger] before[k] == axis_edge(node, axis);
                            assert(edges@[k] == before[k]);
                        } else {
                            assert(edges@[before.len() as int] == axis_edge(node, axis));
                        }
                    }
                }
            } else {
                proof {
                    assert forall|node: int, axis: int| #[trigger] cube_edge(n as nat, node, axis) && (node < i || (node == i && axis < b + 1))
                        implies exists|k: int| 0 <= k < edges@.len() && #[trigger] edges@[k] == axis_edge(node, axis) by {
                        if node == i && axis == b {
                            assert(!cube_edge(n as nat, node, axis));
                        }
                    }
                }
            }
            p = p * 2;
            b = b + 1;
        }
        proof {
            assert forall|node: int, axis: int| #[trigger] cube_edge(n as nat, node, axis) && node < i + 1 implies exists|k: int|
                0 <= k < edges@.len() && #[trigger] edges@[k] == axis_edge(node, axis) by {
                if node == i {
                    assert(axis < b);
                }
            }
        }
        i = i + 1;
    }
    CompassGraph { dim: n, node_count, edges }
}

/// The direction that the cover of cell `(d, p)` by its face `f` adds: the
/// first entry of the cell's basis missing from the face's basis.
pub open spec fn added_axis(x: FramedPoset, d: int, p: int, f: usize) -> usize {
    let b = x.basis_at(d, p);
    b[choose|k: int| #[trigger] first_new_index(x.basis_at(d - 1, f as int), b, k)]
}

/// The cover of cell `(d, p)` by its `s`-face `f` adds a direction.
pub open spec fn adds_axis(x: FramedPoset, d: int, p: int, f: usize) -> bool {
    exists|k: int| #[trigger] first_new_index(x.basis_at(d - 1, f as int), x.basis_at(d, p), k)
}

/// Every cover relation of `x` adds a direction.
pub open spec fn covers_add_axes(x: FramedPoset) -> bool {
    forall|s: Sign, d: int, p: int, f: usize| 1 <= d && x.cell(d, p) && #[trigger] x.faces(s, d, p).contains(f) ==> adds_axis(x, d, p, f)
}

/// Direction `a` occurs in the basis of some cell of `x`.
pub open spec fn uses_axis(x: FramedPoset, a: usize) -> bool {
    exists|d: int, p: int| #[trigger] x.cell(d, p) && x.basis_at(d, p).contains(a)
}

/// Direction `a` occurs in the basis of some cell below level `n`, or of
/// the first `m` cells at level `n`.
pub open spec fn uses_axis_before(x: FramedPoset, n: int, m: int, a: usize) -> bool {
    exists|d: int, p: int| #[trigger] x.cell(d, p) && (d < n || (d == n && p < m)) && x.basis_at(d, p).contains(a)
}

/// No basis of `x` holds `usize::MAX`.
pub open spec fn axes_bounded(x: FramedPoset) -> bool {
    forall|d: int, p: int, i: int| x.cell(d, p) && 0 <= i < x.basis_at(d, p).len() ==> #[trigger] x.basis_at(d, p)[i] < usize::MAX
}

/// The edge of the cover of cell `(d, p)` by its `s`-face `f`, between the
/// nodes numbering the two cells level by level. Its compass port is the
/// added direction, leaving the face positively for an input face.
pub open spec fn cover_edge(x: FramedPoset, s: Sign, d: int, p: int, f: usize) -> Edge {
    let axis = added_axis(x, d, p, f);
    let positive = s == Sign::Input;
    Edge {
        tail: (cells_upto(x, d - 1) + f) as usize,
        head: (cells_upto(x, d) + p) as usize,
        tail_port: Some(AxisPort { axis, positive }),
        head_port: Some(AxisPort { axis, positive: !positive }),
        one_dimensional: x.basis_at(d - 1, f as int).len() == 0 && x.basis_at(d, p).len() == 1,
    }
}

/// The edges of the `s`-faces of cell `(d, p)`, in the order of the faces.
pub open spec fn face_edges(x: FramedPoset, s: Sign, d: int, p: int) -> Seq<Edge> {
    x.faces(s, d, p).map_values(|f: usize| cover_edge(x, s, d, p, f))
}

/// The edges into the first `n` cells at level `d`: input faces first.
pub open spec fn level_edges(x: FramedPoset, d: int, n: int) -> Seq<Edge>
    decreases n,
{
    if n <= 0 {
        Seq::empty()
    } else {
        level_edges(x, d, n - 1) + face_edges(x, Sign::Input, d, n - 1) + face_edges(x, Sign::Output, d, n - 1)
    }
}

/// The edges into the cells below level `n`.
pub open spec fn edges_upto(x: FramedPoset, n: int) -> Seq<Edge>
    decreases n,
{
    if n <= 1 {
        Seq::empty()
    } else {
        edges_upto(x, n - 1) + level_edges(x, n - 1, x.size(n - 1))
    }
}

/// The smallest bound above `dim` and every entry of `b`.
fn axis_bound(b: &IntSet, dim: usize) -> (r: usize)
    requires
        forall|i: int| 0 <= i < b@.len() ==> #[trigger] b@[i] < usize::MAX,
    ensures
        dim <= r,
        forall|a: usize| b@.contains(a) ==> a < r,
        r == dim || b@.contains((r - 1) as usize),
{
    let mut r = dim;
    for i in 0..b.len()
        invariant
            forall|j: int| 0 <= j < b@.len() ==> #[trigger] b@[j] < usize::MAX,
            dim <= r,
            forall|j: int| 0 <= j < i ==> #[trigger] b@[j] < r,
            r == dim || b@.contains((r - 1) as usize),
    {
        if b[i] + 1 > r {
            r = b[i] + 1;
            proof {
                assert(b@.contains(b@[i as int]));
            }
        }
    }
    proof {
        assert forall|a: usize| b@.contains(a) implies a < r by {
            let j = choose|j: int| 0 <= j < b@.len() && b@[j] == a;
        }
    }
    r
}

/// The direction that the cover of cell `(d, p)` by its face `f` adds.
fn cover_axis(x: &FramedPoset, d: usize, p: usize, f: usize) -> (a: usize)
    requires
        x.valid(),
        1 <= d,
        x.cell(d as int, p as int),
        x.cell(d - 1, f as int),
        adds_axis(*x, d as int, p as int, f),
    ensures
        a == added_axis(*x, d as int, p as int, f),
{
    let first = x.basis_of(d - 1, f);
    let second = x.basis_of(d, p);
    proof {
        assert(strictly_sorted(first@));
        assert(strictly_sorted(second@));
    }
    match cover_direction(first.as_slice(), second.as_slice()) {
        Ok(c) => {
            proof {
                let k = choose|k: int| first_new_index(first@, second@, k) && second@[k] == c;
                let k2 = choose|k2: int| #[trigger] first_new_index(x.basis_at(d - 1, f as int), x.basis_at(d as int, p as int), k2);
                if k < k2 {
                    assert(first@.contains(second@[k]));
                } else if k2 < k {
                    assert(first@.contains(second@[k2]));
                }
            }
            c
        },
        Err(_) => {
            proof {
                let k = choose|k: int| #[trigger] first_new_index(x.basis_at(d - 1, f as int), x.basis_at(d as int, p as int), k);
                assert(second@.contains(second@[k]));
            }
            0
        },
    }
}

/// Every direction used by a cell below level `n`, or by the first `m`
/// cells at level `n`, is below `dim`, and `dim` is one or one more than
/// such a direction.
pub open spec fn dim_bounds(x: FramedPoset, n: int, m: int, dim: int) -> bool {
    &&& 1 <= dim
    &&& forall|a: usize| #[trigger] uses_axis_before(x, n, m, a) ==> a < dim
    &&& dim == 1 || uses_axis_before(x, n, m, (dim - 1) as usize)
}

proof fn lemma_dim_step(x: FramedPoset, d: int, p: int, old_dim: int, dim: int, b: Seq<usize>)
    requires
        x.cell(d, p),
        b == x.basis_at(d, p),
        dim_bounds(x, d, p, old_dim),
        old_dim <= dim,
        forall|a: usize| b.contains(a) ==> a < dim,
        dim == old_dim || b.contains((dim - 1) as usize),
    ensures
        dim_bounds(x, d, p + 1, dim),
{
    assert forall|a: usize| #[trigger] uses_axis_before(x, d, p + 1, a) implies a < dim by {
        let (e, q) = choose|e: int, q: int| #[trigger] x.cell(e, q) && (e < d || (e == d && q < p + 1)) && x.basis_at(e, q).contains(a);
        if !(e == d && q == p) {
            assert(uses_axis_before(x, d, p, a));
        }
    }
    if dim != 1 {
        if dim == old_dim {
            let (e, q) = choose|e: int, q: int| #[trigger] x.cell(e, q) && (e < d || (e == d && q < p)) && x.basis_at(e, q).contains((old_dim - 1) as usize);
            assert(x.cell(e, q) && (e < d || (e == d && q < p + 1)));
        } else {
            assert(x.cell(d, p) && x.basis_at(d, p).contains((dim - 1) as usize));
        }
        assert(uses_axis_before(x, d, p + 1, (dim - 1) as usize));
    }
}

proof fn lemma_dim_level(x: FramedPoset, d: int, dim: int)
    requires
        dim_bounds(x, d, x.size(d), dim),
    ensures
        dim_bounds(x, d + 1, 0, dim),
{
    assert forall|a: usize| #[trigger] uses_axis_before(x, d + 1, 0, a) <==> uses_axis_before(x, d, x.size(d), a) by {
        if uses_axis_before(x, d + 1, 0, a) {
            let (e, q) = choose|e: int, q: int| #[trigger] x.cell(e, q) && (e < d + 1 || (e == d + 1 && q < 0)) && x.basis_at(e, q).contains(a);
            assert(x.cell(e, q) && (e < d || (e == d && q < x.size(d))));
        }
        if uses_axis_before(x, d, x.size(d), a) {
            let (e, q) = choose|e: int, q: int| #[trigger] x.cell(e, q) && (e < d || (e == d && q < x.size(d))) && x.basis_at(e, q).contains(a);
            assert(x.cell(e, q) && (e < d + 1 || (e == d + 1 && q < 0)));
        }
    }
}

proof fn lemma_dim_all(x: FramedPoset, dim: int)
    requires
        dim_bounds(x, x.levels(), 0, dim),
    ensures
        1 <= dim,
        forall|a: usize| #[trigger] uses_axis(x, a) ==> a < dim,
        dim == 1 || uses_axis(x, (dim - 1) as usize),
{
    assert forall|a: usize| #[trigger] uses_axis(x, a) <==> uses_axis_before(x, x.levels(), 0, a) by {
        if uses_axis(x, a) {
            let (e, q) = choose|e: int, q: int| #[trigger] x.cell(e, q) && x.basis_at(e, q).contains(a);
            assert(x.cell(e, q) && (e < x.levels() || (e == x.levels() && q < 0)));
        }
        if uses_axis_before(x, x.levels(), 0, a) {
            let (e, q) = choose|e: int, q: int| #[trigger] x.cell(e, q) && (e < x.levels() || (e == x.levels() && q < 0)) && x.basis_at(e, q).contains(a);
            assert(x.cell(e, q));
        }
    }
}

/// Append the edges of the `s`-faces of cell `(d, p)`, whose node is `head`,
/// with the cells of level `d - 1` numbered from `tail_base`.
fn push_face_edges(x: &FramedPoset, s: Sign, d: usize, p: usize, tail_base: usize, head: usize, edges: &mut Vec<Edge>)
    requires
        x.valid(),
        covers_add_axes(*x),
        1 <= d < x.levels(),
        x.cell(d as int, p as int),
        tail_base == cells_upto(*x, d - 1),
        head == cells_upto(*x, d as int) + p,
        cell_total(*x) <= usize::MAX,
    ensures
        final(edges)@ == old(edges)@ + face_edges(*x, s, d as int, p as int),
{
    proof {
        lemma_cells_upto_mono(*x, d + 1, x.levels());
        assert(cells_upto(*x, d + 1) == cells_upto(*x, d as int) + x.size(d as int));
        assert(cells_upto(*x, d as int) == cells_upto(*x, d - 1) + x.size(d - 1));
        assert(x.face_table(s)@.len() == x.basis@.len() && x.face_table(s)@[d as int]@.len() == x.basis@[d as int]@.len());
    }
    let faces = x.faces_of(s, d, p);
    let basis = x.basis_of(d, p);
    let ghost start = edges@;
    let ghost all = face_edges(*x, s, d as int, p as int);
    let positive = match s {
        Sign::Input => true,
        Sign::Output => false,
    };
    for k in 0..faces.len()
        invariant
            x.valid(),
            covers_add_axes(*x),
            1 <= d < x.levels(),
            x.cell(d as int, p as int),
            tail_base == cells_upto(*x, d - 1),
            head == cells_upto(*x, d as int) + p,
            cells_upto(*x, d as int) == cells_upto(*x, d - 1) + x.size(d - 1),
            cells_upto(*x, d as int) + x.size(d as int) <= cell_total(*x),
            cell_total(*x) <= usize::MAX,
            faces@ == x.faces(s, d as int, p as int),
            basis@ == x.basis_at(d as int, p as int),
            positive == (s == Sign::Input),
            all == face_edges(*x, s, d as int, p as int),
            edges@ == start + all.take(k as int),
    {
        let f = faces[k];
        proof {
            assert(x.faces(s, d as int, p as int).contains(f));
            crate::isomorphism::lemma_face_below(*x, s, d as int, p as int, f);
        }
        let axis = cover_axis(x, d, p, f);
        let face_basis = x.basis_of(d - 1, f);
        let e = Edge {
            tail: tail_base + f,
            head,
            tail_port: Some(AxisPort::new(axis, positive)),
            head_port: Some(AxisPort::new(axis, !positive)),
            one_dimensional: face_basis.len() == 0 && basis.len() == 1,
        };
        edges.push(e);
        proof {
            assert(e == all[k as int]);
            assert(all.take(k + 1) =~= all.take(k as int).push(all[k as int]));
        }
    }
    proof {
        assert(all.take(faces@.len() as int) =~= all);
    }
}

/// The layout graph of a framed poset: one node per cell, numbered level by
/// level, and one edge per signed cover relation, whose compass port is the
/// direction the cover adds. The graph is laid out in one dimension more
/// than the largest direction used, and in one dimension when none is.
pub fn compass_spring_graph(shape: &FramedPoset) -> (g: CompassGraph)
    requires
        shape.valid(),
        covers_add_axes(*shape),
        axes_bounded(*shape),
        cell_total(*shape) <= usize::MAX,
    ensures
        g.node_count == cell_total(*shape),
        1 <= g.dim,
        forall|a: usize| #[trigger] uses_axis(*shape, a) ==> a < g.dim,
        g.dim == 1 || uses_axis(*shape, (g.dim - 1) as usize),
        g.edges@ == edges_upto(*shape, shape.levels()),
{
    let sizes = shape.sizes();
    let levels = sizes.len();
    let mut dim: usize = 1;
    let mut node_count: usize = 0;
    for d in 0..levels
        invariant
            levels == shape.levels(),
            sizes@ == shape.size_seq(),
            shape.valid(),
            axes_bounded(*shape),
            cell_total(*shape) <= usize::MAX,
            node_count == cells_upto(*shape, d as int),
            dim_bounds(*shape, d as int, 0, dim as int),
    {
        proof {
            lemma_cells_upto_mono(*shape, d + 1, shape.levels());
        }
        let size_d = sizes[d];
        for p in 0..size_d
            invariant
                size_d == shape.size(d as int),
                d < levels,
                levels == shape.levels(),
                sizes@ == shape.size_seq(),
                sizes@[d as int] == shape.size(d as int),
                shape.valid(),
                axes_bounded(*shape),
                cell_total(*shape) <= usize::MAX,
                cells_upto(*shape, d + 1) <= cell_total(*shape),
                cells_upto(*shape, d + 1) == cells_upto(*shape, d as int) + shape.size(d as int),
                node_count == cells_upto(*shape, d as int) + p,
                dim_bounds(*shape, d as int, p as int, dim as int),
        {
            let basis = shape.basis_of(d, p);
            let ghost old_dim = dim;
            dim = axis_bound(basis, dim);
            node_count = node_count + 1;
            proof {
                lemma_dim_step(*shape, d as int, p as int, old_dim as int, dim as int, basis@);
            }
        }
        proof {
            lemma_dim_level(*shape, d as int, dim as int);
        }
    }
    proof {
        lemma_dim_all(*shape, dim as int);
    }
    let mut edges: Vec<Edge> = Vec::new();
    if levels > 1 {
        let mut tail_base: usize = 0;
        let mut head_base: usize = sizes[0];
        let mut d: usize = 1;
        proof {
            lemma_cells_upto_mono(*shape, 1, shape.levels());
            assert(cells_upto(*shape, 1) == cells_upto(*shape, 0) + shape.size(0));
        }
        while d < levels
            invariant
                1 <= d <= levels,
                levels == shape.levels(),
                sizes@ == shape.size_seq(),
                shape.valid(),
                covers_add_axes(*shape),
                cell_total(*shape) <= usize::MAX,
                tail_base == cells_upto(*shape, d - 1),
                head_base == cells_upto(*shape, d as int),
                edges@ == edges_upto(*shape, d as int),
            decreases levels - d,
        {
            proof {
                lemma_cells_upto_mono(*shape, d + 1, shape.levels());
                assert(cells_upto(*shape, d + 1) == cells_upto(*shape, d as int) + shape.size(d as int));
            }
            let size_d = sizes[d];
            for p in 0..size_d
                invariant
                    size_d == shape.size(d as int),
                    1 <= d < levels,
                    levels == shape.levels(),
                    sizes@ == shape.size_seq(),
                    sizes@[d as int] == shape.size(d as int),
                    shape.valid(),
                    covers_add_axes(*shape),
                    cell_total(*shape) <= usize::MAX,
                    cells_upto(*shape, d + 1) <= cell_total(*shape),
                    cells_upto(*shape, d + 1) == cells_upto(*shape, d as int) + shape.size(d as int),
                    tail_base == cells_upto(*shape, d - 1),
                    head_base == cells_upto(*shape, d as int),
                    edges@ == edges_upto(*shape, d as int) + level_edges(*shape, d as int, p as int),
            {
                let head = head_base + p;
                let ghost before = edges@;
                push_face_edges(shape, Sign::Input, d, p, tail_base, head, &mut edges);
                push_face_edges(shape, Sign::Output, d, p, tail_base, head, &mut edges);
                proof {
                    assert(level_edges(*shape, d as int, p + 1) == level_edges(*shape, d as int, p as int)
                        + face_edges(*shape, Sign::Input, d as int, p as int) + face_edges(*shape, Sign::Output, d as int, p as int));
                    assert(edges@ =~= edges_upto(*shape, d as int) + level_edges(*shape, d as int, p + 1));
                }
            }
            proof {
                assert(edges_upto(*shape, d + 1) == edges_upto(*shape, d as int) + level_edges(*shape, d as int, shape.size(d as int)));
            }
            tail_base = head_base;
            head_base = head_base + sizes[d];
            d = d + 1;
        }
    }
    CompassGraph { dim, node_count, edges }
}

} // verus!

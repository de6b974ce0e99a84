//! Rigidity: connectedness and trivial automorphisms, down through all
//! directional boundaries.

use std::sync::Arc;

use vstd::prelude::*;
use vstd::set_lib::{lemma_int_range, lemma_len_subset, lemma_map_size, set_int_range};

use crate::connect::connected;
use crate::embedding::{Embedding, at, in_image, tv};
use crate::intset::{same_elements, seq_subset};
use crate::poset::{BoundaryMode, FramedPoset, Sign, boundary, boundary_cell, entry, reach, lower_face};
use crate::pushout::{cell_total, cells_upto};
use crate::isomorphism::{cover_total, covers_upto, embeddings_with_tables, found_isomorphisms, graph_sized, isomorphisms, palette_for, level_covers, lemma_covers_upto_mono, lemma_level_covers_mono, lemma_same_poset_totals};
use crate::pushout::lemma_cells_upto_mono;

verus! {

/// The image of a closed embedding into an oriented framed poset is one:
/// its domain is an oriented framed poset too.
pub proof fn lemma_closed_embedding_framed(e: Embedding)
    requires
        e.valid(),
        e.closed(),
        e.cod.framed(),
    ensures
        e.dom.framed(),
{
    let x = *e.dom;
    let y = *e.cod;
    assert(x.tables_shaped());
    assert forall|d: int, p: int| #[trigger] x.cell(d, p) implies x.basis_at(d, p).len() == d && crate::intset::strictly_sorted(x.basis_at(d, p)) by {
        assert(y.cell(d, at(e.map, d, p) as int));
    }
    assert forall|d: int, p: int| #[trigger] x.cell(d, p) implies x.cell_sound(d, p) by {
        lemma_closed_cell_sound(e, d, p);
    }
}

proof fn lemma_closed_cell_sound(e: Embedding, d: int, p: int)
    requires
        e.valid(),
        e.closed(),
        e.cod.framed(),
        e.dom.cell(d, p),
    ensures
        e.dom.cell_sound(d, p),
{
    let x = *e.dom;
    let y = *e.cod;
    let q = at(e.map, d, p) as int;
    assert(y.cell(d, q));
    assert(y.cell_sound(d, q));
    assert(x.basis_at(d, p) == y.basis_at(d, q));
    // Faces at level 0 are empty, faces elsewhere index cells one level down.
    if d == 0 {
        assert forall|s: Sign| x.faces(s, d, p).len() == 0 by {
            if x.faces(s, d, p).len() > 0 {
                assert(x.faces(s, d, p)[0] < crate::poset::rows(x.basis, -1));
            }
        }
        assert(x.faces(Sign::Input, d, p).len() == 0);
        assert(x.faces(Sign::Output, d, p).len() == 0);
    }
    // Every face is in range, and its image is a face of the image.
    assert forall|s: Sign, f: usize| #[trigger] x.faces(s, d, p).contains(f) implies x.cell(d - 1, f as int)
        && y.faces(s, d, q).contains(at(e.map, d - 1, f as int) as usize) by {
        let i = choose|i: int| 0 <= i < x.faces(s, d, p).len() && x.faces(s, d, p)[i] == f;
        assert(entry(x.face_table(s), d, p)[i] < crate::poset::rows(x.basis, d - 1));
        if d == 0 {
            assert(false);
        }
        assert(e.image_faces(s, d, p)[i] == at(e.map, d - 1, f as int));
        assert(e.image_faces(s, d, p).contains(at(e.map, d - 1, f as int)));
        assert(same_elements(y.faces(s, d, q), e.image_faces(s, d, p)));
    }
    // Disjoint signed faces.
    assert forall|v: usize| !(x.faces(Sign::Input, d, p).contains(v) && x.faces(Sign::Output, d, p).contains(v)) by {
        if x.faces(Sign::Input, d, p).contains(v) && x.faces(Sign::Output, d, p).contains(v) {
            let g = at(e.map, d - 1, v as int) as usize;
            assert(y.faces(Sign::Input, d, q).contains(g));
            assert(y.faces(Sign::Output, d, q).contains(g));
        }
    }
    if d > 0 {
        assert forall|s: Sign| #![trigger x.faces_sound(s, d, p)] x.faces_sound(s, d, p) by {
            assert forall|i: int| 0 <= i < x.faces(s, d, p).len() implies x.face_link(s, d, p, #[trigger] x.faces(s, d, p)[i] as int) by {
                let f = x.faces(s, d, p)[i];
                assert(x.faces(s, d, p).contains(f));
                let g = at(e.map, d - 1, f as int) as usize;
                assert(y.faces(s, d, q).contains(g));
                let k = choose|k: int| 0 <= k < y.faces(s, d, q).len() && y.faces(s, d, q)[k] == g;
                assert(y.faces_sound(s, d, q));
                assert(y.face_link(s, d, q, y.faces(s, d, q)[k] as int));
                assert(x.basis_at(d - 1, f as int) == y.basis_at(d - 1, g as int));
                crate::ofp::lemma_valid_face_coface(x, s, d, p, f);
            }
        }
        assert forall|v: usize| #[trigger] x.basis_at(d, p).contains(v) implies x.direction_realised(d, p, v) by {
            assert(y.direction_realised(d, q, v));
            let g = choose|g: usize| (y.faces(Sign::Input, d, q).contains(g) || y.faces(Sign::Output, d, q).contains(g))
                && !y.basis_at(d - 1, g as int).contains(v);
            let s = if y.faces(Sign::Input, d, q).contains(g) { Sign::Input } else { Sign::Output };
            assert(same_elements(y.faces(s, d, q), e.image_faces(s, d, p)));
            assert(e.image_faces(s, d, p).contains(g));
            let k = choose|k: int| 0 <= k < e.image_faces(s, d, p).len() && e.image_faces(s, d, p)[k] == g;
            let f = x.faces(s, d, p)[k];
            assert(x.faces(s, d, p).contains(f));
            assert(x.cell(d - 1, f as int));
            assert(x.basis_at(d - 1, f as int) == y.basis_at(d - 1, g as int));
        }
    }
    crate::ofp::lemma_valid_cofaces_sound(x, Sign::Input, d, p);
    crate::ofp::lemma_valid_cofaces_sound(x, Sign::Output, d, p);
}


/// No cell reached from the cells kept for a boundary in `direction` has
/// `direction` in its basis.
pub proof fn lemma_reach_avoids(shape: FramedPoset, mode: BoundaryMode, sign: Sign, direction: usize, d: int, j: int)
    requires
        shape.framed(),
        shape.cell(d, j),
        reach(shape, |e: int, p: int| boundary_cell(shape, mode, sign, direction, e, p), d, j),
    ensures
        !shape.basis_at(d, j).contains(direction),
    decreases shape.levels() - d,
{
    let keep = |e: int, p: int| boundary_cell(shape, mode, sign, direction, e, p);
    if !keep(d, j) {
        let c = choose|c: int| #[trigger] lower_face(shape, d, j, c) && reach(shape, keep, d + 1, c);
        lemma_reach_avoids(shape, mode, sign, direction, d + 1, c);
        assert(shape.cell_sound(d + 1, c));
        assert(shape.basis@[d]@.len() == shape.basis@[d].len());
        assert((j as usize) as int == j);
        let s = if shape.faces(Sign::Input, d + 1, c).contains(j as usize) { Sign::Input } else { Sign::Output };
        let fs = shape.faces(s, d + 1, c);
        let i = choose|i: int| 0 <= i < fs.len() && fs[i] == j as usize;
        assert(shape.faces_sound(s, d + 1, c));
        assert(shape.face_link(s, d + 1, c, fs[i] as int));
        assert(seq_subset(shape.basis_at(d, j), shape.basis_at(d + 1, c)));
    }
}

/// An injective map from `0..n` into `0..m` avoiding `missing` has
/// `n <= m - 1`; without a value to avoid, `n <= m`.
proof fn lemma_injection_count(n: int, m: int, g: spec_fn(int) -> int, missing: Option<int>)
    requires
        0 <= n,
        0 <= m,
        forall|i: int| 0 <= i < n ==> 0 <= #[trigger] g(i) < m,
        forall|i: int, k: int| 0 <= i < n && 0 <= k < n && i != k ==> #[trigger] g(i) != #[trigger] g(k),
        missing matches Some(v) ==> 0 <= v < m && forall|i: int| 0 <= i < n ==> #[trigger] g(i) != v,
    ensures
        missing is Some ==> n <= m - 1,
        n <= m,
{
    let xs = set_int_range(0, n);
    let ys = xs.map(g);
    lemma_int_range(0, n);
    lemma_int_range(0, m);
    assert(vstd::relations::injective_on(g, xs)) by {
        assert forall|a: int, b: int| xs.contains(a) && xs.contains(b) && #[trigger] g(a) == #[trigger] g(b) implies a == b by {
        }
    }
    lemma_map_size(xs, ys, g);
    let target = match missing {
        Some(v) => set_int_range(0, m).remove(v),
        None => set_int_range(0, m),
    };
    assert(ys.subset_of(target)) by {
        assert forall|y: int| ys.contains(y) implies target.contains(y) by {
            let i = choose|i: int| xs.contains(i) && g(i) == y;
        }
    }
    lemma_len_subset(ys, target);
    lemma_len_subset(ys, set_int_range(0, m));
}

proof fn lemma_cells_upto_le(a: FramedPoset, b: FramedPoset, n: int, strict: int)
    requires
        0 <= n,
        forall|d: int| 0 <= d < n ==> #[trigger] a.size(d) <= b.size(d),
        0 <= strict < n ==> a.size(strict) < b.size(strict),
    ensures
        cells_upto(a, n) <= cells_upto(b, n),
        0 <= strict < n ==> cells_upto(a, n) < cells_upto(b, n),
    decreases n,
{
    if n > 0 {
        lemma_cells_upto_le(a, b, n - 1, strict);
        assert(a.size(n - 1) <= b.size(n - 1));
    }
}

proof fn lemma_cells_upto_empty(a: FramedPoset, n: int)
    requires
        a.levels() <= n,
    ensures
        cells_upto(a, n) == cells_upto(a, a.levels()),
    decreases n,
{
    if n > a.levels() {
        lemma_cells_upto_empty(a, n - 1);
        assert(a.size(n - 1) == 0);
    }
}

/// A directional boundary in an active direction has fewer cells than the
/// framed poset it bounds.
pub proof fn lemma_boundary_smaller(shape: FramedPoset, mode: BoundaryMode, sign: Sign, direction: usize, e: Embedding)
    requires
        shape.framed(),
        shape.is_active(direction),
        e.valid(),
        *e.cod == shape,
        forall|d: int, j: int| shape.cell(d, j) ==> (#[trigger] in_image(e.map, d, j) <==>
            reach(shape, |e: int, p: int| boundary_cell(shape, mode, sign, direction, e, p), d, j)),
        e.map@.len() > 0 ==> e.map@[e.map@.len() - 1]@.len() > 0,
    ensures
        cell_total(*e.dom) < cell_total(shape),
{
    let x = *e.dom;
    let (dd, jj) = choose|d: int, p: int| shape.cell(d, p) && #[trigger] shape.basis_at(d, p).contains(direction);
    if x.levels() > shape.levels() {
        let top = x.levels() - 1;
        assert(x.cell(top, 0));
        assert(at(e.map, top, 0) < shape.size(top));
    }
    assert forall|d: int| 0 <= d < shape.levels() implies #[trigger] x.size(d) <= shape.size(d) && (d == dd ==> x.size(d) < shape.size(d)) by {
        let g = |i: int| at(e.map, d, i) as int;
        assert forall|i: int| 0 <= i < x.size(d) implies 0 <= #[trigger] g(i) < shape.size(d) by {
            assert(x.cell(d, i));
        }
        assert forall|i: int, k: int| 0 <= i < x.size(d) && 0 <= k < x.size(d) && i != k implies #[trigger] g(i) != #[trigger] g(k) by {
            assert(x.cell(d, i));
            assert(x.cell(d, k));
        }
        if d == dd {
            assert forall|i: int| 0 <= i < x.size(d) implies #[trigger] g(i) != jj by {
                assert(x.cell(d, i));
                if g(i) == jj {
                    assert(in_image(e.map, d, jj));
                    lemma_reach_avoids(shape, mode, sign, direction, d, jj);
                }
            }
            lemma_injection_count(x.size(d), shape.size(d), g, Some(jj));
        } else {
            lemma_injection_count(x.size(d), shape.size(d), g, None);
        }
    }
    lemma_cells_upto_le(x, shape, shape.levels(), dd);
    lemma_cells_upto_empty(x, shape.levels());
}


/// A copy of an oriented framed poset, table for table, is one.
proof fn lemma_copy_framed(a: FramedPoset, b: FramedPoset)
    requires
        a.framed(),
        a.valid(),
        b.valid(),
        a.same_poset(&b),
        crate::poset::same_table(b.cofaces_in, a.cofaces_in),
        crate::poset::same_table(b.cofaces_out, a.cofaces_out),
        b.dim == a.dim,
    ensures
        b.framed(),
{
    assert forall|d: int| #[trigger] b.size(d) == a.size(d) by {
        if 0 <= d < a.levels() {
            assert(a.basis@[d]@.len() == b.basis@[d]@.len());
        }
    }
    assert forall|d: int, p: int| #[trigger] b.basis_at(d, p) == a.basis_at(d, p) || !a.cell(d, p) by {
        if a.cell(d, p) {
            assert(entry(a.basis, d, p) == entry(b.basis, d, p));
        }
    }
    assert forall|s: Sign, d: int, p: int| #[trigger] b.faces(s, d, p) == a.faces(s, d, p) || !a.cell(d, p) by {
        if a.cell(d, p) {
            crate::poset::lemma_valid_sign(&a, s);
            assert(entry(a.faces_in, d, p) == entry(b.faces_in, d, p));
            assert(entry(a.faces_out, d, p) == entry(b.faces_out, d, p));
        }
    }
    assert forall|s: Sign, d: int, p: int| #[trigger] b.cofaces(s, d, p) == a.cofaces(s, d, p) || !a.cell(d, p) by {
        if a.cell(d, p) {
            crate::poset::lemma_valid_sign(&a, s);
            assert(entry(a.cofaces_in, d, p) == entry(b.cofaces_in, d, p));
            assert(entry(a.cofaces_out, d, p) == entry(b.cofaces_out, d, p));
        }
    }
    assert(b.tables_shaped());
    assert forall|d: int, p: int| #[trigger] b.cell(d, p) implies b.basis_at(d, p).len() == d && crate::intset::strictly_sorted(b.basis_at(d, p)) by {
        assert(a.cell(d, p));
    }
    assert forall|d: int, p: int| #[trigger] b.cell(d, p) implies b.cell_sound(d, p) by {
        assert(a.cell(d, p));
        assert(a.cell_sound(d, p));
        assert forall|s: Sign, f: int| #![trigger b.face_link(s, d, p, f)] 0 <= f && a.face_link(s, d, p, f) implies b.face_link(s, d, p, f) by {
            assert(a.cell(d - 1, f));
        }
        assert forall|s: Sign, c: int| #![trigger b.coface_link(s, d, p, c)] 0 <= c && a.coface_link(s, d, p, c) implies b.coface_link(s, d, p, c) by {
            assert(a.cell(d + 1, c));
        }
        assert forall|v: usize| #![trigger b.direction_realised(d, p, v)] a.direction_realised(d, p, v) implies b.direction_realised(d, p, v) by {
            let f = choose|f: usize| (a.faces(Sign::Input, d, p).contains(f) || a.faces(Sign::Output, d, p).contains(f))
                && !a.basis_at(d - 1, f as int).contains(v);
            assert(a.faces_sound(Sign::Input, d, p) || d == 0);
            if d > 0 {
                let s = if a.faces(Sign::Input, d, p).contains(f) { Sign::Input } else { Sign::Output };
                let i = choose|i: int| 0 <= i < a.faces(s, d, p).len() && a.faces(s, d, p)[i] == f;
                assert(a.face_link(s, d, p, a.faces(s, d, p)[i] as int));
                assert(a.cell(d - 1, f as int));
                assert(b.faces(s, d, p) == a.faces(s, d, p));
                assert(b.basis_at(d - 1, f as int) == a.basis_at(d - 1, f as int));
                assert(b.faces(s, d, p).contains(f) && !b.basis_at(d - 1, f as int).contains(v));
                assert(b.faces(Sign::Input, d, p).contains(f) || b.faces(Sign::Output, d, p).contains(f));
            } else {
                assert(a.faces(Sign::Input, d, p).len() == 0);
                assert(a.faces(Sign::Output, d, p).len() == 0);
            }
        }
    }
}


/// An isomorphism search between two framed posets like `x` fits the graph library's `u32` indices.
pub open spec fn search_sized(x: FramedPoset) -> bool {
    &&& graph_sized(x)
    &&& 2 * cell_total(x) <= u32::MAX + 1
}

/// Check [`search_sized`].
pub(crate) fn search_fits(x: &FramedPoset) -> (r: bool)
    requires
        x.valid(),
    ensures
        r == search_sized(*x),
{
    let sizes = x.sizes();
    let levels = sizes.len();
    let half: usize = 2147483648;
    let mut cells: usize = 0;
    for d in 0..levels
        invariant
            levels == x.levels(),
            sizes@ == x.size_seq(),
            half == 2147483648,
            cells == cells_upto(*x, d as int),
            cells <= half,
    {
        if sizes[d] > half - cells {
            proof {
                lemma_cells_upto_mono(*x, d + 1, x.levels());
            }
            return false;
        }
        cells = cells + sizes[d];
    }
    let bound: usize = 4294967295;
    let mut covers: usize = 0;
    proof {
        lemma_covers_upto_mono(*x, 0, x.levels());
    }
    let first: usize = if levels == 0 { 0 } else { 1 };
    for d in first..levels
        invariant
            x.valid(),
            1 <= d || levels == 0,
            levels == x.levels(),
            sizes@ == x.size_seq(),
            bound == 4294967295,
            covers == covers_upto(*x, d as int),
            covers <= bound,
            cells == cell_total(*x),
            cells <= 2147483648,
    {
        let size = sizes[d];
        proof {
            lemma_covers_upto_mono(*x, d as int + 1, x.levels());
            assert(covers_upto(*x, d as int + 1) == covers_upto(*x, d as int) + level_covers(*x, d as int, x.size(d as int)));
        }
        for p in 0..size
            invariant
                x.valid(),
                1 <= d < levels,
                levels == x.levels(),
                size == x.size(d as int),
                bound == 4294967295,
                covers == covers_upto(*x, d as int) + level_covers(*x, d as int, p as int),
                covers <= bound,
                covers_upto(*x, d as int + 1) <= cover_total(*x),
                covers_upto(*x, d as int + 1) == covers_upto(*x, d as int) + level_covers(*x, d as int, x.size(d as int)),
                cells == cell_total(*x),
                cells <= 2147483648,
        {
            proof {
                assert(x.cell(d as int, p as int));
                lemma_level_covers_mono(*x, d as int, p as int + 1, x.size(d as int));
            }
            let n = x.faces_of(Sign::Input, d, p).len();
            let m = x.faces_of(Sign::Output, d, p).len();
            if n > bound - covers || m > bound - covers - n {
                return false;
            }
            covers = covers + n + m;
        }
    }
    proof {
        if levels <= 1 {
            assert(covers_upto(*x, levels as int) == 0);
        }
    }
    true
}

/// `f` embeds the hat `sign` boundary of `x` in `direction` into `x`.
pub open spec fn hat_boundary(f: Embedding, x: Arc<FramedPoset>, sign: Sign, direction: usize) -> bool {
    &&& f.valid()
    &&& f.closed()
    &&& f.cod == x
    &&& forall|d: int, j: int| x.cell(d, j) ==> (#[trigger] in_image(f.map, d, j) <==>
        reach(*x, |e: int, p: int| boundary_cell(*x, BoundaryMode::Hat, sign, direction, e, p), d, j))
}

/// The automorphism tables `t` hold exactly one entry, the identity.
pub open spec fn identity_only(t: Seq<(Seq<Seq<usize>>, Seq<Seq<usize>>)>) -> bool {
    &&& t.len() == 1
    &&& forall|d: int, i: int| 0 <= d < t[0].0.len() && 0 <= i < t[0].0[d].len() ==> #[trigger] t[0].0[d][i] == i
}

/// `f` is the hat `sign` boundary of `x` in `direction`, smaller than `x`.
pub open spec fn smaller_hat_boundary(f: Embedding, x: Arc<FramedPoset>, sign: Sign, direction: usize) -> bool {
    hat_boundary(f, x, sign, direction) && 0 <= cell_total(*f.dom) < cell_total(*x)
}

/// `x` passes the rigidity test: it is connected, the hat boundaries of
/// every active direction are small enough to search and pass it, and the
/// search finds only the identity automorphism.
pub open spec fn rigid(x: Arc<FramedPoset>) -> bool
    decreases cell_total(*x),
{
    &&& connected(*x)
    &&& forall|v: usize| #[trigger] x.is_active(v) ==> (exists|f: Embedding| #[trigger] smaller_hat_boundary(f, x, Sign::Input, v)
        && search_sized(*f.dom) && rigid(f.dom)) && (exists|f: Embedding| #[trigger] smaller_hat_boundary(f, x, Sign::Output, v)
        && search_sized(*f.dom) && rigid(f.dom))
    &&& exists|palette: Seq<Seq<usize>>| #[trigger] palette_for(palette, *x, *x) && identity_only(found_isomorphisms(x, x, palette))
}

/// `x` fails the rigidity test.
pub open spec fn not_rigid(x: Arc<FramedPoset>) -> bool
    decreases cell_total(*x),
{
    ||| !connected(*x)
    ||| exists|v: usize, s: Sign, f: Embedding| #[trigger] smaller_hat_boundary(f, x, s, v) && x.is_active(v)
        && (!search_sized(*f.dom) || not_rigid(f.dom))
    ||| exists|palette: Seq<Seq<usize>>| #[trigger] palette_for(palette, *x, *x) && !identity_only(found_isomorphisms(x, x, palette))
}

/// The hat `sign` boundary of `x` in `direction` passes the rigidity test.
pub open spec fn boundary_rigid(x: Arc<FramedPoset>, sign: Sign, direction: usize) -> bool {
    exists|f: Embedding| #[trigger] smaller_hat_boundary(f, x, sign, direction) && search_sized(*f.dom) && rigid(f.dom)
}

/// The rigidity test on a shared framed poset.
fn rigid_shape(shape: &Arc<FramedPoset>) -> (r: bool)
    requires
        shape.framed(),
        search_sized(**shape),
    ensures
        r ==> rigid(*shape),
        !r ==> not_rigid(*shape),
    decreases cell_total(**shape),
{
    proof {
        crate::ofp::lemma_framed_valid(&**shape);
    }
    if !shape.is_connected() {
        return false;
    }
    let whole: &FramedPoset = shape;
    let directions = shape.active_directions();
    let n = directions.len();
    let mut k: usize = 0;
    while k < n
        invariant
            k <= n,
            n == directions@.len(),
            shape.framed(),
            shape.valid(),
            connected(*whole),
            *whole == **shape,
            forall|v: usize| directions@.contains(v) <==> shape.is_active(v),
            forall|j: int| 0 <= j < k ==> #[trigger] boundary_rigid(*shape, Sign::Input, directions@[j])
                && boundary_rigid(*shape, Sign::Output, directions@[j]),
        decreases n - k,
    {
        let v = directions[k];
        proof {
            assert(directions@.contains(v));
        }
        let (input_boundary, input_embedding) = boundary(BoundaryMode::Hat, Sign::Input, v, shape);
        let ib: &FramedPoset = &input_boundary;
        proof {
            lemma_closed_embedding_framed(input_embedding);
            lemma_boundary_smaller(*whole, BoundaryMode::Hat, Sign::Input, v, input_embedding);
            assert(cell_total(*input_boundary) < cell_total(**shape));
            lemma_cells_upto_mono(*ib, 0, ib.levels());
            assert(hat_boundary(input_embedding, *shape, Sign::Input, v));
        }
        if !search_fits(&input_boundary) || !rigid_shape(&input_boundary) {
            proof {
                assert(smaller_hat_boundary(input_embedding, *shape, Sign::Input, v));
                assert(shape.is_active(v));
            }
            return false;
        }
        let (output_boundary, output_embedding) = boundary(BoundaryMode::Hat, Sign::Output, v, shape);
        let ob: &FramedPoset = &output_boundary;
        proof {
            lemma_closed_embedding_framed(output_embedding);
            lemma_boundary_smaller(*whole, BoundaryMode::Hat, Sign::Output, v, output_embedding);
            assert(cell_total(*output_boundary) < cell_total(**shape));
            lemma_cells_upto_mono(*ob, 0, ob.levels());
            assert(hat_boundary(output_embedding, *shape, Sign::Output, v));
        }
        if !search_fits(&output_boundary) || !rigid_shape(&output_boundary) {
            proof {
                assert(smaller_hat_boundary(output_embedding, *shape, Sign::Output, v));
                assert(shape.is_active(v));
            }
            return false;
        }
        proof {
            assert(smaller_hat_boundary(input_embedding, *shape, Sign::Input, v));
            assert(smaller_hat_boundary(output_embedding, *shape, Sign::Output, v));
            assert(boundary_rigid(*shape, Sign::Input, v));
            assert(boundary_rigid(*shape, Sign::Output, v));
            assert forall|j: int| 0 <= j < k + 1 implies #[trigger] boundary_rigid(*shape, Sign::Input, directions@[j])
                && boundary_rigid(*shape, Sign::Output, directions@[j]) by {
                if j == k {
                    assert(directions@[j] == v);
                }
            }
        }
        k = k + 1;
    }
    proof {
        assert forall|v: usize| #[trigger] shape.is_active(v) implies (exists|f: Embedding| #[trigger] smaller_hat_boundary(f, *shape, Sign::Input, v)
            && search_sized(*f.dom) && rigid(f.dom)) && (exists|f: Embedding| #[trigger] smaller_hat_boundary(f, *shape, Sign::Output, v)
            && search_sized(*f.dom) && rigid(f.dom)) by {
            assert(directions@.contains(v));
            let j = choose|j: int| 0 <= j < directions@.len() && directions@[j] == v;
            assert(boundary_rigid(*shape, Sign::Input, directions@[j]));
            assert(boundary_rigid(*shape, Sign::Output, directions@[j]));
        }
    }
    let r = only_identity(shape);
    proof {
        if r {
            let palette = choose|palette: Seq<Seq<usize>>| #[trigger] palette_for(palette, **shape, **shape)
                && identity_only(found_isomorphisms(*shape, *shape, palette));
            assert(palette_for(palette, **shape, **shape));
            assert(rigid(*shape));
        } else {
            let palette = choose|palette: Seq<Seq<usize>>| #[trigger] palette_for(palette, **shape, **shape)
                && !identity_only(found_isomorphisms(*shape, *shape, palette));
            assert(palette_for(palette, **shape, **shape));
            assert(not_rigid(*shape));
        }
    }
    r
}

/// Whether the search on the Hasse diagram of `shape` finds exactly one
/// automorphism, the identity.
fn only_identity(shape: &Arc<FramedPoset>) -> (r: bool)
    requires
        shape.valid(),
        search_sized(**shape),
    ensures
        r ==> exists|palette: Seq<Seq<usize>>| #[trigger] palette_for(palette, **shape, **shape) && identity_only(found_isomorphisms(*shape, *shape, palette)),
        !r ==> exists|palette: Seq<Seq<usize>>| #[trigger] palette_for(palette, **shape, **shape) && !identity_only(found_isomorphisms(*shape, *shape, palette)),
{
    let automorphisms = isomorphisms(shape, shape);
    let ghost palette = choose|palette: Seq<Seq<usize>>| #[trigger] palette_for(palette, **shape, **shape)
        && embeddings_with_tables(automorphisms@, *shape, *shape, found_isomorphisms(*shape, *shape, palette));
    let ghost t = found_isomorphisms(*shape, *shape, palette);
    proof {
        assert(palette_for(palette, **shape, **shape));
        assert(embeddings_with_tables(automorphisms@, *shape, *shape, t));
    }
    if automorphisms.len() != 1 {
        proof {
            assert(!identity_only(t));
            assert(palette_for(palette, **shape, **shape) && !identity_only(found_isomorphisms(*shape, *shape, palette)));
        }
        return false;
    }
    let automorphism = &automorphisms[0];
    proof {
        assert(tv(automorphism.map) == t[0].0);
    }
    let levels = automorphism.map.len();
    for d in 0..levels
        invariant
            levels == automorphism.map@.len(),
            tv(automorphism.map) == t[0].0,
            t.len() == 1,
            palette_for(palette, **shape, **shape),
            t == found_isomorphisms(*shape, *shape, palette),
            forall|e: int, i: int| 0 <= e < d && 0 <= i < t[0].0[e].len() ==> #[trigger] t[0].0[e][i] == i,
    {
        let size = automorphism.map[d].len();
        proof {
            assert(t[0].0[d as int] == automorphism.map@[d as int]@);
        }
        for i in 0..size
            invariant
                levels == automorphism.map@.len(),
                d < levels,
                size == automorphism.map@[d as int]@.len(),
                tv(automorphism.map) == t[0].0,
                t.len() == 1,
                palette_for(palette, **shape, **shape),
                t == found_isomorphisms(*shape, *shape, palette),
                t[0].0[d as int] == automorphism.map@[d as int]@,
                forall|e: int, j: int| 0 <= e < d && 0 <= j < t[0].0[e].len() ==> #[trigger] t[0].0[e][j] == j,
                forall|j: int| 0 <= j < i ==> #[trigger] t[0].0[d as int][j] == j,
        {
            if automorphism.map[d][i] != i {
                proof {
                    assert(t[0].0[d as int][i as int] != i);
                    assert(!identity_only(t));
                    assert(palette_for(palette, **shape, **shape) && !identity_only(found_isomorphisms(*shape, *shape, palette)));
                }
                return false;
            }
        }
    }
    proof {
        assert(identity_only(t));
        assert(palette_for(palette, **shape, **shape) && identity_only(found_isomorphisms(*shape, *shape, palette)));
    }
    true
}

impl FramedPoset {
    /// Whether this framed poset and all its directional boundaries are
    /// connected and have only the identity automorphism.
    pub fn is_rigid(&self) -> (r: bool)
        requires
            self.framed(),
            search_sized(*self),
        ensures
            r ==> connected(*self),
            r ==> exists|x: Arc<FramedPoset>| #[trigger] x.same_poset(self) && x.normal == self.normal && rigid(x),
            !r ==> !connected(*self) || exists|x: Arc<FramedPoset>| #[trigger] x.same_poset(self) && x.normal == self.normal && not_rigid(x),
    {
        proof {
            crate::ofp::lemma_framed_valid(self);
        }
        if !self.is_connected() {
            return false;
        }
        let copy = crate::poset::copy_poset(self);
        proof {
            lemma_copy_framed(*self, copy);
            lemma_same_poset_totals(*self, copy);
        }
        let shape = Arc::new(copy);
        let r = rigid_shape(&shape);
        proof {
            assert(shape.same_poset(self));
        }
        r
    }
}

} // verus!

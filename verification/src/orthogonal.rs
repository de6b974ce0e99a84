//! Orthogonal products of oriented framed posets and embeddings.

use std::sync::Arc;

use vstd::prelude::*;

use crate::embedding::{Embedding, at, share};
use crate::intset::{self, IntSet, same_elements, seq_disjoint, seq_subset, strictly_sorted};
use crate::poset::{FramedPoset, Sign, entry};

verus! {

/// A cell of an orthogonal product: a cell of the left factor paired with a
/// cell of the right factor.
#[derive(Debug, Clone, Copy, PartialEq, Eq, Structural)]
pub struct CellPair {
    pub left_dim: usize,
    pub left_pos: usize,
    pub right_dim: usize,
    pub right_pos: usize,
}

/// The pair names cells of both factors with disjoint bases.
pub open spec fn pair_ok(l: FramedPoset, r: FramedPoset, c: CellPair) -> bool {
    &&& l.cell(c.left_dim as int, c.left_pos as int)
    &&& r.cell(c.right_dim as int, c.right_pos as int)
    &&& seq_disjoint(l.basis_at(c.left_dim as int, c.left_pos as int), r.basis_at(c.right_dim as int, c.right_pos as int))
}

/// Lexicographic order on (left level, left cell, right level, right cell).
pub open spec fn pair_lt(a: CellPair, b: CellPair) -> bool {
    ||| a.left_dim < b.left_dim
    ||| (a.left_dim == b.left_dim && a.left_pos < b.left_pos)
    ||| (a.left_dim == b.left_dim && a.left_pos == b.left_pos && a.right_dim < b.right_dim)
    ||| (a.left_dim == b.left_dim && a.left_pos == b.left_pos && a.right_dim == b.right_dim && a.right_pos < b.right_pos)
}

/// The level of a product cell: the sum of the levels of its factors.
pub open spec fn pair_level(c: CellPair) -> int {
    c.left_dim + c.right_dim
}

/// `cells` lists, level by level and in lexicographic order, exactly the pairs
/// of cells with disjoint bases, with no empty top level.
pub open spec fn product_cells(l: FramedPoset, r: FramedPoset, cells: Seq<Seq<CellPair>>) -> bool {
    &&& forall|d: int, k: int| 0 <= d < cells.len() && 0 <= k < cells[d].len() ==> pair_ok(l, r, #[trigger] cells[d][k])
        && pair_level(cells[d][k]) == d
    &&& forall|d: int, i: int, j: int| 0 <= d < cells.len() && 0 <= i < j < cells[d].len() ==> pair_lt(
        #[trigger] cells[d][i],
        #[trigger] cells[d][j],
    )
    &&& forall|c: CellPair| #[trigger] pair_ok(l, r, c) ==> pair_level(c) < cells.len() && cells[pair_level(c)].contains(c)
    &&& cells.len() > 0 ==> cells[cells.len() - 1].len() > 0
}

/// The basis of a product cell: the union of the bases of its factors.
pub open spec fn pair_basis(l: FramedPoset, r: FramedPoset, c: CellPair, b: Seq<usize>) -> bool {
    &&& strictly_sorted(b)
    &&& forall|v: usize| #[trigger] b.contains(v) <==> (l.basis_at(c.left_dim as int, c.left_pos as int).contains(v)
        || r.basis_at(c.right_dim as int, c.right_pos as int).contains(v))
}

/// `f` is an `s`-face of product cell `c`: one factor moves along an `s`-face
/// and the other stays.
pub open spec fn pair_face(l: FramedPoset, r: FramedPoset, s: Sign, c: CellPair, f: CellPair) -> bool {
    ||| (f.right_dim == c.right_dim && f.right_pos == c.right_pos && f.left_dim + 1 == c.left_dim
        && l.faces(s, c.left_dim as int, c.left_pos as int).contains(f.left_pos))
    ||| (f.left_dim == c.left_dim && f.left_pos == c.left_pos && f.right_dim + 1 == c.right_dim
        && r.faces(s, c.right_dim as int, c.right_pos as int).contains(f.right_pos))
}

/// `x` is the orthogonal product of `l` and `r` with its cells listed by `cells`.
pub open spec fn product_of(l: FramedPoset, r: FramedPoset, cells: Seq<Seq<CellPair>>, x: FramedPoset) -> bool {
    &&& product_cells(l, r, cells)
    &&& x.levels() == cells.len()
    &&& forall|d: int| 0 <= d < cells.len() ==> #[trigger] x.size(d) == cells[d].len()
    &&& forall|d: int, k: int| #[trigger] x.cell(d, k) ==> pair_basis(l, r, cells[d][k], x.basis_at(d, k))
    &&& forall|s: Sign, d: int, k: int| x.cell(d, k) ==> strictly_sorted(#[trigger] x.faces(s, d, k))
    &&& forall|s: Sign, d: int, k: int, f: usize| x.cell(d, k) ==> (#[trigger] x.faces(s, d, k).contains(f) <==> (1 <= d && f
        < cells[d - 1].len() && pair_face(l, r, s, cells[d][k], cells[d - 1][f as int])))
}

/// Is `a` before `b` in the lexicographic order.
fn pair_less(a: CellPair, b: CellPair) -> (r: bool)
    ensures
        r == pair_lt(a, b),
{
    if a.left_dim != b.left_dim {
        a.left_dim < b.left_dim
    } else if a.left_pos != b.left_pos {
        a.left_pos < b.left_pos
    } else if a.right_dim != b.right_dim {
        a.right_dim < b.right_dim
    } else {
        a.right_pos < b.right_pos
    }
}

/// Locate a pair in a strictly increasing row.
fn find_pair(row: &Vec<CellPair>, c: CellPair) -> (r: usize)
    requires
        forall|i: int, j: int| 0 <= i < j < row@.len() ==> pair_lt(#[trigger] row@[i], #[trigger] row@[j]),
        row@.contains(c),
    ensures
        r < row@.len(),
        row@[r as int] == c,
{
    let ghost w = choose|w: int| 0 <= w < row@.len() && row@[w] == c;
    let mut lo: usize = 0;
    let mut hi: usize = row.len();
    while lo + 1 < hi
        invariant
            0 <= lo < hi <= row@.len(),
            lo <= w < hi,
            row@[w] == c,
            forall|i: int, j: int| 0 <= i < j < row@.len() ==> pair_lt(#[trigger] row@[i], #[trigger] row@[j]),
        decreases hi - lo,
    {
        let mid = lo + (hi - lo) / 2;
        if pair_less(c, row[mid]) {
            proof {
                if w >= mid {
                    if w > mid {
                        assert(pair_lt(row@[mid as int], row@[w]));
                    }
                }
            }
            hi = mid;
        } else {
            proof {
                if w < mid {
                    assert(pair_lt(row@[w], row@[mid as int]));
                }
            }
            lo = mid;
        }
    }
    lo
}

/// The pairs before `cur` have been listed, in order, level by level, with
/// their bases.
pub open spec fn enumerated(
    l: FramedPoset,
    r: FramedPoset,
    cells: Seq<Seq<CellPair>>,
    basis: Vec<Vec<IntSet>>,
    cur: CellPair,
    lc: int,
) -> bool {
    &&& cells.len() == lc
    &&& basis@.len() == lc
    &&& forall|d: int| 0 <= d < lc ==> #[trigger] basis@[d]@.len() == cells[d].len()
    &&& forall|d: int, k: int| 0 <= d < lc && 0 <= k < cells[d].len() ==> pair_ok(l, r, #[trigger] cells[d][k])
        && pair_level(cells[d][k]) == d && pair_lt(cells[d][k], cur)
    &&& forall|d: int, i: int, j: int| 0 <= d < lc && 0 <= i < j < cells[d].len() ==> pair_lt(
        #[trigger] cells[d][i],
        #[trigger] cells[d][j],
    )
    &&& forall|c: CellPair| #[trigger] pair_ok(l, r, c) && pair_lt(c, cur) ==> pair_level(c) < lc && cells[pair_level(c)].contains(c)
    &&& forall|d: int, k: int| 0 <= d < lc && 0 <= k < cells[d].len() ==> pair_basis(l, r, #[trigger] cells[d][k], entry(basis, d, k))
}

/// The view of a table of pairs.
pub open spec fn pv(t: Vec<Vec<CellPair>>) -> Seq<Seq<CellPair>> {
    t@.map_values(|row: Vec<CellPair>| row@)
}

/// Moving the position forward over no pair keeps the listing complete.
proof fn lemma_enum_advance(
    l: FramedPoset,
    r: FramedPoset,
    cells: Seq<Seq<CellPair>>,
    basis: Vec<Vec<IntSet>>,
    a: CellPair,
    b: CellPair,
    lc: int,
)
    requires
        enumerated(l, r, cells, basis, a, lc),
        !pair_lt(b, a),
        forall|c: CellPair| #[trigger] pair_ok(l, r, c) && pair_lt(c, b) ==> pair_lt(c, a),
    ensures
        enumerated(l, r, cells, basis, b, lc),
{
    assert forall|d: int, k: int| 0 <= d < lc && 0 <= k < cells[d].len() implies pair_ok(l, r, #[trigger] cells[d][k])
        && pair_level(cells[d][k]) == d && pair_lt(cells[d][k], b) by {
        assert(pair_lt(cells[d][k], a));
    }
}

/// Pairs of cells with disjoint bases, listed level by level in
/// lexicographic order, with their bases; `lc` levels, some perhaps empty.
fn enumerate_pairs(l: &FramedPoset, r: &FramedPoset) -> (res: (Vec<Vec<CellPair>>, Vec<Vec<IntSet>>))
    requires
        l.framed(),
        r.framed(),
        l.levels() > 0,
        r.levels() > 0,
    ensures
        enumerated(*l, *r, pv(res.0), res.1, CellPair { left_dim: l.levels() as usize, left_pos: 0, right_dim: 0, right_pos: 0 },
            l.levels() + r.levels() - 1),
{
    let lsizes = l.sizes();
    let rsizes = r.sizes();
    let ll = lsizes.len();
    let rl = rsizes.len();
    let lc = ll - 1 + rl;
    let mut cells: Vec<Vec<CellPair>> = Vec::new();
    let mut basis: Vec<Vec<IntSet>> = Vec::new();
    for d in 0..lc
        invariant
            cells@.len() == d,
            basis@.len() == d,
            forall|e: int| 0 <= e < d ==> #[trigger] cells@[e]@.len() == 0,
            forall|e: int| 0 <= e < d ==> #[trigger] basis@[e]@.len() == 0,
    {
        cells.push(Vec::new());
        basis.push(Vec::new());
    }
    proof {
        assert(enumerated(*l, *r, pv(cells), basis, CellPair { left_dim: 0, left_pos: 0, right_dim: 0, right_pos: 0 }, lc as int)) by {
            assert forall|d: int| 0 <= d < lc implies #[trigger] basis@[d]@.len() == pv(cells)[d].len() by {
                assert(cells@[d]@.len() == 0);
            }
            assert forall|c: CellPair| #[trigger] pair_ok(*l, *r, c) implies !pair_lt(c, CellPair { left_dim: 0, left_pos: 0, right_dim: 0, right_pos: 0 }) by {}
        }
    }
    for ld in 0..ll
        invariant
            l.framed(),
            r.framed(),
            lsizes@ == l.size_seq(),
            rsizes@ == r.size_seq(),
            ll == l.levels(),
            rl == r.levels(),
            ll > 0,
            rl > 0,
            lc == ll - 1 + rl,
            enumerated(*l, *r, pv(cells), basis, CellPair { left_dim: ld, left_pos: 0, right_dim: 0, right_pos: 0 }, lc as int),
    {
        let lsize = lsizes[ld];
        for lp in 0..lsize
            invariant
                l.framed(),
                r.framed(),
                lsizes@ == l.size_seq(),
                rsizes@ == r.size_seq(),
                ll == l.levels(),
                rl == r.levels(),
                ld < ll,
                lsize == l.size(ld as int),
                rl > 0,
                lc == ll - 1 + rl,
                enumerated(*l, *r, pv(cells), basis, CellPair { left_dim: ld, left_pos: lp, right_dim: 0, right_pos: 0 }, lc as int),
        {
            for rd in 0..rl
                invariant
                    l.framed(),
                    r.framed(),
                    lsizes@ == l.size_seq(),
                    rsizes@ == r.size_seq(),
                    ll == l.levels(),
                    rl == r.levels(),
                    ld < ll,
                    lp < l.size(ld as int),
                    lc == ll - 1 + rl,
                    enumerated(*l, *r, pv(cells), basis, CellPair { left_dim: ld, left_pos: lp, right_dim: rd, right_pos: 0 }, lc as int),
            {
                let rsize = rsizes[rd];
                for rp in 0..rsize
                    invariant
                        l.framed(),
                        r.framed(),
                        ll == l.levels(),
                        rl == r.levels(),
                        ld < ll,
                        lp < l.size(ld as int),
                        rd < rl,
                        rsize == r.size(rd as int),
                        lc == ll - 1 + rl,
                        enumerated(*l, *r, pv(cells), basis, CellPair { left_dim: ld, left_pos: lp, right_dim: rd, right_pos: rp }, lc as int),
                {
                    let c = CellPair { left_dim: ld, left_pos: lp, right_dim: rd, right_pos: rp };
                    let next = CellPair { left_dim: ld, left_pos: lp, right_dim: rd, right_pos: rp + 1 };
                    proof {
                        assert(l.cell(ld as int, lp as int));
                        assert(r.cell(rd as int, rp as int));
                        assert(l.bases_graded());
                        assert(r.bases_graded());
                    }
                    let lb = l.basis_of(ld, lp);
                    let rb = r.basis_of(rd, rp);
                    if intset::is_disjoint(lb.as_slice(), rb.as_slice()) {
                        let u = intset::union(lb, rb);
                        let level = ld + rd;
                        let ghost before = cells;
                        let ghost bbefore = basis;
                        let ghost uv = u@;
                        proof {
                            assert(pair_ok(*l, *r, c));
                        }
                        push_pair(&mut cells, level, c);
                        push_set(&mut basis, level, u);
                        proof {
                            lemma_enum_push(*l, *r, pv(before), bbefore, pv(cells), basis, c, next, lc as int, uv);
                        }
                    } else {
                        proof {
                            assert(!pair_ok(*l, *r, c));
                            lemma_enum_advance(*l, *r, pv(cells), basis, c, next, lc as int);
                        }
                    }
                }
                proof {
                    lemma_enum_advance(*l, *r, pv(cells), basis,
                        CellPair { left_dim: ld, left_pos: lp, right_dim: rd, right_pos: rsize },
                        CellPair { left_dim: ld, left_pos: lp, right_dim: (rd + 1) as usize, right_pos: 0 }, lc as int);
                }
            }
            proof {
                lemma_enum_advance(*l, *r, pv(cells), basis,
                    CellPair { left_dim: ld, left_pos: lp, right_dim: rl, right_pos: 0 },
                    CellPair { left_dim: ld, left_pos: (lp + 1) as usize, right_dim: 0, right_pos: 0 }, lc as int);
            }
        }
        proof {
            lemma_enum_advance(*l, *r, pv(cells), basis,
                CellPair { left_dim: ld, left_pos: lsize, right_dim: 0, right_pos: 0 },
                CellPair { left_dim: (ld + 1) as usize, left_pos: 0, right_dim: 0, right_pos: 0 }, lc as int);
        }
    }
    (cells, basis)
}

fn push_pair(t: &mut Vec<Vec<CellPair>>, d: usize, c: CellPair)
    requires
        d < old(t)@.len(),
    ensures
        pv(*final(t)) == pv(*old(t)).update(d as int, pv(*old(t))[d as int].push(c)),
{
    t[d].push(c);
    proof {
        assert(pv(*t) =~= pv(*old(t)).update(d as int, pv(*old(t))[d as int].push(c)));
    }
}

fn push_set(t: &mut Vec<Vec<IntSet>>, d: usize, u: IntSet)
    requires
        d < old(t)@.len(),
    ensures
        final(t)@.len() == old(t)@.len(),
        forall|e: int| 0 <= e < old(t)@.len() && e != d ==> #[trigger] final(t)@[e] == old(t)@[e],
        final(t)@[d as int]@.len() == old(t)@[d as int]@.len() + 1,
        forall|k: int| 0 <= k < old(t)@[d as int]@.len() ==> #[trigger] entry(*final(t), d as int, k) == entry(*old(t), d as int, k),
        entry(*final(t), d as int, old(t)@[d as int]@.len() as int) == u@,
{
    t[d].push(u);
}

/// Listing the pair at the current position keeps the listing in order.
proof fn lemma_enum_push(
    l: FramedPoset,
    r: FramedPoset,
    cells0: Seq<Seq<CellPair>>,
    basis0: Vec<Vec<IntSet>>,
    cells1: Seq<Seq<CellPair>>,
    basis1: Vec<Vec<IntSet>>,
    c: CellPair,
    next: CellPair,
    lc: int,
    u: Seq<usize>,
)
    requires
        enumerated(l, r, cells0, basis0, c, lc),
        pair_ok(l, r, c),
        pair_level(c) < lc,
        next == (CellPair { right_pos: (c.right_pos + 1) as usize, ..c }),
        c.right_pos + 1 <= usize::MAX,
        cells1 == cells0.update(pair_level(c), cells0[pair_level(c)].push(c)),
        basis1@.len() == basis0@.len(),
        forall|e: int| 0 <= e < basis0@.len() && e != pair_level(c) ==> #[trigger] basis1@[e] == basis0@[e],
        basis1@[pair_level(c)]@.len() == basis0@[pair_level(c)]@.len() + 1,
        forall|k: int| 0 <= k < basis0@[pair_level(c)]@.len() ==> #[trigger] entry(basis1, pair_level(c), k) == entry(basis0, pair_level(c), k),
        entry(basis1, pair_level(c), basis0@[pair_level(c)]@.len() as int) == u,
        pair_basis(l, r, c, u),
    ensures
        enumerated(l, r, cells1, basis1, next, lc),
{
    let lev = pair_level(c);
    assert forall|d: int| 0 <= d < lc implies #[trigger] basis1@[d]@.len() == cells1[d].len() by {
        assert(basis0@[d]@.len() == cells0[d].len());
    }
    assert forall|d: int, k: int| 0 <= d < lc && 0 <= k < cells1[d].len() implies pair_ok(l, r, #[trigger] cells1[d][k])
        && pair_level(cells1[d][k]) == d && pair_lt(cells1[d][k], next) by {
        if d == lev && k == cells0[d].len() {
            assert(cells1[d][k] == c);
        } else {
            assert(cells1[d][k] == cells0[d][k]);
            assert(pair_lt(cells0[d][k], c));
        }
    }
    assert forall|d: int, i: int, j: int| 0 <= d < lc && 0 <= i < j < cells1[d].len() implies pair_lt(
        #[trigger] cells1[d][i],
        #[trigger] cells1[d][j],
    ) by {
        assert(cells1[d][i] == cells0[d][i]);
        if d == lev && j == cells0[d].len() {
            assert(cells1[d][j] == c);
            assert(pair_lt(cells0[d][i], c));
        } else {
            assert(cells1[d][j] == cells0[d][j]);
        }
    }
    assert forall|x: CellPair| #[trigger] pair_ok(l, r, x) && pair_lt(x, next) implies pair_level(x) < lc && cells1[pair_level(x)].contains(x) by {
        if x == c {
            assert(cells1[lev][cells0[lev].len() as int] == c);
        } else {
            assert(pair_lt(x, c));
            assert(cells0[pair_level(x)].contains(x));
            let k = choose|k: int| 0 <= k < cells0[pair_level(x)].len() && cells0[pair_level(x)][k] == x;
            assert(cells1[pair_level(x)][k] == x);
        }
    }
    assert forall|d: int, k: int| 0 <= d < lc && 0 <= k < cells1[d].len() implies pair_basis(l, r, #[trigger] cells1[d][k], entry(basis1, d, k)) by {
        if d == lev && k == cells0[d].len() {
            assert(cells1[d][k] == c);
        } else if d == lev {
            assert(cells1[d][k] == cells0[d][k]);
            assert(entry(basis1, d, k) == entry(basis0, d, k));
        } else {
            assert(cells1[d][k] == cells0[d][k]);
            assert(basis1@[d] == basis0@[d]);
        }
    }
}

/// The face one level down of product cell `c` through the left factor's face `g`.
pub open spec fn left_face(c: CellPair, g: usize) -> CellPair {
    CellPair { left_dim: (c.left_dim - 1) as usize, left_pos: g, ..c }
}

/// The face one level down of product cell `c` through the right factor's face `h`.
pub open spec fn right_face(c: CellPair, h: usize) -> CellPair {
    CellPair { right_dim: (c.right_dim - 1) as usize, right_pos: h, ..c }
}

/// Faces of a factor's cell give faces of the product cell, which are listed.
proof fn lemma_face_pair_listed(l: FramedPoset, r: FramedPoset, cells: Seq<Seq<CellPair>>, s: Sign, c: CellPair, f: CellPair, left: bool)
    requires
        l.framed(),
        r.framed(),
        product_cells(l, r, cells),
        pair_ok(l, r, c),
        left ==> c.left_dim > 0 && l.faces(s, c.left_dim as int, c.left_pos as int).contains(f.left_pos) && f == left_face(c, f.left_pos),
        !left ==> c.right_dim > 0 && r.faces(s, c.right_dim as int, c.right_pos as int).contains(f.right_pos) && f == right_face(c, f.right_pos),
    ensures
        pair_ok(l, r, f),
        pair_level(f) == pair_level(c) - 1,
        cells[pair_level(c) - 1].contains(f),
{
    if left {
        crate::symmetry::lemma_cover_dir(l, s, c.left_dim as int, c.left_pos as int, f.left_pos);
        let lb = l.basis_at(c.left_dim as int, c.left_pos as int);
        let fb = l.basis_at(f.left_dim as int, f.left_pos as int);
        let rb = r.basis_at(c.right_dim as int, c.right_pos as int);
        assert forall|v: usize| !(fb.contains(v) && rb.contains(v)) by {
            if fb.contains(v) {
                assert(lb.contains(v));
            }
        }
    } else {
        crate::symmetry::lemma_cover_dir(r, s, c.right_dim as int, c.right_pos as int, f.right_pos);
        let rb = r.basis_at(c.right_dim as int, c.right_pos as int);
        let fb = r.basis_at(f.right_dim as int, f.right_pos as int);
        let lb = l.basis_at(c.left_dim as int, c.left_pos as int);
        assert forall|v: usize| !(lb.contains(v) && fb.contains(v)) by {
            if fb.contains(v) {
                assert(rb.contains(v));
            }
        }
    }
    assert(pair_ok(l, r, f));
}

/// The signed faces of product cell `c`, at level `d`, as positions one level down.
fn pair_faces(l: &FramedPoset, r: &FramedPoset, cells: &Vec<Vec<CellPair>>, s: Sign, d: usize, c: CellPair) -> (fs: IntSet)
    requires
        l.framed(),
        r.framed(),
        product_cells(*l, *r, pv(*cells)),
        1 <= d < cells@.len(),
        pair_ok(*l, *r, c),
        pair_level(c) == d,
    ensures
        strictly_sorted(fs@),
        forall|f: usize| #[trigger] fs@.contains(f) <==> (f < cells@[d - 1]@.len() && pair_face(*l, *r, s, c, cells@[d - 1]@[f as int])),
{
    let ghost cv = pv(*cells);
    proof {
        assert(cv[d - 1] == cells@[d - 1]@);
    }
    let mut list: Vec<usize> = Vec::new();
    let ghost mut faces_seen: Seq<CellPair> = Seq::empty();
    if c.left_dim > 0 {
        let faces = l.faces_of(s, c.left_dim, c.left_pos);
        for i in 0..faces.len()
            invariant
                l.framed(),
                r.framed(),
                product_cells(*l, *r, cv),
                cv == pv(*cells),
                cv[d - 1] == cells@[d - 1]@,
                1 <= d < cells@.len(),
                pair_ok(*l, *r, c),
                pair_level(c) == d,
                c.left_dim > 0,
                faces@ == l.faces(s, c.left_dim as int, c.left_pos as int),
                list@.len() == i,
                faces_seen.len() == i,
                forall|j: int| 0 <= j < i ==> #[trigger] faces_seen[j] == left_face(c, faces@[j]),
                forall|j: int| 0 <= j < i ==> (#[trigger] list@[j]) < cells@[d - 1]@.len() && cells@[d - 1]@[list@[j] as int] == faces_seen[j],
        {
            let face = CellPair { left_dim: c.left_dim - 1, left_pos: faces[i], ..c };
            proof {
                assert(faces@.contains(faces@[i as int]));
                lemma_face_pair_listed(*l, *r, cv, s, c, face, true);
            }
            let f = find_pair(&cells[d - 1], face);
            list.push(f);
            proof {
                faces_seen = faces_seen.push(face);
            }
        }
    }
    let n1 = list.len();
    let ghost left_seen = faces_seen;
    let ghost lf = l.faces(s, c.left_dim as int, c.left_pos as int);
    let ghost rf = r.faces(s, c.right_dim as int, c.right_pos as int);
    proof {
        assert(n1 == if c.left_dim > 0 { lf.len() } else { 0 });
        assert(forall|j: int| 0 <= j < n1 ==> #[trigger] left_seen[j] == left_face(c, lf[j]));
    }
    if c.right_dim > 0 {
        let faces = r.faces_of(s, c.right_dim, c.right_pos);
        for i in 0..faces.len()
            invariant
                l.framed(),
                r.framed(),
                product_cells(*l, *r, cv),
                cv == pv(*cells),
                cv[d - 1] == cells@[d - 1]@,
                1 <= d < cells@.len(),
                pair_ok(*l, *r, c),
                pair_level(c) == d,
                c.right_dim > 0,
                faces@ == r.faces(s, c.right_dim as int, c.right_pos as int),
                list@.len() == n1 + i,
                faces_seen.len() == n1 + i,
                forall|j: int| 0 <= j < n1 ==> #[trigger] faces_seen[j] == left_seen[j],
                n1 == if c.left_dim > 0 { lf.len() } else { 0 },
                lf == l.faces(s, c.left_dim as int, c.left_pos as int),
                rf == faces@,
                forall|j: int| 0 <= j < n1 ==> #[trigger] left_seen[j] == left_face(c, lf[j]),
                forall|j: int| 0 <= j < i ==> #[trigger] faces_seen[n1 + j] == right_face(c, faces@[j]),
                forall|j: int| 0 <= j < n1 + i ==> (#[trigger] list@[j]) < cells@[d - 1]@.len() && cells@[d - 1]@[list@[j] as int] == faces_seen[j],
        {
            let face = CellPair { right_dim: c.right_dim - 1, right_pos: faces[i], ..c };
            proof {
                assert(faces@.contains(faces@[i as int]));
                lemma_face_pair_listed(*l, *r, cv, s, c, face, false);
            }
            let f = find_pair(&cells[d - 1], face);
            list.push(f);
            proof {
                faces_seen = faces_seen.push(face);
            }
        }
    }
    proof {
        assert(list@.len() == n1 + if c.right_dim > 0 { rf.len() } else { 0 });
        assert(forall|j: int| 0 <= j < n1 ==> #[trigger] faces_seen[j] == left_face(c, lf[j]));
        assert(c.right_dim > 0 ==> forall|j: int| 0 <= j < rf.len() ==> #[trigger] faces_seen[n1 + j] == right_face(c, rf[j]));
    }
    let fs = intset::collect_sorted(list);
    proof {
        assert forall|f: usize| #[trigger] fs@.contains(f) <==> (f < cells@[d - 1]@.len() && pair_face(*l, *r, s, c, cells@[d - 1]@[f as int])) by {
            if fs@.contains(f) {
                assert(list@.contains(f));
                let j = choose|j: int| 0 <= j < list@.len() && list@[j] == f;
                assert(cells@[d - 1]@[f as int] == faces_seen[j]);
                if j < n1 {
                    assert(c.left_dim > 0);
                    assert(faces_seen[j] == left_face(c, lf[j]));
                    assert(lf.contains(lf[j]));
                } else {
                    assert(c.right_dim > 0);
                    assert(faces_seen[n1 + (j - n1)] == right_face(c, rf[j - n1]));
                    assert(rf.contains(rf[j - n1]));
                }
                assert(pair_face(*l, *r, s, c, cells@[d - 1]@[f as int]));
            }
            if f < cells@[d - 1]@.len() && pair_face(*l, *r, s, c, cells@[d - 1]@[f as int]) {
                let x = cells@[d - 1]@[f as int];
                assert(cv[d - 1][f as int] == x);
                if x.right_dim == c.right_dim && x.right_pos == c.right_pos && x.left_dim + 1 == c.left_dim
                    && l.faces(s, c.left_dim as int, c.left_pos as int).contains(x.left_pos) {
                    let fl = l.faces(s, c.left_dim as int, c.left_pos as int);
                    let j = choose|j: int| 0 <= j < fl.len() && fl[j] == x.left_pos;
                    assert(faces_seen[j] == x);
                    let g = list@[j];
                    assert(cells@[d - 1]@[g as int] == x);
                    lemma_row_injective(cv, d - 1, g as int, f as int);
                    assert(list@.contains(f));
                } else {
                    let fr = r.faces(s, c.right_dim as int, c.right_pos as int);
                    let j = choose|j: int| 0 <= j < fr.len() && fr[j] == x.right_pos;
                    assert(faces_seen[n1 + j] == x);
                    let g = list@[n1 + j];
                    assert(cells@[d - 1]@[g as int] == x);
                    lemma_row_injective(cv, d - 1, g as int, f as int);
                    assert(list@.contains(f));
                }
            }
        }
    }
    fs
}

/// In a strictly increasing row, equal entries sit at equal positions.
proof fn lemma_row_injective(cells: Seq<Seq<CellPair>>, d: int, i: int, j: int)
    requires
        0 <= d < cells.len(),
        0 <= i < cells[d].len(),
        0 <= j < cells[d].len(),
        cells[d][i] == cells[d][j],
        forall|e: int, a: int, b: int| 0 <= e < cells.len() && 0 <= a < b < cells[e].len() ==> pair_lt(
            #[trigger] cells[e][a],
            #[trigger] cells[e][b],
        ),
    ensures
        i == j,
{
    if i < j {
        assert(pair_lt(cells[d][i], cells[d][j]));
    } else if j < i {
        assert(pair_lt(cells[d][j], cells[d][i]));
    }
}

/// The complete listing of pairs with their bases, possibly with empty top levels.
pub open spec fn listing(l: FramedPoset, r: FramedPoset, cells: Seq<Seq<CellPair>>, basis: Vec<Vec<IntSet>>) -> bool {
    &&& basis@.len() == cells.len()
    &&& forall|d: int| 0 <= d < cells.len() ==> #[trigger] basis@[d]@.len() == cells[d].len()
    &&& forall|d: int, k: int| 0 <= d < cells.len() && 0 <= k < cells[d].len() ==> pair_ok(l, r, #[trigger] cells[d][k])
        && pair_level(cells[d][k]) == d
    &&& forall|d: int, i: int, j: int| 0 <= d < cells.len() && 0 <= i < j < cells[d].len() ==> pair_lt(
        #[trigger] cells[d][i],
        #[trigger] cells[d][j],
    )
    &&& forall|c: CellPair| #[trigger] pair_ok(l, r, c) ==> pair_level(c) < cells.len() && cells[pair_level(c)].contains(c)
    &&& forall|d: int, k: int| 0 <= d < cells.len() && 0 <= k < cells[d].len() ==> pair_basis(l, r, #[trigger] cells[d][k], entry(basis, d, k))
}

/// Orthogonal product of two oriented framed posets, with the pair of factor
/// cells behind each of its cells.
fn orthogonal_product_data(l: &FramedPoset, r: &FramedPoset) -> (res: (FramedPoset, Vec<Vec<CellPair>>))
    requires
        l.framed(),
        r.framed(),
        crate::poset::dim_fits(l.levels() + r.levels() - 1),
    ensures
        product_of(*l, *r, pv(res.1), res.0),
        res.0.valid(),
        !res.0.normal,
        res.0.levels() == 0 || res.0.levels() <= l.levels() + r.levels() - 1,
{
    if l.basis.len() == 0 || r.basis.len() == 0 {
        let empty = FramedPoset::empty();
        let cells: Vec<Vec<CellPair>> = Vec::new();
        proof {
            assert(pv(cells) =~= Seq::<Seq<CellPair>>::empty());
            assert forall|c: CellPair| #[trigger] pair_ok(*l, *r, c) implies pair_level(c) < pv(cells).len() && pv(cells)[pair_level(c)].contains(c) by {
                assert(l.cell(c.left_dim as int, c.left_pos as int));
                assert(r.cell(c.right_dim as int, c.right_pos as int));
            }
        }
        return (empty, cells);
    }
    let (mut cells, mut basis) = enumerate_pairs(l, r);
    proof {
        let cur = CellPair { left_dim: l.levels() as usize, left_pos: 0, right_dim: 0, right_pos: 0 };
        assert forall|c: CellPair| #[trigger] pair_ok(*l, *r, c) implies pair_level(c) < pv(cells).len() && pv(cells)[pair_level(c)].contains(c) by {
            assert(pair_lt(c, cur));
        }
        assert(listing(*l, *r, pv(cells), basis));
        assert(pv(cells).len() == cells@.len());
    }
    while cells.len() > 0 && cells[cells.len() - 1].len() == 0
        invariant
            listing(*l, *r, pv(cells), basis),
            cells@.len() <= l.levels() + r.levels() - 1,
        decreases cells.len(),
    {
        let ghost before = pv(cells);
        let ghost bbefore = basis;
        cells.pop();
        basis.pop();
        proof {
            assert(pv(cells) =~= before.drop_last());
            assert forall|c: CellPair| #[trigger] pair_ok(*l, *r, c) implies pair_level(c) < pv(cells).len() && pv(cells)[pair_level(c)].contains(c) by {
                assert(before[pair_level(c)].contains(c));
                if pair_level(c) == before.len() - 1 {
                    assert(before[pair_level(c)].len() == 0);
                }
            }
            assert forall|d: int, k: int| 0 <= d < pv(cells).len() && 0 <= k < pv(cells)[d].len() implies pair_basis(*l, *r,
                #[trigger] pv(cells)[d][k], entry(basis, d, k)) by {
                assert(basis@[d] == bbefore@[d]);
                assert(pv(cells)[d] == before[d]);
            }
            assert forall|d: int| 0 <= d < pv(cells).len() implies #[trigger] basis@[d]@.len() == pv(cells)[d].len() by {
                assert(basis@[d] == bbefore@[d]);
                assert(pv(cells)[d] == before[d]);
            }
        }
    }
    let ghost cv = pv(cells);
    proof {
        assert(product_cells(*l, *r, cv)) by {
            if cv.len() > 0 {
                assert(cv[cv.len() - 1] == cells@[cells@.len() - 1]@);
            }
        }
    }
    let levels = cells.len();
    let mut fi: Vec<Vec<IntSet>> = Vec::new();
    let mut fo: Vec<Vec<IntSet>> = Vec::new();
    for d in 0..levels
        invariant
            l.framed(),
            r.framed(),
            cv == pv(cells),
            levels == cells@.len(),
            product_cells(*l, *r, cv),
            listing(*l, *r, cv, basis),
            fi@.len() == d,
            fo@.len() == d,
            forall|e: int| 0 <= e < d ==> #[trigger] fi@[e]@.len() == cv[e].len(),
            forall|e: int| 0 <= e < d ==> #[trigger] fo@[e]@.len() == cv[e].len(),
            forall|e: int, k: int| 0 <= e < d && 0 <= k < cv[e].len() ==> strictly_sorted(#[trigger] entry(fi, e, k)),
            forall|e: int, k: int| 0 <= e < d && 0 <= k < cv[e].len() ==> strictly_sorted(#[trigger] entry(fo, e, k)),
            forall|e: int, k: int, f: usize| 0 <= e < d && 0 <= k < cv[e].len() ==> (#[trigger] entry(fi, e, k).contains(f) <==> (1 <= e
                && f < cv[e - 1].len() && pair_face(*l, *r, Sign::Input, cv[e][k], cv[e - 1][f as int]))),
            forall|e: int, k: int, f: usize| 0 <= e < d && 0 <= k < cv[e].len() ==> (#[trigger] entry(fo, e, k).contains(f) <==> (1 <= e
                && f < cv[e - 1].len() && pair_face(*l, *r, Sign::Output, cv[e][k], cv[e - 1][f as int]))),
    {
        let size = cells[d].len();
        let mut row_in: Vec<IntSet> = Vec::new();
        let mut row_out: Vec<IntSet> = Vec::new();
        for k in 0..size
            invariant
                l.framed(),
                r.framed(),
                cv == pv(cells),
                levels == cells@.len(),
                d < levels,
                size == cv[d as int].len(),
                product_cells(*l, *r, cv),
                row_in@.len() == k,
                row_out@.len() == k,
                forall|q: int| 0 <= q < k ==> strictly_sorted(#[trigger] row_in@[q]@),
                forall|q: int| 0 <= q < k ==> strictly_sorted(#[trigger] row_out@[q]@),
                forall|q: int, f: usize| 0 <= q < k ==> (#[trigger] row_in@[q]@.contains(f) <==> (1 <= d && f < cv[d - 1].len()
                    && pair_face(*l, *r, Sign::Input, cv[d as int][q], cv[d - 1][f as int]))),
                forall|q: int, f: usize| 0 <= q < k ==> (#[trigger] row_out@[q]@.contains(f) <==> (1 <= d && f < cv[d - 1].len()
                    && pair_face(*l, *r, Sign::Output, cv[d as int][q], cv[d - 1][f as int]))),
        {
            let c = cells[d][k];
            proof {
                assert(cv[d as int][k as int] == c);
            }
            if d == 0 {
                row_in.push(Vec::new());
                row_out.push(Vec::new());
            } else {
                proof {
                    assert(cv[d - 1] == cells@[d - 1]@);
                }
                row_in.push(pair_faces(l, r, &cells, Sign::Input, d, c));
                row_out.push(pair_faces(l, r, &cells, Sign::Output, d, c));
            }
        }
        let ghost bi = fi;
        let ghost bo = fo;
        fi.push(row_in);
        fo.push(row_out);
        proof {
            assert forall|e: int| 0 <= e < d + 1 implies #[trigger] fi@[e]@.len() == cv[e].len() by {
                if e < d {
                    assert(fi@[e] == bi@[e]);
                }
            }
            assert forall|e: int| 0 <= e < d + 1 implies #[trigger] fo@[e]@.len() == cv[e].len() by {
                if e < d {
                    assert(fo@[e] == bo@[e]);
                }
            }
            assert forall|e: int, k: int| 0 <= e < d + 1 && 0 <= k < cv[e].len() implies strictly_sorted(#[trigger] entry(fi, e, k)) by {
                if e < d {
                    assert(fi@[e] == bi@[e]);
                    assert(entry(fi, e, k) == entry(bi, e, k));
                } else {
                    assert(entry(fi, e, k) == row_in@[k]@);
                }
            }
            assert forall|e: int, k: int| 0 <= e < d + 1 && 0 <= k < cv[e].len() implies strictly_sorted(#[trigger] entry(fo, e, k)) by {
                if e < d {
                    assert(fo@[e] == bo@[e]);
                    assert(entry(fo, e, k) == entry(bo, e, k));
                } else {
                    assert(entry(fo, e, k) == row_out@[k]@);
                }
            }
            assert forall|e: int, k: int, f: usize| 0 <= e < d + 1 && 0 <= k < cv[e].len() implies (#[trigger] entry(fi, e, k).contains(f) <==> (1
                <= e && f < cv[e - 1].len() && pair_face(*l, *r, Sign::Input, cv[e][k], cv[e - 1][f as int]))) by {
                if e < d {
                    assert(fi@[e] == bi@[e]);
                    assert(entry(fi, e, k) == entry(bi, e, k));
                } else {
                    assert(entry(fi, e, k) == row_in@[k]@);
                }
            }
            assert forall|e: int, k: int, f: usize| 0 <= e < d + 1 && 0 <= k < cv[e].len() implies (#[trigger] entry(fo, e, k).contains(f) <==> (1
                <= e && f < cv[e - 1].len() && pair_face(*l, *r, Sign::Output, cv[e][k], cv[e - 1][f as int]))) by {
                if e < d {
                    assert(fo@[e] == bo@[e]);
                    assert(entry(fo, e, k) == entry(bo, e, k));
                } else {
                    assert(entry(fo, e, k) == row_out@[k]@);
                }
            }
        }
    }
    proof {
        assert(pv(cells).len() == cells@.len());
        lemma_product_tables(*l, *r, cv, basis, fi, fo);
    }
    let shape = FramedPoset::from_faces(basis, fi, fo);
    proof {
        assert forall|d: int| 0 <= d < cv.len() implies #[trigger] shape.size(d) == cv[d].len() by {
            assert(basis@[d]@.len() == cv[d].len());
        }
        assert forall|d: int, k: int| #[trigger] shape.cell(d, k) implies pair_basis(*l, *r, cv[d][k], shape.basis_at(d, k)) by {
            assert(basis@[d]@.len() == cv[d].len());
        }
        assert forall|s: Sign, d: int, k: int| shape.cell(d, k) implies strictly_sorted(#[trigger] shape.faces(s, d, k)) by {
            assert(basis@[d]@.len() == cv[d].len());
            match s {
                Sign::Input => {},
                Sign::Output => {},
            }
        }
        assert forall|s: Sign, d: int, k: int, f: usize| shape.cell(d, k) implies (#[trigger] shape.faces(s, d, k).contains(f) <==> (1 <= d
            && f < cv[d - 1].len() && pair_face(*l, *r, s, cv[d][k], cv[d - 1][f as int]))) by {
            assert(basis@[d]@.len() == cv[d].len());
            match s {
                Sign::Input => {},
                Sign::Output => {},
            }
        }
    }
    (shape, cells)
}

/// The tables built for an orthogonal product define a framed poset.
proof fn lemma_product_tables(
    l: FramedPoset,
    r: FramedPoset,
    cv: Seq<Seq<CellPair>>,
    basis: Vec<Vec<IntSet>>,
    fi: Vec<Vec<IntSet>>,
    fo: Vec<Vec<IntSet>>,
)
    requires
        listing(l, r, cv, basis),
        crate::poset::dim_fits(cv.len() as int),
        fi@.len() == cv.len(),
        fo@.len() == cv.len(),
        forall|e: int| 0 <= e < cv.len() ==> #[trigger] fi@[e]@.len() == cv[e].len(),
        forall|e: int| 0 <= e < cv.len() ==> #[trigger] fo@[e]@.len() == cv[e].len(),
        forall|e: int, k: int| 0 <= e < cv.len() && 0 <= k < cv[e].len() ==> strictly_sorted(#[trigger] entry(fi, e, k)),
        forall|e: int, k: int| 0 <= e < cv.len() && 0 <= k < cv[e].len() ==> strictly_sorted(#[trigger] entry(fo, e, k)),
        forall|e: int, k: int, f: usize| 0 <= e < cv.len() && 0 <= k < cv[e].len() ==> (#[trigger] entry(fi, e, k).contains(f) <==> (1 <= e
            && f < cv[e - 1].len() && pair_face(l, r, Sign::Input, cv[e][k], cv[e - 1][f as int]))),
        forall|e: int, k: int, f: usize| 0 <= e < cv.len() && 0 <= k < cv[e].len() ==> (#[trigger] entry(fo, e, k).contains(f) <==> (1 <= e
            && f < cv[e - 1].len() && pair_face(l, r, Sign::Output, cv[e][k], cv[e - 1][f as int]))),
    ensures
        crate::poset::defining_tables(basis, fi, fo),
        crate::poset::dim_fits(basis@.len() as int),
{
    assert forall|d: int| 0 <= d < basis@.len() implies #[trigger] fi@[d]@.len() == basis@[d]@.len() by {}
    assert forall|d: int| 0 <= d < basis@.len() implies #[trigger] fo@[d]@.len() == basis@[d]@.len() by {}
    assert forall|d: int, p: int| 0 <= d < basis@.len() && 0 <= p < basis@[d]@.len() implies strictly_sorted(#[trigger] entry(basis, d, p)) by {
        assert(pair_basis(l, r, cv[d][p], entry(basis, d, p)));
    }
    assert forall|d: int, p: int, i: int| 0 <= d < fi@.len() && 0 <= p < fi@[d]@.len() && 0 <= i < entry(fi, d, p).len() implies
        #[trigger] entry(fi, d, p)[i] < crate::poset::rows(basis, d - 1) by {
        assert(entry(fi, d, p).contains(entry(fi, d, p)[i]));
    }
    assert forall|d: int, p: int, i: int| 0 <= d < fo@.len() && 0 <= p < fo@[d]@.len() && 0 <= i < entry(fo, d, p).len() implies
        #[trigger] entry(fo, d, p)[i] < crate::poset::rows(basis, d - 1) by {
        assert(entry(fo, d, p).contains(entry(fo, d, p)[i]));
    }
}

/// The orthogonal product of oriented framed posets is an oriented framed poset.
pub proof fn lemma_product_framed(l: FramedPoset, r: FramedPoset, cells: Seq<Seq<CellPair>>, x: FramedPoset)
    requires
        l.framed(),
        r.framed(),
        product_of(l, r, cells, x),
        x.valid(),
    ensures
        x.framed(),
{
    assert forall|d: int, k: int| #[trigger] x.cell(d, k) implies x.basis_at(d, k).len() == d && strictly_sorted(x.basis_at(d, k)) by {
        let c = cells[d][k];
        assert(pair_ok(l, r, c));
        assert(pair_basis(l, r, c, x.basis_at(d, k)));
        let lb = l.basis_at(c.left_dim as int, c.left_pos as int);
        let rb = r.basis_at(c.right_dim as int, c.right_pos as int);
        assert(l.cell(c.left_dim as int, c.left_pos as int));
        assert(r.cell(c.right_dim as int, c.right_pos as int));
        intset::lemma_union_len(lb, rb, x.basis_at(d, k));
    }
    assert forall|d: int, k: int| #[trigger] x.cell(d, k) implies x.cell_sound(d, k) by {
        lemma_product_cell(l, r, cells, x, d, k);
    }
}

proof fn lemma_product_cell(l: FramedPoset, r: FramedPoset, cells: Seq<Seq<CellPair>>, x: FramedPoset, d: int, k: int)
    requires
        l.framed(),
        r.framed(),
        product_of(l, r, cells, x),
        x.valid(),
        x.cell(d, k),
    ensures
        x.cell_sound(d, k),
{
    let c = cells[d][k];
    assert(pair_ok(l, r, c));
    assert(l.cell(c.left_dim as int, c.left_pos as int));
    assert(r.cell(c.right_dim as int, c.right_pos as int));
    assert(l.cell_sound(c.left_dim as int, c.left_pos as int));
    assert(r.cell_sound(c.right_dim as int, c.right_pos as int));
    assert(strictly_sorted(x.faces(Sign::Input, d, k)));
    assert(strictly_sorted(x.faces(Sign::Output, d, k)));
    assert(strictly_sorted(entry(x.cofaces_in, d, k)));
    assert(strictly_sorted(entry(x.cofaces_out, d, k)));
    assert(x.cofaces(Sign::Input, d, k) == entry(x.cofaces_in, d, k));
    assert(x.cofaces(Sign::Output, d, k) == entry(x.cofaces_out, d, k));
    assert(seq_disjoint(x.faces(Sign::Input, d, k), x.faces(Sign::Output, d, k))) by {
        assert forall|f: usize| !(x.faces(Sign::Input, d, k).contains(f) && x.faces(Sign::Output, d, k).contains(f)) by {
            if x.faces(Sign::Input, d, k).contains(f) && x.faces(Sign::Output, d, k).contains(f) {
                let g = cells[d - 1][f as int];
                assert(pair_face(l, r, Sign::Input, c, g));
                assert(pair_face(l, r, Sign::Output, c, g));
                assert(!(l.faces(Sign::Input, c.left_dim as int, c.left_pos as int).contains(g.left_pos)
                    && l.faces(Sign::Output, c.left_dim as int, c.left_pos as int).contains(g.left_pos)));
                assert(!(r.faces(Sign::Input, c.right_dim as int, c.right_pos as int).contains(g.right_pos)
                    && r.faces(Sign::Output, c.right_dim as int, c.right_pos as int).contains(g.right_pos)));
            }
        }
    }
    if d == 0 {
        assert forall|s: Sign| x.faces(s, d, k).len() == 0 by {
            if x.faces(s, d, k).len() > 0 {
                assert(x.faces(s, d, k).contains(x.faces(s, d, k)[0]));
            }
        }
    } else {
        lemma_product_faces_sound(l, r, cells, x, Sign::Input, d, k);
        lemma_product_faces_sound(l, r, cells, x, Sign::Output, d, k);
        lemma_product_frame(l, r, cells, x, d, k);
    }
    crate::ofp::lemma_valid_cofaces_sound(x, Sign::Input, d, k);
    crate::ofp::lemma_valid_cofaces_sound(x, Sign::Output, d, k);
}

proof fn lemma_product_faces_sound(l: FramedPoset, r: FramedPoset, cells: Seq<Seq<CellPair>>, x: FramedPoset, s: Sign, d: int, k: int)
    requires
        l.framed(),
        r.framed(),
        product_of(l, r, cells, x),
        x.valid(),
        x.cell(d, k),
        d >= 1,
    ensures
        x.faces_sound(s, d, k),
{
    let c = cells[d][k];
    let xf = x.faces(s, d, k);
    assert forall|i: int| 0 <= i < xf.len() implies x.face_link(s, d, k, #[trigger] xf[i] as int) by {
        let f = xf[i];
        assert(xf.contains(f));
        let g = cells[d - 1][f as int];
        assert(pair_face(l, r, s, c, g));
        assert(pair_ok(l, r, c));
        assert(x.size(d - 1) == cells[d - 1].len());
        assert(x.cell(d - 1, f as int));
        assert(pair_basis(l, r, g, x.basis_at(d - 1, f as int)));
        assert(pair_basis(l, r, c, x.basis_at(d, k)));
        if g.right_dim == c.right_dim && g.right_pos == c.right_pos && g.left_dim + 1 == c.left_dim
            && l.faces(s, c.left_dim as int, c.left_pos as int).contains(g.left_pos) {
            crate::symmetry::lemma_cover_dir(l, s, c.left_dim as int, c.left_pos as int, g.left_pos);
        } else {
            crate::symmetry::lemma_cover_dir(r, s, c.right_dim as int, c.right_pos as int, g.right_pos);
        }
        assert(seq_subset(x.basis_at(d - 1, f as int), x.basis_at(d, k)));
        crate::ofp::lemma_valid_face_coface(x, s, d, k, f);
    }
}

proof fn lemma_product_frame(l: FramedPoset, r: FramedPoset, cells: Seq<Seq<CellPair>>, x: FramedPoset, d: int, k: int)
    requires
        l.framed(),
        r.framed(),
        product_of(l, r, cells, x),
        x.valid(),
        x.cell(d, k),
        d >= 1,
    ensures
        x.frame_realised(d, k),
{
    let c = cells[d][k];
    assert(pair_ok(l, r, c));
    assert(pair_basis(l, r, c, x.basis_at(d, k)));
    let lb = l.basis_at(c.left_dim as int, c.left_pos as int);
    let rb = r.basis_at(c.right_dim as int, c.right_pos as int);
    assert forall|v: usize| #[trigger] x.basis_at(d, k).contains(v) implies x.direction_realised(d, k, v) by {
        if lb.contains(v) {
            assert(l.cell(c.left_dim as int, c.left_pos as int));
            assert(l.cell_sound(c.left_dim as int, c.left_pos as int));
            if c.left_dim == 0 {
                assert(lb.len() == 0);
            }
            assert(l.frame_realised(c.left_dim as int, c.left_pos as int));
            assert(l.direction_realised(c.left_dim as int, c.left_pos as int, v));
            let lfi = l.faces(Sign::Input, c.left_dim as int, c.left_pos as int);
            let lfo = l.faces(Sign::Output, c.left_dim as int, c.left_pos as int);
            let ld1 = c.left_dim - 1;
            let g = choose|g: usize| #![trigger lfi.contains(g)] (lfi.contains(g) || lfo.contains(g)) && !l.basis_at(ld1, g as int).contains(v);
            let s = if l.faces(Sign::Input, c.left_dim as int, c.left_pos as int).contains(g) { Sign::Input } else { Sign::Output };
            let fp = left_face(c, g);
            lemma_face_pair_listed(l, r, cells, s, c, fp, true);
            let row = cells[d - 1];
            let f = choose|f: int| 0 <= f < row.len() && row[f] == fp;
            assert(pair_face(l, r, s, c, cells[d - 1][f]));
            assert(x.size(d - 1) == cells[d - 1].len());
            assert(x.basis@[d - 1].len() == x.basis@[d - 1]@.len());
            assert((f as usize) as int == f);
            assert(x.faces(s, d, k).contains(f as usize));
            assert(x.cell(d - 1, f));
            assert(pair_basis(l, r, fp, x.basis_at(d - 1, f)));
            assert(!rb.contains(v));
            assert(!x.basis_at(d - 1, f as usize as int).contains(v));
            assert(x.faces(Sign::Input, d, k).contains(f as usize) || x.faces(Sign::Output, d, k).contains(f as usize));
        } else {
            assert(rb.contains(v));
            assert(r.cell(c.right_dim as int, c.right_pos as int));
            assert(r.cell_sound(c.right_dim as int, c.right_pos as int));
            if c.right_dim == 0 {
                assert(rb.len() == 0);
            }
            assert(r.frame_realised(c.right_dim as int, c.right_pos as int));
            assert(r.direction_realised(c.right_dim as int, c.right_pos as int, v));
            let rfi = r.faces(Sign::Input, c.right_dim as int, c.right_pos as int);
            let rfo = r.faces(Sign::Output, c.right_dim as int, c.right_pos as int);
            let rd1 = c.right_dim - 1;
            let h = choose|h: usize| #![trigger rfi.contains(h)] (rfi.contains(h) || rfo.contains(h)) && !r.basis_at(rd1, h as int).contains(v);
            let s = if r.faces(Sign::Input, c.right_dim as int, c.right_pos as int).contains(h) { Sign::Input } else { Sign::Output };
            let fp = right_face(c, h);
            lemma_face_pair_listed(l, r, cells, s, c, fp, false);
            let row = cells[d - 1];
            let f = choose|f: int| 0 <= f < row.len() && row[f] == fp;
            assert(pair_face(l, r, s, c, cells[d - 1][f]));
            assert(x.size(d - 1) == cells[d - 1].len());
            assert(x.basis@[d - 1].len() == x.basis@[d - 1]@.len());
            assert((f as usize) as int == f);
            assert(x.faces(s, d, k).contains(f as usize));
            assert(x.cell(d - 1, f));
            assert(pair_basis(l, r, fp, x.basis_at(d - 1, f)));
            assert(!lb.contains(v));
            assert(!x.basis_at(d - 1, f as usize as int).contains(v));
            assert(x.faces(Sign::Input, d, k).contains(f as usize) || x.faces(Sign::Output, d, k).contains(f as usize));
        }
    }
}

/// `x` is the orthogonal product of `l` and `r`.
pub open spec fn is_orthogonal_product(l: FramedPoset, r: FramedPoset, x: FramedPoset) -> bool {
    exists|cells: Seq<Seq<CellPair>>| product_of(l, r, cells, x)
}

/// The pair with its factors exchanged.
pub open spec fn swapped(c: CellPair) -> CellPair {
    CellPair { left_dim: c.right_dim, left_pos: c.right_pos, right_dim: c.left_dim, right_pos: c.left_pos }
}

/// Form the orthogonal tensor product of two framed posets.
///
/// Its cells are pairs whose bases are disjoint. The basis of a retained pair
/// is the union of the two bases, and a signed cover changes one coordinate
/// along a cover of the same sign in that factor.
pub fn orthogonal_product(left: &FramedPoset, right: &FramedPoset) -> (r: FramedPoset)
    requires
        left.framed(),
        right.framed(),
        crate::poset::dim_fits(left.levels() + right.levels() - 1),
    ensures
        is_orthogonal_product(*left, *right, r),
        r.framed(),
        !r.normal,
{
    let (shape, cells) = orthogonal_product_data(left, right);
    proof {
        lemma_product_framed(*left, *right, pv(cells), shape);
    }
    shape
}

/// Position, in a listing, of a pair that is listed.
fn position_of(l: &FramedPoset, r: &FramedPoset, cells: &Vec<Vec<CellPair>>, c: CellPair) -> (k: usize)
    requires
        product_cells(*l, *r, pv(*cells)),
        pair_ok(*l, *r, c),
    ensures
        pair_level(c) < cells@.len(),
        k < cells@[pair_level(c)]@.len(),
        cells@[pair_level(c)]@[k as int] == c,
{
    let ghost cv = pv(*cells);
    proof {
        assert(pair_level(c) < cv.len());
        assert(cells.len() == cells@.len());
        assert(cv[pair_level(c)] == cells@[pair_level(c)]@);
    }
    find_pair(&cells[c.left_dim + c.right_dim], c)
}

/// The commutativity isomorphism `left * right -> right * left`.
///
/// It maps every retained product cell `(x, y)` to `(y, x)`.
pub fn orthogonal_product_commutator(left: &FramedPoset, right: &FramedPoset) -> (e: Embedding)
    requires
        left.framed(),
        right.framed(),
        crate::poset::dim_fits(left.levels() + right.levels() - 1),
    ensures
        e.dom.framed(),
        e.cod.framed(),
        e.wf(),
        exists|cf: Seq<Seq<CellPair>>, cb: Seq<Seq<CellPair>>| #![trigger product_of(*left, *right, cf, *e.dom), product_of(*right, *left, cb, *e.cod)]
            commutes(*left, *right, cf, cb, e),
        is_orthogonal_product(*left, *right, *e.dom),
        is_orthogonal_product(*right, *left, *e.cod),
{
    let (forward, fcells) = orthogonal_product_data(left, right);
    let (backward, bcells) = orthogonal_product_data(right, left);
    proof {
        lemma_product_framed(*left, *right, pv(fcells), forward);
        lemma_product_framed(*right, *left, pv(bcells), backward);
    }
    let ghost cf = pv(fcells);
    let ghost cb = pv(bcells);
    let n = fcells.len();
    let mut map: Vec<Vec<usize>> = Vec::new();
    for d in 0..n
        invariant
            cf == pv(fcells),
            cb == pv(bcells),
            n == fcells@.len(),
            product_of(*left, *right, cf, forward),
            product_of(*right, *left, cb, backward),
            map@.len() == d,
            forall|e: int| 0 <= e < d ==> #[trigger] map@[e]@.len() == cf[e].len(),
            forall|e: int, k: int| 0 <= e < d && 0 <= k < cf[e].len() ==> #[trigger] at(map, e, k) < cb[e].len()
                && cb[e][at(map, e, k) as int] == swapped(cf[e][k]),
    {
        let size = fcells[d].len();
        let mut row: Vec<usize> = Vec::new();
        for k in 0..size
            invariant
                cf == pv(fcells),
                cb == pv(bcells),
                n == fcells@.len(),
                d < n,
                size == cf[d as int].len(),
                product_of(*left, *right, cf, forward),
                product_of(*right, *left, cb, backward),
                row@.len() == k,
                forall|q: int| 0 <= q < k ==> #[trigger] row@[q] < cb[d as int].len() && cb[d as int][row@[q] as int] == swapped(cf[d as int][q]),
        {
            let c = fcells[d][k];
            proof {
                assert(cf[d as int][k as int] == c);
                assert(pair_ok(*left, *right, c));
            }
            let sw = CellPair { left_dim: c.right_dim, left_pos: c.right_pos, right_dim: c.left_dim, right_pos: c.left_pos };
            proof {
                assert(pair_ok(*right, *left, sw)) by {
                    let a = left.basis_at(c.left_dim as int, c.left_pos as int);
                    let b = right.basis_at(c.right_dim as int, c.right_pos as int);
                    assert forall|v: usize| !(b.contains(v) && a.contains(v)) by {
                        assert(!(a.contains(v) && b.contains(v)));
                    }
                }
            }
            let p = position_of(right, left, &bcells, sw);
            proof {
                assert(cb[d as int] == bcells@[d as int]@);
            }
            row.push(p);
        }
        let ghost before = map;
        map.push(row);
        proof {
            assert forall|e: int| 0 <= e < d + 1 implies #[trigger] map@[e]@.len() == cf[e].len() by {
                if e < d {
                    assert(map@[e] == before@[e]);
                }
            }
            assert forall|e: int, k: int| 0 <= e < d + 1 && 0 <= k < cf[e].len() implies #[trigger] at(map, e, k) < cb[e].len()
                && cb[e][at(map, e, k) as int] == swapped(cf[e][k]) by {
                if e < d {
                    assert(map@[e] == before@[e]);
                    assert(at(map, e, k) == at(before, e, k));
                } else {
                    assert(at(map, e, k) == row@[k]);
                }
            }
        }
    }
    proof {
        lemma_swap_map_ok(*left, *right, cf, cb, forward, backward, map);
    }
    let dom = Arc::new(forward);
    let cod = Arc::new(backward);
    let e = Embedding::from_map(dom, cod, map);
    proof {
        assert(commutes(*left, *right, cf, cb, e));
        assert(product_of(*left, *right, cf, *e.dom));
        assert(product_of(*right, *left, cb, *e.cod));
    }
    e
}

/// `e` sends every product cell `(x, y)` of `left * right` to `(y, x)`.
pub open spec fn commutes(l: FramedPoset, r: FramedPoset, cf: Seq<Seq<CellPair>>, cb: Seq<Seq<CellPair>>, e: Embedding) -> bool {
    &&& product_of(l, r, cf, *e.dom)
    &&& product_of(r, l, cb, *e.cod)
    &&& forall|d: int, k: int| #[trigger] e.dom.cell(d, k) ==> at(e.map, d, k) < cb[d].len() && cb[d][at(e.map, d, k) as int]
        == swapped(cf[d][k])
}

/// The exchange map of a product is an embedding map.
proof fn lemma_swap_map_ok(
    l: FramedPoset,
    r: FramedPoset,
    cf: Seq<Seq<CellPair>>,
    cb: Seq<Seq<CellPair>>,
    dom: FramedPoset,
    cod: FramedPoset,
    map: Vec<Vec<usize>>,
)
    requires
        product_of(l, r, cf, dom),
        product_of(r, l, cb, cod),
        map@.len() == cf.len(),
        forall|e: int| 0 <= e < cf.len() ==> #[trigger] map@[e]@.len() == cf[e].len(),
        forall|e: int, k: int| 0 <= e < cf.len() && 0 <= k < cf[e].len() ==> #[trigger] at(map, e, k) < cb[e].len()
            && cb[e][at(map, e, k) as int] == swapped(cf[e][k]),
    ensures
        crate::embedding::map_ok(&dom, &cod, map),
        forall|d: int, i: int| 0 <= d < map@.len() && 0 <= i < map@[d]@.len() ==> #[trigger] at(map, d, i) < cod.size(d),
{
    assert forall|d: int, i: int| dom.cell(d, i) implies d < cb.len() by {
        let c = cf[d][i];
        assert(pair_ok(l, r, c));
        assert(pair_ok(r, l, swapped(c))) by {
            let a = l.basis_at(c.left_dim as int, c.left_pos as int);
            let b = r.basis_at(c.right_dim as int, c.right_pos as int);
            assert forall|v: usize| !(b.contains(v) && a.contains(v)) by {
                assert(!(a.contains(v) && b.contains(v)));
            }
        }
    }
    assert forall|d: int, i: int| dom.cell(d, i) implies #[trigger] at(map, d, i) < cod.size(d) by {
        assert(d < cb.len());
        assert(at(map, d, i) < cb[d].len());
    }
    assert forall|d: int, i: int, j: int| dom.cell(d, i) && dom.cell(d, j) && i != j implies #[trigger] at(map, d, i) != #[trigger] at(map, d, j) by {
        if at(map, d, i) == at(map, d, j) {
            assert(swapped(cf[d][i]) == swapped(cf[d][j]));
            assert(cf[d][i] == cf[d][j]);
            if i < j {
                assert(pair_lt(cf[d][i], cf[d][j]));
            } else {
                assert(pair_lt(cf[d][j], cf[d][i]));
            }
        }
    }
    assert forall|d: int, i: int| dom.cell(d, i) implies #[trigger] dom.basis_at(d, i) == cod.basis_at(d, at(map, d, i) as int) by {
        let c = cf[d][i];
        let j = at(map, d, i) as int;
        assert(cod.cell(d, j)) by {
            assert(cb[d].len() > 0);
        }
        assert(pair_basis(l, r, c, dom.basis_at(d, i)));
        assert(pair_basis(r, l, cb[d][j], cod.basis_at(d, j)));
        intset::lemma_sorted_same_elements(dom.basis_at(d, i), cod.basis_at(d, j));
    }
    assert forall|d: int, i: int| 0 <= d < map@.len() && 0 <= i < map@[d]@.len() implies #[trigger] at(map, d, i) < cod.size(d) by {
        assert(dom.cell(d, i));
    }
}

/// Exchanging the factors turns faces of a product cell into faces of the
/// exchanged cell.
proof fn lemma_pair_face_swapped(l: FramedPoset, r: FramedPoset, s: Sign, c: CellPair, g: CellPair)
    ensures
        pair_face(l, r, s, c, g) == pair_face(r, l, s, swapped(c), swapped(g)),
        swapped(swapped(c)) == c,
{
}

/// Exchanging the factors keeps pairs of cells with disjoint bases.
proof fn lemma_pair_ok_swapped(l: FramedPoset, r: FramedPoset, c: CellPair)
    requires
        pair_ok(l, r, c),
    ensures
        pair_ok(r, l, swapped(c)),
{
    let a = l.basis_at(c.left_dim as int, c.left_pos as int);
    let b = r.basis_at(c.right_dim as int, c.right_pos as int);
    assert forall|v: usize| !(b.contains(v) && a.contains(v)) by {
        assert(!(a.contains(v) && b.contains(v)));
    }
}

/// The commutativity map of an orthogonal product is an isomorphism: it is
/// onto, and the signed faces of every image cell are the images of the
/// signed faces.
pub proof fn law_commutator_isomorphism(l: FramedPoset, r: FramedPoset, cf: Seq<Seq<CellPair>>, cb: Seq<Seq<CellPair>>, e: Embedding)
    requires
        commutes(l, r, cf, cb, e),
        e.wf(),
    ensures
        e.surjective(),
        e.closed(),
{
    assert forall|d: int, j: int| 0 <= d < e.inv@.len() && 0 <= j < e.inv@[d]@.len() implies #[trigger] at(e.inv, d, j) != crate::embedding::NO_PREIMAGE by {
        assert(e.cod.cell(d, j));
        let y = cb[d][j];
        assert(pair_ok(r, l, y));
        lemma_pair_ok_swapped(r, l, y);
        lemma_pair_face_swapped(l, r, Sign::Input, swapped(y), swapped(y));
        let x = swapped(y);
        assert(cf[pair_level(x)].contains(x));
        let row = cf[d];
        let k = choose|k: int| 0 <= k < row.len() && row[k] == x;
        assert(e.dom.cell(d, k));
        let j2 = at(e.map, d, k) as int;
        assert(cb[d][j2] == swapped(x));
        lemma_row_injective(cb, d, j2, j);
        assert(at(e.inv, d, j2) == k);
        assert(e.dom.basis@[d].len() == e.dom.basis@[d]@.len());
    }
    assert forall|s: Sign, d: int, i: int| 1 <= d && e.dom.cell(d, i) implies same_elements(
        #[trigger] e.cod.faces(s, d, at(e.map, d, i) as int),
        e.image_faces(s, d, i),
    ) by {
        let c = cf[d][i];
        let j = at(e.map, d, i) as int;
        assert(cb[d][j] == swapped(c));
        assert(e.cod.cell(d, j));
        let df = e.dom.faces(s, d, i);
        let img = e.image_faces(s, d, i);
        assert forall|y: usize| e.cod.faces(s, d, j).contains(y) <==> img.contains(y) by {
            if img.contains(y) {
                let q = choose|q: int| 0 <= q < img.len() && img[q] == y;
                let f = df[q];
                assert(df.contains(f));
                assert(pair_face(l, r, s, c, cf[d - 1][f as int]));
                assert(e.dom.cell(d - 1, f as int));
                assert(cb[d - 1][y as int] == swapped(cf[d - 1][f as int]));
                lemma_pair_face_swapped(l, r, s, c, cf[d - 1][f as int]);
                assert(e.cod.cell(d - 1, y as int));
            }
            if e.cod.faces(s, d, j).contains(y) {
                let g = cb[d - 1][y as int];
                assert(pair_face(r, l, s, swapped(c), g));
                assert(e.cod.cell(d - 1, y as int));
                assert(pair_ok(r, l, g));
                lemma_pair_ok_swapped(r, l, g);
                let x = swapped(g);
                lemma_pair_face_swapped(l, r, s, c, x);
                lemma_pair_face_swapped(r, l, s, g, g);
                assert(cf[pair_level(x)].contains(x));
                let row = cf[d - 1];
                let f = choose|f: int| 0 <= f < row.len() && row[f] == x;
                assert(e.dom.cell(d - 1, f));
                assert(e.dom.basis@[d - 1].len() == e.dom.basis@[d - 1]@.len());
                assert((f as usize) as int == f);
                assert(df.contains(f as usize));
                let y2 = at(e.map, d - 1, f) as int;
                assert(cb[d - 1][y2] == swapped(x));
                lemma_row_injective(cb, d - 1, y2, y as int);
                let q = choose|q: int| 0 <= q < df.len() && df[q] == f as usize;
                assert(img[q] == y);
            }
        }
    }
}

/// `e` sends every cell `(x, y)` of `ld * rd` to `(f(x), g(y))` in `lc * rc`.
pub open spec fn maps_pairs(f: Embedding, g: Embedding, cs: Seq<Seq<CellPair>>, ct: Seq<Seq<CellPair>>, e: Embedding) -> bool {
    &&& product_of(*f.dom, *g.dom, cs, *e.dom)
    &&& product_of(*f.cod, *g.cod, ct, *e.cod)
    &&& forall|d: int, k: int| #[trigger] e.dom.cell(d, k) ==> at(e.map, d, k) < ct[d].len() && ct[d][at(e.map, d, k) as int] == (
        CellPair {
            left_dim: cs[d][k].left_dim,
            left_pos: at(f.map, cs[d][k].left_dim as int, cs[d][k].left_pos as int),
            right_dim: cs[d][k].right_dim,
            right_pos: at(g.map, cs[d][k].right_dim as int, cs[d][k].right_pos as int),
        })
}

/// Form the orthogonal product of two embeddings.
///
/// It maps every retained product cell `(x, y)` to `(left(x), right(y))`.
pub fn orthogonal_product_embedding(left: &Embedding, right: &Embedding) -> (e: Embedding)
    requires
        left.dom.framed(),
        left.cod.framed(),
        right.dom.framed(),
        right.cod.framed(),
        left.wf(),
        right.wf(),
        crate::poset::dim_fits(left.dom.levels() + right.dom.levels() - 1),
        crate::poset::dim_fits(left.cod.levels() + right.cod.levels() - 1),
    ensures
        e.dom.framed(),
        e.cod.framed(),
        e.wf(),
        exists|cs: Seq<Seq<CellPair>>, ct: Seq<Seq<CellPair>>| #![trigger product_of(*left.dom, *right.dom, cs, *e.dom), product_of(*left.cod, *right.cod, ct, *e.cod)]
            maps_pairs(*left, *right, cs, ct, e),
        is_orthogonal_product(*left.dom, *right.dom, *e.dom),
        is_orthogonal_product(*left.cod, *right.cod, *e.cod),
{
    let ld: &FramedPoset = &left.dom;
    let rd: &FramedPoset = &right.dom;
    let lc: &FramedPoset = &left.cod;
    let rc: &FramedPoset = &right.cod;
    let (source, scells) = orthogonal_product_data(ld, rd);
    let (target, tcells) = orthogonal_product_data(lc, rc);
    proof {
        lemma_product_framed(*ld, *rd, pv(scells), source);
        lemma_product_framed(*lc, *rc, pv(tcells), target);
    }
    let ghost cs = pv(scells);
    let ghost ct = pv(tcells);
    let n = scells.len();
    let mut map: Vec<Vec<usize>> = Vec::new();
    for d in 0..n
        invariant
            cs == pv(scells),
            ct == pv(tcells),
            n == scells@.len(),
            left.wf(),
            right.wf(),
            product_of(*left.dom, *right.dom, cs, source),
            product_of(*left.cod, *right.cod, ct, target),
            map@.len() == d,
            forall|e: int| 0 <= e < d ==> #[trigger] map@[e]@.len() == cs[e].len(),
            forall|e: int, k: int| 0 <= e < d && 0 <= k < cs[e].len() ==> #[trigger] at(map, e, k) < ct[e].len()
                && ct[e][at(map, e, k) as int] == image_pair(*left, *right, cs[e][k]),
    {
        let size = scells[d].len();
        let mut row: Vec<usize> = Vec::new();
        for k in 0..size
            invariant
                cs == pv(scells),
                ct == pv(tcells),
                n == scells@.len(),
                d < n,
                size == cs[d as int].len(),
                left.wf(),
                right.wf(),
                product_of(*left.dom, *right.dom, cs, source),
                product_of(*left.cod, *right.cod, ct, target),
                row@.len() == k,
                forall|q: int| 0 <= q < k ==> #[trigger] row@[q] < ct[d as int].len() && ct[d as int][row@[q] as int] == image_pair(*left, *right, cs[d as int][q]),
        {
            let c = scells[d][k];
            proof {
                assert(cs[d as int][k as int] == c);
                assert(pair_ok(*left.dom, *right.dom, c));
                assert(left.dom.cell(c.left_dim as int, c.left_pos as int));
                assert(right.dom.cell(c.right_dim as int, c.right_pos as int));
            }
            let image = CellPair {
                left_dim: c.left_dim,
                left_pos: left.map[c.left_dim][c.left_pos],
                right_dim: c.right_dim,
                right_pos: right.map[c.right_dim][c.right_pos],
            };
            proof {
                assert(image == image_pair(*left, *right, c));
                lemma_image_pair_ok(*left, *right, c);
                assert(ct.len() == tcells@.len());
            }
            let p = position_of(&left.cod, &right.cod, &tcells, image);
            proof {
                assert(ct[d as int] == tcells@[d as int]@);
            }
            row.push(p);
        }
        let ghost before = map;
        map.push(row);
        proof {
            assert forall|e: int| 0 <= e < d + 1 implies #[trigger] map@[e]@.len() == cs[e].len() by {
                if e < d {
                    assert(map@[e] == before@[e]);
                }
            }
            assert forall|e: int, k: int| 0 <= e < d + 1 && 0 <= k < cs[e].len() implies #[trigger] at(map, e, k) < ct[e].len()
                && ct[e][at(map, e, k) as int] == image_pair(*left, *right, cs[e][k]) by {
                if e < d {
                    assert(map@[e] == before@[e]);
                    assert(at(map, e, k) == at(before, e, k));
                } else {
                    assert(at(map, e, k) == row@[k]);
                }
            }
        }
    }
    proof {
        lemma_image_map_ok(*left, *right, cs, ct, source, target, map);
    }
    let e = Embedding::from_map(Arc::new(source), Arc::new(target), map);
    proof {
        assert(maps_pairs(*left, *right, cs, ct, e));
        assert(product_of(*left.dom, *right.dom, cs, *e.dom));
        assert(product_of(*left.cod, *right.cod, ct, *e.cod));
    }
    e
}

/// The image of a product cell under two embeddings.
pub open spec fn image_pair(f: Embedding, g: Embedding, c: CellPair) -> CellPair {
    CellPair {
        left_dim: c.left_dim,
        left_pos: at(f.map, c.left_dim as int, c.left_pos as int),
        right_dim: c.right_dim,
        right_pos: at(g.map, c.right_dim as int, c.right_pos as int),
    }
}

proof fn lemma_image_pair_ok(f: Embedding, g: Embedding, c: CellPair)
    requires
        f.wf(),
        g.wf(),
        pair_ok(*f.dom, *g.dom, c),
    ensures
        pair_ok(*f.cod, *g.cod, image_pair(f, g, c)),
        pair_level(image_pair(f, g, c)) == pair_level(c),
{
    assert(f.dom.basis_at(c.left_dim as int, c.left_pos as int) == f.cod.basis_at(c.left_dim as int, at(f.map, c.left_dim as int, c.left_pos as int) as int));
    assert(g.dom.basis_at(c.right_dim as int, c.right_pos as int) == g.cod.basis_at(c.right_dim as int, at(g.map, c.right_dim as int, c.right_pos as int) as int));
}

proof fn lemma_image_map_ok(
    f: Embedding,
    g: Embedding,
    cs: Seq<Seq<CellPair>>,
    ct: Seq<Seq<CellPair>>,
    dom: FramedPoset,
    cod: FramedPoset,
    map: Vec<Vec<usize>>,
)
    requires
        f.wf(),
        g.wf(),
        product_of(*f.dom, *g.dom, cs, dom),
        product_of(*f.cod, *g.cod, ct, cod),
        map@.len() == cs.len(),
        forall|e: int| 0 <= e < cs.len() ==> #[trigger] map@[e]@.len() == cs[e].len(),
        forall|e: int, k: int| 0 <= e < cs.len() && 0 <= k < cs[e].len() ==> #[trigger] at(map, e, k) < ct[e].len()
            && ct[e][at(map, e, k) as int] == image_pair(f, g, cs[e][k]),
    ensures
        crate::embedding::map_ok(&dom, &cod, map),
        forall|d: int, i: int| 0 <= d < map@.len() && 0 <= i < map@[d]@.len() ==> #[trigger] at(map, d, i) < cod.size(d),
{
    assert forall|d: int, i: int| dom.cell(d, i) implies d < ct.len() by {
        lemma_image_pair_ok(f, g, cs[d][i]);
    }
    assert forall|d: int, i: int| dom.cell(d, i) implies #[trigger] at(map, d, i) < cod.size(d) by {
        assert(d < ct.len());
    }
    assert forall|d: int, i: int, j: int| dom.cell(d, i) && dom.cell(d, j) && i != j implies #[trigger] at(map, d, i) != #[trigger] at(map, d, j) by {
        if at(map, d, i) == at(map, d, j) {
            let a = cs[d][i];
            let b = cs[d][j];
            assert(image_pair(f, g, a) == image_pair(f, g, b));
            assert(pair_ok(*f.dom, *g.dom, a));
            assert(pair_ok(*f.dom, *g.dom, b));
            assert(a.left_dim == b.left_dim && a.right_dim == b.right_dim);
            assert(f.dom.cell(a.left_dim as int, a.left_pos as int));
            assert(f.dom.cell(a.left_dim as int, b.left_pos as int));
            assert(g.dom.cell(a.right_dim as int, a.right_pos as int));
            assert(g.dom.cell(a.right_dim as int, b.right_pos as int));
            if a.left_pos != b.left_pos {
                assert(at(f.map, a.left_dim as int, a.left_pos as int) != at(f.map, a.left_dim as int, b.left_pos as int));
            }
            if a.right_pos != b.right_pos {
                assert(at(g.map, a.right_dim as int, a.right_pos as int) != at(g.map, a.right_dim as int, b.right_pos as int));
            }
            assert(a == b);
            lemma_row_injective(cs, d, i, j);
        }
    }
    assert forall|d: int, i: int| dom.cell(d, i) implies #[trigger] dom.basis_at(d, i) == cod.basis_at(d, at(map, d, i) as int) by {
        let c = cs[d][i];
        let j = at(map, d, i) as int;
        assert(d < ct.len());
        assert(cod.cell(d, j));
        assert(pair_ok(*f.dom, *g.dom, c));
        lemma_image_pair_ok(f, g, c);
        assert(pair_basis(*f.dom, *g.dom, c, dom.basis_at(d, i)));
        assert(pair_basis(*f.cod, *g.cod, ct[d][j], cod.basis_at(d, j)));
        assert(f.dom.basis_at(c.left_dim as int, c.left_pos as int) == f.cod.basis_at(c.left_dim as int, at(f.map, c.left_dim as int, c.left_pos as int) as int));
        assert(g.dom.basis_at(c.right_dim as int, c.right_pos as int) == g.cod.basis_at(c.right_dim as int, at(g.map, c.right_dim as int, c.right_pos as int) as int));
        intset::lemma_sorted_same_elements(dom.basis_at(d, i), cod.basis_at(d, j));
    }
    assert forall|d: int, i: int| 0 <= d < map@.len() && 0 <= i < map@[d]@.len() implies #[trigger] at(map, d, i) < cod.size(d) by {
        assert(dom.cell(d, i));
    }
}


/// `t`, a cell of `l * (m * r)`, is the reassociation of the cell `c` of
/// `(l * m) * r`: from `((x, y), z)` to `(x, (y, z))`.
pub open spec fn reassociates(clm: Seq<Seq<CellPair>>, cmr: Seq<Seq<CellPair>>, c: CellPair, t: CellPair) -> bool {
    let xy = clm[c.left_dim as int][c.left_pos as int];
    &&& t.left_dim == xy.left_dim
    &&& t.left_pos == xy.left_pos
    &&& cmr[t.right_dim as int][t.right_pos as int] == (CellPair {
        left_dim: xy.right_dim,
        left_pos: xy.right_pos,
        right_dim: c.right_dim,
        right_pos: c.right_pos,
    })
}

/// `e` is the associativity map `(l * m) * r -> l * (m * r)`, with `lm` and
/// `mr` the inner products listed by `clm` and `cmr`.
pub open spec fn associates(
    l: FramedPoset,
    m: FramedPoset,
    r: FramedPoset,
    lm: FramedPoset,
    mr: FramedPoset,
    clm: Seq<Seq<CellPair>>,
    cmr: Seq<Seq<CellPair>>,
    cs: Seq<Seq<CellPair>>,
    ct: Seq<Seq<CellPair>>,
    e: Embedding,
) -> bool {
    &&& product_of(l, m, clm, lm)
    &&& product_of(m, r, cmr, mr)
    &&& product_of(lm, r, cs, *e.dom)
    &&& product_of(l, mr, ct, *e.cod)
    &&& forall|d: int, k: int| #[trigger] e.dom.cell(d, k) ==> at(e.map, d, k) < ct[d].len() && reassociates(
        clm,
        cmr,
        cs[d][k],
        ct[d][at(e.map, d, k) as int],
    )
}

/// A cell listed in a product, with the levels and sizes that the product's
/// listing gives it.
proof fn lemma_listed_cell(l: FramedPoset, r: FramedPoset, cells: Seq<Seq<CellPair>>, x: FramedPoset, d: int, k: int)
    requires
        product_of(l, r, cells, x),
        x.cell(d, k),
    ensures
        0 <= d < cells.len(),
        0 <= k < cells[d].len(),
        pair_ok(l, r, cells[d][k]),
        pair_level(cells[d][k]) == d,
        pair_basis(l, r, cells[d][k], x.basis_at(d, k)),
{
}

/// A listed pair is a cell of the product.
proof fn lemma_pair_cell(l: FramedPoset, r: FramedPoset, cells: Seq<Seq<CellPair>>, x: FramedPoset, d: int, k: int)
    requires
        product_of(l, r, cells, x),
        0 <= d < cells.len(),
        0 <= k < cells[d].len(),
    ensures
        x.cell(d, k),
{
    assert(x.size(d) == cells[d].len());
}

/// The reassociation of a cell of `(l * m) * r` names a cell of `m * r` and
/// a cell of `l * (m * r)`.
proof fn lemma_reassociate_ok(
    l: FramedPoset,
    m: FramedPoset,
    r: FramedPoset,
    lm: FramedPoset,
    mr: FramedPoset,
    clm: Seq<Seq<CellPair>>,
    cmr: Seq<Seq<CellPair>>,
    c: CellPair,
    yz: CellPair,
    t: CellPair,
)
    requires
        product_of(l, m, clm, lm),
        product_of(m, r, cmr, mr),
        pair_ok(lm, r, c),
        yz == (CellPair {
            left_dim: clm[c.left_dim as int][c.left_pos as int].right_dim,
            left_pos: clm[c.left_dim as int][c.left_pos as int].right_pos,
            right_dim: c.right_dim,
            right_pos: c.right_pos,
        }),
    ensures
        pair_ok(l, m, clm[c.left_dim as int][c.left_pos as int]),
        pair_level(clm[c.left_dim as int][c.left_pos as int]) == c.left_dim,
        pair_ok(m, r, yz),
        (t.left_dim == clm[c.left_dim as int][c.left_pos as int].left_dim && t.left_pos == clm[c.left_dim as int][c.left_pos as int].left_pos
            && t.right_dim == pair_level(yz) && t.right_pos < cmr[pair_level(yz)].len() && cmr[pair_level(yz)][t.right_pos as int] == yz)
            ==> pair_ok(l, mr, t),
{
    let xy = clm[c.left_dim as int][c.left_pos as int];
    lemma_listed_cell(l, m, clm, lm, c.left_dim as int, c.left_pos as int);
    let bxy = lm.basis_at(c.left_dim as int, c.left_pos as int);
    let bx = l.basis_at(xy.left_dim as int, xy.left_pos as int);
    let by = m.basis_at(xy.right_dim as int, xy.right_pos as int);
    let bz = r.basis_at(c.right_dim as int, c.right_pos as int);
    assert forall|v: usize| !(by.contains(v) && bz.contains(v)) by {
        if by.contains(v) {
            assert(bxy.contains(v));
        }
    }
    assert(pair_ok(m, r, yz));
    let q = t.right_pos as int;
    if t.right_dim == pair_level(yz) && q < cmr[pair_level(yz)].len() && cmr[pair_level(yz)][q] == yz {
        assert(pair_level(yz) < cmr.len());
        lemma_pair_cell(m, r, cmr, mr, pair_level(yz), q);
        lemma_listed_cell(m, r, cmr, mr, pair_level(yz), q);
        let byz = mr.basis_at(pair_level(yz), q);
        assert forall|v: usize| !(bx.contains(v) && byz.contains(v)) by {
            if bx.contains(v) {
                assert(bxy.contains(v));
                assert(!by.contains(v));
            }
        }
    }
}

/// The associativity isomorphism `(left * middle) * right -> left * (middle * right)`.
///
/// It maps every retained product cell `((x, y), z)` to `(x, (y, z))`.
pub fn orthogonal_product_associator(left: &FramedPoset, middle: &FramedPoset, right: &FramedPoset) -> (e: Embedding)
    requires
        left.framed(),
        middle.framed(),
        right.framed(),
        crate::poset::dim_fits(left.levels() + middle.levels() + right.levels() - 1),
    ensures
        e.dom.framed(),
        e.cod.framed(),
        e.wf(),
        exists|lm: FramedPoset, mr: FramedPoset, clm: Seq<Seq<CellPair>>, cmr: Seq<Seq<CellPair>>, cs: Seq<Seq<CellPair>>, ct: Seq<Seq<CellPair>>|
            #![trigger product_of(*left, *middle, clm, lm), product_of(*middle, *right, cmr, mr), product_of(lm, *right, cs, *e.dom), product_of(*left, mr, ct, *e.cod)]
            associates(*left, *middle, *right, lm, mr, clm, cmr, cs, ct, e),
        exists|lm: FramedPoset| #[trigger] is_orthogonal_product(*left, *middle, lm) && is_orthogonal_product(lm, *right, *e.dom),
        exists|mr: FramedPoset| #[trigger] is_orthogonal_product(*middle, *right, mr) && is_orthogonal_product(*left, mr, *e.cod),
{
    let (lm, lmcells) = orthogonal_product_data(left, middle);
    let (mr, mrcells) = orthogonal_product_data(middle, right);
    proof {
        lemma_product_framed(*left, *middle, pv(lmcells), lm);
        lemma_product_framed(*middle, *right, pv(mrcells), mr);
    }
    let (source, scells) = orthogonal_product_data(&lm, right);
    let (target, tcells) = orthogonal_product_data(left, &mr);
    proof {
        lemma_product_framed(lm, *right, pv(scells), source);
        lemma_product_framed(*left, mr, pv(tcells), target);
    }
    let ghost clm = pv(lmcells);
    let ghost cmr = pv(mrcells);
    let ghost cs = pv(scells);
    let ghost ct = pv(tcells);
    let n = scells.len();
    let mut map: Vec<Vec<usize>> = Vec::new();
    for d in 0..n
        invariant
            clm == pv(lmcells),
            cmr == pv(mrcells),
            cs == pv(scells),
            ct == pv(tcells),
            n == scells@.len(),
            product_of(*left, *middle, clm, lm),
            product_of(*middle, *right, cmr, mr),
            product_of(lm, *right, cs, source),
            product_of(*left, mr, ct, target),
            map@.len() == d,
            forall|e: int| 0 <= e < d ==> #[trigger] map@[e]@.len() == cs[e].len(),
            forall|e: int, k: int| 0 <= e < d && 0 <= k < cs[e].len() ==> #[trigger] at(map, e, k) < ct[e].len()
                && reassociates(clm, cmr, cs[e][k], ct[e][at(map, e, k) as int]),
    {
        let size = scells[d].len();
        let mut row: Vec<usize> = Vec::new();
        for k in 0..size
            invariant
                clm == pv(lmcells),
                cmr == pv(mrcells),
                cs == pv(scells),
                ct == pv(tcells),
                n == scells@.len(),
                d < n,
                size == cs[d as int].len(),
                product_of(*left, *middle, clm, lm),
                product_of(*middle, *right, cmr, mr),
                product_of(lm, *right, cs, source),
                product_of(*left, mr, ct, target),
                row@.len() == k,
                forall|q: int| 0 <= q < k ==> #[trigger] row@[q] < ct[d as int].len() && reassociates(
                    clm,
                    cmr,
                    cs[d as int][q],
                    ct[d as int][row@[q] as int],
                ),
        {
            let c = scells[d][k];
            proof {
                assert(cs[d as int][k as int] == c);
                assert(pair_ok(lm, *right, c));
                lemma_listed_cell(*left, *middle, clm, lm, c.left_dim as int, c.left_pos as int);
                assert(lmcells.len() == lmcells@.len());
                assert(clm[c.left_dim as int] == lmcells@[c.left_dim as int]@);
            }
            let xy = lmcells[c.left_dim][c.left_pos];
            let yz = CellPair { left_dim: xy.right_dim, left_pos: xy.right_pos, right_dim: c.right_dim, right_pos: c.right_pos };
            proof {
                lemma_reassociate_ok(*left, *middle, *right, lm, mr, clm, cmr, c, yz, xy);
            }
            let q = position_of(middle, right, &mrcells, yz);
            let t = CellPair { left_dim: xy.left_dim, left_pos: xy.left_pos, right_dim: xy.right_dim + c.right_dim, right_pos: q };
            proof {
                assert(cmr[pair_level(yz)] == mrcells@[pair_level(yz)]@);
                lemma_reassociate_ok(*left, *middle, *right, lm, mr, clm, cmr, c, yz, t);
            }
            let p = position_of(left, &mr, &tcells, t);
            proof {
                assert(ct[d as int] == tcells@[d as int]@);
                assert(reassociates(clm, cmr, c, t));
            }
            row.push(p);
        }
        let ghost before = map;
        map.push(row);
        proof {
            assert forall|e: int| 0 <= e < d + 1 implies #[trigger] map@[e]@.len() == cs[e].len() by {
                if e < d {
                    assert(map@[e] == before@[e]);
                }
            }
            assert forall|e: int, k: int| 0 <= e < d + 1 && 0 <= k < cs[e].len() implies #[trigger] at(map, e, k) < ct[e].len()
                && reassociates(clm, cmr, cs[e][k], ct[e][at(map, e, k) as int]) by {
                if e < d {
                    assert(map@[e] == before@[e]);
                    assert(at(map, e, k) == at(before, e, k));
                } else {
                    assert(at(map, e, k) == row@[k]);
                }
            }
        }
    }
    proof {
        lemma_assoc_map_ok(*left, *middle, *right, lm, mr, clm, cmr, cs, ct, source, target, map);
    }
    let e = Embedding::from_map(Arc::new(source), Arc::new(target), map);
    proof {
        assert(associates(*left, *middle, *right, lm, mr, clm, cmr, cs, ct, e));
        assert(product_of(*left, *middle, clm, lm));
        assert(product_of(lm, *right, cs, *e.dom));
        assert(product_of(*middle, *right, cmr, mr));
        assert(product_of(*left, mr, ct, *e.cod));
        assert(is_orthogonal_product(*left, *middle, lm));
        assert(is_orthogonal_product(*middle, *right, mr));
    }
    e
}

spec fn t_of(xy: CellPair, yz: CellPair, q: usize) -> CellPair {
    CellPair { left_dim: xy.left_dim, left_pos: xy.left_pos, right_dim: (xy.right_dim + yz.right_dim) as usize, right_pos: q }
}

/// The reassociation map of a triple product is an embedding map.
proof fn lemma_assoc_map_ok(
    l: FramedPoset,
    m: FramedPoset,
    r: FramedPoset,
    lm: FramedPoset,
    mr: FramedPoset,
    clm: Seq<Seq<CellPair>>,
    cmr: Seq<Seq<CellPair>>,
    cs: Seq<Seq<CellPair>>,
    ct: Seq<Seq<CellPair>>,
    dom: FramedPoset,
    cod: FramedPoset,
    map: Vec<Vec<usize>>,
)
    requires
        product_of(l, m, clm, lm),
        product_of(m, r, cmr, mr),
        product_of(lm, r, cs, dom),
        product_of(l, mr, ct, cod),
        map@.len() == cs.len(),
        forall|e: int| 0 <= e < cs.len() ==> #[trigger] map@[e]@.len() == cs[e].len(),
        forall|e: int, k: int| 0 <= e < cs.len() && 0 <= k < cs[e].len() ==> #[trigger] at(map, e, k) < ct[e].len()
            && reassociates(clm, cmr, cs[e][k], ct[e][at(map, e, k) as int]),
    ensures
        crate::embedding::map_ok(&dom, &cod, map),
        forall|d: int, i: int| 0 <= d < map@.len() && 0 <= i < map@[d]@.len() ==> #[trigger] at(map, d, i) < cod.size(d),
{
    assert forall|d: int, i: int| dom.cell(d, i) implies d < ct.len() && #[trigger] at(map, d, i) < cod.size(d) by {
        lemma_listed_cell(lm, r, cs, dom, d, i);
        let c = cs[d][i];
        lemma_listed_cell(l, m, clm, lm, c.left_dim as int, c.left_pos as int);
        let xy = clm[c.left_dim as int][c.left_pos as int];
        let yz = CellPair { left_dim: xy.right_dim, left_pos: xy.right_pos, right_dim: c.right_dim, right_pos: c.right_pos };
        let t0 = t_of(xy, yz, 0);
        lemma_reassociate_ok(l, m, r, lm, mr, clm, cmr, c, yz, t0);
        assert(pair_level(yz) < cmr.len());
        let row = cmr[pair_level(yz)];
        let q = choose|q: int| 0 <= q < row.len() && row[q] == yz;
        lemma_pair_cell(m, r, cmr, mr, pair_level(yz), q);
        assert(mr.basis@.len() == mr.basis.len());
        assert(mr.basis@[pair_level(yz)].len() == mr.basis@[pair_level(yz)]@.len());
        let t = t_of(xy, yz, q as usize);
        lemma_reassociate_ok(l, m, r, lm, mr, clm, cmr, c, yz, t);
        assert(pair_ok(l, mr, t));
        assert(pair_level(t) < ct.len());
    }
    assert forall|d: int, i: int, j: int| dom.cell(d, i) && dom.cell(d, j) && i != j implies #[trigger] at(map, d, i) != #[trigger] at(map, d, j) by {
        if at(map, d, i) == at(map, d, j) {
            lemma_listed_cell(lm, r, cs, dom, d, i);
            lemma_listed_cell(lm, r, cs, dom, d, j);
            let a = cs[d][i];
            let b = cs[d][j];
            let t = ct[d][at(map, d, i) as int];
            assert(reassociates(clm, cmr, a, t));
            assert(reassociates(clm, cmr, b, t));
            let xa = clm[a.left_dim as int][a.left_pos as int];
            let xb = clm[b.left_dim as int][b.left_pos as int];
            lemma_listed_cell(l, m, clm, lm, a.left_dim as int, a.left_pos as int);
            lemma_listed_cell(l, m, clm, lm, b.left_dim as int, b.left_pos as int);
            assert(xa.right_dim == xb.right_dim && xa.right_pos == xb.right_pos);
            assert(a.right_dim == b.right_dim && a.right_pos == b.right_pos);
            assert(xa == xb);
            assert(a.left_dim == b.left_dim);
            lemma_row_injective(clm, a.left_dim as int, a.left_pos as int, b.left_pos as int);
            assert(a == b);
            lemma_row_injective(cs, d, i, j);
        }
    }
    assert forall|d: int, i: int| dom.cell(d, i) implies #[trigger] dom.basis_at(d, i) == cod.basis_at(d, at(map, d, i) as int) by {
        lemma_listed_cell(lm, r, cs, dom, d, i);
        let c = cs[d][i];
        let j = at(map, d, i) as int;
        assert(d < ct.len());
        lemma_pair_cell(l, mr, ct, cod, d, j);
        lemma_listed_cell(l, mr, ct, cod, d, j);
        let t = ct[d][j];
        assert(reassociates(clm, cmr, c, t));
        lemma_listed_cell(l, m, clm, lm, c.left_dim as int, c.left_pos as int);
        let xy = clm[c.left_dim as int][c.left_pos as int];
        assert(mr.cell(t.right_dim as int, t.right_pos as int));
        lemma_listed_cell(m, r, cmr, mr, t.right_dim as int, t.right_pos as int);
        let bs = dom.basis_at(d, i);
        let bt = cod.basis_at(d, j);
        assert forall|v: usize| bs.contains(v) <==> bt.contains(v) by {
            assert(bs.contains(v) <==> (lm.basis_at(c.left_dim as int, c.left_pos as int).contains(v)
                || r.basis_at(c.right_dim as int, c.right_pos as int).contains(v)));
            assert(bt.contains(v) <==> (l.basis_at(t.left_dim as int, t.left_pos as int).contains(v)
                || mr.basis_at(t.right_dim as int, t.right_pos as int).contains(v)));
        }
        intset::lemma_sorted_same_elements(bs, bt);
    }
}


/// Two rows strictly increasing in the lexicographic order with the same
/// pairs are equal.
proof fn lemma_sorted_pairs_same(a: Seq<CellPair>, b: Seq<CellPair>)
    requires
        forall|i: int, j: int| 0 <= i < j < a.len() ==> pair_lt(#[trigger] a[i], #[trigger] a[j]),
        forall|i: int, j: int| 0 <= i < j < b.len() ==> pair_lt(#[trigger] b[i], #[trigger] b[j]),
        forall|c: CellPair| a.contains(c) <==> b.contains(c),
    ensures
        a == b,
    decreases a.len() + b.len(),
{
    if a.len() == 0 {
        if b.len() > 0 {
            assert(b.contains(b[0]));
        }
        assert(a =~= b);
    } else if b.len() == 0 {
        assert(a.contains(a[0]));
    } else {
        assert(a.contains(a[0]));
        assert(b.contains(b[0]));
        let i = choose|i: int| 0 <= i < b.len() && b[i] == a[0];
        let j = choose|j: int| 0 <= j < a.len() && a[j] == b[0];
        if i > 0 {
            assert(pair_lt(b[0], b[i]));
            if j > 0 {
                assert(pair_lt(a[0], a[j]));
            }
        }
        assert(a[0] == b[0]);
        let a1 = a.drop_first();
        let b1 = b.drop_first();
        assert forall|c: CellPair| a1.contains(c) <==> b1.contains(c) by {
            if a1.contains(c) {
                let k = choose|k: int| 0 <= k < a1.len() && a1[k] == c;
                assert(a[k + 1] == c);
                assert(pair_lt(a[0], a[k + 1]));
                assert(b.contains(c));
                let m = choose|m: int| 0 <= m < b.len() && b[m] == c;
                assert(m != 0);
                assert(b1[m - 1] == c);
            }
            if b1.contains(c) {
                let k = choose|k: int| 0 <= k < b1.len() && b1[k] == c;
                assert(b[k + 1] == c);
                assert(pair_lt(b[0], b[k + 1]));
                assert(a.contains(c));
                let m = choose|m: int| 0 <= m < a.len() && a[m] == c;
                assert(m != 0);
                assert(a1[m - 1] == c);
            }
        }
        lemma_sorted_pairs_same(a1, b1);
        assert(a =~= b) by {
            assert forall|k: int| 0 <= k < a.len() implies a[k] == b[k] by {
                if k > 0 {
                    assert(a1[k - 1] == b1[k - 1]);
                }
            }
        }
    }
}

/// The listing of the cells of an orthogonal product is determined by the
/// factors.
proof fn lemma_product_cells_unique(l: FramedPoset, r: FramedPoset, c1: Seq<Seq<CellPair>>, c2: Seq<Seq<CellPair>>)
    requires
        product_cells(l, r, c1),
        product_cells(l, r, c2),
    ensures
        c1 == c2,
{
    if c1.len() < c2.len() {
        let t = c2.len() - 1;
        assert(pair_ok(l, r, c2[t][0]) && pair_level(c2[t][0]) == t);
    }
    if c2.len() < c1.len() {
        let t = c1.len() - 1;
        assert(pair_ok(l, r, c1[t][0]) && pair_level(c1[t][0]) == t);
    }
    assert(c1.len() == c2.len());
    assert forall|d: int| 0 <= d < c1.len() implies #[trigger] c1[d] == c2[d] by {
        assert forall|c: CellPair| c1[d].contains(c) <==> c2[d].contains(c) by {
            if c1[d].contains(c) {
                let k = choose|k: int| 0 <= k < c1[d].len() && c1[d][k] == c;
                assert(pair_ok(l, r, c1[d][k]));
            }
            if c2[d].contains(c) {
                let k = choose|k: int| 0 <= k < c2[d].len() && c2[d][k] == c;
                assert(pair_ok(l, r, c2[d][k]));
            }
        }
        assert forall|i: int, j: int| 0 <= i < j < c1[d].len() implies pair_lt(#[trigger] c1[d][i], #[trigger] c1[d][j]) by {}
        assert forall|i: int, j: int| 0 <= i < j < c2[d].len() implies pair_lt(#[trigger] c2[d][i], #[trigger] c2[d][j]) by {}
        lemma_sorted_pairs_same(c1[d], c2[d]);
    }
    assert(c1 =~= c2);
}

/// The orthogonal product is unique: two valid framed posets that are both
/// orthogonal products of the same factors are the same poset. In particular
/// the ends of [`orthogonal_product_commutator`], [`orthogonal_product_embedding`]
/// and [`orthogonal_product_associator`], which are orthogonal products of
/// their factors, equal what [`orthogonal_product`] returns.
pub proof fn law_orthogonal_product_unique(l: FramedPoset, r: FramedPoset, x: FramedPoset, y: FramedPoset)
    requires
        x.valid(),
        y.valid(),
        is_orthogonal_product(l, r, x),
        is_orthogonal_product(l, r, y),
    ensures
        x.same_poset(&y),
{
    let c1 = choose|c: Seq<Seq<CellPair>>| product_of(l, r, c, x);
    let c2 = choose|c: Seq<Seq<CellPair>>| product_of(l, r, c, y);
    lemma_product_cells_unique(l, r, c1, c2);
    assert forall|d: int| #[trigger] x.size(d) == y.size(d) by {
        if 0 <= d < c1.len() {
            assert(x.size(d) == c1[d].len());
            assert(y.size(d) == c2[d].len());
        }
    }
    assert forall|d: int, p: int| #[trigger] x.cell(d, p) implies same_elements(x.basis_at(d, p), y.basis_at(d, p)) by {
        assert(x.size(d) == y.size(d));
        assert(y.cell(d, p));
        assert(pair_basis(l, r, c1[d][p], x.basis_at(d, p)));
        assert(pair_basis(l, r, c2[d][p], y.basis_at(d, p)));
    }
    assert forall|s: Sign, d: int, p: int| x.cell(d, p) implies same_elements(#[trigger] x.faces(s, d, p), y.faces(s, d, p)) by {
        assert(x.size(d) == y.size(d));
        assert(y.cell(d, p));
        assert forall|f: usize| x.faces(s, d, p).contains(f) <==> y.faces(s, d, p).contains(f) by {
            assert(x.faces(s, d, p).contains(f) <==> (1 <= d && f < c1[d - 1].len() && pair_face(l, r, s, c1[d][p], c1[d - 1][f as int])));
            assert(y.faces(s, d, p).contains(f) <==> (1 <= d && f < c2[d - 1].len() && pair_face(l, r, s, c2[d][p], c2[d - 1][f as int])));
        }
    }
    crate::symmetry::lemma_same_poset_by_elements(x, y);
}


/// A preimage, under an onto embedding, of a cell of its codomain.
proof fn lemma_preimage(f: Embedding, d: int, j: int) -> (i: int)
    requires
        f.wf(),
        f.surjective(),
        f.cod.cell(d, j),
    ensures
        f.dom.cell(d, i),
        at(f.map, d, i) == j,
{
    let i = at(f.inv, d, j) as int;
    assert(at(f.inv, d, j) != crate::embedding::NO_PREIMAGE);
    i
}

/// The orthogonal product of two isomorphisms is an isomorphism: when both
/// factors are onto and closed, so is the product embedding, which sends each
/// cell `(x, y)` to `(f(x), g(y))`.
pub proof fn law_product_of_isomorphisms(f: Embedding, g: Embedding, cs: Seq<Seq<CellPair>>, ct: Seq<Seq<CellPair>>, e: Embedding)
    requires
        f.valid(),
        g.valid(),
        e.wf(),
        maps_pairs(f, g, cs, ct, e),
        f.surjective(),
        f.closed(),
        g.surjective(),
        g.closed(),
    ensures
        e.surjective(),
        e.closed(),
{
    assert forall|d: int, j: int| 0 <= d < e.inv@.len() && 0 <= j < e.inv@[d]@.len() implies #[trigger] at(e.inv, d, j) != crate::embedding::NO_PREIMAGE by {
        assert(e.cod.cell(d, j));
        let t = ct[d][j];
        assert(pair_ok(*f.cod, *g.cod, t));
        let a = lemma_preimage(f, t.left_dim as int, t.left_pos as int);
        let b = lemma_preimage(g, t.right_dim as int, t.right_pos as int);
        assert(f.dom.basis@[t.left_dim as int].len() == f.dom.basis@[t.left_dim as int]@.len());
        assert(g.dom.basis@[t.right_dim as int].len() == g.dom.basis@[t.right_dim as int]@.len());
        let c = CellPair { left_dim: t.left_dim, left_pos: a as usize, right_dim: t.right_dim, right_pos: b as usize };
        assert(f.dom.basis_at(t.left_dim as int, a) == f.cod.basis_at(t.left_dim as int, t.left_pos as int));
        assert(g.dom.basis_at(t.right_dim as int, b) == g.cod.basis_at(t.right_dim as int, t.right_pos as int));
        assert(pair_ok(*f.dom, *g.dom, c));
        assert(cs[pair_level(c)].contains(c));
        let row = cs[d];
        let k = choose|k: int| 0 <= k < row.len() && row[k] == c;
        assert(e.dom.cell(d, k));
        let m = at(e.map, d, k) as int;
        assert(ct[d][m] == t);
        lemma_row_injective(ct, d, m, j);
        assert(at(e.inv, d, m) == k);
        assert(e.dom.basis@[d].len() == e.dom.basis@[d]@.len());
    }
    assert forall|s: Sign, d: int, i: int| 1 <= d && e.dom.cell(d, i) implies same_elements(
        #[trigger] e.cod.faces(s, d, at(e.map, d, i) as int),
        e.image_faces(s, d, i),
    ) by {
        let c = cs[d][i];
        let j = at(e.map, d, i) as int;
        let ic = ct[d][j];
        assert(e.cod.cell(d, j));
        assert(pair_ok(*f.dom, *g.dom, c));
        let df = e.dom.faces(s, d, i);
        let img = e.image_faces(s, d, i);
        assert forall|y: usize| e.cod.faces(s, d, j).contains(y) <==> img.contains(y) by {
            if img.contains(y) {
                let q = choose|q: int| 0 <= q < img.len() && img[q] == y;
                let w = df[q];
                assert(df.contains(w));
                assert(e.dom.cell(d - 1, w as int));
                let h = cs[d - 1][w as int];
                assert(pair_face(*f.dom, *g.dom, s, c, h));
                assert(ct[d - 1][y as int] == image_pair(f, g, h));
                assert(e.cod.cell(d - 1, y as int));
                if h.right_dim == c.right_dim && h.right_pos == c.right_pos && h.left_dim + 1 == c.left_dim
                    && f.dom.faces(s, c.left_dim as int, c.left_pos as int).contains(h.left_pos) {
                    let fi = f.dom.faces(s, c.left_dim as int, c.left_pos as int);
                    let u = choose|u: int| 0 <= u < fi.len() && fi[u] == h.left_pos;
                    assert(f.image_faces(s, c.left_dim as int, c.left_pos as int)[u] == at(f.map, h.left_dim as int, h.left_pos as int));
                    assert(f.image_faces(s, c.left_dim as int, c.left_pos as int).contains(at(f.map, h.left_dim as int, h.left_pos as int)));
                    assert(f.cod.faces(s, c.left_dim as int, at(f.map, c.left_dim as int, c.left_pos as int) as int).contains(at(f.map, h.left_dim as int, h.left_pos as int)));
                    assert(pair_face(*f.cod, *g.cod, s, ic, ct[d - 1][y as int]));
                } else {
                    let gi = g.dom.faces(s, c.right_dim as int, c.right_pos as int);
                    let u = choose|u: int| 0 <= u < gi.len() && gi[u] == h.right_pos;
                    assert(g.image_faces(s, c.right_dim as int, c.right_pos as int)[u] == at(g.map, h.right_dim as int, h.right_pos as int));
                    assert(g.image_faces(s, c.right_dim as int, c.right_pos as int).contains(at(g.map, h.right_dim as int, h.right_pos as int)));
                    assert(g.cod.faces(s, c.right_dim as int, at(g.map, c.right_dim as int, c.right_pos as int) as int).contains(at(g.map, h.right_dim as int, h.right_pos as int)));
                    assert(pair_face(*f.cod, *g.cod, s, ic, ct[d - 1][y as int]));
                }
            }
            if e.cod.faces(s, d, j).contains(y) {
                let g0 = ct[d - 1][y as int];
                assert(pair_face(*f.cod, *g.cod, s, ic, g0));
                assert(e.cod.cell(d - 1, y as int));
                assert(pair_ok(*f.cod, *g.cod, g0));
                let h = if g0.right_dim == ic.right_dim && g0.right_pos == ic.right_pos && g0.left_dim + 1 == ic.left_dim
                    && f.cod.faces(s, ic.left_dim as int, ic.left_pos as int).contains(g0.left_pos) {
                    let fim = f.image_faces(s, c.left_dim as int, c.left_pos as int);
                    assert(fim.contains(g0.left_pos));
                    let u = choose|u: int| 0 <= u < fim.len() && fim[u] == g0.left_pos;
                    let v = f.dom.faces(s, c.left_dim as int, c.left_pos as int)[u];
                    crate::embedding::lemma_face_is_cell(*f.dom, s, c.left_dim as int, c.left_pos as int, u);
                    assert(f.dom.basis_at(g0.left_dim as int, v as int) == f.cod.basis_at(g0.left_dim as int, g0.left_pos as int));
                    CellPair { left_dim: g0.left_dim, left_pos: v, right_dim: c.right_dim, right_pos: c.right_pos }
                } else {
                    let gim = g.image_faces(s, c.right_dim as int, c.right_pos as int);
                    assert(gim.contains(g0.right_pos));
                    let u = choose|u: int| 0 <= u < gim.len() && gim[u] == g0.right_pos;
                    let v = g.dom.faces(s, c.right_dim as int, c.right_pos as int)[u];
                    crate::embedding::lemma_face_is_cell(*g.dom, s, c.right_dim as int, c.right_pos as int, u);
                    assert(g.dom.basis_at(g0.right_dim as int, v as int) == g.cod.basis_at(g0.right_dim as int, g0.right_pos as int));
                    CellPair { left_dim: c.left_dim, left_pos: c.left_pos, right_dim: g0.right_dim, right_pos: v }
                };
                assert(f.dom.basis_at(c.left_dim as int, c.left_pos as int) == f.cod.basis_at(c.left_dim as int, ic.left_pos as int));
                assert(g.dom.basis_at(c.right_dim as int, c.right_pos as int) == g.cod.basis_at(c.right_dim as int, ic.right_pos as int));
                assert(pair_ok(*f.dom, *g.dom, h));
                assert(image_pair(f, g, h) == g0);
                assert(pair_face(*f.dom, *g.dom, s, c, h));
                assert(cs[pair_level(h)].contains(h));
                let row = cs[d - 1];
                let w = choose|w: int| 0 <= w < row.len() && row[w] == h;
                assert(e.dom.cell(d - 1, w));
                assert(e.dom.basis@[d - 1].len() == e.dom.basis@[d - 1]@.len());
                assert((w as usize) as int == w);
                assert(df.contains(w as usize));
                let m = at(e.map, d - 1, w) as int;
                assert(ct[d - 1][m] == g0);
                lemma_row_injective(ct, d - 1, m, y as int);
                let q = choose|q: int| 0 <= q < df.len() && df[q] == w as usize;
                assert(img[q] == y);
            }
        }
    }
}


/// A pair is listed at one place only.
proof fn lemma_listed_once(l: FramedPoset, r: FramedPoset, cells: Seq<Seq<CellPair>>, d1: int, k1: int, d2: int, k2: int)
    requires
        product_cells(l, r, cells),
        0 <= d1 < cells.len(),
        0 <= k1 < cells[d1].len(),
        0 <= d2 < cells.len(),
        0 <= k2 < cells[d2].len(),
        cells[d1][k1] == cells[d2][k2],
    ensures
        d1 == d2,
        k1 == k2,
{
    assert(pair_level(cells[d1][k1]) == d1);
    assert(pair_level(cells[d2][k2]) == d2);
    assert forall|e: int, a: int, b: int| 0 <= e < cells.len() && 0 <= a < b < cells[e].len() implies pair_lt(
        #[trigger] cells[e][a],
        #[trigger] cells[e][b],
    ) by {}
    lemma_row_injective(cells, d1, k1, k2);
}

/// Under the associativity map, a cell of `(l * m) * r` has a cell as an
/// `s`-face exactly when their images do.
proof fn lemma_assoc_face(
    l: FramedPoset,
    m: FramedPoset,
    r: FramedPoset,
    lm: FramedPoset,
    mr: FramedPoset,
    clm: Seq<Seq<CellPair>>,
    cmr: Seq<Seq<CellPair>>,
    cs: Seq<Seq<CellPair>>,
    ct: Seq<Seq<CellPair>>,
    e: Embedding,
    s: Sign,
    d: int,
    i: int,
    w: int,
)
    requires
        associates(l, m, r, lm, mr, clm, cmr, cs, ct, e),
        e.wf(),
        1 <= d,
        e.dom.cell(d, i),
        e.dom.cell(d - 1, w),
    ensures
        pair_face(lm, r, s, cs[d][i], cs[d - 1][w]) <==> pair_face(l, mr, s, ct[d][at(e.map, d, i) as int], ct[d - 1][at(e.map, d - 1, w) as int]),
{
    let ed = *e.dom;
    let ec = *e.cod;
    let c = cs[d][i];
    let h = cs[d - 1][w];
    let t = ct[d][at(e.map, d, i) as int];
    let t2 = ct[d - 1][at(e.map, d - 1, w) as int];
    lemma_listed_cell(lm, r, cs, ed, d, i);
    lemma_listed_cell(lm, r, cs, ed, d - 1, w);
    assert(reassociates(clm, cmr, c, t));
    assert(reassociates(clm, cmr, h, t2));
    assert(e.cod.cell(d, at(e.map, d, i) as int));
    assert(e.cod.cell(d - 1, at(e.map, d - 1, w) as int));
    lemma_listed_cell(l, mr, ct, ec, d, at(e.map, d, i) as int);
    lemma_listed_cell(l, mr, ct, ec, d - 1, at(e.map, d - 1, w) as int);
    lemma_listed_cell(l, m, clm, lm, c.left_dim as int, c.left_pos as int);
    lemma_listed_cell(l, m, clm, lm, h.left_dim as int, h.left_pos as int);
    lemma_listed_cell(m, r, cmr, mr, t.right_dim as int, t.right_pos as int);
    lemma_listed_cell(m, r, cmr, mr, t2.right_dim as int, t2.right_pos as int);
    let xy = clm[c.left_dim as int][c.left_pos as int];
    let xy2 = clm[h.left_dim as int][h.left_pos as int];
    let yz = cmr[t.right_dim as int][t.right_pos as int];
    let yz2 = cmr[t2.right_dim as int][t2.right_pos as int];
    let left_moves = h.right_dim == c.right_dim && h.right_pos == c.right_pos && h.left_dim + 1 == c.left_dim
        && lm.faces(s, c.left_dim as int, c.left_pos as int).contains(h.left_pos);
    let right_moves = t2.left_dim == t.left_dim && t2.left_pos == t.left_pos && t2.right_dim + 1 == t.right_dim
        && mr.faces(s, t.right_dim as int, t.right_pos as int).contains(t2.right_pos);
    if pair_face(lm, r, s, c, h) {
        if left_moves {
            assert(pair_face(l, m, s, xy, clm[c.left_dim - 1][h.left_pos as int]));
            assert(clm[c.left_dim - 1][h.left_pos as int] == xy2);
            if xy2.right_dim == xy.right_dim && xy2.right_pos == xy.right_pos && xy2.left_dim + 1 == xy.left_dim
                && l.faces(s, xy.left_dim as int, xy.left_pos as int).contains(xy2.left_pos) {
                assert(yz2 == yz);
                lemma_listed_once(m, r, cmr, t.right_dim as int, t.right_pos as int, t2.right_dim as int, t2.right_pos as int);
                assert(pair_face(l, mr, s, t, t2));
            } else {
                assert(yz2.right_dim == yz.right_dim && yz2.right_pos == yz.right_pos && yz2.left_dim + 1 == yz.left_dim);
                assert(pair_face(m, r, s, yz, yz2));
                assert(pair_level(yz2) == t2.right_dim);
                assert(t2.right_dim + 1 == t.right_dim);
                assert(mr.faces(s, t.right_dim as int, t.right_pos as int).contains(t2.right_pos));
                assert(pair_face(l, mr, s, t, t2));
            }
        } else {
            assert(xy2 == xy);
            assert(pair_face(m, r, s, yz, yz2));
            assert(t2.right_dim + 1 == t.right_dim);
            assert(mr.faces(s, t.right_dim as int, t.right_pos as int).contains(t2.right_pos));
            assert(pair_face(l, mr, s, t, t2));
        }
    }
    if pair_face(l, mr, s, t, t2) {
        if right_moves {
            assert(pair_face(m, r, s, yz, cmr[t.right_dim - 1][t2.right_pos as int]));
            assert(cmr[t.right_dim - 1][t2.right_pos as int] == yz2);
            if yz2.right_dim == yz.right_dim && yz2.right_pos == yz.right_pos && yz2.left_dim + 1 == yz.left_dim
                && m.faces(s, yz.left_dim as int, yz.left_pos as int).contains(yz2.left_pos) {
                assert(pair_face(l, m, s, xy, xy2));
                assert(h.left_dim + 1 == c.left_dim);
                assert(lm.faces(s, c.left_dim as int, c.left_pos as int).contains(h.left_pos));
                assert(pair_face(lm, r, s, c, h));
            } else {
                assert(xy2 == xy);
                lemma_listed_once(l, m, clm, c.left_dim as int, c.left_pos as int, h.left_dim as int, h.left_pos as int);
                assert(pair_face(lm, r, s, c, h));
            }
        } else {
            assert(yz2 == yz);
            lemma_listed_once(m, r, cmr, t.right_dim as int, t.right_pos as int, t2.right_dim as int, t2.right_pos as int);
            assert(pair_face(l, m, s, xy, xy2));
            assert(h.left_dim + 1 == c.left_dim);
            assert(lm.faces(s, c.left_dim as int, c.left_pos as int).contains(h.left_pos));
            assert(pair_face(lm, r, s, c, h));
        }
    }
}

/// The associativity map of a triple orthogonal product is an isomorphism:
/// it is onto, and the signed faces of every image cell are the images of the
/// signed faces.
pub proof fn law_associator_isomorphism(
    l: FramedPoset,
    m: FramedPoset,
    r: FramedPoset,
    lm: FramedPoset,
    mr: FramedPoset,
    clm: Seq<Seq<CellPair>>,
    cmr: Seq<Seq<CellPair>>,
    cs: Seq<Seq<CellPair>>,
    ct: Seq<Seq<CellPair>>,
    e: Embedding,
)
    requires
        associates(l, m, r, lm, mr, clm, cmr, cs, ct, e),
        e.wf(),
    ensures
        e.surjective(),
        e.closed(),
{
    assert forall|d: int, j: int| 0 <= d < e.inv@.len() && 0 <= j < e.inv@[d]@.len() implies #[trigger] at(e.inv, d, j) != crate::embedding::NO_PREIMAGE by {
        assert(e.cod.cell(d, j));
        let k = lemma_assoc_preimage(l, m, r, lm, mr, clm, cmr, cs, ct, e, d, j);
        assert(at(e.inv, d, at(e.map, d, k) as int) == k);
        assert(e.dom.basis@[d].len() == e.dom.basis@[d]@.len());
    }
    assert forall|s: Sign, d: int, i: int| 1 <= d && e.dom.cell(d, i) implies same_elements(
        #[trigger] e.cod.faces(s, d, at(e.map, d, i) as int),
        e.image_faces(s, d, i),
    ) by {
        let j = at(e.map, d, i) as int;
        assert(e.cod.cell(d, j));
        let df = e.dom.faces(s, d, i);
        let img = e.image_faces(s, d, i);
        assert forall|y: usize| e.cod.faces(s, d, j).contains(y) <==> img.contains(y) by {
            if img.contains(y) {
                let q = choose|q: int| 0 <= q < img.len() && img[q] == y;
                let w = df[q];
                assert(df.contains(w));
                assert(e.dom.cell(d - 1, w as int));
                lemma_assoc_face(l, m, r, lm, mr, clm, cmr, cs, ct, e, s, d, i, w as int);
                assert(e.cod.cell(d - 1, y as int));
            }
            if e.cod.faces(s, d, j).contains(y) {
                assert(e.cod.cell(d - 1, y as int));
                let w = lemma_assoc_preimage(l, m, r, lm, mr, clm, cmr, cs, ct, e, d - 1, y as int);
                lemma_assoc_face(l, m, r, lm, mr, clm, cmr, cs, ct, e, s, d, i, w);
                assert(e.dom.basis@[d - 1].len() == e.dom.basis@[d - 1]@.len());
                assert((w as usize) as int == w);
                assert(df.contains(w as usize));
                let q = choose|q: int| 0 <= q < df.len() && df[q] == w as usize;
                assert(img[q] == y);
            }
        }
    }
}

/// Every cell of `l * (m * r)` is the image of a cell of `(l * m) * r` under
/// the associativity map.
proof fn lemma_assoc_preimage(
    l: FramedPoset,
    m: FramedPoset,
    r: FramedPoset,
    lm: FramedPoset,
    mr: FramedPoset,
    clm: Seq<Seq<CellPair>>,
    cmr: Seq<Seq<CellPair>>,
    cs: Seq<Seq<CellPair>>,
    ct: Seq<Seq<CellPair>>,
    e: Embedding,
    d: int,
    j: int,
) -> (k: int)
    requires
        associates(l, m, r, lm, mr, clm, cmr, cs, ct, e),
        e.wf(),
        e.cod.cell(d, j),
    ensures
        e.dom.cell(d, k),
        at(e.map, d, k) == j,
{
    let ed = *e.dom;
    let ec = *e.cod;
    lemma_listed_cell(l, mr, ct, ec, d, j);
    let t = ct[d][j];
    lemma_listed_cell(m, r, cmr, mr, t.right_dim as int, t.right_pos as int);
    let yz = cmr[t.right_dim as int][t.right_pos as int];
    let xy = CellPair { left_dim: t.left_dim, left_pos: t.left_pos, right_dim: yz.left_dim, right_pos: yz.left_pos };
    let bx = l.basis_at(t.left_dim as int, t.left_pos as int);
    let by = m.basis_at(yz.left_dim as int, yz.left_pos as int);
    let bz = r.basis_at(yz.right_dim as int, yz.right_pos as int);
    let byz = mr.basis_at(t.right_dim as int, t.right_pos as int);
    assert forall|v: usize| !(bx.contains(v) && by.contains(v)) by {
        if by.contains(v) {
            assert(byz.contains(v));
        }
    }
    assert(pair_ok(l, m, xy));
    assert(clm[pair_level(xy)].contains(xy));
    let row = clm[pair_level(xy)];
    let a = choose|a: int| 0 <= a < row.len() && row[a] == xy;
    lemma_pair_cell(l, m, clm, lm, pair_level(xy), a);
    lemma_listed_cell(l, m, clm, lm, pair_level(xy), a);
    assert(lm.basis@[pair_level(xy)].len() == lm.basis@[pair_level(xy)]@.len());
    assert(lm.basis@.len() == lm.basis.len());
    assert(pair_level(yz) == t.right_dim);
    let c = CellPair { left_dim: pair_level(xy) as usize, left_pos: a as usize, right_dim: yz.right_dim, right_pos: yz.right_pos };
    let bxy = lm.basis_at(pair_level(xy), a);
    assert forall|v: usize| !(bxy.contains(v) && bz.contains(v)) by {
        if bz.contains(v) {
            assert(byz.contains(v));
        }
    }
    assert(pair_ok(lm, r, c));
    assert(cs[pair_level(c)].contains(c));
    let row2 = cs[d];
    let k = choose|k: int| 0 <= k < row2.len() && row2[k] == c;
    lemma_pair_cell(lm, r, cs, ed, d, k);
    let j2 = at(e.map, d, k) as int;
    let t2 = ct[d][j2];
    assert(reassociates(clm, cmr, c, t2));
    assert(e.cod.cell(d, j2));
    lemma_listed_cell(l, mr, ct, ec, d, j2);
    lemma_listed_once(m, r, cmr, t.right_dim as int, t.right_pos as int, t2.right_dim as int, t2.right_pos as int);
    assert(t2 == t);
    lemma_listed_once(l, mr, ct, d, j, d, j2);
    k
}

} // verus!

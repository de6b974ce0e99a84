//! Oriented framed posets.

use std::sync::Arc;

use vstd::prelude::*;

use crate::embedding::{Embedding, NO_PREIMAGE, at, in_image, map_ok, share};
use crate::intset::{self, IntSet, same_elements, strictly_sorted};

verus! {

/// Input/output polarity for oriented cover relations.
#[derive(Debug, Clone, Copy, PartialEq, Eq, Hash, Structural)]
pub enum Sign {
    Input,
    Output,
}

/// Choice of directional boundary definition.
#[derive(Debug, Clone, Copy, PartialEq, Eq, Hash, Structural)]
pub enum BoundaryMode {
    /// Keep orthogonal cells with no opposite-signed cofaces.
    Plain,
    /// Keep orthogonal cells whose opposite-signed cofaces are also orthogonal.
    Hat,
}

/// The other sign.
pub open spec fn flip(s: Sign) -> Sign {
    match s {
        Sign::Input => Sign::Output,
        Sign::Output => Sign::Input,
    }
}

impl Sign {
    pub(crate) fn opposite(self) -> (r: Self)
        ensures
            r == flip(self),
    {
        match self {
            Self::Input => Self::Output,
            Self::Output => Self::Input,
        }
    }
}

/// A cell named by its basis cardinality and its position at that level.
#[derive(Debug, Clone, Copy, PartialEq, Eq, Hash, Structural)]
pub struct Element {
    pub dim: usize,
    pub pos: usize,
}

/// A finite oriented framed poset.
///
/// Cells are grouped by the cardinality of their basis.  For a cell `p` at
/// level `d`, `basis[d][p]` is a finite set of directions of cardinality `d`.
#[derive(Debug, Clone)]
pub struct FramedPoset {
    pub normal: bool,
    pub dim: isize,
    pub basis: Vec<Vec<IntSet>>,
    pub faces_in: Vec<Vec<IntSet>>,
    pub faces_out: Vec<Vec<IntSet>>,
    pub cofaces_in: Vec<Vec<IntSet>>,
    pub cofaces_out: Vec<Vec<IntSet>>,
}

/// The set stored at row `p` of level `d` of a table.
pub open spec fn entry(t: Vec<Vec<IntSet>>, d: int, p: int) -> Seq<usize> {
    t@[d]@[p]@
}

/// Number of rows at level `d` of a table, zero outside its levels.
pub open spec fn rows(t: Vec<Vec<IntSet>>, d: int) -> int {
    if 0 <= d < t@.len() {
        t@[d]@.len() as int
    } else {
        0
    }
}

/// Two tables hold the same sets at the same positions.
pub open spec fn same_table(a: Vec<Vec<IntSet>>, b: Vec<Vec<IntSet>>) -> bool {
    &&& a@.len() == b@.len()
    &&& forall|d: int| 0 <= d < a@.len() ==> #[trigger] a@[d]@.len() == b@[d]@.len()
    &&& forall|d: int, p: int|
        0 <= d < a@.len() && 0 <= p < a@[d]@.len() ==> #[trigger] entry(a, d, p) == entry(b, d, p)
}

/// `t` has one row for every cell of `basis`.
pub open spec fn table_matches(t: Vec<Vec<IntSet>>, basis: Vec<Vec<IntSet>>) -> bool {
    &&& t@.len() == basis@.len()
    &&& forall|d: int| 0 <= d < basis@.len() ==> #[trigger] t@[d]@.len() == basis@[d]@.len()
}

/// Every set of `t` is strictly sorted.
pub open spec fn table_sorted(t: Vec<Vec<IntSet>>) -> bool {
    forall|d: int, p: int|
        0 <= d < t@.len() && 0 <= p < t@[d]@.len() ==> strictly_sorted(#[trigger] entry(t, d, p))
}

/// Every entry of row `p` at level `d` of the face table `t` indexes a cell
/// at level `d - 1` of `basis`.
pub open spec fn faces_in_range(t: Vec<Vec<IntSet>>, basis: Vec<Vec<IntSet>>) -> bool {
    forall|d: int, p: int, i: int|
        0 <= d < t@.len() && 0 <= p < t@[d]@.len() && 0 <= i < entry(t, d, p).len()
            ==> #[trigger] entry(t, d, p)[i] < rows(basis, d - 1)
}

/// Every entry of row `p` at level `d` of the coface table `t` indexes a cell
/// at level `d + 1` of `basis`.
pub open spec fn cofaces_in_range(t: Vec<Vec<IntSet>>, basis: Vec<Vec<IntSet>>) -> bool {
    forall|d: int, p: int, i: int|
        0 <= d < t@.len() && 0 <= p < t@[d]@.len() && 0 <= i < entry(t, d, p).len()
            ==> #[trigger] entry(t, d, p)[i] < rows(basis, d + 1)
}

/// `co` is the reverse adjacency of the face table `faces`: cell `p` at level
/// `e` lists `c` exactly when `c` at level `e + 1` lists `p`.
pub open spec fn reverses(co: Vec<Vec<IntSet>>, faces: Vec<Vec<IntSet>>) -> bool {
    forall|e: int, p: usize, c: usize|
        0 <= e < co@.len() && p < co@[e]@.len() && c < rows(faces, e + 1) ==> (
        #[trigger] entry(co, e, p as int).contains(c) <==> #[trigger] entry(faces, e + 1, c as int).contains(p))
}

/// The defining data accepted by [`FramedPoset::from_faces`].
pub open spec fn defining_tables(
    basis: Vec<Vec<IntSet>>,
    faces_in: Vec<Vec<IntSet>>,
    faces_out: Vec<Vec<IntSet>>,
) -> bool {
    &&& table_matches(faces_in, basis)
    &&& table_matches(faces_out, basis)
    &&& table_sorted(basis)
    &&& table_sorted(faces_in)
    &&& table_sorted(faces_out)
    &&& faces_in_range(faces_in, basis)
    &&& faces_in_range(faces_out, basis)
}

impl FramedPoset {
    /// Number of levels (basis cardinalities) stored.
    pub open spec fn levels(&self) -> int {
        self.basis@.len() as int
    }

    /// Number of cells at level `d`, zero outside the stored levels.
    pub open spec fn size(&self, d: int) -> int {
        rows(self.basis, d)
    }

    /// `(d, p)` names a cell.
    pub open spec fn cell(&self, d: int, p: int) -> bool {
        0 <= d < self.levels() && 0 <= p < self.size(d)
    }

    pub open spec fn basis_at(&self, d: int, p: int) -> Seq<usize> {
        entry(self.basis, d, p)
    }

    pub open spec fn face_table(&self, s: Sign) -> Vec<Vec<IntSet>> {
        match s {
            Sign::Input => self.faces_in,
            Sign::Output => self.faces_out,
        }
    }

    pub open spec fn coface_table(&self, s: Sign) -> Vec<Vec<IntSet>> {
        match s {
            Sign::Input => self.cofaces_in,
            Sign::Output => self.cofaces_out,
        }
    }

    /// The `s`-faces of cell `(d, p)`, as positions at level `d - 1`.
    pub open spec fn faces(&self, s: Sign, d: int, p: int) -> Seq<usize> {
        entry(self.face_table(s), d, p)
    }

    /// The `s`-cofaces of cell `(d, p)`, as positions at level `d + 1`.
    pub open spec fn cofaces(&self, s: Sign, d: int, p: int) -> Seq<usize> {
        entry(self.coface_table(s), d, p)
    }

    /// The sequence of level sizes.
    pub open spec fn size_seq(&self) -> Seq<usize> {
        Seq::new(self.basis@.len(), |d: int| self.basis@[d].len())
    }

    /// The invariant of the stored tables: every table has one sorted set per
    /// cell, face and coface indices name cells one level down and up, the
    /// coface tables are the reverse adjacency of the face tables, and `dim` is
    /// one less than the number of levels.
    pub open spec fn valid(&self) -> bool {
        &&& self.dim == self.levels() - 1
        &&& defining_tables(self.basis, self.faces_in, self.faces_out)
        &&& table_matches(self.cofaces_in, self.basis)
        &&& table_matches(self.cofaces_out, self.basis)
        &&& table_sorted(self.cofaces_in)
        &&& table_sorted(self.cofaces_out)
        &&& cofaces_in_range(self.cofaces_in, self.basis)
        &&& cofaces_in_range(self.cofaces_out, self.basis)
        &&& reverses(self.cofaces_in, self.faces_in)
        &&& reverses(self.cofaces_out, self.faces_out)
    }

    /// Mathematical equality: basis and signed face tables agree.
    pub open spec fn same_poset(&self, other: &FramedPoset) -> bool {
        &&& same_table(self.basis, other.basis)
        &&& same_table(self.faces_in, other.faces_in)
        &&& same_table(self.faces_out, other.faces_out)
    }
}

impl PartialEq for FramedPoset {
    fn eq(&self, other: &Self) -> (r: bool) {
        FramedPoset::equal(self, other)
    }
}

impl vstd::std_specs::cmp::PartialEqSpecImpl for FramedPoset {
    open spec fn obeys_eq_spec() -> bool {
        true
    }

    open spec fn eq_spec(&self, other: &FramedPoset) -> bool {
        self.same_poset(other)
    }
}

impl Eq for FramedPoset {}

/// Structural equality is symmetric.
pub proof fn lemma_same_poset_symmetric(a: &FramedPoset, b: &FramedPoset)
    requires
        a.same_poset(b),
    ensures
        b.same_poset(a),
{
    assert forall|d: int, p: int| 0 <= d < b.basis@.len() && 0 <= p < b.basis@[d]@.len() implies #[trigger] entry(b.basis, d, p)
        == entry(a.basis, d, p) by {
        assert(entry(a.basis, d, p) == entry(b.basis, d, p));
    }
    assert forall|d: int, p: int| 0 <= d < b.faces_in@.len() && 0 <= p < b.faces_in@[d]@.len() implies #[trigger] entry(b.faces_in, d, p)
        == entry(a.faces_in, d, p) by {
        assert(entry(a.faces_in, d, p) == entry(b.faces_in, d, p));
    }
    assert forall|d: int, p: int| 0 <= d < b.faces_out@.len() && 0 <= p < b.faces_out@[d]@.len() implies #[trigger] entry(b.faces_out, d, p)
        == entry(a.faces_out, d, p) by {
        assert(entry(a.faces_out, d, p) == entry(b.faces_out, d, p));
    }
}

/// The storage invariant, read for one sign.
pub proof fn lemma_valid_sign(x: &FramedPoset, s: Sign)
    requires
        x.valid(),
    ensures
        table_matches(x.face_table(s), x.basis),
        table_matches(x.coface_table(s), x.basis),
        table_sorted(x.face_table(s)),
        table_sorted(x.coface_table(s)),
        faces_in_range(x.face_table(s), x.basis),
        cofaces_in_range(x.coface_table(s), x.basis),
        reverses(x.coface_table(s), x.face_table(s)),
{
    match s {
        Sign::Input => {},
        Sign::Output => {},
    }
}

/// Reverse adjacency of a face table.
fn reverse_faces(faces: &Vec<Vec<IntSet>>, basis: &Vec<Vec<IntSet>>) -> (co: Vec<Vec<IntSet>>)
    requires
        table_matches(*faces, *basis),
        faces_in_range(*faces, *basis),
    ensures
        table_matches(co, *basis),
        table_sorted(co),
        cofaces_in_range(co, *basis),
        reverses(co, *faces),
{
    let levels = basis.len();
    let mut co: Vec<Vec<IntSet>> = Vec::new();
    for d in 0..levels
        invariant
            levels == basis@.len(),
            co@.len() == d,
            forall|e: int| 0 <= e < d ==> #[trigger] co@[e]@.len() == basis@[e]@.len(),
            forall|e: int, p: int| 0 <= e < d && 0 <= p < co@[e]@.len() ==> #[trigger] entry(co, e, p).len() == 0,
    {
        let n = basis[d].len();
        let mut row: Vec<IntSet> = Vec::new();
        for p in 0..n
            invariant
                row@.len() == p,
                forall|q: int| 0 <= q < p ==> #[trigger] row@[q]@.len() == 0,
        {
            row.push(Vec::new());
        }
        let ghost before = co;
        co.push(row);
        proof {
            assert forall|e: int, p: int| 0 <= e < d + 1 && 0 <= p < co@[e]@.len() implies #[trigger] entry(co, e, p).len() == 0 by {
                if e == d {
                    assert(co@[e] == row);
                } else {
                    assert(co@[e] == before@[e]);
                    assert(entry(before, e, p).len() == 0);
                }
            }
        }
    }
    let mut d: usize = 1;
    while d < levels
        invariant
            1 <= d,
            levels == basis@.len(),
            table_matches(*faces, *basis),
            faces_in_range(*faces, *basis),
            table_matches(co, *basis),
            table_sorted(co),
            forall|e: int, p: usize, c: usize|
                0 <= e < levels && p < co@[e]@.len() ==> (#[trigger] entry(co, e, p as int).contains(c) <==> (
                    c < rows(*faces, e + 1) && e + 1 < d && entry(*faces, e + 1, c as int).contains(p))),
        decreases levels - d,
    {
        let n = basis[d].len();
        let mut c: usize = 0;
        while c < n
            invariant
                1 <= d < levels,
                levels == basis@.len(),
                n == basis@[d as int]@.len(),
                c <= n,
                table_matches(*faces, *basis),
                faces_in_range(*faces, *basis),
                table_matches(co, *basis),
                table_sorted(co),
                forall|e: int, p: usize, x: usize|
                    0 <= e < levels && p < co@[e]@.len() ==> (#[trigger] entry(co, e, p as int).contains(x) <==> (
                        x < rows(*faces, e + 1) && (e + 1 < d || (e + 1 == d && x < c)) && entry(*faces, e + 1, x as int).contains(p))),
            decreases n - c,
        {
            let m = faces[d][c].len();
            let mut k: usize = 0;
            while k < m
                invariant
                    1 <= d < levels,
                    levels == basis@.len(),
                    n == basis@[d as int]@.len(),
                    c < n,
                    k <= m,
                    m == entry(*faces, d as int, c as int).len(),
                    table_matches(*faces, *basis),
                    faces_in_range(*faces, *basis),
                    table_matches(co, *basis),
                    table_sorted(co),
                    forall|e: int, p: usize, x: usize|
                        0 <= e < levels && p < co@[e]@.len() ==> (#[trigger] entry(co, e, p as int).contains(x) <==> (
                            x < rows(*faces, e + 1) && (
                            ((e + 1 < d || (e + 1 == d && x < c)) && entry(*faces, e + 1, x as int).contains(p))
                            || (e + 1 == d && x == c && entry(*faces, e + 1, x as int).take(k as int).contains(p))))),
                decreases m - k,
            {
                let f = faces[d][c][k];
                proof {
                    assert(entry(*faces, d as int, c as int)[k as int] < rows(*basis, d - 1));
                }
                let ghost old_co = co;
                proof {
                    assert(strictly_sorted(entry(co, d - 1, f as int)));
                }
                intset::insert(&mut co[d - 1][f], c);
                proof {
                    let fs = entry(*faces, d as int, c as int);
                    assert(fs.take(k + 1) == fs.take(k as int).push(f));
                    assert forall|e: int, p: usize| 0 <= e < levels && p < co@[e]@.len() && !(e == d - 1 && p == f) implies
                        entry(co, e, p as int) == entry(old_co, e, p as int) by {}
                    assert forall|e: int, p: usize, x: usize| 0 <= e < levels && p < co@[e]@.len() implies
                        (#[trigger] entry(co, e, p as int).contains(x) <==> (
                            x < rows(*faces, e + 1) && (
                            ((e + 1 < d || (e + 1 == d && x < c)) && entry(*faces, e + 1, x as int).contains(p))
                            || (e + 1 == d && x == c && entry(*faces, e + 1, x as int).take(k + 1).contains(p))))) by {
                        assert(entry(old_co, e, p as int).contains(x) <==> (
                            x < rows(*faces, e + 1) && (
                            ((e + 1 < d || (e + 1 == d && x < c)) && entry(*faces, e + 1, x as int).contains(p))
                            || (e + 1 == d && x == c && entry(*faces, e + 1, x as int).take(k as int).contains(p)))));
                        let tk = fs.take(k as int);
                        let tk1 = fs.take(k + 1);
                        assert forall|j: int| 0 <= j < k implies tk1[j] == tk[j] by {}
                        assert(tk1[k as int] == f);
                        if tk1.contains(p) && p != f {
                            let j = choose|j: int| 0 <= j < tk1.len() && tk1[j] == p;
                            assert(j != k);
                            assert(tk[j] == p);
                        }
                        if tk.contains(p) {
                            let j = choose|j: int| 0 <= j < tk.len() && tk[j] == p;
                            assert(tk1[j] == p);
                        }
                        assert(tk1[k as int] == f);
                        if e == d - 1 && p == f {
                        } else {
                            assert(entry(co, e, p as int) == entry(old_co, e, p as int));
                        }
                    }
                    assert forall|e: int, p: int| 0 <= e < co@.len() && 0 <= p < co@[e]@.len() implies strictly_sorted(#[trigger] entry(co, e, p)) by {
                        assert(strictly_sorted(entry(old_co, e, p)));
                    }
                }
                k = k + 1;
            }
            proof {
                let fs = entry(*faces, d as int, c as int);
                assert(fs.take(m as int) == fs);
            }
            c = c + 1;
        }
        d = d + 1;
    }
    proof {
        assert(d >= levels);
        assert forall|e: int, p: int, i: int|
            0 <= e < co@.len() && 0 <= p < co@[e]@.len() && 0 <= i < entry(co, e, p).len()
                implies #[trigger] entry(co, e, p)[i] < rows(*basis, e + 1) by {
            let x = entry(co, e, p)[i];
            let pu = p as usize;
            assert(co@[e].len() == co@[e]@.len());
            assert(pu as int == p);
            assert(entry(co, e, pu as int).contains(x));
            if e + 1 < levels {
                assert(faces@[e + 1]@.len() == basis@[e + 1]@.len());
            }
        }
    }
    co
}

/// The number of levels fits the signed dimension field.
pub open spec fn dim_fits(levels: int) -> bool {
    levels <= isize::MAX + 1
}

fn dim_of_levels(levels: usize) -> (d: isize)
    requires
        dim_fits(levels as int),
    ensures
        d == levels - 1,
{
    if levels == 0 {
        -1
    } else {
        (levels - 1) as isize
    }
}

/// Equality of two integer sets as sequences.
pub(crate) fn sets_equal(a: &[usize], b: &[usize]) -> (r: bool)
    ensures
        r == (a@ == b@),
{
    if a.len() != b.len() {
        return false;
    }
    let n = a.len();
    for i in 0..n
        invariant
            n == a@.len(),
            n == b@.len(),
            forall|j: int| 0 <= j < i ==> a@[j] == b@[j],
    {
        if a[i] != b[i] {
            return false;
        }
    }
    proof {
        assert(a@ =~= b@);
    }
    true
}

/// Equality of two tables of integer sets.
pub(crate) fn tables_equal(a: &Vec<Vec<IntSet>>, b: &Vec<Vec<IntSet>>) -> (r: bool)
    ensures
        r == same_table(*a, *b),
{
    if a.len() != b.len() {
        return false;
    }
    let n = a.len();
    for d in 0..n
        invariant
            n == a@.len(),
            n == b@.len(),
            forall|e: int| 0 <= e < d ==> #[trigger] a@[e]@.len() == b@[e]@.len(),
            forall|e: int, p: int| 0 <= e < d && 0 <= p < a@[e]@.len() ==> #[trigger] entry(*a, e, p) == entry(*b, e, p),
    {
        if a[d].len() != b[d].len() {
            return false;
        }
        let m = a[d].len();
        for p in 0..m
            invariant
                n == a@.len(),
                n == b@.len(),
                d < n,
                m == a@[d as int]@.len(),
                m == b@[d as int]@.len(),
                forall|e: int| 0 <= e < d ==> #[trigger] a@[e]@.len() == b@[e]@.len(),
                forall|e: int, q: int| 0 <= e < d && 0 <= q < a@[e]@.len() ==> #[trigger] entry(*a, e, q) == entry(*b, e, q),
                forall|q: int| 0 <= q < p ==> #[trigger] entry(*a, d as int, q) == entry(*b, d as int, q),
        {
            if !sets_equal(a[d][p].as_slice(), b[d][p].as_slice()) {
                proof {
                    assert(entry(*a, d as int, p as int) != entry(*b, d as int, p as int));
                }
                return false;
            }
        }
    }
    true
}

impl FramedPoset {
    /// Construct a framed poset from basis and adjacency tables.
    pub fn make(
        basis: Vec<Vec<IntSet>>,
        faces_in: Vec<Vec<IntSet>>,
        faces_out: Vec<Vec<IntSet>>,
        cofaces_in: Vec<Vec<IntSet>>,
        cofaces_out: Vec<Vec<IntSet>>,
    ) -> (r: Self)
        requires
            dim_fits(basis@.len() as int),
        ensures
            !r.normal,
            r.dim == basis@.len() - 1,
            r.basis == basis,
            r.faces_in == faces_in,
            r.faces_out == faces_out,
            r.cofaces_in == cofaces_in,
            r.cofaces_out == cofaces_out,
    {
        let dim = dim_of_levels(basis.len());
        FramedPoset { normal: false, dim, basis, faces_in, faces_out, cofaces_in, cofaces_out }
    }

    /// Construct a framed poset from basis and signed face tables.
    ///
    /// The signed coface tables are generated as the reverse adjacency of the
    /// supplied signed face tables.
    pub fn from_faces(
        basis: Vec<Vec<IntSet>>,
        faces_in: Vec<Vec<IntSet>>,
        faces_out: Vec<Vec<IntSet>>,
    ) -> (r: Self)
        requires
            defining_tables(basis, faces_in, faces_out),
            dim_fits(basis@.len() as int),
        ensures
            r.valid(),
            !r.normal,
            r.basis == basis,
            r.faces_in == faces_in,
            r.faces_out == faces_out,
    {
        let cofaces_in = reverse_faces(&faces_in, &basis);
        let cofaces_out = reverse_faces(&faces_out, &basis);
        FramedPoset::make(basis, faces_in, faces_out, cofaces_in, cofaces_out)
    }

    /// Empty framed poset.
    pub fn empty() -> (r: Self)
        ensures
            r.valid(),
            !r.normal,
            r.levels() == 0,
    {
        FramedPoset::from_faces(Vec::new(), Vec::new(), Vec::new())
    }

    /// The point: one 0-cell with empty basis.
    pub fn point() -> (r: Self)
        ensures
            r.valid(),
            !r.normal,
            r.levels() == 1,
            r.size(0) == 1,
            r.basis_at(0, 0) == Seq::<usize>::empty(),
    {
        let basis = vec![vec![Vec::new()]];
        let faces_in = vec![vec![Vec::new()]];
        let faces_out = vec![vec![Vec::new()]];
        proof {
            assert(entry(basis, 0, 0).len() == 0);
            assert(entry(faces_in, 0, 0).len() == 0);
            assert(entry(faces_out, 0, 0).len() == 0);
        }
        FramedPoset::from_faces(basis, faces_in, faces_out)
    }

    /// Highest basis cardinality present, or `-1` for empty.
    pub fn dim(&self) -> (r: isize)
        ensures
            r == self.dim,
    {
        self.dim
    }

    /// Whether this framed poset is known to be in canonical normal form.
    pub fn is_normal(&self) -> (r: bool)
        ensures
            r == self.normal,
    {
        self.normal
    }

    /// Number of cells at each basis cardinality.
    pub fn sizes(&self) -> (r: Vec<usize>)
        ensures
            r@ == self.size_seq(),
    {
        let n = self.basis.len();
        let mut r: Vec<usize> = Vec::new();
        for d in 0..n
            invariant
                n == self.basis@.len(),
                r@ == self.size_seq().take(d as int),
        {
            r.push(self.basis[d].len());
            proof {
                assert(r@ =~= self.size_seq().take(d + 1));
            }
        }
        proof {
            assert(r@ =~= self.size_seq());
        }
        r
    }

    /// Basis of a cell.
    pub fn basis_of(&self, dim: usize, pos: usize) -> (r: &IntSet)
        requires
            self.cell(dim as int, pos as int),
        ensures
            r@ == self.basis_at(dim as int, pos as int),
    {
        &self.basis[dim][pos]
    }

    /// Signed faces of a cell.
    pub fn faces_of(&self, sign: Sign, dim: usize, pos: usize) -> (r: &IntSet)
        requires
            dim < self.face_table(sign)@.len(),
            pos < self.face_table(sign)@[dim as int]@.len(),
        ensures
            r@ == self.faces(sign, dim as int, pos as int),
    {
        match sign {
            Sign::Input => &self.faces_in[dim][pos],
            Sign::Output => &self.faces_out[dim][pos],
        }
    }

    /// Signed cofaces of a cell.
    pub fn cofaces_of(&self, sign: Sign, dim: usize, pos: usize) -> (r: &IntSet)
        requires
            dim < self.coface_table(sign)@.len(),
            pos < self.coface_table(sign)@[dim as int]@.len(),
        ensures
            r@ == self.cofaces(sign, dim as int, pos as int),
    {
        match sign {
            Sign::Input => &self.cofaces_in[dim][pos],
            Sign::Output => &self.cofaces_out[dim][pos],
        }
    }

    /// Structural equality of basis and signed face tables.
    ///
    /// The derived [`Self::is_normal`] marker is not part of the mathematical
    /// framed poset and is therefore ignored.
    pub fn equal(a: &Self, b: &Self) -> (r: bool)
        ensures
            r == a.same_poset(b),
    {
        tables_equal(&a.basis, &b.basis) && tables_equal(&a.faces_in, &b.faces_in)
            && tables_equal(&a.faces_out, &b.faces_out)
    }

    /// True if the cell is orthogonal to `direction`.
    pub fn is_orthogonal_to(&self, dim: usize, pos: usize, direction: usize) -> (r: bool)
        requires
            self.valid(),
            self.cell(dim as int, pos as int),
        ensures
            r == !self.basis_at(dim as int, pos as int).contains(direction),
    {
        proof {
            assert(strictly_sorted(self.basis_at(dim as int, pos as int)));
        }
        let (found, _) = intset::search(self.basis[dim][pos].as_slice(), direction);
        !found
    }
}

impl FramedPoset {
    /// Direction `v` occurs in the basis of some cell.
    pub open spec fn is_active(&self, v: usize) -> bool {
        exists|d: int, p: int| self.cell(d, p) && #[trigger] self.basis_at(d, p).contains(v)
    }

    /// Cell `(d, p)` has no cofaces of either sign.
    pub open spec fn is_maximal(&self, d: int, p: int) -> bool {
        &&& self.cofaces(Sign::Input, d, p).len() == 0
        &&& self.cofaces(Sign::Output, d, p).len() == 0
    }

    /// Sorted directions occurring in the basis of at least one cell.
    pub fn active_directions(&self) -> (r: IntSet)
        requires
            self.valid(),
        ensures
            strictly_sorted(r@),
            forall|v: usize| r@.contains(v) <==> self.is_active(v),
    {
        let mut r: Vec<usize> = Vec::new();
        let n = self.basis.len();
        for d in 0..n
            invariant
                n == self.basis@.len(),
                self.valid(),
                strictly_sorted(r@),
                forall|v: usize| r@.contains(v) <==> exists|e: int, p: int|
                    0 <= e < d && 0 <= p < self.size(e) && #[trigger] self.basis_at(e, p).contains(v),
        {
            let m = self.basis[d].len();
            for p in 0..m
                invariant
                    n == self.basis@.len(),
                    d < n,
                    m == self.size(d as int),
                    self.valid(),
                    strictly_sorted(r@),
                    forall|v: usize| r@.contains(v) <==> exists|e: int, q: int|
                        ((0 <= e < d && 0 <= q < self.size(e)) || (e == d && 0 <= q < p)) && #[trigger] self.basis_at(e, q).contains(v),
            {
                let k = self.basis[d][p].len();
                for i in 0..k
                    invariant
                        n == self.basis@.len(),
                        d < n,
                        p < m,
                        m == self.size(d as int),
                        k == self.basis_at(d as int, p as int).len(),
                        self.valid(),
                        strictly_sorted(r@),
                        forall|v: usize| r@.contains(v) <==> (exists|e: int, q: int|
                            ((0 <= e < d && 0 <= q < self.size(e)) || (e == d && 0 <= q < p)) && #[trigger] self.basis_at(e, q).contains(v))
                            || self.basis_at(d as int, p as int).take(i as int).contains(v),
                {
                    let x = self.basis[d][p][i];
                    intset::insert(&mut r, x);
                    proof {
                        let b = self.basis_at(d as int, p as int);
                        let t0 = b.take(i as int);
                        let t1 = b.take(i + 1);
                        assert(t1 == t0.push(x));
                        assert forall|v: usize| t1.contains(v) <==> (t0.contains(v) || v == x) by {
                            if t1.contains(v) {
                                let j = choose|j: int| 0 <= j < t1.len() && t1[j] == v;
                                if j < i {
                                    assert(t0[j] == v);
                                }
                            }
                            if t0.contains(v) {
                                let j = choose|j: int| 0 <= j < t0.len() && t0[j] == v;
                                assert(t1[j] == v);
                            }
                            if v == x {
                                assert(t1[i as int] == v);
                            }
                        }
                    }
                }
                proof {
                    let b = self.basis_at(d as int, p as int);
                    assert(b.take(k as int) == b);
                    assert forall|v: usize| r@.contains(v) <==> exists|e: int, q: int|
                        ((0 <= e < d && 0 <= q < self.size(e)) || (e == d && 0 <= q < p + 1)) && #[trigger] self.basis_at(e, q).contains(v) by {
                        if b.contains(v) {
                            assert(self.basis_at(d as int, p as int).contains(v));
                        }
                    }
                }
            }
            proof {
                assert forall|v: usize| r@.contains(v) <==> exists|e: int, q: int|
                    0 <= e < d + 1 && 0 <= q < self.size(e) && #[trigger] self.basis_at(e, q).contains(v) by {
                    if r@.contains(v) {
                        let (e, q) = choose|e: int, q: int|
                            ((0 <= e < d && 0 <= q < self.size(e)) || (e == d && 0 <= q < m)) && #[trigger] self.basis_at(e, q).contains(v);
                        assert(0 <= e < d + 1 && 0 <= q < self.size(e) && self.basis_at(e, q).contains(v));
                    }
                }
            }
        }
        r
    }

    /// Cell `(d, p)` is maximal and no other cell is.
    pub open spec fn only_maximal(&self, d: int, p: int) -> bool {
        &&& self.cell(d, p)
        &&& self.is_maximal(d, p)
        &&& forall|e: int, q: int| #[trigger] self.cell(e, q) && self.is_maximal(e, q) ==> e == d && q == p
    }

    /// Basis of a cell named by an element.
    pub fn basis_of_element(&self, element: Element) -> (r: &IntSet)
        requires
            self.cell(element.dim as int, element.pos as int),
        ensures
            r@ == self.basis_at(element.dim as int, element.pos as int),
    {
        &self.basis[element.dim][element.pos]
    }

    /// The greatest element: the one maximal cell, when there is exactly one.
    pub fn greatest_element(&self) -> (r: Option<Element>)
        requires
            self.valid(),
        ensures
            r matches Some(x) ==> self.only_maximal(x.dim as int, x.pos as int),
            r is None ==> forall|d: int, p: int| !self.only_maximal(d, p),
    {
        let mut found: Option<Element> = None;
        let n = self.basis.len();
        for d in 0..n
            invariant
                n == self.levels(),
                self.valid(),
                found matches Some(x) ==> x.dim < d && self.cell(x.dim as int, x.pos as int) && self.is_maximal(x.dim as int, x.pos as int)
                    && forall|e: int, q: int| 0 <= e < d && #[trigger] self.cell(e, q) && self.is_maximal(e, q) ==> e == x.dim && q == x.pos,
                found is None ==> forall|e: int, q: int| 0 <= e < d && #[trigger] self.cell(e, q) ==> !self.is_maximal(e, q),
        {
            let m = self.basis[d].len();
            for p in 0..m
                invariant
                    n == self.levels(),
                    d < n,
                    m == self.size(d as int),
                    self.valid(),
                    found matches Some(x) ==> (x.dim < d || (x.dim == d && x.pos < p)) && self.cell(x.dim as int, x.pos as int)
                        && self.is_maximal(x.dim as int, x.pos as int)
                        && forall|e: int, q: int| (0 <= e < d || (e == d && q < p)) && #[trigger] self.cell(e, q) && self.is_maximal(e, q)
                            ==> e == x.dim && q == x.pos,
                    found is None ==> forall|e: int, q: int| (0 <= e < d || (e == d && q < p)) && #[trigger] self.cell(e, q) ==> !self.is_maximal(e, q),
            {
                if self.cofaces_in[d][p].len() == 0 && self.cofaces_out[d][p].len() == 0 {
                    proof {
                        assert(self.is_maximal(d as int, p as int));
                    }
                    if let Some(x) = found {
                        proof {
                            assert forall|e: int, q: int| !self.only_maximal(e, q) by {
                                if self.only_maximal(e, q) {
                                    assert(self.cell(x.dim as int, x.pos as int));
                                    assert(self.cell(d as int, p as int));
                                }
                            }
                        }
                        return None;
                    }
                    found = Some(Element { dim: d, pos: p });
                }
            }
        }
        proof {
            if found is None {
                assert forall|e: int, q: int| !self.only_maximal(e, q) by {
                    if self.only_maximal(e, q) {
                        assert(self.cell(e, q));
                    }
                }
            }
        }
        found
    }

    /// Cells at `dim` with no cofaces of either sign.
    pub fn maximal(&self, dim: usize) -> (r: IntSet)
        requires
            self.valid(),
        ensures
            strictly_sorted(r@),
            forall|p: usize| r@.contains(p) <==> (self.cell(dim as int, p as int) && self.is_maximal(dim as int, p as int)),
    {
        if self.dim < 0 || dim > self.dim as usize {
            return Vec::new();
        }
        let n = self.basis[dim].len();
        let mut r: Vec<usize> = Vec::new();
        for p in 0..n
            invariant
                self.valid(),
                dim < self.levels(),
                n == self.size(dim as int),
                strictly_sorted(r@),
                forall|i: int| 0 <= i < r@.len() ==> r@[i] < p,
                forall|q: usize| r@.contains(q) <==> (q < p && self.is_maximal(dim as int, q as int)),
        {
            if self.cofaces_in[dim][p].len() == 0 && self.cofaces_out[dim][p].len() == 0 {
                let ghost old_r = r@;
                r.push(p);
                proof {
                    assert forall|q: usize| r@.contains(q) <==> (q < p + 1 && self.is_maximal(dim as int, q as int)) by {
                        if r@.contains(q) && q != p {
                            let j = choose|j: int| 0 <= j < r@.len() && r@[j] == q;
                            assert(old_r[j] == q);
                        }
                        if q < p && self.is_maximal(dim as int, q as int) {
                            let j = choose|j: int| 0 <= j < old_r.len() && old_r[j] == q;
                            assert(r@[j] == q);
                        }
                        if q == p {
                            assert(r@[old_r.len() as int] == q);
                        }
                    }
                }
            }
        }
        r
    }
}

/// Increase every direction in every cell basis by one.
///
/// Signed cover relations and cell indices are unchanged. The result is not
/// marked as normalized.
pub fn shift(shape: &FramedPoset) -> (shifted: FramedPoset)
    requires
        shape.valid(),
        forall|d: int, p: int, i: int|
            shape.cell(d, p) && 0 <= i < shape.basis_at(d, p).len() ==> #[trigger] shape.basis_at(d, p)[i] < usize::MAX,
    ensures
        shifted.valid(),
        !shifted.normal,
        shifted.levels() == shape.levels(),
        forall|d: int| 0 <= d < shape.levels() ==> #[trigger] shifted.size(d) == shape.size(d),
        forall|d: int, p: int| shape.cell(d, p) ==> #[trigger] shifted.basis_at(d, p) == shape.basis_at(d, p).map_values(|x: usize| (x + 1) as usize),
        same_table(shifted.faces_in, shape.faces_in),
        same_table(shifted.faces_out, shape.faces_out),
        same_table(shifted.cofaces_in, shape.cofaces_in),
        same_table(shifted.cofaces_out, shape.cofaces_out),
{
    let mut basis: Vec<Vec<IntSet>> = Vec::new();
    let n = shape.basis.len();
    for d in 0..n
        invariant
            n == shape.basis@.len(),
            shape.valid(),
            forall|d: int, p: int, i: int|
                shape.cell(d, p) && 0 <= i < shape.basis_at(d, p).len() ==> #[trigger] shape.basis_at(d, p)[i] < usize::MAX,
            basis@.len() == d,
            forall|e: int| 0 <= e < d ==> #[trigger] basis@[e]@.len() == shape.size(e),
            forall|e: int, p: int| 0 <= e < d && 0 <= p < shape.size(e) ==>
                #[trigger] entry(basis, e, p) == shape.basis_at(e, p).map_values(|x: usize| (x + 1) as usize),
    {
        let m = shape.basis[d].len();
        let mut level: Vec<IntSet> = Vec::new();
        for p in 0..m
            invariant
                n == shape.basis@.len(),
                d < n,
                m == shape.size(d as int),
                shape.valid(),
                forall|d: int, p: int, i: int|
                    shape.cell(d, p) && 0 <= i < shape.basis_at(d, p).len() ==> #[trigger] shape.basis_at(d, p)[i] < usize::MAX,
                level@.len() == p,
                forall|q: int| 0 <= q < p ==> #[trigger] level@[q]@ == shape.basis_at(d as int, q).map_values(|x: usize| (x + 1) as usize),
        {
            let k = shape.basis[d][p].len();
            let mut set: Vec<usize> = Vec::new();
            for i in 0..k
                invariant
                    n == shape.basis@.len(),
                    d < n,
                    p < m,
                    m == shape.size(d as int),
                    k == shape.basis_at(d as int, p as int).len(),
                    forall|d: int, p: int, i: int|
                        shape.cell(d, p) && 0 <= i < shape.basis_at(d, p).len() ==> #[trigger] shape.basis_at(d, p)[i] < usize::MAX,
                    set@ == shape.basis_at(d as int, p as int).take(i as int).map_values(|x: usize| (x + 1) as usize),
            {
                let x = shape.basis[d][p][i];
                proof {
                    assert(shape.basis_at(d as int, p as int)[i as int] < usize::MAX);
                }
                set.push(x + 1);
                proof {
                    assert(set@ =~= shape.basis_at(d as int, p as int).take(i + 1).map_values(|x: usize| (x + 1) as usize));
                }
            }
            proof {
                assert(shape.basis_at(d as int, p as int).take(k as int) == shape.basis_at(d as int, p as int));
            }
            level.push(set);
        }
        let ghost before = basis;
        basis.push(level);
        proof {
            assert forall|e: int, p: int| 0 <= e < d + 1 && 0 <= p < shape.size(e) implies
                #[trigger] entry(basis, e, p) == shape.basis_at(e, p).map_values(|x: usize| (x + 1) as usize) by {
                if e < d {
                    assert(basis@[e] == before@[e]);
                    assert(entry(before, e, p) == shape.basis_at(e, p).map_values(|x: usize| (x + 1) as usize));
                } else {
                    assert(basis@[e] == level);
                }
            }
        }
    }
    proof {
        assert forall|d: int, p: int| 0 <= d < basis@.len() && 0 <= p < basis@[d]@.len() implies strictly_sorted(#[trigger] entry(basis, d, p)) by {
            assert(strictly_sorted(shape.basis_at(d, p)));
        }
    }
    let faces_in = copy_table(&shape.faces_in);
    let faces_out = copy_table(&shape.faces_out);
    let cofaces_in = copy_table(&shape.cofaces_in);
    let cofaces_out = copy_table(&shape.cofaces_out);
    let shifted = FramedPoset::make(basis, faces_in, faces_out, cofaces_in, cofaces_out);
    proof {
        lemma_same_tables_valid(*shape, shifted);
    }
    shifted
}

/// A copy of a framed poset, with its normal-form marker.
pub(crate) fn copy_poset(x: &FramedPoset) -> (r: FramedPoset)
    requires
        x.valid(),
    ensures
        r.same_poset(x),
        r.normal == x.normal,
        r.valid(),
        same_table(r.cofaces_in, x.cofaces_in),
        same_table(r.cofaces_out, x.cofaces_out),
        r.dim == x.dim,
{
    let basis = copy_table(&x.basis);
    let faces_in = copy_table(&x.faces_in);
    let faces_out = copy_table(&x.faces_out);
    let cofaces_in = copy_table(&x.cofaces_in);
    let cofaces_out = copy_table(&x.cofaces_out);
    let mut r = FramedPoset::make(basis, faces_in, faces_out, cofaces_in, cofaces_out);
    r.normal = x.normal;
    proof {
        assert forall|d: int, p: int| 0 <= d < r.basis@.len() && 0 <= p < r.basis@[d]@.len() implies strictly_sorted(#[trigger] entry(r.basis, d, p)) by {
            assert(entry(r.basis, d, p) == entry(x.basis, d, p));
        }
        assert forall|d: int| 0 <= d < x.levels() implies #[trigger] r.size(d) == x.size(d) by {
            assert(r.basis@[d]@.len() == x.basis@[d]@.len());
        }
        lemma_same_tables_valid(*x, r);
    }
    r
}

/// A copy of a table of integer sets.
pub(crate) fn copy_table(t: &Vec<Vec<IntSet>>) -> (r: Vec<Vec<IntSet>>)
    ensures
        same_table(r, *t),
{
    let n = t.len();
    let mut r: Vec<Vec<IntSet>> = Vec::new();
    for d in 0..n
        invariant
            n == t@.len(),
            r@.len() == d,
            forall|e: int| 0 <= e < d ==> #[trigger] r@[e]@.len() == t@[e]@.len(),
            forall|e: int, p: int| 0 <= e < d && 0 <= p < t@[e]@.len() ==> #[trigger] entry(r, e, p) == entry(*t, e, p),
    {
        let m = t[d].len();
        let mut level: Vec<IntSet> = Vec::new();
        for p in 0..m
            invariant
                d < n,
                n == t@.len(),
                m == t@[d as int]@.len(),
                level@.len() == p,
                forall|q: int| 0 <= q < p ==> #[trigger] level@[q]@ == entry(*t, d as int, q),
        {
            level.push(t[d][p].clone());
        }
        let ghost before = r;
        r.push(level);
        proof {
            assert forall|e: int, p: int| 0 <= e < d + 1 && 0 <= p < t@[e]@.len() implies #[trigger] entry(r, e, p) == entry(*t, e, p) by {
                if e < d {
                    assert(r@[e] == before@[e]);
                    assert(entry(before, e, p) == entry(*t, e, p));
                } else {
                    assert(r@[e] == level);
                }
            }
        }
    }
    r
}

/// Replacing the face and coface tables by copies with the same entries, and
/// the basis by one with the same sortedness and sizes, keeps validity.
pub(crate) proof fn lemma_same_tables_valid(a: FramedPoset, b: FramedPoset)
    requires
        a.valid(),
        b.dim == a.dim,
        b.levels() == a.levels(),
        forall|d: int| 0 <= d < a.levels() ==> #[trigger] b.size(d) == a.size(d),
        table_sorted(b.basis),
        same_table(b.faces_in, a.faces_in),
        same_table(b.faces_out, a.faces_out),
        same_table(b.cofaces_in, a.cofaces_in),
        same_table(b.cofaces_out, a.cofaces_out),
    ensures
        b.valid(),
{
    assert forall|d: int| 0 <= d < b.levels() implies #[trigger] b.basis@[d]@.len() == a.basis@[d]@.len() by {
        assert(b.size(d) == a.size(d));
    }
    assert forall|d: int| #[trigger] rows(b.basis, d) == rows(a.basis, d) by {
        if 0 <= d < b.levels() {
            assert(b.size(d) == a.size(d));
        }
    }
    assert forall|d: int| #[trigger] rows(b.faces_in, d) == rows(a.faces_in, d) by {}
    assert forall|d: int| #[trigger] rows(b.faces_out, d) == rows(a.faces_out, d) by {}
}

/// A subset of cells of a framed poset.
///
/// The `keep` table is indexed by basis cardinality and then cell position,
/// matching [`FramedPoset`]'s internal tables.
#[derive(Debug)]
pub struct FramedPosetSubset {
    pub shape: Arc<FramedPoset>,
    pub keep: Vec<Vec<bool>>,
}

/// Cell `(e, j)` is a signed face of cell `(e + 1, c)`.
pub open spec fn lower_face(shape: FramedPoset, e: int, j: int, c: int) -> bool {
    &&& shape.cell(e + 1, c)
    &&& (shape.faces(Sign::Input, e + 1, c).contains(j as usize) || shape.faces(Sign::Output, e + 1, c).contains(j as usize))
}

/// Cell `(d, p)` is reached from a kept cell by going down along signed faces.
pub open spec fn reach(shape: FramedPoset, keep: spec_fn(int, int) -> bool, d: int, j: int) -> bool
    decreases shape.levels() - d,
{
    if d < 0 || d >= shape.levels() {
        false
    } else {
        keep(d, j) || exists|c: int| #[trigger] lower_face(shape, d, j, c) && reach(shape, keep, d + 1, c)
    }
}

/// The entry `p` of row `d` of a table of flags.
pub open spec fn flag(t: Vec<Vec<bool>>, d: int, p: int) -> bool {
    t@[d]@[p]
}

impl FramedPosetSubset {
    /// The keep table has one flag per cell of the shape.
    pub open spec fn wf(&self) -> bool {
        &&& self.keep@.len() == self.shape.levels()
        &&& forall|d: int| 0 <= d < self.shape.levels() ==> #[trigger] self.keep@[d]@.len() == self.shape.size(d)
    }

    /// The flags as a predicate on cells.
    pub open spec fn kept(&self) -> spec_fn(int, int) -> bool {
        |d: int, p: int| flag(self.keep, d, p)
    }

    /// Construct a subset from a shape and a keep table.
    pub fn make(shape: Arc<FramedPoset>, keep: Vec<Vec<bool>>) -> (r: Self)
        ensures
            r.shape == shape,
            r.keep == keep,
    {
        FramedPosetSubset { shape, keep }
    }

    /// Check that the keep table has one flag per cell of the shape.
    pub fn well_formed(&self) -> (r: bool)
        ensures
            r == self.wf(),
    {
        let sizes = self.shape.sizes();
        if self.keep.len() != sizes.len() {
            return false;
        }
        let n = sizes.len();
        for d in 0..n
            invariant
                n == self.shape.levels(),
                sizes@ == self.shape.size_seq(),
                self.keep@.len() == n,
                forall|e: int| 0 <= e < d ==> #[trigger] self.keep@[e]@.len() == self.shape.size(e),
        {
            if self.keep[d].len() != sizes[d] {
                return false;
            }
        }
        true
    }

    /// The image subset of an embedding in its codomain.
    pub fn from_embedding(embedding: &Embedding) -> (r: Self)
        ensures
            r.shape == embedding.cod,
            r.keep@.len() == embedding.inv@.len(),
            forall|d: int| 0 <= d < embedding.inv@.len() ==> #[trigger] r.keep@[d]@.len() == embedding.inv@[d]@.len(),
            forall|d: int, j: int| 0 <= d < embedding.inv@.len() && 0 <= j < embedding.inv@[d]@.len() ==>
                #[trigger] flag(r.keep, d, j) == (at(embedding.inv, d, j) != NO_PREIMAGE),
    {
        let n = embedding.inv.len();
        let mut keep: Vec<Vec<bool>> = Vec::new();
        for d in 0..n
            invariant
                n == embedding.inv@.len(),
                keep@.len() == d,
                forall|e: int| 0 <= e < d ==> #[trigger] keep@[e]@.len() == embedding.inv@[e]@.len(),
                forall|e: int, j: int| 0 <= e < d && 0 <= j < embedding.inv@[e]@.len() ==>
                    #[trigger] flag(keep, e, j) == (at(embedding.inv, e, j) != NO_PREIMAGE),
        {
            let m = embedding.inv[d].len();
            let mut row: Vec<bool> = Vec::new();
            for j in 0..m
                invariant
                    d < n,
                    n == embedding.inv@.len(),
                    m == embedding.inv@[d as int]@.len(),
                    row@.len() == j,
                    forall|k: int| 0 <= k < j ==> #[trigger] row@[k] == (at(embedding.inv, d as int, k) != NO_PREIMAGE),
            {
                row.push(embedding.inv[d][j] != NO_PREIMAGE);
            }
            let ghost before = keep;
            keep.push(row);
            proof {
                assert forall|e: int| 0 <= e < d + 1 implies #[trigger] keep@[e]@.len() == embedding.inv@[e]@.len() by {
                    if e < d {
                        assert(keep@[e] == before@[e]);
                    }
                }
                assert forall|e: int, j: int| 0 <= e < d + 1 && 0 <= j < embedding.inv@[e]@.len() implies
                    #[trigger] flag(keep, e, j) == (at(embedding.inv, e, j) != NO_PREIMAGE) by {
                    if e < d {
                        assert(keep@[e] == before@[e]);
                        assert(flag(before, e, j) == (at(embedding.inv, e, j) != NO_PREIMAGE));
                    }
                }
            }
        }
        FramedPosetSubset::make(share(&embedding.cod), keep)
    }

    /// True when the subset contains a given cell.
    pub fn contains(&self, dim: usize, pos: usize) -> (r: bool)
        ensures
            r == (dim < self.keep@.len() && pos < self.keep@[dim as int]@.len() && flag(self.keep, dim as int, pos as int)),
    {
        if dim < self.keep.len() && pos < self.keep[dim].len() {
            self.keep[dim][pos]
        } else {
            false
        }
    }

    /// True when every cell in this subset also belongs to `other`.
    ///
    /// The ambient framed posets are compared structurally rather than by
    /// pointer identity.
    pub fn is_subset_of(&self, other: &Self) -> (r: bool)
        ensures
            r == (self.shape.same_poset(&*other.shape) && forall|d: int, p: int|
                0 <= d < self.keep@.len() && d < other.keep@.len() && 0 <= p < self.keep@[d]@.len() && p < other.keep@[d]@.len()
                    ==> (#[trigger] flag(self.keep, d, p) ==> flag(other.keep, d, p))),
    {
        if !FramedPoset::equal(&self.shape, &other.shape) {
            return false;
        }
        let n = if self.keep.len() < other.keep.len() { self.keep.len() } else { other.keep.len() };
        for d in 0..n
            invariant
                n <= self.keep@.len(),
                n <= other.keep@.len(),
                n == self.keep@.len() || n == other.keep@.len(),
                forall|e: int, p: int|
                    0 <= e < d && 0 <= p < self.keep@[e]@.len() && p < other.keep@[e]@.len()
                        ==> (#[trigger] flag(self.keep, e, p) ==> flag(other.keep, e, p)),
        {
            let m = if self.keep[d].len() < other.keep[d].len() { self.keep[d].len() } else { other.keep[d].len() };
            for p in 0..m
                invariant
                    d < n,
                    n <= self.keep@.len(),
                    n <= other.keep@.len(),
                    m <= self.keep@[d as int]@.len(),
                    m <= other.keep@[d as int]@.len(),
                    m == self.keep@[d as int]@.len() || m == other.keep@[d as int]@.len(),
                    forall|e: int, q: int|
                        0 <= e < d && 0 <= q < self.keep@[e]@.len() && q < other.keep@[e]@.len()
                            ==> (#[trigger] flag(self.keep, e, q) ==> flag(other.keep, e, q)),
                    forall|q: int| 0 <= q < p ==> (#[trigger] flag(self.keep, d as int, q) ==> flag(other.keep, d as int, q)),
            {
                if self.keep[d][p] && !other.keep[d][p] {
                    proof {
                        assert(flag(self.keep, d as int, p as int) && !flag(other.keep, d as int, p as int));
                    }
                    return false;
                }
            }
        }
        true
    }
}

/// Compute the smallest closed embedding whose image contains `subset`.
pub fn closure(subset: &FramedPosetSubset) -> (r: (Arc<FramedPoset>, Embedding))
    requires
        subset.shape.valid(),
        subset.wf(),
    ensures
        r.1.valid(),
        r.1.closed(),
        r.1.dom == r.0,
        r.1.cod == subset.shape,
        forall|d: int, j: int| subset.shape.cell(d, j) ==>
            (#[trigger] in_image(r.1.map, d, j) <==> reach(*subset.shape, subset.kept(), d, j)),
        forall|d: int, i: int, k: int| 0 <= d < r.1.map@.len() && 0 <= i < k < r.1.map@[d]@.len() ==>
            #[trigger] at(r.1.map, d, i) < #[trigger] at(r.1.map, d, k),
        r.1.map@.len() > 0 ==> r.1.map@[r.1.map@.len() - 1]@.len() > 0,
{
    let shape = &subset.shape;
    let levels = subset.keep.len();
    let mut keep: Vec<Vec<bool>> = subset.keep.clone();
    let ghost kept = subset.kept();
    proof {
        assert forall|d: int| 0 <= d < levels implies #[trigger] keep@[d]@ == subset.keep@[d]@ by {}
    }
    let mut top: usize = levels;
    while top > 1
        invariant
            shape.valid(),
            subset.wf(),
            levels == shape.levels(),
            top <= levels,
            keep@.len() == levels,
            forall|d: int| 0 <= d < levels ==> #[trigger] keep@[d]@.len() == shape.size(d),
            forall|d: int, j: int| 0 <= d < top - 1 && 0 <= j < shape.size(d) ==> #[trigger] flag(keep, d, j) == flag(subset.keep, d, j),
            forall|d: int, j: int| top - 1 <= d < levels && 0 <= d && 0 <= j < shape.size(d) ==> #[trigger] flag(keep, d, j) == reach(**shape, kept, d, j),
            kept == subset.kept(),
        decreases top,
    {
        let d = top - 1;
        let n = keep[d].len();
        for pos in 0..n
            invariant
                shape.valid(),
                subset.wf(),
                levels == shape.levels(),
                1 <= d < levels,
                top == d + 1,
                n == shape.size(d as int),
                keep@.len() == levels,
                forall|e: int| 0 <= e < levels ==> #[trigger] keep@[e]@.len() == shape.size(e),
                forall|e: int, j: int| 0 <= e < d - 1 && 0 <= j < shape.size(e) ==> #[trigger] flag(keep, e, j) == flag(subset.keep, e, j),
                forall|e: int, j: int| d <= e < levels && 0 <= j < shape.size(e) ==> #[trigger] flag(keep, e, j) == reach(**shape, kept, e, j),
                forall|j: int| 0 <= j < shape.size(d - 1) ==> #[trigger] flag(keep, d - 1, j) == (flag(subset.keep, d - 1, j) || exists|c: int|
                    0 <= c < pos && #[trigger] lower_face(**shape, d - 1, j, c) && reach(**shape, kept, d as int, c)),
                kept == subset.kept(),
        {
            let ghost before = keep;
            if keep[d][pos] {
                for sgn in 0..2usize
                    invariant
                        shape.valid(),
                        subset.wf(),
                        levels == shape.levels(),
                        1 <= d < levels,
                        pos < n,
                        n == shape.size(d as int),
                        keep@.len() == levels,
                        forall|e: int| 0 <= e < levels ==> #[trigger] keep@[e]@.len() == shape.size(e),
                        forall|e: int| 0 <= e < levels && e != d - 1 ==> #[trigger] keep@[e] == before@[e],
                        forall|j: int| 0 <= j < shape.size(d - 1) ==> #[trigger] flag(keep, d - 1, j) == (flag(before, d - 1, j) || (
                            (shape.faces(Sign::Input, d as int, pos as int).contains(j as usize) && sgn > 0) || (shape.faces(Sign::Output, d as int, pos as int).contains(j as usize) && sgn > 1))),
                {
                    let sign = if sgn == 0 { Sign::Input } else { Sign::Output };
                    let faces = shape.faces_of(sign, d, pos);
                    let m = faces.len();
                    let ghost mid = keep;
                    for k in 0..m
                        invariant
                            shape.valid(),
                            levels == shape.levels(),
                            1 <= d < levels,
                            pos < n,
                            n == shape.size(d as int),
                            faces@ == shape.faces(sign, d as int, pos as int),
                            m == faces@.len(),
                            keep@.len() == levels,
                            forall|e: int| 0 <= e < levels ==> #[trigger] keep@[e]@.len() == shape.size(e),
                            forall|e: int| 0 <= e < levels && e != d - 1 ==> #[trigger] keep@[e] == mid@[e],
                            forall|j: int| 0 <= j < shape.size(d - 1) ==> #[trigger] flag(keep, d - 1, j) == (flag(mid, d - 1, j) || faces@.take(k as int).contains(j as usize)),
                    {
                        let f = faces[k];
                        proof {
                            assert(shape.faces(sign, d as int, pos as int)[k as int] < shape.size(d - 1));
                        }
                        let ghost b2 = keep;
                        keep[d - 1][f] = true;
                        proof {
                            assert forall|e: int| 0 <= e < levels && e != d - 1 implies #[trigger] keep@[e] == mid@[e] by {
                                assert(keep@[e] == b2@[e]);
                            }
                            assert forall|j: int| 0 <= j < shape.size(d - 1) implies #[trigger] flag(keep, d - 1, j) == (flag(mid, d - 1, j) || faces@.take(k + 1).contains(j as usize)) by {
                                let t0 = faces@.take(k as int);
                                let t1 = faces@.take(k + 1);
                                assert(t1 == t0.push(f));
                                assert(t1[k as int] == f);
                                assert(shape.basis@[d - 1].len() == shape.basis@[d - 1]@.len());
                                if t1.contains(j as usize) && j != f {
                                    let x = choose|x: int| 0 <= x < t1.len() && t1[x] == j as usize;
                                    assert(x != k);
                                    assert(t0[x] == j as usize);
                                }
                                if t0.contains(j as usize) {
                                    let x = choose|x: int| 0 <= x < t0.len() && t0[x] == j as usize;
                                    assert(t1[x] == j as usize);
                                }
                                if j == f {
                                    assert(t1[k as int] == f);
                                }
                                assert(flag(b2, d - 1, j) == (flag(mid, d - 1, j) || t0.contains(j as usize)));
                                assert(flag(keep, d - 1, j) == (flag(b2, d - 1, j) || j == f));
                            }
                        }
                    }
                    proof {
                        assert(faces@.take(m as int) == faces@);
                        assert forall|j: int| 0 <= j < shape.size(d - 1) implies #[trigger] flag(keep, d - 1, j) == (flag(before, d - 1, j) || (
                            (shape.faces(Sign::Input, d as int, pos as int).contains(j as usize) && sgn + 1 > 0) || (shape.faces(Sign::Output, d as int, pos as int).contains(j as usize) && sgn + 1 > 1))) by {
                            assert(flag(mid, d - 1, j) == (flag(before, d - 1, j) || (
                                (shape.faces(Sign::Input, d as int, pos as int).contains(j as usize) && sgn > 0) || (shape.faces(Sign::Output, d as int, pos as int).contains(j as usize) && sgn > 1))));
                        }
                    }
                }
            }
            proof {
                assert(keep@[d as int] == before@[d as int]);
                assert(flag(before, d as int, pos as int) == reach(**shape, kept, d as int, pos as int));
                assert(flag(keep, d as int, pos as int) == reach(**shape, kept, d as int, pos as int));
                assert forall|e: int, j: int| 0 <= e < levels && e != d - 1 && 0 <= j < shape.size(e) implies #[trigger] flag(keep, e, j) == flag(before, e, j) by {
                    assert(keep@[e] == before@[e]);
                }
                assert forall|j: int| 0 <= j < shape.size(d - 1) implies #[trigger] flag(keep, d - 1, j) == (flag(subset.keep, d - 1, j) || exists|c: int|
                    0 <= c < pos + 1 && #[trigger] lower_face(**shape, d - 1, j, c) && reach(**shape, kept, d as int, c)) by {
                    assert(flag(before, d - 1, j) == (flag(subset.keep, d - 1, j) || exists|c: int|
                        0 <= c < pos && #[trigger] lower_face(**shape, d - 1, j, c) && reach(**shape, kept, d as int, c)));
                    if lower_face(**shape, d - 1, j, pos as int) && reach(**shape, kept, d as int, pos as int) {
                        assert(flag(keep, d - 1, j));
                    }
                    if flag(keep, d - 1, j) && !flag(before, d - 1, j) {
                        assert(lower_face(**shape, d - 1, j, pos as int));
                    }
                }
            }
        }
        proof {
            assert forall|e: int, j: int| d - 1 <= e < levels && 0 <= j < shape.size(e) implies #[trigger] flag(keep, e, j) == reach(**shape, kept, e, j) by {
                if e == d - 1 {
                    if reach(**shape, kept, e, j) && !kept(e, j) {
                        let c = choose|c: int| #[trigger] lower_face(**shape, e, j, c) && reach(**shape, kept, e + 1, c);
                        assert(0 <= c < n);
                    }
                }
            }
        }
        top = d;
    }
    proof {
        assert forall|d: int, j: int| 0 <= d < levels && 0 <= j < shape.size(d) implies #[trigger] flag(keep, d, j) == reach(**shape, kept, d, j) by {
            if top == levels && d == levels - 1 {
                assert(reach(**shape, kept, d, j) == kept(d, j));
            }
        }
    }
    let closed_subset = FramedPosetSubset::make(share(shape), keep);
    proof {
        assert forall|s: Sign, d: int, p: int, k: int|
            1 <= d && closed_subset.shape.cell(d, p) && flag(closed_subset.keep, d, p) && 0 <= k < closed_subset.shape.faces(s, d, p).len()
                implies flag(closed_subset.keep, d - 1, #[trigger] closed_subset.shape.faces(s, d, p)[k] as int) by {
            let f = shape.faces(s, d, p)[k];
            assert(f < shape.size(d - 1));
            assert(shape.faces(s, d, p).contains(f));
            assert(reach(**shape, kept, d, p));
            assert(lower_face(**shape, d - 1, f as int, p)) by {
                match s {
                    Sign::Input => {}
                    Sign::Output => {}
                }
            }
            assert(reach(**shape, kept, d - 1, f as int));
        }
    }
    embedding_from_closed_subset(&closed_subset)
}

/// `row` lists, in increasing order, the kept positions of level `d` of `keep`,
/// and row `d` of `inv` sends each kept position to its index in `row` and every
/// other position to [`NO_PREIMAGE`].
pub open spec fn kept_row(keep: Vec<Vec<bool>>, inv: Vec<Vec<usize>>, d: int, row: Seq<usize>) -> bool {
    &&& strictly_sorted(row)
    &&& forall|k: int| 0 <= k < row.len() ==> #[trigger] row[k] < keep@[d]@.len()
    &&& forall|k: int| 0 <= k < row.len() ==> flag(keep, d, #[trigger] row[k] as int)
    &&& forall|j: int| 0 <= j < keep@[d]@.len() ==> (#[trigger] flag(keep, d, j) ==> at(inv, d, j) < row.len() && row[at(inv, d, j) as int] == j)
    &&& forall|j: int| 0 <= j < keep@[d]@.len() ==> (!#[trigger] flag(keep, d, j) ==> at(inv, d, j) == NO_PREIMAGE)
    &&& forall|k: int| 0 <= k < row.len() ==> #[trigger] at(inv, d, row[k] as int) == k
}

/// Record the kept positions of level `d`, filling row `d` of `inv`.
fn kept_positions(keep: &Vec<Vec<bool>>, inv: &mut Vec<Vec<usize>>, d: usize) -> (row: Vec<usize>)
    requires
        d < keep@.len(),
        d < old(inv)@.len(),
        old(inv)@[d as int]@.len() == keep@[d as int]@.len(),
        forall|j: int| 0 <= j < keep@[d as int]@.len() ==> #[trigger] at(*old(inv), d as int, j) == NO_PREIMAGE,
    ensures
        final(inv)@.len() == old(inv)@.len(),
        forall|e: int| 0 <= e < old(inv)@.len() && e != d ==> #[trigger] final(inv)@[e] == old(inv)@[e],
        final(inv)@[d as int]@.len() == keep@[d as int]@.len(),
        kept_row(*keep, *final(inv), d as int, row@),
{
    let n = keep[d].len();
    let mut row: Vec<usize> = Vec::new();
    for old_pos in 0..n
        invariant
            d < keep@.len(),
            d < inv@.len(),
            n == keep@[d as int]@.len(),
            inv@.len() == old(inv)@.len(),
            forall|e: int| 0 <= e < old(inv)@.len() && e != d ==> #[trigger] inv@[e] == old(inv)@[e],
            inv@[d as int]@.len() == n,
            strictly_sorted(row@),
            forall|k: int| 0 <= k < row@.len() ==> #[trigger] row@[k] < old_pos,
            forall|k: int| 0 <= k < row@.len() ==> flag(*keep, d as int, #[trigger] row@[k] as int),
            forall|j: int| 0 <= j < old_pos ==> (#[trigger] flag(*keep, d as int, j) ==> at(*inv, d as int, j) < row@.len() && row@[at(*inv, d as int, j) as int] == j),
            forall|j: int| 0 <= j < old_pos ==> (!#[trigger] flag(*keep, d as int, j) ==> at(*inv, d as int, j) == NO_PREIMAGE),
            forall|j: int| old_pos <= j < n ==> #[trigger] at(*inv, d as int, j) == NO_PREIMAGE,
            forall|k: int| 0 <= k < row@.len() ==> #[trigger] at(*inv, d as int, row@[k] as int) == k,
    {
        if keep[d][old_pos] {
            let ghost before = *inv;
            let ghost old_row = row@;
            inv[d][old_pos] = row.len();
            row.push(old_pos);
            proof {
                assert forall|j: int| 0 <= j < n && j != old_pos implies #[trigger] at(*inv, d as int, j) == at(before, d as int, j) by {}
                assert forall|e: int| 0 <= e < old(inv)@.len() && e != d implies #[trigger] inv@[e] == old(inv)@[e] by {
                    assert(inv@[e] == before@[e]);
                }
                assert forall|k: int| 0 <= k < row@.len() implies #[trigger] at(*inv, d as int, row@[k] as int) == k by {
                    if k < old_row.len() {
                        assert(row@[k] == old_row[k]);
                        assert(at(before, d as int, old_row[k] as int) == k);
                    }
                }
            }
        }
    }
    row
}

/// The images under `inv_row` of a set of positions, sorted.
fn remap_set(set: &IntSet, inv: &Vec<Vec<usize>>, d: usize) -> (r: IntSet)
    requires
        d < inv@.len(),
        forall|k: int| 0 <= k < set@.len() ==> #[trigger] set@[k] < inv@[d as int]@.len(),
    ensures
        strictly_sorted(r@),
        forall|v: usize| r@.contains(v) <==> exists|k: int| 0 <= k < set@.len() && #[trigger] at(*inv, d as int, set@[k] as int) == v,
{
    let n = set.len();
    let mut items: Vec<usize> = Vec::new();
    for k in 0..n
        invariant
            n == set@.len(),
            d < inv@.len(),
            forall|k: int| 0 <= k < set@.len() ==> #[trigger] set@[k] < inv@[d as int]@.len(),
            items@.len() == k,
            forall|i: int| 0 <= i < k ==> #[trigger] items@[i] == at(*inv, d as int, set@[i] as int),
    {
        let x = set[k];
        items.push(inv[d][x]);
    }
    let r = intset::collect_sorted(items);
    proof {
        assert forall|v: usize| r@.contains(v) <==> exists|k: int| 0 <= k < set@.len() && #[trigger] at(*inv, d as int, set@[k] as int) == v by {
            if items@.contains(v) {
                let i = choose|i: int| 0 <= i < items@.len() && items@[i] == v;
                assert(at(*inv, d as int, set@[i] as int) == v);
            }
            if exists|k: int| 0 <= k < set@.len() && #[trigger] at(*inv, d as int, set@[k] as int) == v {
                let k = choose|k: int| 0 <= k < set@.len() && #[trigger] at(*inv, d as int, set@[k] as int) == v;
                assert(items@[k] == v);
            }
        }
    }
    r
}

impl FramedPosetSubset {
    /// Every signed face of a kept cell is kept.
    pub open spec fn down_closed(&self) -> bool {
        forall|s: Sign, d: int, p: int, k: int|
            1 <= d && self.shape.cell(d, p) && flag(self.keep, d, p) && 0 <= k < self.shape.faces(s, d, p).len()
                ==> flag(self.keep, d - 1, #[trigger] self.shape.faces(s, d, p)[k] as int)
    }
}

fn embedding_from_closed_subset(subset: &FramedPosetSubset) -> (r: (Arc<FramedPoset>, Embedding))
    requires
        subset.shape.valid(),
        subset.wf(),
        subset.down_closed(),
    ensures
        r.1.valid(),
        r.1.closed(),
        r.1.dom == r.0,
        r.1.cod == subset.shape,
        forall|d: int, j: int| subset.shape.cell(d, j) ==> (#[trigger] in_image(r.1.map, d, j) <==> flag(subset.keep, d, j)),
        forall|d: int, i: int, k: int| 0 <= d < r.1.map@.len() && 0 <= i < k < r.1.map@[d]@.len() ==>
            #[trigger] at(r.1.map, d, i) < #[trigger] at(r.1.map, d, k),
        r.1.map@.len() > 0 ==> r.1.map@[r.1.map@.len() - 1]@.len() > 0,
{
    let shape = &subset.shape;
    let keep = &subset.keep;
    let levels = keep.len();
    let mut count: usize = 0;
    for d in 0..levels
        invariant
            levels == keep@.len(),
            count <= d,
            forall|e: int, j: int| count <= e < d && 0 <= j < keep@[e]@.len() ==> !#[trigger] flag(*keep, e, j),
            count > 0 ==> exists|j: int| 0 <= j < keep@[count - 1]@.len() && #[trigger] flag(*keep, count - 1, j),
    {
        let m = keep[d].len();
        let mut any = false;
        for j in 0..m
            invariant
                d < levels,
                levels == keep@.len(),
                m == keep@[d as int]@.len(),
                !any ==> forall|k: int| 0 <= k < j ==> !#[trigger] flag(*keep, d as int, k),
                any ==> exists|k: int| 0 <= k < keep@[d as int]@.len() && #[trigger] flag(*keep, d as int, k),
        {
            if keep[d][j] {
                any = true;
                proof {
                    assert(flag(*keep, d as int, j as int));
                }
            }
        }
        if any {
            count = d + 1;
            proof {
                let k = choose|k: int| 0 <= k < keep@[d as int]@.len() && #[trigger] flag(*keep, d as int, k);
                assert(flag(*keep, count - 1, k));
            }
        }
    }
    if count == 0 {
        let e = Embedding::empty(share(shape));
        let dom = share(&e.dom);
        proof {
            assert forall|d: int, j: int| subset.shape.cell(d, j) implies (#[trigger] in_image(e.map, d, j) <==> flag(subset.keep, d, j)) by {}
        }
        return (dom, e);
    }
    let sizes = shape.sizes();
    let mut inv: Vec<Vec<usize>> = Vec::new();
    for d in 0..levels
        invariant
            levels == shape.levels(),
            sizes@ == shape.size_seq(),
            inv@.len() == d,
            forall|e: int| 0 <= e < d ==> #[trigger] inv@[e]@.len() == shape.size(e),
            forall|e: int, j: int| 0 <= e < d && 0 <= j < inv@[e]@.len() ==> #[trigger] at(inv, e, j) == NO_PREIMAGE,
    {
        let row = vec![NO_PREIMAGE; sizes[d]];
        let ghost before = inv;
        inv.push(row);
        proof {
            assert(sizes@[d as int] == shape.size(d as int));
            assert forall|e: int| 0 <= e < d + 1 implies #[trigger] inv@[e]@.len() == shape.size(e) by {
                if e < d {
                    assert(inv@[e] == before@[e]);
                }
            }
            assert forall|e: int, j: int| 0 <= e < d + 1 && 0 <= j < inv@[e]@.len() implies #[trigger] at(inv, e, j) == NO_PREIMAGE by {
                if e < d {
                    assert(inv@[e] == before@[e]);
                    assert(at(before, e, j) == NO_PREIMAGE);
                }
            }
        }
    }
    let mut map: Vec<Vec<usize>> = Vec::new();
    for d in 0..count
        invariant
            shape.valid(),
            subset.wf(),
            keep == &subset.keep,
            shape == &subset.shape,
            shape == &subset.shape,
            levels == shape.levels(),
            count <= levels,
            inv@.len() == levels,
            forall|e: int| 0 <= e < levels ==> #[trigger] inv@[e]@.len() == shape.size(e),
            forall|e: int, j: int| d <= e < levels && 0 <= j < inv@[e]@.len() ==> #[trigger] at(inv, e, j) == NO_PREIMAGE,
            map@.len() == d,
            forall|e: int| 0 <= e < d ==> #[trigger] kept_row(*keep, inv, e, map@[e]@),
            forall|e: int, j: int| count <= e < levels && 0 <= j < keep@[e]@.len() ==> !#[trigger] flag(*keep, e, j),
    {
        let ghost before = inv;
        let row = kept_positions(keep, &mut inv, d);
        let ghost before_map = map;
        map.push(row);
        proof {
            assert forall|e: int| 0 <= e < d + 1 implies #[trigger] kept_row(*keep, inv, e, map@[e]@) by {
                if e < d {
                    assert(map@[e] == before_map@[e]);
                    assert(kept_row(*keep, before, e, map@[e]@));
                    assert(inv@[e] == before@[e]);
                }
            }
            assert forall|e: int, j: int| d + 1 <= e < levels && 0 <= j < inv@[e]@.len() implies #[trigger] at(inv, e, j) == NO_PREIMAGE by {
                assert(inv@[e] == before@[e]);
                assert(at(before, e, j) == NO_PREIMAGE);
            }
        }
    }
    let mut basis: Vec<Vec<IntSet>> = Vec::new();
    let mut faces_in: Vec<Vec<IntSet>> = Vec::new();
    let mut faces_out: Vec<Vec<IntSet>> = Vec::new();
    for d in 0..count
        invariant
            shape.valid(),
            subset.wf(),
            keep == &subset.keep,
            shape == &subset.shape,
            subset.down_closed(),
            levels == shape.levels(),
            count <= levels,
            inv@.len() == levels,
            forall|e: int| 0 <= e < levels ==> #[trigger] inv@[e]@.len() == shape.size(e),
            map@.len() == count,
            forall|e: int| 0 <= e < count ==> #[trigger] kept_row(*keep, inv, e, map@[e]@),
            basis@.len() == d,
            faces_in@.len() == d,
            faces_out@.len() == d,
            forall|e: int, j: int| count <= e < levels && 0 <= j < keep@[e]@.len() ==> !#[trigger] flag(*keep, e, j),
            forall|e: int, j: int| count <= e < levels && 0 <= j < inv@[e]@.len() ==> #[trigger] at(inv, e, j) == NO_PREIMAGE,
            forall|e: int| 0 <= e < d ==> #[trigger] basis@[e]@.len() == map@[e]@.len(),
            forall|e: int| 0 <= e < d ==> #[trigger] faces_in@[e]@.len() == map@[e]@.len(),
            forall|e: int| 0 <= e < d ==> #[trigger] faces_out@[e]@.len() == map@[e]@.len(),
            forall|e: int, i: int| 0 <= e < d && 0 <= i < map@[e]@.len() ==> #[trigger] entry(basis, e, i) == shape.basis_at(e, at(map, e, i) as int),
            forall|e: int, i: int| 0 <= e < d && 0 <= i < map@[e]@.len() ==> remapped(**shape, Sign::Input, inv, e, at(map, e, i) as int, #[trigger] entry(faces_in, e, i)),
            forall|e: int, i: int| 0 <= e < d && 0 <= i < map@[e]@.len() ==> remapped(**shape, Sign::Output, inv, e, at(map, e, i) as int, #[trigger] entry(faces_out, e, i)),
    {
        let m = map[d].len();
        let mut b_level: Vec<IntSet> = Vec::new();
        let mut fi_level: Vec<IntSet> = Vec::new();
        let mut fo_level: Vec<IntSet> = Vec::new();
        for i in 0..m
            invariant
                shape.valid(),
                subset.wf(),
                keep == &subset.keep,
                shape == &subset.shape,
                subset.down_closed(),
                levels == shape.levels(),
                d < count <= levels,
                inv@.len() == levels,
                forall|e: int| 0 <= e < levels ==> #[trigger] inv@[e]@.len() == shape.size(e),
                map@.len() == count,
                m == map@[d as int]@.len(),
                forall|e: int| 0 <= e < count ==> #[trigger] kept_row(*keep, inv, e, map@[e]@),
                b_level@.len() == i,
                fi_level@.len() == i,
                fo_level@.len() == i,
                forall|k: int| 0 <= k < i ==> #[trigger] b_level@[k]@ == shape.basis_at(d as int, at(map, d as int, k) as int),
                forall|k: int| 0 <= k < i ==> remapped(**shape, Sign::Input, inv, d as int, at(map, d as int, k) as int, #[trigger] fi_level@[k]@),
                forall|k: int| 0 <= k < i ==> remapped(**shape, Sign::Output, inv, d as int, at(map, d as int, k) as int, #[trigger] fo_level@[k]@),
        {
            let old_pos = map[d][i];
            proof {
                assert(kept_row(*keep, inv, d as int, map@[d as int]@));
                assert(map@[d as int]@[i as int] < keep@[d as int]@.len());
                assert(subset.keep@[d as int]@.len() == subset.shape.size(d as int));
                assert(shape.cell(d as int, old_pos as int));
                assert(flag(*keep, d as int, old_pos as int));
            }
            b_level.push(shape.basis[d][old_pos].clone());
            if d == 0 {
                fi_level.push(Vec::new());
                fo_level.push(Vec::new());
                proof {
                    assert(shape.faces(Sign::Input, 0, old_pos as int).len() == 0) by {
                        if shape.faces(Sign::Input, 0, old_pos as int).len() > 0 {
                            assert(shape.faces(Sign::Input, 0, old_pos as int)[0] < shape.size(-1));
                        }
                    }
                    assert(shape.faces(Sign::Output, 0, old_pos as int).len() == 0) by {
                        if shape.faces(Sign::Output, 0, old_pos as int).len() > 0 {
                            assert(shape.faces(Sign::Output, 0, old_pos as int)[0] < shape.size(-1));
                        }
                    }
                }
            } else {
                proof {
                    assert forall|k: int| 0 <= k < shape.faces(Sign::Input, d as int, old_pos as int).len() implies
                        #[trigger] shape.faces(Sign::Input, d as int, old_pos as int)[k] < inv@[d - 1]@.len() by {
                        assert(shape.faces(Sign::Input, d as int, old_pos as int)[k] < shape.size(d - 1));
                    }
                    assert forall|k: int| 0 <= k < shape.faces(Sign::Output, d as int, old_pos as int).len() implies
                        #[trigger] shape.faces(Sign::Output, d as int, old_pos as int)[k] < inv@[d - 1]@.len() by {
                        assert(shape.faces(Sign::Output, d as int, old_pos as int)[k] < shape.size(d - 1));
                    }
                }
                fi_level.push(remap_set(&shape.faces_in[d][old_pos], &inv, d - 1));
                fo_level.push(remap_set(&shape.faces_out[d][old_pos], &inv, d - 1));
            }
        }
        let ghost (b0, fi0, fo0) = (basis, faces_in, faces_out);
        basis.push(b_level);
        faces_in.push(fi_level);
        faces_out.push(fo_level);
        proof {
            assert forall|e: int| 0 <= e < d + 1 implies #[trigger] basis@[e]@.len() == map@[e]@.len() by {
                if e < d { assert(basis@[e] == b0@[e]); }
            }
            assert forall|e: int| 0 <= e < d + 1 implies #[trigger] faces_in@[e]@.len() == map@[e]@.len() by {
                if e < d { assert(faces_in@[e] == fi0@[e]); }
            }
            assert forall|e: int| 0 <= e < d + 1 implies #[trigger] faces_out@[e]@.len() == map@[e]@.len() by {
                if e < d { assert(faces_out@[e] == fo0@[e]); }
            }
            assert forall|e: int, i: int| 0 <= e < d + 1 && 0 <= i < map@[e]@.len() implies #[trigger] entry(basis, e, i) == shape.basis_at(e, at(map, e, i) as int) by {
                if e < d { assert(basis@[e] == b0@[e]); assert(entry(b0, e, i) == shape.basis_at(e, at(map, e, i) as int)); }
            }
            assert forall|e: int, i: int| 0 <= e < d + 1 && 0 <= i < map@[e]@.len() implies remapped(**shape, Sign::Input, inv, e, at(map, e, i) as int, #[trigger] entry(faces_in, e, i)) by {
                if e < d { assert(faces_in@[e] == fi0@[e]); assert(remapped(**shape, Sign::Input, inv, e, at(map, e, i) as int, entry(fi0, e, i))); }
            }
            assert forall|e: int, i: int| 0 <= e < d + 1 && 0 <= i < map@[e]@.len() implies remapped(**shape, Sign::Output, inv, e, at(map, e, i) as int, #[trigger] entry(faces_out, e, i)) by {
                if e < d { assert(faces_out@[e] == fo0@[e]); assert(remapped(**shape, Sign::Output, inv, e, at(map, e, i) as int, entry(fo0, e, i))); }
            }
        }
    }
    proof {
        lemma_closed_subset_tables(subset, inv, map, basis, faces_in, faces_out, count as int);
    }
    let sub = Arc::new(FramedPoset::from_faces(basis, faces_in, faces_out));
    let emb = Embedding::make(share(&sub), share(shape), map, inv);
    proof {
        lemma_closed_subset_embedding(subset, emb, count as int);
        let j = choose|j: int| 0 <= j < keep@[count - 1]@.len() && #[trigger] flag(*keep, count - 1, j);
        assert(kept_row(*keep, inv, count - 1, map@[count - 1]@));
        assert(map@[count - 1]@[at(inv, count - 1, j) as int] == j);
    }
    (sub, emb)
}

/// `set` lists, sorted, the positions under row `d - 1` of `inv` of the
/// `s`-faces of cell `(d, old)`; at level zero it is empty.
pub open spec fn remapped(shape: FramedPoset, s: Sign, inv: Vec<Vec<usize>>, d: int, old: int, set: Seq<usize>) -> bool {
    &&& strictly_sorted(set)
    &&& d == 0 ==> set.len() == 0
    &&& d > 0 ==> forall|v: usize| set.contains(v) <==> exists|k: int|
        0 <= k < shape.faces(s, d, old).len() && #[trigger] at(inv, d - 1, shape.faces(s, d, old)[k] as int) == v
}

/// The table of the given sign.
pub open spec fn pick(s: Sign, input: Vec<Vec<IntSet>>, output: Vec<Vec<IntSet>>) -> Vec<Vec<IntSet>> {
    match s {
        Sign::Input => input,
        Sign::Output => output,
    }
}

proof fn lemma_closed_subset_tables(
    subset: &FramedPosetSubset,
    inv: Vec<Vec<usize>>,
    map: Vec<Vec<usize>>,
    basis: Vec<Vec<IntSet>>,
    faces_in: Vec<Vec<IntSet>>,
    faces_out: Vec<Vec<IntSet>>,
    count: int,
)
    requires
        subset.shape.valid(),
        subset.wf(),
        subset.down_closed(),
        1 <= count <= subset.shape.levels(),
        inv@.len() == subset.shape.levels(),
        forall|e: int| 0 <= e < subset.shape.levels() ==> #[trigger] inv@[e]@.len() == subset.shape.size(e),
        map@.len() == count,
        forall|e: int| 0 <= e < count ==> #[trigger] kept_row(subset.keep, inv, e, map@[e]@),
        basis@.len() == count,
        faces_in@.len() == count,
        faces_out@.len() == count,
        forall|e: int| 0 <= e < count ==> #[trigger] basis@[e]@.len() == map@[e]@.len(),
        forall|e: int| 0 <= e < count ==> #[trigger] faces_in@[e]@.len() == map@[e]@.len(),
        forall|e: int| 0 <= e < count ==> #[trigger] faces_out@[e]@.len() == map@[e]@.len(),
        forall|e: int, i: int| 0 <= e < count && 0 <= i < map@[e]@.len() ==> #[trigger] entry(basis, e, i) == subset.shape.basis_at(e, at(map, e, i) as int),
        forall|e: int, i: int| 0 <= e < count && 0 <= i < map@[e]@.len() ==> remapped(*subset.shape, Sign::Input, inv, e, at(map, e, i) as int, #[trigger] entry(faces_in, e, i)),
        forall|e: int, i: int| 0 <= e < count && 0 <= i < map@[e]@.len() ==> remapped(*subset.shape, Sign::Output, inv, e, at(map, e, i) as int, #[trigger] entry(faces_out, e, i)),
    ensures
        defining_tables(basis, faces_in, faces_out),
        dim_fits(count),
{
    let shape = *subset.shape;
    let keep = subset.keep;
    assert forall|d: int, p: int| 0 <= d < basis@.len() && 0 <= p < basis@[d]@.len() implies strictly_sorted(#[trigger] entry(basis, d, p)) by {
        assert(kept_row(keep, inv, d, map@[d]@));
        assert(map@[d]@[p] < keep@[d]@.len());
        assert(strictly_sorted(shape.basis_at(d, at(map, d, p) as int)));
    }
    assert forall|d: int, p: int| 0 <= d < faces_in@.len() && 0 <= p < faces_in@[d]@.len() implies strictly_sorted(#[trigger] entry(faces_in, d, p)) by {
        assert(remapped(shape, Sign::Input, inv, d, at(map, d, p) as int, entry(faces_in, d, p)));
    }
    assert forall|d: int, p: int| 0 <= d < faces_out@.len() && 0 <= p < faces_out@[d]@.len() implies strictly_sorted(#[trigger] entry(faces_out, d, p)) by {
        assert(remapped(shape, Sign::Output, inv, d, at(map, d, p) as int, entry(faces_out, d, p)));
    }
    assert forall|s: Sign, d: int, p: int, i: int|
        0 <= d < count && 0 <= p < map@[d]@.len() && 0 <= i < entry(pick(s, faces_in, faces_out), d, p).len() implies
        #[trigger] entry(pick(s, faces_in, faces_out), d, p)[i] < rows(basis, d - 1) by {
        let t = pick(s, faces_in, faces_out);
        let set = entry(t, d, p);
        assert(remapped(shape, s, inv, d, at(map, d, p) as int, set));
        let v = set[i];
        assert(set.contains(v));
        if d == 0 {
        } else {
            let old = at(map, d, p) as int;
            assert(kept_row(keep, inv, d, map@[d]@));
            assert(map@[d]@[p] < keep@[d]@.len());
            assert(flag(keep, d, old));
            let k = choose|k: int| 0 <= k < shape.faces(s, d, old).len() && #[trigger] at(inv, d - 1, shape.faces(s, d, old)[k] as int) == v;
            let f = shape.faces(s, d, old)[k];
            assert(f < shape.size(d - 1));
            assert(flag(keep, d - 1, f as int));
            assert(kept_row(keep, inv, d - 1, map@[d - 1]@));
            assert(basis@[d - 1]@.len() == map@[d - 1]@.len());
        }
    }
    assert forall|d: int, p: int, i: int|
        0 <= d < faces_in@.len() && 0 <= p < faces_in@[d]@.len() && 0 <= i < entry(faces_in, d, p).len()
            implies #[trigger] entry(faces_in, d, p)[i] < rows(basis, d - 1) by {
        assert(entry(pick(Sign::Input, faces_in, faces_out), d, p)[i] < rows(basis, d - 1));
    }
    assert forall|d: int, p: int, i: int|
        0 <= d < faces_out@.len() && 0 <= p < faces_out@[d]@.len() && 0 <= i < entry(faces_out, d, p).len()
            implies #[trigger] entry(faces_out, d, p)[i] < rows(basis, d - 1) by {
        assert(entry(pick(Sign::Output, faces_in, faces_out), d, p)[i] < rows(basis, d - 1));
    }
}

proof fn lemma_closed_subset_embedding(subset: &FramedPosetSubset, emb: Embedding, count: int)
    requires
        subset.shape.valid(),
        subset.wf(),
        subset.down_closed(),
        emb.cod == subset.shape,
        emb.dom.valid(),
        emb.dom.levels() == count,
        1 <= count <= subset.shape.levels(),
        forall|e: int, j: int| count <= e < subset.shape.levels() && 0 <= j < subset.keep@[e]@.len() ==> !#[trigger] flag(subset.keep, e, j),
        emb.inv@.len() == subset.shape.levels(),
        forall|e: int| 0 <= e < subset.shape.levels() ==> #[trigger] emb.inv@[e]@.len() == subset.shape.size(e),
        forall|e: int, j: int| count <= e < subset.shape.levels() && 0 <= j < emb.inv@[e]@.len() ==> #[trigger] at(emb.inv, e, j) == NO_PREIMAGE,
        emb.map@.len() == count,
        forall|e: int| 0 <= e < count ==> #[trigger] kept_row(subset.keep, emb.inv, e, emb.map@[e]@),
        forall|e: int| 0 <= e < count ==> #[trigger] emb.dom.size(e) == emb.map@[e]@.len(),
        forall|e: int, i: int| 0 <= e < count && 0 <= i < emb.map@[e]@.len() ==> #[trigger] emb.dom.basis_at(e, i) == subset.shape.basis_at(e, at(emb.map, e, i) as int),
        forall|e: int, i: int| 0 <= e < count && 0 <= i < emb.map@[e]@.len() ==> remapped(*subset.shape, Sign::Input, emb.inv, e, at(emb.map, e, i) as int, #[trigger] emb.dom.faces(Sign::Input, e, i)),
        forall|e: int, i: int| 0 <= e < count && 0 <= i < emb.map@[e]@.len() ==> remapped(*subset.shape, Sign::Output, emb.inv, e, at(emb.map, e, i) as int, #[trigger] emb.dom.faces(Sign::Output, e, i)),
    ensures
        emb.valid(),
        emb.closed(),
        forall|d: int, j: int| subset.shape.cell(d, j) ==> (#[trigger] in_image(emb.map, d, j) <==> flag(subset.keep, d, j)),
        forall|d: int, i: int, k: int| 0 <= d < emb.map@.len() && 0 <= i < k < emb.map@[d]@.len() ==>
            #[trigger] at(emb.map, d, i) < #[trigger] at(emb.map, d, k),
{
    let shape = *subset.shape;
    let keep = subset.keep;
    let map = emb.map;
    let inv = emb.inv;
    assert forall|d: int, i: int| emb.dom.cell(d, i) implies #[trigger] at(map, d, i) < emb.cod.size(d) by {
        assert(kept_row(keep, inv, d, map@[d]@));
        assert(map@[d]@[i] < keep@[d]@.len());
    }
    assert forall|d: int, i: int, j: int| emb.dom.cell(d, i) && emb.dom.cell(d, j) && i != j implies
        #[trigger] at(map, d, i) != #[trigger] at(map, d, j) by {
        assert(kept_row(keep, inv, d, map@[d]@));
        assert(strictly_sorted(map@[d]@));
    }
    assert forall|d: int, i: int, k: int| 0 <= d < map@.len() && 0 <= i < k < map@[d]@.len() implies
        #[trigger] at(map, d, i) < #[trigger] at(map, d, k) by {
        assert(kept_row(keep, inv, d, map@[d]@));
        assert(strictly_sorted(map@[d]@));
    }
    assert(map_ok(&*emb.dom, &*emb.cod, map));
    assert forall|d: int, i: int| 0 <= d < map@.len() && 0 <= i < map@[d]@.len() implies #[trigger] at(inv, d, at(map, d, i) as int) == i by {
        assert(kept_row(keep, inv, d, map@[d]@));
    }
    assert forall|d: int, j: int| shape.cell(d, j) && #[trigger] at(inv, d, j) != NO_PREIMAGE implies
        d < map@.len() && at(inv, d, j) < map@[d]@.len() && at(map, d, at(inv, d, j) as int) == j by {
        if d >= count {
            assert(at(inv, d, j) == NO_PREIMAGE);
        }
        assert(kept_row(keep, inv, d, map@[d]@));
        if !flag(keep, d, j) {
            assert(at(inv, d, j) == NO_PREIMAGE);
        }
    }
    assert forall|d: int, j: int| shape.cell(d, j) implies (#[trigger] in_image(map, d, j) <==> flag(keep, d, j)) by {
        if d < count {
            assert(kept_row(keep, inv, d, map@[d]@));
            if flag(keep, d, j) {
                let i = at(inv, d, j) as int;
                assert(at(map, d, i) == j);
            }
            if in_image(map, d, j) {
                let i = choose|i: int| 0 <= d < map@.len() && 0 <= i < map@[d]@.len() && #[trigger] at(map, d, i) == j;
                assert(flag(keep, d, map@[d]@[i] as int));
            }
        }
    }
    assert forall|s: Sign, d: int, i: int| 1 <= d && emb.dom.cell(d, i) implies
        same_elements(#[trigger] emb.cod.faces(s, d, at(map, d, i) as int), emb.image_faces(s, d, i)) by {
        let old = at(map, d, i) as int;
        let big = shape.faces(s, d, old);
        let small = emb.dom.faces(s, d, i);
        assert(remapped(shape, s, inv, d, old, small));
        assert(kept_row(keep, inv, d, map@[d]@));
        assert(map@[d]@[i] < keep@[d]@.len());
        assert(flag(keep, d, old));
        assert(kept_row(keep, inv, d - 1, map@[d - 1]@));
        assert forall|w: usize| big.contains(w) <==> emb.image_faces(s, d, i).contains(w) by {
            let img = emb.image_faces(s, d, i);
            if big.contains(w) {
                let k = choose|k: int| 0 <= k < big.len() && big[k] == w;
                assert(big[k] < shape.size(d - 1));
                assert(flag(keep, d - 1, w as int));
                let y = at(inv, d - 1, w as int);
                assert(small.contains(y));
                let m = choose|m: int| 0 <= m < small.len() && small[m] == y;
                assert(img[m] == at(map, d - 1, y as int));
                assert(at(map, d - 1, y as int) == w);
            }
            if img.contains(w) {
                let m = choose|m: int| 0 <= m < img.len() && img[m] == w;
                let y = small[m];
                assert(small.contains(y));
                let k = choose|k: int| 0 <= k < big.len() && #[trigger] at(inv, d - 1, big[k] as int) == y;
                assert(big[k] < shape.size(d - 1));
                assert(flag(keep, d - 1, big[k] as int));
                assert(at(map, d - 1, y as int) == big[k]);
            }
        }
    }
}

/// Cell `(d, p)` is kept before closing in the `sign` boundary in `direction`.
pub open spec fn boundary_cell(shape: FramedPoset, mode: BoundaryMode, sign: Sign, direction: usize, d: int, p: int) -> bool {
    &&& !shape.basis_at(d, p).contains(direction)
    &&& match mode {
        BoundaryMode::Plain => shape.cofaces(flip(sign), d, p).len() == 0,
        BoundaryMode::Hat => forall|k: int| 0 <= k < shape.cofaces(flip(sign), d, p).len() ==>
            !shape.basis_at(d + 1, #[trigger] shape.cofaces(flip(sign), d, p)[k] as int).contains(direction),
    }
}

/// Reachability only depends on the kept cells.
pub proof fn lemma_reach_ext(shape: FramedPoset, k1: spec_fn(int, int) -> bool, k2: spec_fn(int, int) -> bool, d: int, j: int)
    requires
        forall|e: int, p: int| shape.cell(e, p) ==> k1(e, p) == k2(e, p),
        shape.cell(d, j),
    ensures
        reach(shape, k1, d, j) == reach(shape, k2, d, j),
    decreases shape.levels() - d,
{
    if reach(shape, k1, d, j) && !k1(d, j) {
        let c = choose|c: int| #[trigger] lower_face(shape, d, j, c) && reach(shape, k1, d + 1, c);
        lemma_reach_ext(shape, k1, k2, d + 1, c);
    }
    if reach(shape, k2, d, j) && !k2(d, j) {
        let c = choose|c: int| #[trigger] lower_face(shape, d, j, c) && reach(shape, k2, d + 1, c);
        lemma_reach_ext(shape, k1, k2, d + 1, c);
    }
}

/// Compute a directional boundary of a framed poset.
pub fn boundary(mode: BoundaryMode, sign: Sign, direction: usize, shape: &Arc<FramedPoset>) -> (r: (Arc<FramedPoset>, Embedding))
    requires
        shape.valid(),
    ensures
        r.1.valid(),
        r.1.closed(),
        r.1.dom == r.0,
        r.1.cod == *shape,
        forall|d: int, j: int| shape.cell(d, j) ==> (#[trigger] in_image(r.1.map, d, j) <==>
            reach(**shape, |e: int, p: int| boundary_cell(**shape, mode, sign, direction, e, p), d, j)),
        forall|d: int, i: int, k: int| 0 <= d < r.1.map@.len() && 0 <= i < k < r.1.map@[d]@.len() ==>
            #[trigger] at(r.1.map, d, i) < #[trigger] at(r.1.map, d, k),
        r.1.map@.len() > 0 ==> r.1.map@[r.1.map@.len() - 1]@.len() > 0,
{
    let ghost spec_keep = |e: int, p: int| boundary_cell(**shape, mode, sign, direction, e, p);
    if shape.dim < 0 {
        let e = Embedding::empty(share(shape));
        let dom = share(&e.dom);
        return (dom, e);
    }
    let opposite = sign.opposite();
    let levels = shape.basis.len();
    let mut keep: Vec<Vec<bool>> = Vec::new();
    for d in 0..levels
        invariant
            shape.valid(),
            levels == shape.levels(),
            opposite == flip(sign),
            keep@.len() == d,
            forall|e: int| 0 <= e < d ==> #[trigger] keep@[e]@.len() == shape.size(e),
            forall|e: int, p: int| 0 <= e < d && 0 <= p < shape.size(e) ==> #[trigger] flag(keep, e, p) == boundary_cell(**shape, mode, sign, direction, e, p),
    {
        let n = shape.basis[d].len();
        let mut row: Vec<bool> = Vec::new();
        for p in 0..n
            invariant
                shape.valid(),
                levels == shape.levels(),
                d < levels,
                opposite == flip(sign),
                n == shape.size(d as int),
                row@.len() == p,
                forall|q: int| 0 <= q < p ==> #[trigger] row@[q] == boundary_cell(**shape, mode, sign, direction, d as int, q),
        {
            let cofaces = shape.cofaces_of(opposite, d, p);
            let is_boundary_cell = match mode {
                BoundaryMode::Plain => cofaces.len() == 0,
                BoundaryMode::Hat => {
                    let m = cofaces.len();
                    let mut all = true;
                    for k in 0..m
                        invariant
                            shape.valid(),
                            d < levels,
                            levels == shape.levels(),
                            p < n,
                            n == shape.size(d as int),
                            cofaces@ == shape.cofaces(flip(sign), d as int, p as int),
                            m == cofaces@.len(),
                            all == forall|i: int| 0 <= i < k ==> !shape.basis_at(d + 1, #[trigger] cofaces@[i] as int).contains(direction),
                    {
                        let c = cofaces[k];
                        proof {
                            assert(shape.cofaces(flip(sign), d as int, p as int)[k as int] < shape.size(d + 1));
                        }
                        let orth = shape.is_orthogonal_to(d + 1, c, direction);
                        if !orth {
                            all = false;
                        }
                        proof {
                            if !orth {
                                assert(!(forall|i: int| 0 <= i < k + 1 ==> !shape.basis_at(d + 1, #[trigger] cofaces@[i] as int).contains(direction))) by {
                                    assert(cofaces@[k as int] == c);
                                }
                            }
                        }
                    }
                    all
                },
            };
            let orthogonal = shape.is_orthogonal_to(d, p, direction);
            row.push(orthogonal && is_boundary_cell);
            proof {
                assert(row@[p as int] == boundary_cell(**shape, mode, sign, direction, d as int, p as int));
            }
        }
        let ghost before = keep;
        keep.push(row);
        proof {
            assert forall|e: int| 0 <= e < d + 1 implies #[trigger] keep@[e]@.len() == shape.size(e) by {
                if e < d {
                    assert(keep@[e] == before@[e]);
                }
            }
            assert forall|e: int, p: int| 0 <= e < d + 1 && 0 <= p < shape.size(e) implies #[trigger] flag(keep, e, p) == boundary_cell(**shape, mode, sign, direction, e, p) by {
                if e < d {
                    assert(keep@[e] == before@[e]);
                    assert(flag(before, e, p) == boundary_cell(**shape, mode, sign, direction, e, p));
                }
            }
        }
    }
    let subset = FramedPosetSubset::make(share(shape), keep);
    let r = closure(&subset);
    proof {
        assert forall|d: int, j: int| shape.cell(d, j) implies (#[trigger] in_image(r.1.map, d, j) <==> reach(**shape, spec_keep, d, j)) by {
            assert forall|e: int, p: int| shape.cell(e, p) implies #[trigger] subset.kept()(e, p) == spec_keep(e, p) by {
                assert(flag(keep, e, p) == boundary_cell(**shape, mode, sign, direction, e, p));
            }
            lemma_reach_ext(**shape, subset.kept(), spec_keep, d, j);
        }
    }
    r
}


/// A boundary has no more levels than the framed poset it bounds.
pub proof fn lemma_boundary_levels(e: Embedding)
    requires
        e.wf(),
        e.map@.len() > 0 ==> e.map@[e.map@.len() - 1]@.len() > 0,
    ensures
        e.dom.levels() <= e.cod.levels(),
{
    if e.dom.levels() > e.cod.levels() {
        let top = e.dom.levels() - 1;
        assert(e.dom.cell(top, 0));
        assert(at(e.map, top, 0) < e.cod.size(top));
    }
}

/// `f` embeds the plain `sign` boundary of `x` in `direction` into `x`.
pub open spec fn plain_boundary(f: Embedding, x: Arc<FramedPoset>, sign: Sign, direction: usize) -> bool {
    &&& f.valid()
    &&& f.closed()
    &&& f.cod == x
    &&& forall|d: int, j: int| x.cell(d, j) ==> (#[trigger] in_image(f.map, d, j) <==>
        reach(*x, |e: int, p: int| boundary_cell(*x, BoundaryMode::Plain, sign, direction, e, p), d, j))
}

/// `steps[k]` is the boundary `word[k]` of the framed poset reached before
/// it: `shape` for the first step, the domain of the previous step after.
pub open spec fn boundary_steps(word: Seq<(Sign, usize)>, shape: Arc<FramedPoset>, steps: Seq<Embedding>) -> bool {
    &&& steps.len() == word.len()
    &&& forall|k: int| 0 <= k < steps.len() ==> plain_boundary(#[trigger] steps[k], step_source(shape, steps, k), word[k].0, word[k].1)
}

/// The framed poset whose boundary step `k` takes.
pub open spec fn step_source(shape: Arc<FramedPoset>, steps: Seq<Embedding>, k: int) -> Arc<FramedPoset> {
    if k == 0 {
        shape
    } else {
        steps[k - 1].dom
    }
}

/// Cell `i` at level `d` of the last domain of `steps`, sent through every
/// step back to the first codomain.
pub open spec fn through_steps(steps: Seq<Embedding>, d: int, i: int) -> int
    decreases steps.len(),
{
    if steps.len() == 0 {
        i
    } else {
        through_steps(steps.drop_last(), d, at(steps.last().map, d, i) as int)
    }
}

/// `x` is the iterated plain boundary of `shape` along `word`.
pub open spec fn iterated_of(word: Seq<(Sign, usize)>, shape: Arc<FramedPoset>, x: Arc<FramedPoset>) -> bool {
    exists|steps: Seq<Embedding>| #[trigger] boundary_steps(word, shape, steps) && (if word.len() == 0 {
        x == shape
    } else {
        steps.last().dom == x
    })
}

/// Take the plain directional boundaries of `word`, in order: each one of
/// the boundary reached so far. Returns the last boundary with its
/// embedding into `shape`, the composite of the steps.
pub fn iterated_boundary(word: &Vec<(Sign, usize)>, shape: &Arc<FramedPoset>) -> (r: (Arc<FramedPoset>, Embedding))
    requires
        shape.framed(),
    ensures
        r.0.framed(),
        r.0.levels() <= shape.levels(),
        r.1.valid(),
        r.1.dom == r.0,
        r.1.cod == *shape,
        word@.len() == 0 ==> r.0 == *shape,
        exists|steps: Seq<Embedding>| #[trigger] boundary_steps(word@, *shape, steps)
            && (word@.len() > 0 ==> steps.last().dom == r.0)
            && forall|d: int, i: int| r.0.cell(d, i) ==> #[trigger] at(r.1.map, d, i) == through_steps(steps, d, i),
        iterated_of(word@, *shape, r.0),
{
    proof {
        crate::ofp::lemma_framed_valid(&**shape);
    }
    let mut current = share(shape);
    let mut into_shape = Embedding::id(share(shape));
    let n = word.len();
    let ghost mut steps: Seq<Embedding> = Seq::empty();
    proof {
        assert forall|d: int, i: int| current.cell(d, i) implies #[trigger] at(into_shape.map, d, i) == through_steps(steps, d, i) by {
            assert(into_shape.dom.cell(d, i));
        }
    }
    for k in 0..n
        invariant
            n == word@.len(),
            current.framed(),
            current.valid(),
            current.levels() <= shape.levels(),
            into_shape.valid(),
            into_shape.dom == current,
            into_shape.cod == *shape,
            k == 0 ==> current == *shape,
            steps.len() == k,
            boundary_steps(word@.take(k as int), *shape, steps),
            k > 0 ==> steps.last().dom == current,
            forall|d: int, i: int| current.cell(d, i) ==> #[trigger] at(into_shape.map, d, i) == through_steps(steps, d, i),
    {
        let (sign, direction) = word[k];
        let (next, into_current) = boundary(BoundaryMode::Plain, sign, direction, &current);
        proof {
            crate::rigid::lemma_closed_embedding_framed(into_current);
            lemma_boundary_levels(into_current);
            crate::ofp::lemma_framed_valid(&*next);
        }
        let ghost old_into = into_shape;
        let ghost old_current = current;
        into_shape = Embedding::compose(&into_current, &into_shape);
        current = next;
        proof {
            let new_steps = steps.push(into_current);
            assert(plain_boundary(into_current, old_current, sign, direction));
            assert forall|j: int| 0 <= j < new_steps.len() implies plain_boundary(#[trigger] new_steps[j], step_source(*shape, new_steps, j),
                word@.take(k + 1)[j].0, word@.take(k + 1)[j].1) by {
                if j < k {
                    assert(new_steps[j] == steps[j]);
                    assert(plain_boundary(steps[j], step_source(*shape, steps, j), word@.take(k as int)[j].0, word@.take(k as int)[j].1));
                    if j > 0 {
                        assert(new_steps[j - 1] == steps[j - 1]);
                    }
                } else {
                    assert(j == k);
                    if k > 0 {
                        assert(new_steps[j - 1] == steps[k - 1]);
                    }
                }
            }
            assert forall|d: int, i: int| current.cell(d, i) implies #[trigger] at(into_shape.map, d, i) == through_steps(new_steps, d, i) by {
                assert(into_current.dom.cell(d, i));
                let m = at(into_current.map, d, i);
                assert(m < old_current.size(d));
                assert(old_current.cell(d, m as int));
                assert(new_steps.drop_last() =~= steps);
                assert(new_steps.last() == into_current);
            }
            steps = new_steps;
        }
    }
    proof {
        assert(word@.take(n as int) =~= word@);
        assert(boundary_steps(word@, *shape, steps));
    }
    (current, into_shape)
}

} // verus!

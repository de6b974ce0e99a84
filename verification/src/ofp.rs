//! The defining conditions of an oriented framed poset, and their check.

use vstd::prelude::*;

use crate::embedding::{Embedding, NO_PREIMAGE, at, inv_ok, map_ok};
use crate::intset::{self, seq_disjoint, seq_subset, strictly_sorted};
use crate::poset::{
    FramedPoset, Sign, cofaces_in_range, entry, faces_in_range, reverses, rows, table_matches,
    table_sorted,
};

verus! {

impl FramedPoset {
    /// Every table has one row per level and one set per cell, and `dim` is
    /// one less than the number of levels.
    pub open spec fn tables_shaped(&self) -> bool {
        &&& self.dim == self.levels() - 1
        &&& table_matches(self.faces_in, self.basis)
        &&& table_matches(self.faces_out, self.basis)
        &&& table_matches(self.cofaces_in, self.basis)
        &&& table_matches(self.cofaces_out, self.basis)
    }

    /// Every basis at level `d` is a strictly sorted set of `d` directions.
    pub open spec fn bases_graded(&self) -> bool {
        forall|d: int, p: int|
            #[trigger] self.cell(d, p) ==> self.basis_at(d, p).len() == d && strictly_sorted(self.basis_at(d, p))
    }

    /// Cell `f` one level below `(d, p)` has a basis inside that of `(d, p)`
    /// and lists `(d, p)` among its `s`-cofaces.
    pub open spec fn face_link(&self, s: Sign, d: int, p: int, f: int) -> bool {
        &&& f < self.size(d - 1)
        &&& seq_subset(self.basis_at(d - 1, f), self.basis_at(d, p))
        &&& self.cofaces(s, d - 1, f).contains(p as usize)
    }

    /// Cell `c` one level above `(d, p)` exists and lists `(d, p)` among its
    /// `s`-faces.
    pub open spec fn coface_link(&self, s: Sign, d: int, p: int, c: int) -> bool {
        &&& d + 1 < self.levels()
        &&& c < self.size(d + 1)
        &&& self.faces(s, d + 1, c).contains(p as usize)
    }

    /// Every `s`-face of cell `(d, p)` is linked to it.
    pub open spec fn faces_sound(&self, s: Sign, d: int, p: int) -> bool {
        forall|i: int| 0 <= i < self.faces(s, d, p).len() ==> self.face_link(s, d, p, #[trigger] self.faces(s, d, p)[i] as int)
    }

    /// Every `s`-coface of cell `(d, p)` is linked to it; in particular the
    /// top level has no cofaces.
    pub open spec fn cofaces_sound(&self, s: Sign, d: int, p: int) -> bool {
        forall|i: int| 0 <= i < self.cofaces(s, d, p).len() ==> self.coface_link(s, d, p, #[trigger] self.cofaces(s, d, p)[i] as int)
    }

    /// Some face of either sign misses the direction `v`.
    pub open spec fn direction_realised(&self, d: int, p: int, v: usize) -> bool {
        exists|f: usize|
            (self.faces(Sign::Input, d, p).contains(f) || self.faces(Sign::Output, d, p).contains(f))
                && !self.basis_at(d - 1, f as int).contains(v)
    }

    /// Every direction of the basis of `(d, p)` is missed by one of its faces.
    pub open spec fn frame_realised(&self, d: int, p: int) -> bool {
        forall|v: usize| #[trigger] self.basis_at(d, p).contains(v) ==> self.direction_realised(d, p, v)
    }

    /// The conditions on a single cell.
    pub open spec fn cell_sound(&self, d: int, p: int) -> bool {
        &&& strictly_sorted(self.faces(Sign::Input, d, p))
        &&& strictly_sorted(self.faces(Sign::Output, d, p))
        &&& strictly_sorted(self.cofaces(Sign::Input, d, p))
        &&& strictly_sorted(self.cofaces(Sign::Output, d, p))
        &&& seq_disjoint(self.faces(Sign::Input, d, p), self.faces(Sign::Output, d, p))
        &&& (d == 0 ==> self.faces(Sign::Input, d, p).len() == 0 && self.faces(Sign::Output, d, p).len() == 0)
        &&& (d > 0 ==> self.faces_sound(Sign::Input, d, p) && self.faces_sound(Sign::Output, d, p)
            && self.frame_realised(d, p))
        &&& self.cofaces_sound(Sign::Input, d, p)
        &&& self.cofaces_sound(Sign::Output, d, p)
    }

    /// The tables describe an oriented framed poset: they are shaped alike,
    /// bases are graded, signed faces and cofaces are sorted, disjoint and
    /// mutually inverse, every face basis lies in the cell's basis, and every
    /// direction of a cell's basis is missed by one of its faces.
    pub open spec fn framed(&self) -> bool {
        &&& self.tables_shaped()
        &&& self.bases_graded()
        &&& forall|d: int, p: int| #[trigger] self.cell(d, p) ==> self.cell_sound(d, p)
    }
}

/// An oriented framed poset satisfies the storage invariant.
pub proof fn lemma_framed_valid(x: &FramedPoset)
    requires
        x.framed(),
    ensures
        x.valid(),
{
    assert forall|d: int, p: int| 0 <= d < x.basis@.len() && 0 <= p < x.basis@[d]@.len() implies strictly_sorted(
        #[trigger] entry(x.basis, d, p)) by {
        assert(x.cell(d, p));
    }
    assert(table_sorted(x.basis));
    assert forall|d: int, p: int| 0 <= d < x.faces_in@.len() && 0 <= p < x.faces_in@[d]@.len() implies strictly_sorted(
        #[trigger] entry(x.faces_in, d, p)) by {
        assert(x.cell(d, p));
        assert(x.faces(Sign::Input, d, p) == entry(x.faces_in, d, p));
    }
    assert forall|d: int, p: int| 0 <= d < x.faces_out@.len() && 0 <= p < x.faces_out@[d]@.len() implies strictly_sorted(
        #[trigger] entry(x.faces_out, d, p)) by {
        assert(x.cell(d, p));
        assert(x.faces(Sign::Output, d, p) == entry(x.faces_out, d, p));
    }
    assert forall|d: int, p: int| 0 <= d < x.cofaces_in@.len() && 0 <= p < x.cofaces_in@[d]@.len() implies strictly_sorted(
        #[trigger] entry(x.cofaces_in, d, p)) by {
        assert(x.cell(d, p));
        assert(x.cofaces(Sign::Input, d, p) == entry(x.cofaces_in, d, p));
    }
    assert forall|d: int, p: int| 0 <= d < x.cofaces_out@.len() && 0 <= p < x.cofaces_out@[d]@.len() implies strictly_sorted(
        #[trigger] entry(x.cofaces_out, d, p)) by {
        assert(x.cell(d, p));
        assert(x.cofaces(Sign::Output, d, p) == entry(x.cofaces_out, d, p));
    }
    lemma_faces_range(x, Sign::Input);
    lemma_faces_range(x, Sign::Output);
    lemma_cofaces_range(x, Sign::Input);
    lemma_cofaces_range(x, Sign::Output);
    lemma_reverses(x, Sign::Input);
    lemma_reverses(x, Sign::Output);
}

proof fn lemma_faces_range(x: &FramedPoset, s: Sign)
    requires
        x.framed(),
    ensures
        faces_in_range(x.face_table(s), x.basis),
{
    let t = x.face_table(s);
    assert forall|d: int, p: int, i: int|
        0 <= d < t@.len() && 0 <= p < t@[d]@.len() && 0 <= i < entry(t, d, p).len()
            implies #[trigger] entry(t, d, p)[i] < rows(x.basis, d - 1) by {
        assert(x.cell(d, p));
        assert(x.cell_sound(d, p));
        assert(entry(t, d, p) == x.faces(s, d, p));
        if d == 0 {
        } else {
            assert(x.faces_sound(s, d, p));
        }
    }
}

proof fn lemma_cofaces_range(x: &FramedPoset, s: Sign)
    requires
        x.framed(),
    ensures
        cofaces_in_range(x.coface_table(s), x.basis),
{
    let t = x.coface_table(s);
    assert forall|d: int, p: int, i: int|
        0 <= d < t@.len() && 0 <= p < t@[d]@.len() && 0 <= i < entry(t, d, p).len()
            implies #[trigger] entry(t, d, p)[i] < rows(x.basis, d + 1) by {
        assert(x.cell(d, p));
        assert(x.cell_sound(d, p));
        assert(entry(t, d, p) == x.cofaces(s, d, p));
        assert(x.cofaces_sound(s, d, p));
    }
}

proof fn lemma_reverses(x: &FramedPoset, s: Sign)
    requires
        x.framed(),
    ensures
        reverses(x.coface_table(s), x.face_table(s)),
{
    let co = x.coface_table(s);
    let fa = x.face_table(s);
    assert forall|e: int, p: usize, c: usize|
        0 <= e < co@.len() && p < co@[e]@.len() && c < rows(fa, e + 1) implies (
        #[trigger] entry(co, e, p as int).contains(c) <==> #[trigger] entry(fa, e + 1, c as int).contains(p)) by {
        assert(x.cell(e, p as int));
        assert(x.cell_sound(e, p as int));
        assert(x.cell(e + 1, c as int));
        assert(x.cell_sound(e + 1, c as int));
        assert(entry(co, e, p as int) == x.cofaces(s, e, p as int));
        assert(entry(fa, e + 1, c as int) == x.faces(s, e + 1, c as int));
        if entry(co, e, p as int).contains(c) {
            let cs = x.cofaces(s, e, p as int);
            let i = choose|i: int| 0 <= i < cs.len() && cs[i] == c;
            assert(x.cofaces_sound(s, e, p as int));
            assert(x.coface_link(s, e, p as int, cs[i] as int));
        }
        if entry(fa, e + 1, c as int).contains(p) {
            let fs = x.faces(s, e + 1, c as int);
            let i = choose|i: int| 0 <= i < fs.len() && fs[i] == p;
            assert(x.faces_sound(s, e + 1, c as int));
            assert(x.face_link(s, e + 1, c as int, fs[i] as int));
        }
    }
}

impl FramedPoset {
    fn check_shape(&self) -> (r: bool)
        ensures
            r == self.tables_shaped(),
    {
        let levels = self.basis.len();
        let expected: isize = if levels == 0 {
            -1
        } else if levels - 1 > isize::MAX as usize {
            return false;
        } else {
            (levels - 1) as isize
        };
        if self.dim != expected {
            return false;
        }
        if self.faces_in.len() != levels || self.faces_out.len() != levels || self.cofaces_in.len() != levels
            || self.cofaces_out.len() != levels {
            return false;
        }
        for d in 0..levels
            invariant
                levels == self.basis@.len(),
                self.dim == self.levels() - 1,
                self.faces_in@.len() == levels,
                self.faces_out@.len() == levels,
                self.cofaces_in@.len() == levels,
                self.cofaces_out@.len() == levels,
                forall|e: int| 0 <= e < d ==> #[trigger] self.basis@[e]@.len() == self.faces_in@[e]@.len()
                    && self.basis@[e]@.len() == self.faces_out@[e]@.len()
                    && self.basis@[e]@.len() == self.cofaces_in@[e]@.len()
                    && self.basis@[e]@.len() == self.cofaces_out@[e]@.len(),
        {
            let n = self.basis[d].len();
            if self.faces_in[d].len() != n || self.faces_out[d].len() != n || self.cofaces_in[d].len() != n
                || self.cofaces_out[d].len() != n {
                return false;
            }
        }
        true
    }

    fn check_bases(&self) -> (r: bool)
        requires
            self.tables_shaped(),
        ensures
            r == self.bases_graded(),
    {
        let levels = self.basis.len();
        for d in 0..levels
            invariant
                levels == self.basis@.len(),
                self.tables_shaped(),
                forall|e: int, p: int| 0 <= e < d && #[trigger] self.cell(e, p) ==> self.basis_at(e, p).len() == e
                    && strictly_sorted(self.basis_at(e, p)),
        {
            let n = self.basis[d].len();
            for p in 0..n
                invariant
                    levels == self.basis@.len(),
                    d < levels,
                    n == self.size(d as int),
                    self.tables_shaped(),
                    forall|e: int, q: int| 0 <= e < d && #[trigger] self.cell(e, q) ==> self.basis_at(e, q).len() == e
                        && strictly_sorted(self.basis_at(e, q)),
                    forall|q: int| 0 <= q < p ==> #[trigger] self.basis_at(d as int, q).len() == d
                        && strictly_sorted(self.basis_at(d as int, q)),
            {
                if self.basis[d][p].len() != d || !intset::is_sorted_unique(self.basis[d][p].as_slice()) {
                    proof {
                        assert(self.cell(d as int, p as int));
                    }
                    return false;
                }
            }
        }
        true
    }

    fn check_faces(&self, s: Sign, d: usize, p: usize) -> (r: bool)
        requires
            self.tables_shaped(),
            self.bases_graded(),
            self.cell(d as int, p as int),
            d > 0,
        ensures
            r == self.faces_sound(s, d as int, p as int),
    {
        let faces = self.faces_of(s, d, p);
        let n = faces.len();
        for i in 0..n
            invariant
                self.tables_shaped(),
                self.bases_graded(),
                self.cell(d as int, p as int),
                d > 0,
                faces@ == self.faces(s, d as int, p as int),
                n == faces@.len(),
                forall|k: int| 0 <= k < i ==> self.face_link(s, d as int, p as int, #[trigger] faces@[k] as int),
        {
            let f = faces[i];
            if f >= self.basis[d - 1].len() {
                return false;
            }
            proof {
                assert(self.cell(d - 1, f as int));
            }
            if !intset::is_subset(self.basis[d - 1][f].as_slice(), self.basis[d][p].as_slice()) {
                return false;
            }
            if !intset::contains(self.cofaces_of(s, d - 1, f).as_slice(), p) {
                return false;
            }
        }
        true
    }

    fn check_cofaces(&self, s: Sign, d: usize, p: usize) -> (r: bool)
        requires
            self.tables_shaped(),
            self.cell(d as int, p as int),
        ensures
            r == self.cofaces_sound(s, d as int, p as int),
    {
        let cofaces = self.cofaces_of(s, d, p);
        let n = cofaces.len();
        let levels = self.basis.len();
        for i in 0..n
            invariant
                self.tables_shaped(),
                self.cell(d as int, p as int),
                levels == self.levels(),
                cofaces@ == self.cofaces(s, d as int, p as int),
                n == cofaces@.len(),
                forall|k: int| 0 <= k < i ==> self.coface_link(s, d as int, p as int, #[trigger] cofaces@[k] as int),
        {
            let c = cofaces[i];
            if d + 1 >= levels || c >= self.basis[d + 1].len() {
                return false;
            }
            if !intset::contains(self.faces_of(s, d + 1, c).as_slice(), p) {
                return false;
            }
        }
        true
    }

    fn check_direction(&self, d: usize, p: usize, v: usize) -> (r: bool)
        requires
            self.tables_shaped(),
            self.bases_graded(),
            self.cell(d as int, p as int),
            d > 0,
            self.faces_sound(Sign::Input, d as int, p as int),
            self.faces_sound(Sign::Output, d as int, p as int),
        ensures
            r == self.direction_realised(d as int, p as int, v),
    {
        let fin = self.faces_of(Sign::Input, d, p);
        let fout = self.faces_of(Sign::Output, d, p);
        let n = fin.len();
        for i in 0..n
            invariant
                self.tables_shaped(),
                self.bases_graded(),
                self.cell(d as int, p as int),
                d > 0,
                self.faces_sound(Sign::Input, d as int, p as int),
                fin@ == self.faces(Sign::Input, d as int, p as int),
                n == fin@.len(),
                forall|k: int| 0 <= k < i ==> self.basis_at(d - 1, #[trigger] fin@[k] as int).contains(v),
        {
            let f = fin[i];
            proof {
                assert(self.face_link(Sign::Input, d as int, p as int, f as int));
                assert(self.cell(d - 1, f as int));
            }
            let (found, _) = intset::search(self.basis[d - 1][f].as_slice(), v);
            if !found {
                proof {
                    assert(fin@.contains(f));
                }
                return true;
            }
        }
        let m = fout.len();
        for i in 0..m
            invariant
                self.tables_shaped(),
                self.bases_graded(),
                self.cell(d as int, p as int),
                d > 0,
                self.faces_sound(Sign::Output, d as int, p as int),
                fout@ == self.faces(Sign::Output, d as int, p as int),
                m == fout@.len(),
                forall|k: int| 0 <= k < i ==> self.basis_at(d - 1, #[trigger] fout@[k] as int).contains(v),
        {
            let f = fout[i];
            proof {
                assert(self.face_link(Sign::Output, d as int, p as int, f as int));
                assert(self.cell(d - 1, f as int));
            }
            let (found, _) = intset::search(self.basis[d - 1][f].as_slice(), v);
            if !found {
                proof {
                    assert(fout@.contains(f));
                }
                return true;
            }
        }
        proof {
            assert forall|f: usize|
                !((fin@.contains(f) || fout@.contains(f)) && !self.basis_at(d - 1, f as int).contains(v)) by {
                if fin@.contains(f) {
                    let k = choose|k: int| 0 <= k < fin@.len() && fin@[k] == f;
                    assert(self.basis_at(d - 1, fin@[k] as int).contains(v));
                }
                if fout@.contains(f) {
                    let k = choose|k: int| 0 <= k < fout@.len() && fout@[k] == f;
                    assert(self.basis_at(d - 1, fout@[k] as int).contains(v));
                }
            }
        }
        false
    }

    fn check_frame(&self, d: usize, p: usize) -> (r: bool)
        requires
            self.tables_shaped(),
            self.bases_graded(),
            self.cell(d as int, p as int),
            d > 0,
            self.faces_sound(Sign::Input, d as int, p as int),
            self.faces_sound(Sign::Output, d as int, p as int),
        ensures
            r == self.frame_realised(d as int, p as int),
    {
        let b = &self.basis[d][p];
        let n = b.len();
        for i in 0..n
            invariant
                self.tables_shaped(),
                self.bases_graded(),
                self.cell(d as int, p as int),
                d > 0,
                self.faces_sound(Sign::Input, d as int, p as int),
                self.faces_sound(Sign::Output, d as int, p as int),
                b@ == self.basis_at(d as int, p as int),
                n == b@.len(),
                forall|k: int| 0 <= k < i ==> self.direction_realised(d as int, p as int, #[trigger] b@[k]),
        {
            if !self.check_direction(d, p, b[i]) {
                proof {
                    assert(self.basis_at(d as int, p as int).contains(b@[i as int]));
                }
                return false;
            }
        }
        proof {
            assert forall|v: usize| #[trigger] self.basis_at(d as int, p as int).contains(v) implies self.direction_realised(
                d as int, p as int, v) by {
                let k = choose|k: int| 0 <= k < b@.len() && b@[k] == v;
                assert(self.direction_realised(d as int, p as int, b@[k]));
            }
        }
        true
    }

    fn check_cell(&self, d: usize, p: usize) -> (r: bool)
        requires
            self.tables_shaped(),
            self.bases_graded(),
            self.cell(d as int, p as int),
        ensures
            r == self.cell_sound(d as int, p as int),
    {
        let fin = self.faces_of(Sign::Input, d, p);
        let fout = self.faces_of(Sign::Output, d, p);
        if !intset::is_sorted_unique(fin.as_slice()) || !intset::is_sorted_unique(fout.as_slice())
            || !intset::is_sorted_unique(self.cofaces_of(Sign::Input, d, p).as_slice())
            || !intset::is_sorted_unique(self.cofaces_of(Sign::Output, d, p).as_slice()) {
            return false;
        }
        if !intset::is_disjoint(fin.as_slice(), fout.as_slice()) {
            return false;
        }
        if d == 0 && (fin.len() != 0 || fout.len() != 0) {
            return false;
        }
        if d > 0 {
            if !self.check_faces(Sign::Input, d, p) || !self.check_faces(Sign::Output, d, p) {
                return false;
            }
            if !self.check_frame(d, p) {
                return false;
            }
        }
        let r = self.check_cofaces(Sign::Input, d, p) && self.check_cofaces(Sign::Output, d, p);
        proof {
            assert(strictly_sorted(self.faces(Sign::Input, d as int, p as int)));
            assert(strictly_sorted(self.faces(Sign::Output, d as int, p as int)));
            assert(strictly_sorted(self.cofaces(Sign::Input, d as int, p as int)));
            assert(strictly_sorted(self.cofaces(Sign::Output, d as int, p as int)));
            assert(seq_disjoint(self.faces(Sign::Input, d as int, p as int), self.faces(Sign::Output, d as int, p as int)));
            assert(d == 0 ==> self.faces(Sign::Input, d as int, p as int).len() == 0);
            assert(d > 0 ==> self.faces_sound(Sign::Input, d as int, p as int));
            assert(d > 0 ==> self.frame_realised(d as int, p as int));
        }
        r
    }

    /// Check that the tables describe an oriented framed poset.
    pub fn well_formed(&self) -> (r: bool)
        ensures
            r == self.framed(),
    {
        if !self.check_shape() || !self.check_bases() {
            return false;
        }
        let levels = self.basis.len();
        for d in 0..levels
            invariant
                levels == self.levels(),
                self.tables_shaped(),
                self.bases_graded(),
                forall|e: int, q: int| 0 <= e < d && #[trigger] self.cell(e, q) ==> self.cell_sound(e, q),
        {
            let n = self.basis[d].len();
            for p in 0..n
                invariant
                    levels == self.levels(),
                    d < levels,
                    n == self.size(d as int),
                    self.tables_shaped(),
                    self.bases_graded(),
                    forall|e: int, q: int| 0 <= e < d && #[trigger] self.cell(e, q) ==> self.cell_sound(e, q),
                    forall|q: int| 0 <= q < p ==> #[trigger] self.cell_sound(d as int, q),
            {
                if !self.check_cell(d, p) {
                    proof {
                        assert(self.cell(d as int, p as int));
                        assert(!self.cell_sound(d as int, p as int));
                    }
                    return false;
                }
            }
        }
        true
    }
}

impl Embedding {
    /// Check that the forward and inverse tables describe an embedding of the
    /// domain into the codomain.
    pub fn well_formed(&self) -> (r: bool)
        requires
            self.dom.levels() <= self.cod.levels(),
        ensures
            r == self.wf(),
    {
        let dom_sizes = self.dom.sizes();
        let cod_sizes = self.cod.sizes();
        if self.map.len() != dom_sizes.len() || self.inv.len() != cod_sizes.len() {
            return false;
        }
        let dl = dom_sizes.len();
        let cl = cod_sizes.len();
        for d in 0..dl
            invariant
                dl == self.dom.levels(),
                dom_sizes@ == self.dom.size_seq(),
                self.map@.len() == dl,
                forall|e: int| 0 <= e < d ==> #[trigger] self.map@[e]@.len() == self.dom.size(e),
        {
            if self.map[d].len() != dom_sizes[d] {
                return false;
            }
        }
        for d in 0..cl
            invariant
                cl == self.cod.levels(),
                cod_sizes@ == self.cod.size_seq(),
                self.inv@.len() == cl,
                forall|e: int| 0 <= e < d ==> #[trigger] self.inv@[e]@.len() == self.cod.size(e),
        {
            if self.inv[d].len() != cod_sizes[d] {
                return false;
            }
        }
        for d in 0..dl
            invariant
                dl == self.dom.levels(),
                cl == self.cod.levels(),
                dl <= cl,
                dom_sizes@ == self.dom.size_seq(),
                cod_sizes@ == self.cod.size_seq(),
                self.map@.len() == dl,
                self.inv@.len() == cl,
                forall|e: int| 0 <= e < dl ==> #[trigger] self.map@[e]@.len() == self.dom.size(e),
                forall|e: int| 0 <= e < cl ==> #[trigger] self.inv@[e]@.len() == self.cod.size(e),
                forall|e: int, i: int| 0 <= e < d && self.dom.cell(e, i) ==> #[trigger] at(self.map, e, i) < self.cod.size(e)
                    && at(self.inv, e, at(self.map, e, i) as int) == i
                    && self.dom.basis_at(e, i) == self.cod.basis_at(e, at(self.map, e, i) as int),
        {
            let n = self.map[d].len();
            let m = cod_sizes[d];
            let mut seen: Vec<bool> = Vec::new();
            for j in 0..m
                invariant
                    seen@.len() == j,
                    forall|k: int| 0 <= k < j ==> !#[trigger] seen@[k],
            {
                seen.push(false);
            }
            for i in 0..n
                invariant
                    dl == self.dom.levels(),
                    cl == self.cod.levels(),
                    d < dl <= cl,
                    dom_sizes@ == self.dom.size_seq(),
                    cod_sizes@ == self.cod.size_seq(),
                    self.map@.len() == dl,
                    self.inv@.len() == cl,
                    n == self.dom.size(d as int),
                    m == self.cod.size(d as int),
                    seen@.len() == m,
                    forall|e: int| 0 <= e < dl ==> #[trigger] self.map@[e]@.len() == self.dom.size(e),
                    forall|e: int| 0 <= e < cl ==> #[trigger] self.inv@[e]@.len() == self.cod.size(e),
                    forall|e: int, k: int| 0 <= e < d && self.dom.cell(e, k) ==> #[trigger] at(self.map, e, k) < self.cod.size(e)
                        && at(self.inv, e, at(self.map, e, k) as int) == k
                        && self.dom.basis_at(e, k) == self.cod.basis_at(e, at(self.map, e, k) as int),
                    forall|k: int| 0 <= k < i ==> #[trigger] at(self.map, d as int, k) < self.cod.size(d as int)
                        && at(self.inv, d as int, at(self.map, d as int, k) as int) == k
                        && self.dom.basis_at(d as int, k) == self.cod.basis_at(d as int, at(self.map, d as int, k) as int),
                    forall|k: int| 0 <= k < i ==> #[trigger] seen@[at(self.map, d as int, k) as int],
                    forall|c: int| 0 <= c < m && #[trigger] seen@[c] ==> exists|k: int| 0 <= k < i && at(self.map, d as int, k) == c,
            {
                let c = self.map[d][i];
                if c >= m || seen[c] {
                    proof {
                        assert(self.dom.cell(d as int, i as int));
                        assert(at(self.map, d as int, i as int) == c);
                        if c < m {
                            let k = choose|k: int| 0 <= k < i && at(self.map, d as int, k) == c;
                            assert(self.dom.cell(d as int, k));
                            assert(self.dom.cell(d as int, i as int));
                            assert(at(self.map, d as int, k) == at(self.map, d as int, i as int));
                        }
                    }
                    return false;
                }
                seen.set(c, true);
                if self.inv[d][c] != i {
                    proof {
                        assert(at(self.map, d as int, i as int) == c);
                        assert(at(self.inv, d as int, at(self.map, d as int, i as int) as int) != i);
                    }
                    return false;
                }
                if !crate::poset::sets_equal(self.dom.basis_of(d, i).as_slice(), self.cod.basis_of(d, c).as_slice()) {
                    proof {
                        assert(at(self.map, d as int, i as int) == c);
                        assert(self.dom.cell(d as int, i as int));
                        assert(self.dom.basis_at(d as int, i as int) != self.cod.basis_at(d as int, at(self.map, d as int, i as int) as int));
                    }
                    return false;
                }
                proof {
                    assert(at(self.map, d as int, i as int) == c);
                }
            }
        }
        proof {
            assert forall|e: int, i: int, k: int| self.dom.cell(e, i) && self.dom.cell(e, k) && i != k implies
                #[trigger] at(self.map, e, i) != #[trigger] at(self.map, e, k) by {
                assert(at(self.inv, e, at(self.map, e, i) as int) == i);
                assert(at(self.inv, e, at(self.map, e, k) as int) == k);
            }
            assert(map_ok(&*self.dom, &*self.cod, self.map));
        }
        for d in 0..cl
            invariant
                dl == self.dom.levels(),
                cl == self.cod.levels(),
                dl <= cl,
                dom_sizes@ == self.dom.size_seq(),
                cod_sizes@ == self.cod.size_seq(),
                self.map@.len() == dl,
                self.inv@.len() == cl,
                map_ok(&*self.dom, &*self.cod, self.map),
                forall|e: int| 0 <= e < cl ==> #[trigger] self.inv@[e]@.len() == self.cod.size(e),
                forall|e: int, j: int| 0 <= e < d && self.cod.cell(e, j) && #[trigger] at(self.inv, e, j) != NO_PREIMAGE ==>
                    e < self.map@.len() && at(self.inv, e, j) < self.map@[e]@.len() && at(self.map, e, at(self.inv, e, j) as int) == j,
        {
            let m = self.inv[d].len();
            for j in 0..m
                invariant
                    dl == self.dom.levels(),
                    cl == self.cod.levels(),
                    d < cl,
                    dom_sizes@ == self.dom.size_seq(),
                    self.map@.len() == dl,
                    self.inv@.len() == cl,
                    m == self.cod.size(d as int),
                    map_ok(&*self.dom, &*self.cod, self.map),
                    forall|e: int| 0 <= e < cl ==> #[trigger] self.inv@[e]@.len() == self.cod.size(e),
                    forall|e: int, k: int| 0 <= e < d && self.cod.cell(e, k) && #[trigger] at(self.inv, e, k) != NO_PREIMAGE ==>
                        e < self.map@.len() && at(self.inv, e, k) < self.map@[e]@.len() && at(self.map, e, at(self.inv, e, k) as int) == k,
                    forall|k: int| 0 <= k < j && #[trigger] at(self.inv, d as int, k) != NO_PREIMAGE ==>
                        d < self.map@.len() && at(self.inv, d as int, k) < self.map@[d as int]@.len()
                        && at(self.map, d as int, at(self.inv, d as int, k) as int) == k,
            {
                let i = self.inv[d][j];
                if i != NO_PREIMAGE {
                    if d >= dl || i >= dom_sizes[d] || self.map[d][i] != j {
                        proof {
                            assert(at(self.inv, d as int, j as int) == i);
                            assert(self.cod.cell(d as int, j as int));
                        }
                        return false;
                    }
                }
            }
        }
        proof {
            assert forall|e: int, i: int| 0 <= e < self.map@.len() && 0 <= i < self.map@[e]@.len() implies
                #[trigger] at(self.inv, e, at(self.map, e, i) as int) == i by {
                assert(self.dom.cell(e, i));
            }
        }
        true
    }
}

/// In a valid poset every signed coface is linked back.
pub proof fn lemma_valid_cofaces_sound(r: FramedPoset, s: Sign, d: int, p: int)
    requires
        r.valid(),
        r.cell(d, p),
    ensures
        r.cofaces_sound(s, d, p),
{
    let rc = r.cofaces(s, d, p);
    assert forall|i: int| 0 <= i < rc.len() implies r.coface_link(s, d, p, #[trigger] rc[i] as int) by {
        let c = rc[i];
        crate::poset::lemma_valid_sign(&r, s);
        assert(r.basis@[d].len() == r.basis@[d]@.len());
        assert(entry(r.coface_table(s), d, p)[i] < rows(r.basis, d + 1));
        assert(rc.contains(c));
        assert(r.face_table(s)@.len() == r.basis@.len());
        assert(r.face_table(s)@[d + 1]@.len() == r.basis@[d + 1]@.len());
        assert(entry(r.coface_table(s), d, p as usize as int).contains(c));
    }
}

/// In a valid poset a signed face lists the cell among its cofaces.
pub proof fn lemma_valid_face_coface(x: FramedPoset, s: Sign, d: int, p: int, f: usize)
    requires
        x.valid(),
        x.cell(d, p),
        x.faces(s, d, p).contains(f),
    ensures
        1 <= d,
        x.cell(d - 1, f as int),
        x.cofaces(s, d - 1, f as int).contains(p as usize),
{
    crate::poset::lemma_valid_sign(&x, s);
    let fs = x.faces(s, d, p);
    let i = choose|i: int| 0 <= i < fs.len() && fs[i] == f;
    assert(entry(x.face_table(s), d, p)[i] < rows(x.basis, d - 1));
    assert(1 <= d);
    assert(f < x.size(d - 1));
    assert(x.basis@[d].len() == x.basis@[d]@.len());
    assert(p as usize as int == p);
    assert(rows(x.face_table(s), d) == x.size(d));
    assert(entry(x.face_table(s), d, p).contains(f));
    assert(entry(x.face_table(s), (d - 1) + 1, (p as usize) as int).contains(f));
    assert(x.coface_table(s)@[d - 1]@.len() == x.size(d - 1));
    assert(entry(x.coface_table(s), d - 1, f as int).contains(p as usize));
}

} // verus!

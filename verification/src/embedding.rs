//! Embeddings of framed posets.

use std::sync::Arc;

use vstd::prelude::*;

use crate::intset::{self, IntSet, same_elements, strictly_sorted};
use crate::poset::{Element, FramedPoset, FramedPosetSubset, Sign, closure, entry, flag, lemma_reach_ext, lower_face, reach};

verus! {

/// Sentinel stored in inverse maps when a codomain cell has no preimage.
pub const NO_PREIMAGE: usize = usize::MAX;

/// An injective basis-preserving map of framed posets.
///
/// The map is indexed by basis cardinality:
/// - `map[d][i]` is the codomain index of domain cell `i` at level `d`.
/// - `inv[d][j]` is the domain preimage of codomain cell `j`, or
///   [`NO_PREIMAGE`] when no preimage exists.
#[derive(Debug)]
pub struct Embedding {
    pub dom: Arc<FramedPoset>,
    pub cod: Arc<FramedPoset>,
    pub map: Vec<Vec<usize>>,
    pub inv: Vec<Vec<usize>>,
}

/// Entry `i` of row `d` of an index table.
pub open spec fn at(t: Vec<Vec<usize>>, d: int, i: int) -> usize {
    t@[d]@[i]
}

/// A copy of the shared pointer to a framed poset.
#[verifier::external_body]
pub(crate) fn share(p: &Arc<FramedPoset>) -> (r: Arc<FramedPoset>)
    ensures
        r == *p,
{
    Arc::clone(p)
}

/// The conditions on a forward map that make it an embedding of `dom` into `cod`:
/// one injective row per domain level, into the codomain level of the same
/// cardinality, preserving bases.
pub open spec fn map_ok(dom: &FramedPoset, cod: &FramedPoset, map: Vec<Vec<usize>>) -> bool {
    &&& map@.len() == dom.levels()
    &&& forall|d: int| 0 <= d < dom.levels() ==> #[trigger] map@[d]@.len() == dom.size(d)
    &&& forall|d: int, i: int| dom.cell(d, i) ==> #[trigger] at(map, d, i) < cod.size(d)
    &&& forall|d: int, i: int, j: int| dom.cell(d, i) && dom.cell(d, j) && i != j ==> #[trigger] at(map, d, i) != #[trigger] at(map, d, j)
    &&& forall|d: int, i: int| dom.cell(d, i) ==> #[trigger] dom.basis_at(d, i) == cod.basis_at(d, at(map, d, i) as int)
}

/// `inv` is the partial inverse of `map` over the cells of `cod`.
pub open spec fn inv_ok(cod: &FramedPoset, map: Vec<Vec<usize>>, inv: Vec<Vec<usize>>) -> bool {
    &&& inv@.len() == cod.levels()
    &&& forall|d: int| 0 <= d < cod.levels() ==> #[trigger] inv@[d]@.len() == cod.size(d)
    &&& forall|d: int, i: int| 0 <= d < map@.len() && 0 <= i < map@[d]@.len() ==> #[trigger] at(inv, d, at(map, d, i) as int) == i
    &&& forall|d: int, j: int| cod.cell(d, j) && #[trigger] at(inv, d, j) != NO_PREIMAGE ==>
        d < map@.len() && at(inv, d, j) < map@[d]@.len() && at(map, d, at(inv, d, j) as int) == j
}

/// Cell `(d, j)` of the codomain has a preimage.
pub open spec fn in_image(map: Vec<Vec<usize>>, d: int, j: int) -> bool {
    exists|i: int| 0 <= d < map@.len() && 0 <= i < map@[d]@.len() && #[trigger] at(map, d, i) == j
}

impl Embedding {
    /// The stored tables describe an embedding of `dom` into `cod`.
    pub open spec fn wf(&self) -> bool {
        &&& map_ok(&*self.dom, &*self.cod, self.map)
        &&& inv_ok(&*self.cod, self.map, self.inv)
    }

    /// Both posets are valid and the tables describe an embedding between them.
    pub open spec fn valid(&self) -> bool {
        &&& self.dom.valid()
        &&& self.cod.valid()
        &&& self.wf()
    }

    /// Every codomain cell has a preimage.
    pub open spec fn surjective(&self) -> bool {
        forall|d: int, j: int| 0 <= d < self.inv@.len() && 0 <= j < self.inv@[d]@.len() ==> #[trigger] at(self.inv, d, j) != NO_PREIMAGE
    }

    /// The images in the codomain of the `s`-faces of domain cell `(d, i)`.
    pub open spec fn image_faces(&self, s: Sign, d: int, i: int) -> Seq<usize> {
        self.dom.faces(s, d, i).map_values(|f: usize| at(self.map, d - 1, f as int))
    }

    /// The signed faces of each image cell are exactly the images of the signed
    /// faces of its preimage.
    pub open spec fn closed(&self) -> bool {
        forall|s: Sign, d: int, i: int| 1 <= d && self.dom.cell(d, i) ==>
            same_elements(#[trigger] self.cod.faces(s, d, at(self.map, d, i) as int), self.image_faces(s, d, i))
    }

    /// Codomain cell `(d, c)` at level `d >= 1` has its `s`-face `f` in the image
    /// of a domain cover relation.
    pub open spec fn image_edge(&self, s: Sign, d: int, f: usize, c: int) -> bool {
        exists|i: int| 1 <= d && self.dom.cell(d, i) && #[trigger] at(self.map, d, i) == c && self.image_faces(s, d, i).contains(f)
    }

    /// The two embeddings have equal codomains, the same image cells and the
    /// same signed image cover relations.
    pub open spec fn same_subobject(&self, other: &Embedding) -> bool {
        &&& self.cod.same_poset(&*other.cod)
        &&& forall|d: int, j: int| #[trigger] in_image(self.map, d, j) <==> in_image(other.map, d, j)
        &&& forall|s: Sign, d: int, f: usize, c: int| #[trigger] self.image_edge(s, d, f, c) <==> other.image_edge(s, d, f, c)
    }
}

impl Embedding {
    /// Construct an embedding from its forward map.
    ///
    /// The partial inverse is derived from `map`.
    pub fn from_map(dom: Arc<FramedPoset>, cod: Arc<FramedPoset>, map: Vec<Vec<usize>>) -> (r: Self)
        requires
            forall|d: int, i: int| 0 <= d < map@.len() && 0 <= i < map@[d]@.len() ==> #[trigger] at(map, d, i) < cod.size(d),
        ensures
            r.dom == dom,
            r.cod == cod,
            r.map == map,
            r.inv@.len() == cod.levels(),
            forall|d: int| 0 <= d < cod.levels() ==> #[trigger] r.inv@[d]@.len() == cod.size(d),
            forall|d: int, j: int| cod.cell(d, j) ==> (#[trigger] at(r.inv, d, j) == NO_PREIMAGE) == !in_image(map, d, j),
            forall|d: int, j: int| cod.cell(d, j) && #[trigger] at(r.inv, d, j) != NO_PREIMAGE ==>
                d < map@.len() && at(r.inv, d, j) < map@[d]@.len() && at(map, d, at(r.inv, d, j) as int) == j,
            map_ok(&*dom, &*cod, map) ==> r.wf(),
    {
        let sizes = cod.sizes();
        let levels = sizes.len();
        let mut inv: Vec<Vec<usize>> = Vec::new();
        for d in 0..levels
            invariant
                levels == cod.levels(),
                sizes@ == cod.size_seq(),
                inv@.len() == d,
                forall|e: int| 0 <= e < d ==> #[trigger] inv@[e]@.len() == cod.size(e),
                forall|e: int, j: int| 0 <= e < d && 0 <= j < inv@[e]@.len() ==> #[trigger] at(inv, e, j) == NO_PREIMAGE,
        {
            let row = vec![NO_PREIMAGE; sizes[d]];
            let ghost before = inv;
            inv.push(row);
            proof {
                assert(sizes@[d as int] == cod.size(d as int));
                assert forall|e: int| 0 <= e < d + 1 implies #[trigger] inv@[e]@.len() == cod.size(e) by {
                    if e < d {
                        assert(inv@[e] == before@[e]);
                    }
                }
                assert forall|e: int, j: int| 0 <= e < d + 1 && 0 <= j < inv@[e]@.len() implies #[trigger] at(inv, e, j) == NO_PREIMAGE by {
                    if e < d {
                        assert(inv@[e] == before@[e]);
                        assert(at(before, e, j) == NO_PREIMAGE);
                    }
                }
            }
        }
        let n = map.len();
        for d in 0..n
            invariant
                n == map@.len(),
                forall|d: int, i: int| 0 <= d < map@.len() && 0 <= i < map@[d]@.len() ==> #[trigger] at(map, d, i) < cod.size(d),
                inv@.len() == cod.levels(),
                forall|e: int| 0 <= e < cod.levels() ==> #[trigger] inv@[e]@.len() == cod.size(e),
                forall|e: int, j: int| cod.cell(e, j) && #[trigger] at(inv, e, j) != NO_PREIMAGE ==>
                    e < d && at(inv, e, j) < map@[e]@.len() && at(map, e, at(inv, e, j) as int) == j,
                forall|e: int, j: int| cod.cell(e, j) && #[trigger] at(inv, e, j) == NO_PREIMAGE ==> !(e < d && in_image(map, e, j)),
                forall|e: int, i: int| 0 <= e < d && 0 <= i < map@[e]@.len() && (forall|k: int| i < k < map@[e]@.len() ==> at(map, e, k) != at(map, e, i))
                    ==> #[trigger] at(inv, e, at(map, e, i) as int) == i,
        {
            let m = map[d].len();
            for i in 0..m
                invariant
                    n == map@.len(),
                    d < n,
                    m == map@[d as int]@.len(),
                    forall|d: int, i: int| 0 <= d < map@.len() && 0 <= i < map@[d]@.len() ==> #[trigger] at(map, d, i) < cod.size(d),
                    inv@.len() == cod.levels(),
                    forall|e: int| 0 <= e < cod.levels() ==> #[trigger] inv@[e]@.len() == cod.size(e),
                    forall|e: int, j: int| cod.cell(e, j) && #[trigger] at(inv, e, j) != NO_PREIMAGE ==>
                        (e < d || (e == d && at(inv, e, j) < i)) && at(inv, e, j) < map@[e]@.len() && at(map, e, at(inv, e, j) as int) == j,
                    forall|e: int, j: int| cod.cell(e, j) && #[trigger] at(inv, e, j) == NO_PREIMAGE ==>
                        !(e < d && in_image(map, e, j)) && !(e == d && exists|k: int| 0 <= k < i && #[trigger] at(map, e, k) == j),
                    forall|e: int, q: int| 0 <= e < d && 0 <= q < map@[e]@.len() && (forall|k: int| q < k < map@[e]@.len() ==> at(map, e, k) != at(map, e, q))
                        ==> #[trigger] at(inv, e, at(map, e, q) as int) == q,
                    forall|q: int| 0 <= q < i && (forall|k: int| q < k < i ==> at(map, d as int, k) != at(map, d as int, q))
                        ==> #[trigger] at(inv, d as int, at(map, d as int, q) as int) == q,
            {
                let j = map[d][i];
                proof {
                    assert(at(map, d as int, i as int) < cod.size(d as int));
                    assert(map@[d as int].len() == map@[d as int]@.len());
                }
                let ghost before = inv;
                inv[d][j] = i;
                proof {
                    assert forall|e: int, x: int| 0 <= e < inv@.len() && 0 <= x < inv@[e]@.len() && !(e == d && x == j) implies
                        at(inv, e, x) == at(before, e, x) by {
                        if e != d {
                            assert(inv@[e] == before@[e]);
                        }
                    }
                    assert forall|e: int, x: int| cod.cell(e, x) && #[trigger] at(inv, e, x) == NO_PREIMAGE implies
                        !(e < d && in_image(map, e, x)) && !(e == d && exists|k: int| 0 <= k < i + 1 && #[trigger] at(map, e, k) == x) by {
                        assert(at(before, e, x) == NO_PREIMAGE);
                    }
                    assert forall|q: int| 0 <= q < i + 1 && (forall|k: int| q < k < i + 1 ==> at(map, d as int, k) != at(map, d as int, q))
                        implies #[trigger] at(inv, d as int, at(map, d as int, q) as int) == q by {
                        if q < i {
                            assert(at(map, d as int, i as int) != at(map, d as int, q));
                            assert(forall|k: int| q < k < i ==> at(map, d as int, k) != at(map, d as int, q));
                        }
                    }
                    assert forall|e: int, q: int| 0 <= e < d && 0 <= q < map@[e]@.len() && (forall|k: int| q < k < map@[e]@.len() ==> at(map, e, k) != at(map, e, q))
                        implies #[trigger] at(inv, e, at(map, e, q) as int) == q by {
                        assert(at(before, e, at(map, e, q) as int) == q);
                        assert(inv@[e] == before@[e]);
                    }
                }
            }
        }
        proof {
            assert forall|d: int, j: int| cod.cell(d, j) implies (#[trigger] at(inv, d, j) == NO_PREIMAGE) == !in_image(map, d, j) by {
                if at(inv, d, j) != NO_PREIMAGE {
                    let i = at(inv, d, j) as int;
                    assert(at(map, d, i) == j);
                }
            }
            if map_ok(&*dom, &*cod, map) {
                assert forall|d: int, i: int| 0 <= d < map@.len() && 0 <= i < map@[d]@.len() implies #[trigger] at(inv, d, at(map, d, i) as int) == i by {
                    assert(dom.cell(d, i));
                    assert forall|k: int| i < k < map@[d]@.len() implies at(map, d, k) != at(map, d, i) by {
                        assert(dom.cell(d, k));
                    }
                }
            }
        }
        Embedding { dom, cod, map, inv }
    }

    /// The image of a domain cell.
    pub fn apply(&self, element: Element) -> (r: Element)
        requires
            element.dim < self.map@.len(),
            element.pos < self.map@[element.dim as int]@.len(),
        ensures
            r.dim == element.dim,
            r.pos == at(self.map, element.dim as int, element.pos as int),
    {
        Element { dim: element.dim, pos: self.map[element.dim][element.pos] }
    }

    /// Construct an embedding from precomputed tables.
    pub fn make(dom: Arc<FramedPoset>, cod: Arc<FramedPoset>, map: Vec<Vec<usize>>, inv: Vec<Vec<usize>>) -> (r: Self)
        ensures
            r.dom == dom,
            r.cod == cod,
            r.map == map,
            r.inv == inv,
    {
        Embedding { dom, cod, map, inv }
    }
}

/// The view of an index table as nested sequences.
pub open spec fn tv(t: Vec<Vec<usize>>) -> Seq<Seq<usize>> {
    t@.map_values(|r: Vec<usize>| r@)
}

/// A copy of an index table.
pub(crate) fn copy_index_table(t: &Vec<Vec<usize>>) -> (r: Vec<Vec<usize>>)
    ensures
        tv(r) == tv(*t),
        r@.len() == t@.len(),
        forall|d: int| 0 <= d < t@.len() ==> #[trigger] r@[d]@ == t@[d]@,
{
    let r = t.clone();
    proof {
        assert(tv(r) =~= tv(*t));
    }
    r
}

/// The images of the signed faces of domain cell `(d, i)` under the map one level down.
fn mapped_faces(e: &Embedding, sign: Sign, d: usize, i: usize) -> (r: Vec<usize>)
    requires
        e.valid(),
        1 <= d,
        e.dom.cell(d as int, i as int),
    ensures
        r@ == e.image_faces(sign, d as int, i as int),
{
    let faces = e.dom.faces_of(sign, d, i);
    let n = faces.len();
    let mut r: Vec<usize> = Vec::new();
    for k in 0..n
        invariant
            e.valid(),
            1 <= d,
            e.dom.cell(d as int, i as int),
            n == faces@.len(),
            faces@ == e.dom.faces(sign, d as int, i as int),
            r@ == e.image_faces(sign, d as int, i as int).take(k as int),
    {
        let f = faces[k];
        proof {
            assert(e.dom.faces(sign, d as int, i as int)[k as int] < e.dom.size(d - 1));
            assert(e.dom.cell(d - 1, f as int));
        }
        r.push(e.map[d - 1][f]);
        proof {
            assert(r@ =~= e.image_faces(sign, d as int, i as int).take(k + 1));
        }
    }
    proof {
        assert(e.image_faces(sign, d as int, i as int).take(n as int) =~= e.image_faces(sign, d as int, i as int));
    }
    r
}

impl Embedding {
    /// Identity embedding.
    pub fn id(x: Arc<FramedPoset>) -> (r: Self)
        requires
            x.valid(),
        ensures
            r.valid(),
            r.dom == x,
            r.cod == x,
            forall|d: int, i: int| x.cell(d, i) ==> #[trigger] at(r.map, d, i) == i,
            r.surjective(),
    {
        let sizes = x.sizes();
        let n = sizes.len();
        let mut map: Vec<Vec<usize>> = Vec::new();
        for d in 0..n
            invariant
                n == x.levels(),
                sizes@ == x.size_seq(),
                map@.len() == d,
                forall|e: int| 0 <= e < d ==> #[trigger] map@[e]@.len() == x.size(e),
                forall|e: int, i: int| 0 <= e < d && 0 <= i < map@[e]@.len() ==> #[trigger] at(map, e, i) == i,
        {
            let m = sizes[d];
            let mut row: Vec<usize> = Vec::new();
            for i in 0..m
                invariant
                    row@.len() == i,
                    forall|k: int| 0 <= k < i ==> #[trigger] row@[k] == k,
            {
                row.push(i);
            }
            let ghost before = map;
            map.push(row);
            proof {
                assert forall|e: int| 0 <= e < d + 1 implies #[trigger] map@[e]@.len() == x.size(e) by {
                    if e < d {
                        assert(map@[e] == before@[e]);
                    }
                }
                assert forall|e: int, i: int| 0 <= e < d + 1 && 0 <= i < map@[e]@.len() implies #[trigger] at(map, e, i) == i by {
                    if e < d {
                        assert(map@[e] == before@[e]);
                        assert(at(before, e, i) == i);
                    }
                }
            }
        }
        let x2 = share(&x);
        let r = Embedding::from_map(x2, x, map);
        proof {
            assert(map_ok(&*r.dom, &*r.cod, r.map));
            assert forall|d: int, j: int| 0 <= d < r.inv@.len() && 0 <= j < r.inv@[d]@.len() implies #[trigger] at(r.inv, d, j) != NO_PREIMAGE by {
                assert(at(r.map, d, j) == j);
                assert(in_image(r.map, d, j));
            }
        }
        r
    }

    /// The unique embedding from the empty poset into `cod`.
    pub fn empty(cod: Arc<FramedPoset>) -> (r: Self)
        requires
            cod.valid(),
        ensures
            r.valid(),
            r.dom.levels() == 0,
            r.cod == cod,
    {
        let dom = Arc::new(FramedPoset::empty());
        let r = Embedding::from_map(dom, cod, Vec::new());
        proof {
            assert(map_ok(&*r.dom, &*r.cod, r.map));
        }
        r
    }

    /// True when the domain has no cells.
    pub fn is_empty(&self) -> (r: bool)
        ensures
            r == forall|d: int| 0 <= d < self.dom.levels() ==> #[trigger] self.dom.size(d) == 0,
    {
        let sizes = self.dom.sizes();
        let n = sizes.len();
        for d in 0..n
            invariant
                n == self.dom.levels(),
                sizes@ == self.dom.size_seq(),
                forall|e: int| 0 <= e < d ==> #[trigger] self.dom.size(e) == 0,
        {
            if sizes[d] != 0 {
                proof {
                    assert(self.dom.size(d as int) != 0);
                }
                return false;
            }
        }
        true
    }

    /// True when every codomain cell has a preimage.
    pub fn is_surjective(&self) -> (r: bool)
        ensures
            r == self.surjective(),
    {
        let n = self.inv.len();
        for d in 0..n
            invariant
                n == self.inv@.len(),
                forall|e: int, j: int| 0 <= e < d && 0 <= j < self.inv@[e]@.len() ==> #[trigger] at(self.inv, e, j) != NO_PREIMAGE,
        {
            let m = self.inv[d].len();
            for j in 0..m
                invariant
                    n == self.inv@.len(),
                    d < n,
                    m == self.inv@[d as int]@.len(),
                    forall|e: int, j: int| 0 <= e < d && 0 <= j < self.inv@[e]@.len() ==> #[trigger] at(self.inv, e, j) != NO_PREIMAGE,
                    forall|k: int| 0 <= k < j ==> #[trigger] at(self.inv, d as int, k) != NO_PREIMAGE,
            {
                if self.inv[d][j] == NO_PREIMAGE {
                    proof {
                        assert(at(self.inv, d as int, j as int) == NO_PREIMAGE);
                    }
                    return false;
                }
            }
        }
        true
    }

    /// True when the image is an induced downward sub-poset of the codomain.
    ///
    /// For every domain cell, its signed faces must be exactly the preimages of
    /// the corresponding signed faces of its image in the codomain.
    pub fn is_closed(&self) -> (r: bool)
        requires
            self.valid(),
        ensures
            r == self.closed(),
    {
        let n = self.map.len();
        let mut d: usize = 1;
        while d < n
            invariant
                self.valid(),
                n == self.map@.len(),
                1 <= d,
                forall|s: Sign, e: int, i: int| 1 <= e < d && self.dom.cell(e, i) ==>
                    same_elements(#[trigger] self.cod.faces(s, e, at(self.map, e, i) as int), self.image_faces(s, e, i)),
            decreases n - d,
        {
            let m = self.map[d].len();
            for i in 0..m
                invariant
                    self.valid(),
                    n == self.map@.len(),
                    1 <= d < n,
                    m == self.dom.size(d as int),
                    forall|s: Sign, e: int, i: int| 1 <= e < d && self.dom.cell(e, i) ==>
                        same_elements(#[trigger] self.cod.faces(s, e, at(self.map, e, i) as int), self.image_faces(s, e, i)),
                    forall|s: Sign, k: int| 0 <= k < i ==>
                        same_elements(#[trigger] self.cod.faces(s, d as int, at(self.map, d as int, k) as int), self.image_faces(s, d as int, k)),
            {
                let cod_pos = self.map[d][i];
                proof {
                    assert(cod_pos == at(self.map, d as int, i as int));
                    assert(self.dom.cell(d as int, i as int));
                    assert(self.cod.cell(d as int, cod_pos as int));
                }
                let mapped_in = intset::collect_sorted(mapped_faces(self, Sign::Input, d, i));
                if !crate::poset::sets_equal(mapped_in.as_slice(), self.cod.faces_of(Sign::Input, d, cod_pos).as_slice()) {
                    proof {
                        assert(strictly_sorted(self.cod.faces(Sign::Input, d as int, cod_pos as int)));
                        if same_elements(self.cod.faces(Sign::Input, d as int, cod_pos as int), self.image_faces(Sign::Input, d as int, i as int)) {
                            assert(same_elements(mapped_in@, self.cod.faces(Sign::Input, d as int, cod_pos as int)));
                            intset::lemma_sorted_same_elements(mapped_in@, self.cod.faces(Sign::Input, d as int, cod_pos as int));
                        }
                        assert(!same_elements(self.cod.faces(Sign::Input, d as int, at(self.map, d as int, i as int) as int), self.image_faces(Sign::Input, d as int, i as int)));
                    }
                    return false;
                }
                let mapped_out = intset::collect_sorted(mapped_faces(self, Sign::Output, d, i));
                if !crate::poset::sets_equal(mapped_out.as_slice(), self.cod.faces_of(Sign::Output, d, cod_pos).as_slice()) {
                    proof {
                        assert(strictly_sorted(self.cod.faces(Sign::Output, d as int, cod_pos as int)));
                        if same_elements(self.cod.faces(Sign::Output, d as int, cod_pos as int), self.image_faces(Sign::Output, d as int, i as int)) {
                            assert(same_elements(mapped_out@, self.cod.faces(Sign::Output, d as int, cod_pos as int)));
                            intset::lemma_sorted_same_elements(mapped_out@, self.cod.faces(Sign::Output, d as int, cod_pos as int));
                        }
                        assert(!same_elements(self.cod.faces(Sign::Output, d as int, at(self.map, d as int, i as int) as int), self.image_faces(Sign::Output, d as int, i as int)));
                    }
                    return false;
                }
                proof {
                    assert forall|s: Sign, k: int| 0 <= k < i + 1 implies
                        same_elements(#[trigger] self.cod.faces(s, d as int, at(self.map, d as int, k) as int), self.image_faces(s, d as int, k)) by {
                        if k == i {
                            match s {
                                Sign::Input => {}
                                Sign::Output => {}
                            }
                        }
                    }
                }
            }
            d = d + 1;
        }
        proof {
            assert forall|s: Sign, e: int, i: int| 1 <= e && self.dom.cell(e, i) implies
                same_elements(#[trigger] self.cod.faces(s, e, at(self.map, e, i) as int), self.image_faces(s, e, i)) by {
                assert(e < n);
            }
        }
        true
    }

    /// True when this embedding is an isomorphism of framed posets.
    pub fn is_isomorphism(&self) -> (r: bool)
        requires
            self.valid(),
        ensures
            r == (self.surjective() && self.closed()),
    {
        self.is_surjective() && self.is_closed()
    }

    /// Invert an embedding known to be an isomorphism.
    pub fn inverse_isomorphism(&self) -> (r: Self)
        ensures
            r.dom == self.cod,
            r.cod == self.dom,
            tv(r.map) == tv(self.inv),
            tv(r.inv) == tv(self.map),
            self.valid() && self.surjective() && self.closed() ==> r.valid() && r.surjective() && r.closed(),
    {
        let r = Embedding::make(share(&self.cod), share(&self.dom), copy_index_table(&self.inv), copy_index_table(&self.map));
        proof {
            if self.valid() && self.surjective() && self.closed() {
                law_inverse_isomorphism(*self, r);
            }
        }
        r
    }

    /// Compose `f: A -> B` with `g: B -> C`, returning `g f: A -> C`.
    ///
    /// The middle framed posets are compared structurally, not by pointer
    /// identity, so separately allocated but equal middle objects can compose.
    pub fn compose(f: &Self, g: &Self) -> (r: Self)
        requires
            f.valid(),
            g.valid(),
            f.cod.same_poset(&*g.dom),
        ensures
            r.valid(),
            r.dom == f.dom,
            r.cod == g.cod,
            forall|d: int, i: int| f.dom.cell(d, i) ==> #[trigger] at(r.map, d, i) == at(g.map, d, at(f.map, d, i) as int),
            forall|d: int, j: int| g.cod.cell(d, j) ==> #[trigger] at(r.inv, d, j) == (
                if at(g.inv, d, j) == NO_PREIMAGE { NO_PREIMAGE } else { at(f.inv, d, at(g.inv, d, j) as int) }),
    {
        proof {
            lemma_same_poset_sizes(&*f.cod, &*g.dom);
        }
        let n = f.map.len();
        let mut map: Vec<Vec<usize>> = Vec::new();
        for d in 0..n
            invariant
                f.valid(),
                g.valid(),
                f.cod.same_poset(&*g.dom),
                forall|e: int| #[trigger] f.cod.size(e) == g.dom.size(e),
                f.cod.levels() == g.dom.levels(),
                n == f.map@.len(),
                map@.len() == d,
                forall|e: int| 0 <= e < d ==> #[trigger] map@[e]@.len() == f.dom.size(e),
                forall|e: int, i: int| 0 <= e < d && f.dom.cell(e, i) ==> #[trigger] at(map, e, i) == at(g.map, e, at(f.map, e, i) as int),
        {
            let m = f.map[d].len();
            let mut row: Vec<usize> = Vec::new();
            for i in 0..m
                invariant
                    f.valid(),
                    g.valid(),
                    forall|e: int| #[trigger] f.cod.size(e) == g.dom.size(e),
                    f.cod.levels() == g.dom.levels(),
                    n == f.map@.len(),
                    d < n,
                    m == f.dom.size(d as int),
                    row@.len() == i,
                    forall|k: int| 0 <= k < i ==> #[trigger] row@[k] == at(g.map, d as int, at(f.map, d as int, k) as int),
            {
                let x = f.map[d][i];
                proof {
                    assert(f.dom.cell(d as int, i as int));
                    assert(at(f.map, d as int, i as int) < f.cod.size(d as int));
                    assert(g.dom.cell(d as int, x as int));
                }
                row.push(g.map[d][x]);
            }
            let ghost before = map;
            map.push(row);
            proof {
                assert forall|e: int| 0 <= e < d + 1 implies #[trigger] map@[e]@.len() == f.dom.size(e) by {
                    if e < d {
                        assert(map@[e] == before@[e]);
                    }
                }
                assert forall|e: int, i: int| 0 <= e < d + 1 && f.dom.cell(e, i) implies #[trigger] at(map, e, i) == at(g.map, e, at(f.map, e, i) as int) by {
                    if e < d {
                        assert(map@[e] == before@[e]);
                        assert(at(before, e, i) == at(g.map, e, at(f.map, e, i) as int));
                    }
                }
            }
        }
        let n2 = g.inv.len();
        let mut inv: Vec<Vec<usize>> = Vec::new();
        for d in 0..n2
            invariant
                f.valid(),
                g.valid(),
                forall|e: int| #[trigger] f.cod.size(e) == g.dom.size(e),
                f.cod.levels() == g.dom.levels(),
                n2 == g.inv@.len(),
                inv@.len() == d,
                forall|e: int| 0 <= e < d ==> #[trigger] inv@[e]@.len() == g.cod.size(e),
                forall|e: int, j: int| 0 <= e < d && g.cod.cell(e, j) ==> #[trigger] at(inv, e, j) == (
                    if at(g.inv, e, j) == NO_PREIMAGE { NO_PREIMAGE } else { at(f.inv, e, at(g.inv, e, j) as int) }),
        {
            let m = g.inv[d].len();
            let mut row: Vec<usize> = Vec::new();
            for j in 0..m
                invariant
                    f.valid(),
                    g.valid(),
                    forall|e: int| #[trigger] f.cod.size(e) == g.dom.size(e),
                    f.cod.levels() == g.dom.levels(),
                    n2 == g.inv@.len(),
                    d < n2,
                    m == g.cod.size(d as int),
                    row@.len() == j,
                    forall|k: int| 0 <= k < j ==> #[trigger] row@[k] == (
                        if at(g.inv, d as int, k) == NO_PREIMAGE { NO_PREIMAGE } else { at(f.inv, d as int, at(g.inv, d as int, k) as int) }),
            {
                let x = g.inv[d][j];
                if x == NO_PREIMAGE {
                    row.push(NO_PREIMAGE);
                } else {
                    proof {
                        assert(g.cod.cell(d as int, j as int));
                        assert(at(g.inv, d as int, j as int) < g.map@[d as int]@.len());
                        assert(d < g.dom.levels());
                        assert(f.cod.cell(d as int, x as int));
                    }
                    row.push(f.inv[d][x]);
                }
            }
            let ghost before = inv;
            inv.push(row);
            proof {
                assert forall|e: int| 0 <= e < d + 1 implies #[trigger] inv@[e]@.len() == g.cod.size(e) by {
                    if e < d {
                        assert(inv@[e] == before@[e]);
                    }
                }
                assert forall|e: int, j: int| 0 <= e < d + 1 && g.cod.cell(e, j) implies #[trigger] at(inv, e, j) == (
                    if at(g.inv, e, j) == NO_PREIMAGE { NO_PREIMAGE } else { at(f.inv, e, at(g.inv, e, j) as int) }) by {
                    if e < d {
                        assert(inv@[e] == before@[e]);
                        assert(at(before, e, j) == (
                            if at(g.inv, e, j) == NO_PREIMAGE { NO_PREIMAGE } else { at(f.inv, e, at(g.inv, e, j) as int) }));
                    }
                }
            }
        }
        let r = Embedding::make(share(&f.dom), share(&g.cod), map, inv);
        proof {
            assert forall|d: int, i: int| r.dom.cell(d, i) implies #[trigger] at(r.map, d, i) < r.cod.size(d) by {
                let x = at(f.map, d, i) as int;
                assert(g.dom.cell(d, x));
            }
            assert forall|d: int, i: int, j: int| r.dom.cell(d, i) && r.dom.cell(d, j) && i != j implies
                #[trigger] at(r.map, d, i) != #[trigger] at(r.map, d, j) by {
                let x = at(f.map, d, i) as int;
                let y = at(f.map, d, j) as int;
                assert(g.dom.cell(d, x));
                assert(g.dom.cell(d, y));
            }
            assert forall|d: int, i: int| r.dom.cell(d, i) implies #[trigger] r.dom.basis_at(d, i) == r.cod.basis_at(d, at(r.map, d, i) as int) by {
                let x = at(f.map, d, i) as int;
                assert(g.dom.cell(d, x));
                assert(f.cod.basis_at(d, x) == g.dom.basis_at(d, x));
            }
            assert(map_ok(&*r.dom, &*r.cod, r.map));
            assert forall|d: int, i: int| 0 <= d < r.map@.len() && 0 <= i < r.map@[d]@.len() implies #[trigger] at(r.inv, d, at(r.map, d, i) as int) == i by {
                assert(f.dom.cell(d, i));
                let x = at(f.map, d, i) as int;
                assert(g.dom.cell(d, x));
                assert(at(r.map, d, i) == at(g.map, d, x));
                assert(at(g.inv, d, at(g.map, d, x) as int) == x);
                assert(g.cod.cell(d, at(g.map, d, x) as int));
                assert(at(f.inv, d, x) == i);
                assert(f.cod.basis@[d].len() == f.cod.basis@[d]@.len());
                assert(x != NO_PREIMAGE);
                assert(at(r.inv, d, at(g.map, d, x) as int) == at(f.inv, d, x));
            }
            assert forall|d: int, j: int| r.cod.cell(d, j) && #[trigger] at(r.inv, d, j) != NO_PREIMAGE implies
                d < r.map@.len() && at(r.inv, d, j) < r.map@[d]@.len() && at(r.map, d, at(r.inv, d, j) as int) == j by {
                let x = at(g.inv, d, j);
                assert(x != NO_PREIMAGE);
                assert(g.dom.cell(d, x as int));
                assert(f.cod.cell(d, x as int));
            }
        }
        r
    }
}

/// Structurally equal posets have equal level sizes.
pub proof fn lemma_same_poset_sizes(a: &FramedPoset, b: &FramedPoset)
    requires
        a.same_poset(b),
    ensures
        a.levels() == b.levels(),
        forall|e: int| #[trigger] a.size(e) == b.size(e),
        forall|e: int, p: int| a.cell(e, p) ==> #[trigger] a.basis_at(e, p) == b.basis_at(e, p),
{
}

/// Facts about image cells and image edges read off the inverse table.
pub proof fn lemma_image_via_inv(e: &Embedding)
    requires
        e.valid(),
    ensures
        forall|d: int, c: int| #[trigger] in_image(e.map, d, c) ==> e.cod.cell(d, c),
        forall|d: int, c: int| e.cod.cell(d, c) ==> (#[trigger] in_image(e.map, d, c) <==> at(e.inv, d, c) != NO_PREIMAGE),
        forall|s: Sign, d: int, f: usize, c: int| #[trigger] e.image_edge(s, d, f, c) <==> (
            1 <= d && e.cod.cell(d, c) && at(e.inv, d, c) != NO_PREIMAGE && e.image_faces(s, d, at(e.inv, d, c) as int).contains(f)),
{
    assert forall|d: int, c: int| #[trigger] in_image(e.map, d, c) implies e.cod.cell(d, c) by {
        let i = choose|i: int| 0 <= d < e.map@.len() && 0 <= i < e.map@[d]@.len() && #[trigger] at(e.map, d, i) == c;
        assert(e.dom.cell(d, i));
    }
    assert forall|d: int, c: int| e.cod.cell(d, c) implies (#[trigger] in_image(e.map, d, c) <==> at(e.inv, d, c) != NO_PREIMAGE) by {
        if in_image(e.map, d, c) {
            let i = choose|i: int| 0 <= d < e.map@.len() && 0 <= i < e.map@[d]@.len() && #[trigger] at(e.map, d, i) == c;
            assert(at(e.inv, d, at(e.map, d, i) as int) == i);
            assert(e.dom.basis@[d].len() == e.dom.basis@[d]@.len());
        }
        if at(e.inv, d, c) != NO_PREIMAGE {
            assert(at(e.map, d, at(e.inv, d, c) as int) == c);
        }
    }
    assert forall|s: Sign, d: int, f: usize, c: int| #[trigger] e.image_edge(s, d, f, c) <==> (
        1 <= d && e.cod.cell(d, c) && at(e.inv, d, c) != NO_PREIMAGE && e.image_faces(s, d, at(e.inv, d, c) as int).contains(f)) by {
        if e.image_edge(s, d, f, c) {
            let i = choose|i: int| 1 <= d && e.dom.cell(d, i) && #[trigger] at(e.map, d, i) == c && e.image_faces(s, d, i).contains(f);
            assert(at(e.inv, d, at(e.map, d, i) as int) == i);
            assert(e.dom.basis@[d].len() == e.dom.basis@[d]@.len());
        }
        if 1 <= d && e.cod.cell(d, c) && at(e.inv, d, c) != NO_PREIMAGE && e.image_faces(s, d, at(e.inv, d, c) as int).contains(f) {
            let i = at(e.inv, d, c) as int;
            assert(at(e.map, d, i) == c);
            assert(e.dom.cell(d, i));
        }
    }
}

impl Embedding {
    /// Equality as subobjects of a common codomain.
    ///
    /// The codomains are compared structurally, but the domains are not.
    /// Instead, two embeddings are equal when they have the same image cells
    /// and the same signed image cover relations in that codomain.
    pub fn equal(a: &Self, b: &Self) -> (r: bool)
        requires
            a.valid(),
            b.valid(),
        ensures
            r == a.same_subobject(b),
    {
        proof {
            lemma_image_via_inv(a);
            lemma_image_via_inv(b);
        }
        if !FramedPoset::equal(&a.cod, &b.cod) {
            return false;
        }
        proof {
            lemma_same_poset_sizes(&*a.cod, &*b.cod);
        }
        let n = a.inv.len();
        for d in 0..n
            invariant
                a.valid(),
                b.valid(),
                a.cod.same_poset(&*b.cod),
                forall|e: int| #[trigger] a.cod.size(e) == b.cod.size(e),
                a.cod.levels() == b.cod.levels(),
                n == a.cod.levels(),
                forall|e: int, j: int| 0 <= e < d && a.cod.cell(e, j) ==> (#[trigger] in_image(a.map, e, j) <==> in_image(b.map, e, j)),
                forall|s: Sign, e: int, f: usize, c: int| 0 <= e < d && a.cod.cell(e, c) ==> (#[trigger] a.image_edge(s, e, f, c) <==> b.image_edge(s, e, f, c)),
        {
            let m = a.inv[d].len();
            for j in 0..m
                invariant
                    a.valid(),
                    b.valid(),
                    a.cod.same_poset(&*b.cod),
                    forall|e: int| #[trigger] a.cod.size(e) == b.cod.size(e),
                    a.cod.levels() == b.cod.levels(),
                    n == a.cod.levels(),
                    d < n,
                    m == a.cod.size(d as int),
                    forall|e: int, j: int| 0 <= e < d && a.cod.cell(e, j) ==> (#[trigger] in_image(a.map, e, j) <==> in_image(b.map, e, j)),
                    forall|s: Sign, e: int, f: usize, c: int| 0 <= e < d && a.cod.cell(e, c) ==> (#[trigger] a.image_edge(s, e, f, c) <==> b.image_edge(s, e, f, c)),
                    forall|k: int| 0 <= k < j ==> (#[trigger] in_image(a.map, d as int, k) <==> in_image(b.map, d as int, k)),
                    forall|s: Sign, f: usize, k: int| 0 <= k < j ==> (#[trigger] a.image_edge(s, d as int, f, k) <==> b.image_edge(s, d as int, f, k)),
            {
                proof {
                    lemma_image_via_inv(a);
                    lemma_image_via_inv(b);
                    assert(a.cod.cell(d as int, j as int));
                    assert(b.cod.cell(d as int, j as int));
                }
                let ia = a.inv[d][j];
                let ib = b.inv[d][j];
                if (ia == NO_PREIMAGE) != (ib == NO_PREIMAGE) {
                    proof {
                        assert(in_image(a.map, d as int, j as int) != in_image(b.map, d as int, j as int));
                    }
                    return false;
                }
                if ia != NO_PREIMAGE && d > 0 {
                    proof {
                        assert(at(a.inv, d as int, j as int) < a.map@[d as int]@.len());
                        assert(at(b.inv, d as int, j as int) < b.map@[d as int]@.len());
                        assert(a.dom.cell(d as int, ia as int));
                        assert(b.dom.cell(d as int, ib as int));
                    }
                    for sg in 0..2usize
                        invariant
                            a.valid(),
                            b.valid(),
                            0 < d < n,
                            n == a.cod.levels(),
                            a.cod.cell(d as int, j as int),
                            b.cod.cell(d as int, j as int),
                            ia == at(a.inv, d as int, j as int),
                            ib == at(b.inv, d as int, j as int),
                            ia != NO_PREIMAGE,
                            ib != NO_PREIMAGE,
                            a.dom.cell(d as int, ia as int),
                            b.dom.cell(d as int, ib as int),
                            forall|f: usize| #[trigger] a.image_edge(Sign::Input, d as int, f, j as int) == b.image_edge(Sign::Input, d as int, f, j as int) || sg == 0,
                            forall|f: usize| #[trigger] a.image_edge(Sign::Output, d as int, f, j as int) == b.image_edge(Sign::Output, d as int, f, j as int) || sg <= 1,
                    {
                        let sign = if sg == 0 { Sign::Input } else { Sign::Output };
                        let sa = intset::collect_sorted(mapped_faces(a, sign, d, ia));
                        let sb = intset::collect_sorted(mapped_faces(b, sign, d, ib));
                        proof {
                            lemma_image_via_inv(a);
                            lemma_image_via_inv(b);
                        }
                        if !crate::poset::sets_equal(sa.as_slice(), sb.as_slice()) {
                            proof {
                                if same_elements(sa@, sb@) {
                                    intset::lemma_sorted_same_elements(sa@, sb@);
                                }
                                let f = choose|f: usize| !(sa@.contains(f) <==> sb@.contains(f));
                                assert(a.image_edge(sign, d as int, f, j as int) != b.image_edge(sign, d as int, f, j as int));
                            }
                            return false;
                        }
                        proof {
                            assert forall|f: usize| #[trigger] a.image_edge(sign, d as int, f, j as int) == b.image_edge(sign, d as int, f, j as int) by {
                                assert(sa@.contains(f) == sb@.contains(f));
                            }
                        }
                    }
                }
                proof {
                    assert forall|s: Sign, f: usize| #[trigger] a.image_edge(s, d as int, f, j as int) <==> b.image_edge(s, d as int, f, j as int) by {
                        match s {
                            Sign::Input => {}
                            Sign::Output => {}
                        }
                    }
                }
            }
        }
        proof {
            assert forall|d: int, j: int| #[trigger] in_image(a.map, d, j) <==> in_image(b.map, d, j) by {
                if in_image(a.map, d, j) {
                    assert(a.cod.cell(d, j));
                }
                if in_image(b.map, d, j) {
                    assert(b.cod.cell(d, j));
                }
            }
            assert forall|s: Sign, d: int, f: usize, c: int| #[trigger] a.image_edge(s, d, f, c) <==> b.image_edge(s, d, f, c) by {
                if a.image_edge(s, d, f, c) {
                    assert(a.cod.cell(d, c));
                }
                if b.image_edge(s, d, f, c) {
                    assert(b.cod.cell(d, c));
                }
            }
        }
        true
    }
}

/// Intersection of two closed embeddings into a common codomain.
#[derive(Debug)]
pub struct EmbeddingIntersection {
    /// The closed intersection embedding into the original common codomain.
    pub into_codomain: Embedding,
    /// The embedding from the intersection into the left domain.
    pub into_left: Embedding,
    /// The embedding from the intersection into the right domain.
    pub into_right: Embedding,
}

/// Union of two closed embeddings into a common codomain.
#[derive(Debug)]
pub struct EmbeddingUnion {
    /// The closed union embedding into the original common codomain.
    pub into_codomain: Embedding,
    /// The embedding from the left domain into the union.
    pub left_into_union: Embedding,
    /// The embedding from the right domain into the union.
    pub right_into_union: Embedding,
}

/// The cells in the image of `a` and (or, for a union) of `b`.
pub open spec fn combined_image(a: Embedding, b: Embedding, union: bool) -> spec_fn(int, int) -> bool {
    |d: int, p: int| if union { in_image(a.map, d, p) || in_image(b.map, d, p) } else { in_image(a.map, d, p) && in_image(b.map, d, p) }
}

/// The image of a closed embedding contains every face of its cells.
pub proof fn lemma_closed_image_down(e: &Embedding, s: Sign, d: int, c: int, k: int)
    requires
        e.valid(),
        e.closed(),
        1 <= d,
        in_image(e.map, d, c),
        0 <= k < e.cod.faces(s, d, c).len(),
    ensures
        in_image(e.map, d - 1, e.cod.faces(s, d, c)[k] as int),
{
    let i = choose|i: int| 0 <= d < e.map@.len() && 0 <= i < e.map@[d]@.len() && #[trigger] at(e.map, d, i) == c;
    assert(e.dom.cell(d, i));
    let f = e.cod.faces(s, d, c)[k];
    assert(e.cod.faces(s, d, at(e.map, d, i) as int).contains(f));
    assert(e.image_faces(s, d, i).contains(f));
    let m = choose|m: int| 0 <= m < e.image_faces(s, d, i).len() && e.image_faces(s, d, i)[m] == f;
    let g = e.dom.faces(s, d, i)[m];
    assert(g < e.dom.size(d - 1));
    assert(at(e.map, d - 1, g as int) == f);
}

/// Reachability from the image of a closed embedding stays in its image.
proof fn lemma_reach_within(shape: FramedPoset, keep: spec_fn(int, int) -> bool, e: &Embedding, d: int, j: int)
    requires
        e.valid(),
        e.closed(),
        shape.same_poset(&*e.cod),
        shape.valid(),
        forall|x: int, y: int| shape.cell(x, y) && #[trigger] keep(x, y) ==> in_image(e.map, x, y),
        shape.cell(d, j),
        reach(shape, keep, d, j),
    ensures
        in_image(e.map, d, j),
    decreases shape.levels() - d,
{
    lemma_same_poset_sizes(&shape, &*e.cod);
    assert(shape.basis@[d].len() == shape.basis@[d]@.len());
    if !keep(d, j) {
        let c = choose|c: int| #[trigger] crate::poset::lower_face(shape, d, j, c) && reach(shape, keep, d + 1, c);
        lemma_reach_within(shape, keep, e, d + 1, c);
        let s = if shape.faces(Sign::Input, d + 1, c).contains(j as usize) { Sign::Input } else { Sign::Output };
        assert(shape.faces(s, d + 1, c) == e.cod.faces(s, d + 1, c));
        let fs = shape.faces(s, d + 1, c);
        let k = choose|k: int| 0 <= k < fs.len() && fs[k] == j as usize;
        lemma_closed_image_down(e, s, d + 1, c, k);
    }
}

fn closed_image_combination(a: &Embedding, b: &Embedding, union: bool) -> (r: Embedding)
    requires
        a.valid(),
        b.valid(),
        a.cod.same_poset(&*b.cod),
    ensures
        r.valid(),
        r.closed(),
        r.cod == a.cod,
        forall|d: int, j: int| a.cod.cell(d, j) ==> (#[trigger] in_image(r.map, d, j) <==> reach(*a.cod, combined_image(*a, *b, union), d, j)),
        forall|d: int, i: int, k: int| 0 <= d < r.map@.len() && 0 <= i < k < r.map@[d]@.len() ==>
            #[trigger] at(r.map, d, i) < #[trigger] at(r.map, d, k),
        r.map@.len() > 0 ==> r.map@[r.map@.len() - 1]@.len() > 0,
{
    proof {
        lemma_same_poset_sizes(&*a.cod, &*b.cod);
    }
    let sizes = a.cod.sizes();
    let n = sizes.len();
    let mut keep: Vec<Vec<bool>> = Vec::new();
    for d in 0..n
        invariant
            a.valid(),
            b.valid(),
            forall|e: int| #[trigger] a.cod.size(e) == b.cod.size(e),
            a.cod.levels() == b.cod.levels(),
            sizes@ == a.cod.size_seq(),
            n == a.cod.levels(),
            keep@.len() == d,
            forall|e: int| 0 <= e < d ==> #[trigger] keep@[e]@.len() == a.cod.size(e),
            forall|e: int, p: int| 0 <= e < d && 0 <= p < a.cod.size(e) ==> #[trigger] flag(keep, e, p) == combined_image(*a, *b, union)(e, p),
    {
        let m = sizes[d];
        let mut row: Vec<bool> = Vec::new();
        for p in 0..m
            invariant
                a.valid(),
                b.valid(),
                forall|e: int| #[trigger] a.cod.size(e) == b.cod.size(e),
                a.cod.levels() == b.cod.levels(),
                n == a.cod.levels(),
                d < n,
                m == a.cod.size(d as int),
                row@.len() == p,
                forall|q: int| 0 <= q < p ==> #[trigger] row@[q] == combined_image(*a, *b, union)(d as int, q),
        {
            proof {
                lemma_image_via_inv(a);
                lemma_image_via_inv(b);
                assert(a.cod.cell(d as int, p as int));
                assert(b.cod.cell(d as int, p as int));
            }
            let x = a.inv[d][p] != NO_PREIMAGE;
            let y = b.inv[d][p] != NO_PREIMAGE;
            row.push(if union { x || y } else { x && y });
        }
        let ghost before = keep;
        keep.push(row);
        proof {
            assert(sizes@[d as int] == a.cod.size(d as int));
            assert forall|e: int| 0 <= e < d + 1 implies #[trigger] keep@[e]@.len() == a.cod.size(e) by {
                if e < d {
                    assert(keep@[e] == before@[e]);
                }
            }
            assert forall|e: int, p: int| 0 <= e < d + 1 && 0 <= p < a.cod.size(e) implies #[trigger] flag(keep, e, p) == combined_image(*a, *b, union)(e, p) by {
                if e < d {
                    assert(keep@[e] == before@[e]);
                    assert(flag(before, e, p) == combined_image(*a, *b, union)(e, p));
                }
            }
        }
    }
    let subset = FramedPosetSubset::make(share(&a.cod), keep);
    let (_, embedding) = closure(&subset);
    proof {
        assert forall|d: int, j: int| a.cod.cell(d, j) implies (#[trigger] in_image(embedding.map, d, j) <==> reach(*a.cod, combined_image(*a, *b, union), d, j)) by {
            assert forall|e: int, p: int| a.cod.cell(e, p) implies #[trigger] subset.kept()(e, p) == combined_image(*a, *b, union)(e, p) by {
                assert(flag(keep, e, p) == combined_image(*a, *b, union)(e, p));
            }
            lemma_reach_ext(*a.cod, subset.kept(), combined_image(*a, *b, union), d, j);
        }
    }
    embedding
}

/// The cells of the image of `sub` have preimages under `arg`; send each domain
/// cell of `sub` to that preimage.
fn common_subobject_to_argument(sub: &Embedding, arg: &Embedding) -> (r: Embedding)
    requires
        sub.valid(),
        arg.valid(),
        sub.cod.same_poset(&*arg.cod),
        forall|d: int, j: int| sub.cod.cell(d, j) && #[trigger] in_image(sub.map, d, j) ==> in_image(arg.map, d, j),
    ensures
        r.valid(),
        r.dom == sub.dom,
        r.cod == arg.dom,
        forall|d: int, i: int| sub.dom.cell(d, i) ==> #[trigger] at(r.map, d, i) == at(arg.inv, d, at(sub.map, d, i) as int),
        forall|d: int, i: int| sub.dom.cell(d, i) ==> at(arg.map, d, #[trigger] at(r.map, d, i) as int) == at(sub.map, d, i),
{
    proof {
        lemma_same_poset_sizes(&*sub.cod, &*arg.cod);
        lemma_image_via_inv(sub);
        lemma_image_via_inv(arg);
    }
    let n = sub.map.len();
    let mut map: Vec<Vec<usize>> = Vec::new();
    for d in 0..n
        invariant
            sub.valid(),
            arg.valid(),
            forall|e: int| #[trigger] sub.cod.size(e) == arg.cod.size(e),
            sub.cod.levels() == arg.cod.levels(),
            forall|d: int, j: int| sub.cod.cell(d, j) && #[trigger] in_image(sub.map, d, j) ==> in_image(arg.map, d, j),
            n == sub.map@.len(),
            map@.len() == d,
            forall|e: int| 0 <= e < d ==> #[trigger] map@[e]@.len() == sub.dom.size(e),
            forall|e: int, i: int| 0 <= e < d && sub.dom.cell(e, i) ==> #[trigger] at(map, e, i) == at(arg.inv, e, at(sub.map, e, i) as int),
    {
        let m = sub.map[d].len();
        let mut row: Vec<usize> = Vec::new();
        for i in 0..m
            invariant
                sub.valid(),
                arg.valid(),
                forall|e: int| #[trigger] sub.cod.size(e) == arg.cod.size(e),
                sub.cod.levels() == arg.cod.levels(),
                forall|d: int, j: int| sub.cod.cell(d, j) && #[trigger] in_image(sub.map, d, j) ==> in_image(arg.map, d, j),
                n == sub.map@.len(),
                d < n,
                m == sub.dom.size(d as int),
                row@.len() == i,
                forall|k: int| 0 <= k < i ==> #[trigger] row@[k] == at(arg.inv, d as int, at(sub.map, d as int, k) as int),
        {
            let cod_pos = sub.map[d][i];
            proof {
                lemma_image_via_inv(arg);
                assert(sub.dom.cell(d as int, i as int));
                assert(at(sub.map, d as int, i as int) < sub.cod.size(d as int));
                assert(in_image(sub.map, d as int, cod_pos as int));
                assert(arg.cod.cell(d as int, cod_pos as int));
            }
            row.push(arg.inv[d][cod_pos]);
        }
        let ghost before = map;
        map.push(row);
        proof {
            assert forall|e: int| 0 <= e < d + 1 implies #[trigger] map@[e]@.len() == sub.dom.size(e) by {
                if e < d {
                    assert(map@[e] == before@[e]);
                }
            }
            assert forall|e: int, i: int| 0 <= e < d + 1 && sub.dom.cell(e, i) implies #[trigger] at(map, e, i) == at(arg.inv, e, at(sub.map, e, i) as int) by {
                if e < d {
                    assert(map@[e] == before@[e]);
                    assert(at(before, e, i) == at(arg.inv, e, at(sub.map, e, i) as int));
                }
            }
        }
    }
    proof {
        assert forall|d: int, i: int| 0 <= d < map@.len() && 0 <= i < map@[d]@.len() implies #[trigger] at(map, d, i) < arg.dom.size(d) by {
            assert(sub.dom.cell(d, i));
            let j = at(sub.map, d, i) as int;
            assert(in_image(sub.map, d, j));
            assert(arg.cod.cell(d, j));
        }
    }
    let r = Embedding::from_map(share(&sub.dom), share(&arg.dom), map);
    proof {
        assert forall|d: int, i: int| sub.dom.cell(d, i) implies at(arg.map, d, #[trigger] at(r.map, d, i) as int) == at(sub.map, d, i) by {
            let j = at(sub.map, d, i) as int;
            assert(in_image(sub.map, d, j));
            assert(arg.cod.cell(d, j));
        }
        assert forall|d: int, i: int, k: int| r.dom.cell(d, i) && r.dom.cell(d, k) && i != k implies
            #[trigger] at(r.map, d, i) != #[trigger] at(r.map, d, k) by {
            assert(at(sub.map, d, i) != at(sub.map, d, k));
        }
        assert forall|d: int, i: int| r.dom.cell(d, i) implies #[trigger] r.dom.basis_at(d, i) == r.cod.basis_at(d, at(r.map, d, i) as int) by {
            let j = at(sub.map, d, i) as int;
            assert(in_image(sub.map, d, j));
            assert(arg.cod.cell(d, j));
            let x = at(r.map, d, i) as int;
            assert(arg.dom.cell(d, x));
            assert(sub.cod.basis_at(d, j) == arg.cod.basis_at(d, j));
        }
        assert(map_ok(&*r.dom, &*r.cod, r.map));
    }
    r
}

/// The image of `arg` lies in the image of `sub`; send each domain cell of
/// `arg` to its preimage under `sub`.
fn argument_to_common_subobject(arg: &Embedding, sub: &Embedding) -> (r: Embedding)
    requires
        sub.valid(),
        arg.valid(),
        sub.cod.same_poset(&*arg.cod),
        forall|d: int, j: int| arg.cod.cell(d, j) && #[trigger] in_image(arg.map, d, j) ==> in_image(sub.map, d, j),
    ensures
        r.valid(),
        r.dom == arg.dom,
        r.cod == sub.dom,
        forall|d: int, i: int| arg.dom.cell(d, i) ==> #[trigger] at(r.map, d, i) == at(sub.inv, d, at(arg.map, d, i) as int),
        forall|d: int, i: int| arg.dom.cell(d, i) ==> at(sub.map, d, #[trigger] at(r.map, d, i) as int) == at(arg.map, d, i),
{
    proof {
        lemma_same_poset_sizes(&*sub.cod, &*arg.cod);
        assert forall|d: int, j: int| arg.cod.cell(d, j) && #[trigger] in_image(arg.map, d, j) implies in_image(sub.map, d, j) by {}
    }
    let r = common_subobject_to_argument(arg, sub);
    r
}

impl Embedding {
    /// Intersection of two closed embeddings into a common codomain.
    pub fn intersection(a: &Self, b: &Self) -> (r: EmbeddingIntersection)
        requires
            a.valid(),
            b.valid(),
            a.closed(),
            b.closed(),
            a.cod.same_poset(&*b.cod),
        ensures
            r.into_codomain.valid(),
            r.into_codomain.closed(),
            r.into_codomain.cod == a.cod,
            forall|d: int, j: int| a.cod.cell(d, j) ==> (#[trigger] in_image(r.into_codomain.map, d, j) <==> (in_image(a.map, d, j) && in_image(b.map, d, j))),
            forall|d: int, i: int, k: int| 0 <= d < r.into_codomain.map@.len() && 0 <= i < k < r.into_codomain.map@[d]@.len() ==>
                #[trigger] at(r.into_codomain.map, d, i) < #[trigger] at(r.into_codomain.map, d, k),
            r.into_codomain.map@.len() > 0 ==> r.into_codomain.map@[r.into_codomain.map@.len() - 1]@.len() > 0,
            r.into_left.valid(),
            r.into_left.dom == r.into_codomain.dom,
            r.into_left.cod == a.dom,
            forall|d: int, i: int| r.into_codomain.dom.cell(d, i) ==> at(a.map, d, #[trigger] at(r.into_left.map, d, i) as int) == at(r.into_codomain.map, d, i),
            r.into_right.valid(),
            r.into_right.dom == r.into_codomain.dom,
            r.into_right.cod == b.dom,
            forall|d: int, i: int| r.into_codomain.dom.cell(d, i) ==> at(b.map, d, #[trigger] at(r.into_right.map, d, i) as int) == at(r.into_codomain.map, d, i),
            r.into_left.closed(),
            r.into_right.closed(),
    {
        let into_codomain = closed_image_combination(a, b, false);
        proof {
            lemma_same_poset_sizes(&*a.cod, &*b.cod);
            assert forall|d: int, j: int| a.cod.cell(d, j) implies (#[trigger] in_image(into_codomain.map, d, j) <==> (in_image(a.map, d, j) && in_image(b.map, d, j))) by {
                let k = combined_image(*a, *b, false);
                if reach(*a.cod, k, d, j) {
                    lemma_reach_within(*a.cod, k, a, d, j);
                    assert(b.cod.same_poset(&*b.cod));
                    lemma_reach_within(*a.cod, k, b, d, j);
                }
            }
            assert(into_codomain.cod.same_poset(&*b.cod));
        }
        let into_left = common_subobject_to_argument(&into_codomain, a);
        let into_right = common_subobject_to_argument(&into_codomain, b);
        proof {
            assert(into_codomain.cod.same_poset(&*a.cod));
            lemma_factor_closed(into_codomain, *a, into_left);
            lemma_factor_closed(into_codomain, *b, into_right);
        }
        EmbeddingIntersection { into_codomain, into_left, into_right }
    }

    /// Union of two closed embeddings into a common codomain.
    pub fn union(a: &Self, b: &Self) -> (r: EmbeddingUnion)
        requires
            a.valid(),
            b.valid(),
            a.cod.same_poset(&*b.cod),
        ensures
            r.into_codomain.valid(),
            r.into_codomain.closed(),
            r.into_codomain.cod == a.cod,
            forall|d: int, j: int| a.cod.cell(d, j) ==> (#[trigger] in_image(r.into_codomain.map, d, j) <==>
                reach(*a.cod, combined_image(*a, *b, true), d, j)),
            forall|d: int, i: int, k: int| 0 <= d < r.into_codomain.map@.len() && 0 <= i < k < r.into_codomain.map@[d]@.len() ==>
                #[trigger] at(r.into_codomain.map, d, i) < #[trigger] at(r.into_codomain.map, d, k),
            r.into_codomain.map@.len() > 0 ==> r.into_codomain.map@[r.into_codomain.map@.len() - 1]@.len() > 0,
            r.left_into_union.valid(),
            r.left_into_union.dom == a.dom,
            r.left_into_union.cod == r.into_codomain.dom,
            forall|d: int, i: int| a.dom.cell(d, i) ==> at(r.into_codomain.map, d, #[trigger] at(r.left_into_union.map, d, i) as int) == at(a.map, d, i),
            r.right_into_union.valid(),
            r.right_into_union.dom == b.dom,
            r.right_into_union.cod == r.into_codomain.dom,
            forall|d: int, i: int| b.dom.cell(d, i) ==> at(r.into_codomain.map, d, #[trigger] at(r.right_into_union.map, d, i) as int) == at(b.map, d, i),
            a.closed() ==> r.left_into_union.closed(),
            b.closed() ==> r.right_into_union.closed(),
    {
        let into_codomain = closed_image_combination(a, b, true);
        proof {
            lemma_same_poset_sizes(&*a.cod, &*b.cod);
            assert forall|d: int, j: int| a.cod.cell(d, j) && #[trigger] in_image(a.map, d, j) implies in_image(into_codomain.map, d, j) by {
                assert(combined_image(*a, *b, true)(d, j));
            }
            assert forall|d: int, j: int| b.cod.cell(d, j) && #[trigger] in_image(b.map, d, j) implies in_image(into_codomain.map, d, j) by {
                assert(a.cod.cell(d, j));
                assert(combined_image(*a, *b, true)(d, j));
            }
            assert(into_codomain.cod.same_poset(&*b.cod));
        }
        let left_into_union = argument_to_common_subobject(a, &into_codomain);
        let right_into_union = argument_to_common_subobject(b, &into_codomain);
        proof {
            if a.closed() {
                lemma_factor_closed(*a, into_codomain, left_into_union);
            }
            if b.closed() {
                lemma_factor_closed(*b, into_codomain, right_into_union);
            }
        }
        EmbeddingUnion { into_codomain, left_into_union, right_into_union }
    }
}


/// Every signed face of a cell of a valid framed poset is a cell one level
/// down.
pub(crate) proof fn lemma_face_is_cell(x: FramedPoset, s: Sign, d: int, p: int, k: int)
    requires
        x.valid(),
        1 <= d,
        x.cell(d, p),
        0 <= k < x.faces(s, d, p).len(),
    ensures
        x.cell(d - 1, x.faces(s, d, p)[k] as int),
{
    match s {
        Sign::Input => {
            assert(crate::poset::entry(x.faces_in, d, p)[k] < crate::poset::rows(x.basis, d - 1));
        },
        Sign::Output => {
            assert(crate::poset::entry(x.faces_out, d, p)[k] < crate::poset::rows(x.basis, d - 1));
        },
    }
}

/// A factor `i` of a closed embedding `c` through a closed embedding `a`,
/// with `c` equal to `a` after `i`, is closed.
proof fn lemma_factor_closed(c: Embedding, a: Embedding, i: Embedding)
    requires
        c.valid(),
        a.valid(),
        i.valid(),
        c.closed(),
        a.closed(),
        i.dom == c.dom,
        i.cod == a.dom,
        c.cod.same_poset(&*a.cod),
        forall|d: int, x: int| c.dom.cell(d, x) ==> at(a.map, d, #[trigger] at(i.map, d, x) as int) == at(c.map, d, x),
    ensures
        i.closed(),
{
    lemma_same_poset_sizes(&*c.cod, &*a.cod);
    assert forall|s: Sign, d: int, x: int| 1 <= d && i.dom.cell(d, x) implies
        same_elements(#[trigger] i.cod.faces(s, d, at(i.map, d, x) as int), i.image_faces(s, d, x)) by {
        let y = at(i.map, d, x) as int;
        let z = at(c.map, d, x) as int;
        assert(at(a.map, d, y) == z);
        assert(a.dom.cell(d, y));
        assert(c.cod.cell(d, z));
        assert(same_elements(c.cod.faces(s, d, z), c.image_faces(s, d, x)));
        assert(same_elements(a.cod.faces(s, d, z), a.image_faces(s, d, y)));
        assert(c.cod.faces(s, d, z) == a.cod.faces(s, d, z)) by {
            match s {
                Sign::Input => {
                    assert(crate::poset::entry(c.cod.faces_in, d, z) == crate::poset::entry(a.cod.faces_in, d, z));
                },
                Sign::Output => {
                    assert(crate::poset::entry(c.cod.faces_out, d, z) == crate::poset::entry(a.cod.faces_out, d, z));
                },
            }
        }
        let fy = a.dom.faces(s, d, y);
        let fx = c.dom.faces(s, d, x);
        assert forall|v: usize| #[trigger] fy.contains(v) implies i.image_faces(s, d, x).contains(v) by {
            let k = choose|k: int| 0 <= k < fy.len() && fy[k] == v;
            lemma_face_is_cell(*a.dom, s, d, y, k);
            assert(a.image_faces(s, d, y)[k] == at(a.map, d - 1, v as int));
            assert(a.image_faces(s, d, y).contains(at(a.map, d - 1, v as int)));
            assert(c.image_faces(s, d, x).contains(at(a.map, d - 1, v as int)));
            let m = choose|m: int| 0 <= m < c.image_faces(s, d, x).len() && c.image_faces(s, d, x)[m] == at(a.map, d - 1, v as int);
            let f = fx[m];
            lemma_face_is_cell(*c.dom, s, d, x, m);
            assert(c.image_faces(s, d, x)[m] == at(c.map, d - 1, f as int));
            assert(at(a.map, d - 1, at(i.map, d - 1, f as int) as int) == at(c.map, d - 1, f as int));
            assert(a.dom.cell(d - 1, at(i.map, d - 1, f as int) as int));
            assert(at(i.map, d - 1, f as int) == v);
            assert(i.image_faces(s, d, x)[m] == v);
        }
        assert forall|v: usize| #[trigger] i.image_faces(s, d, x).contains(v) implies fy.contains(v) by {
            let m = choose|m: int| 0 <= m < i.image_faces(s, d, x).len() && i.image_faces(s, d, x)[m] == v;
            let f = fx[m];
            lemma_face_is_cell(*c.dom, s, d, x, m);
            assert(at(i.map, d - 1, f as int) == v);
            assert(c.image_faces(s, d, x)[m] == at(c.map, d - 1, f as int));
            assert(c.image_faces(s, d, x).contains(at(c.map, d - 1, f as int)));
            assert(a.image_faces(s, d, y).contains(at(c.map, d - 1, f as int)));
            let k = choose|k: int| 0 <= k < a.image_faces(s, d, y).len() && a.image_faces(s, d, y)[k] == at(c.map, d - 1, f as int);
            lemma_face_is_cell(*a.dom, s, d, y, k);
            assert(a.image_faces(s, d, y)[k] == at(a.map, d - 1, fy[k] as int));
            assert(at(a.map, d - 1, v as int) == at(c.map, d - 1, f as int));
            assert(a.dom.cell(d - 1, v as int));
            assert(fy[k] == v);
        }
    }
}


/// Tables with equal views agree entry by entry.
pub(crate) proof fn lemma_tv_at(a: Vec<Vec<usize>>, b: Vec<Vec<usize>>)
    requires
        tv(a) == tv(b),
    ensures
        a@.len() == b@.len(),
        forall|d: int| 0 <= d < a@.len() ==> #[trigger] a@[d]@.len() == b@[d]@.len(),
        forall|d: int, i: int| 0 <= d < a@.len() ==> #[trigger] at(a, d, i) == at(b, d, i),
{
    assert(tv(a).len() == a@.len());
    assert forall|d: int| 0 <= d < a@.len() implies #[trigger] a@[d]@ == b@[d]@ by {
        assert(tv(a)[d] == a@[d]@);
        assert(tv(b)[d] == b@[d]@);
    }
    assert forall|d: int, i: int| 0 <= d < a@.len() implies #[trigger] at(a, d, i) == at(b, d, i) by {
        assert(a@[d]@ == b@[d]@);
    }
}

/// The inverse of an isomorphism is an isomorphism, and the two undo each
/// other.
pub proof fn law_inverse_isomorphism(e: Embedding, r: Embedding)
    requires
        e.valid(),
        e.surjective(),
        e.closed(),
        r.dom == e.cod,
        r.cod == e.dom,
        tv(r.map) == tv(e.inv),
        tv(r.inv) == tv(e.map),
    ensures
        r.valid(),
        r.surjective(),
        r.closed(),
        forall|d: int, i: int| e.dom.cell(d, i) ==> #[trigger] at(r.map, d, at(e.map, d, i) as int) == i,
        forall|d: int, j: int| e.cod.cell(d, j) ==> #[trigger] at(e.map, d, at(r.map, d, j) as int) == j,
{
    lemma_tv_at(r.map, e.inv);
    lemma_tv_at(r.inv, e.map);
    let x = *e.dom;
    let y = *e.cod;
    // Every codomain cell has its preimage, a domain cell.
    assert forall|d: int, j: int| y.cell(d, j) implies d < x.levels() && x.cell(d, at(e.inv, d, j) as int)
        && at(e.map, d, at(e.inv, d, j) as int) == j by {
        assert(at(e.inv, d, j) != NO_PREIMAGE);
    }
    assert forall|d: int, i: int| x.cell(d, i) implies #[trigger] at(r.map, d, at(e.map, d, i) as int) == i by {
        assert(y.cell(d, at(e.map, d, i) as int));
        assert(at(e.inv, d, at(e.map, d, i) as int) == i);
    }
    assert forall|d: int, j: int| y.cell(d, j) implies #[trigger] at(e.map, d, at(r.map, d, j) as int) == j by {
        assert(at(r.map, d, j) == at(e.inv, d, j));
    }
    // The inverse tables satisfy the conditions on an embedding.
    assert(map_ok(&y, &x, r.map)) by {
        assert forall|d: int, j: int| y.cell(d, j) implies #[trigger] at(r.map, d, j) < x.size(d) by {
            assert(at(r.map, d, j) == at(e.inv, d, j));
        }
        assert forall|d: int, j: int, k: int| y.cell(d, j) && y.cell(d, k) && j != k implies #[trigger] at(r.map, d, j) != #[trigger] at(r.map, d, k) by {
            assert(at(e.map, d, at(e.inv, d, j) as int) == j);
            assert(at(e.map, d, at(e.inv, d, k) as int) == k);
        }
        assert forall|d: int, j: int| y.cell(d, j) implies #[trigger] y.basis_at(d, j) == x.basis_at(d, at(r.map, d, j) as int) by {
            let i = at(e.inv, d, j) as int;
            assert(x.basis_at(d, i) == y.basis_at(d, at(e.map, d, i) as int));
        }
    }
    assert(inv_ok(&x, r.map, r.inv)) by {
        assert forall|d: int, j: int| 0 <= d < r.map@.len() && 0 <= j < r.map@[d]@.len() implies #[trigger] at(r.inv, d, at(r.map, d, j) as int) == j by {
            assert(y.cell(d, j));
            assert(at(r.inv, d, at(r.map, d, j) as int) == at(e.map, d, at(r.map, d, j) as int));
        }
        assert forall|d: int, i: int| x.cell(d, i) && #[trigger] at(r.inv, d, i) != NO_PREIMAGE implies
            d < r.map@.len() && at(r.inv, d, i) < r.map@[d]@.len() && at(r.map, d, at(r.inv, d, i) as int) == i by {
            assert(at(r.inv, d, i) == at(e.map, d, i));
            assert(y.cell(d, at(e.map, d, i) as int));
        }
    }
    assert(r.surjective()) by {
        assert forall|d: int, i: int| 0 <= d < r.inv@.len() && 0 <= i < r.inv@[d]@.len() implies #[trigger] at(r.inv, d, i) != NO_PREIMAGE by {
            assert(at(r.inv, d, i) == at(e.map, d, i));
            assert(x.cell(d, i));
            assert(at(e.map, d, i) < y.size(d));
            assert(y.basis@[d]@.len() == y.basis@[d].len());
        }
    }
    assert(r.closed()) by {
        assert forall|s: Sign, d: int, j: int| 1 <= d && y.cell(d, j) implies
            same_elements(#[trigger] x.faces(s, d, at(r.map, d, j) as int), r.image_faces(s, d, j)) by {
            let i = at(r.map, d, j) as int;
            assert(x.cell(d, i));
            assert(at(e.map, d, i) == j);
            assert(same_elements(y.faces(s, d, j), e.image_faces(s, d, i)));
            assert forall|v: usize| x.faces(s, d, i).contains(v) <==> r.image_faces(s, d, j).contains(v) by {
                if x.faces(s, d, i).contains(v) {
                    let k = choose|k: int| 0 <= k < x.faces(s, d, i).len() && x.faces(s, d, i)[k] == v;
                    lemma_face_is_cell(x, s, d, i, k);
                    assert(e.image_faces(s, d, i)[k] == at(e.map, d - 1, v as int));
                    assert(e.image_faces(s, d, i).contains(at(e.map, d - 1, v as int)));
                    assert(y.faces(s, d, j).contains(at(e.map, d - 1, v as int)));
                    let m = choose|m: int| 0 <= m < y.faces(s, d, j).len() && y.faces(s, d, j)[m] == at(e.map, d - 1, v as int);
                    assert(r.image_faces(s, d, j)[m] == at(r.map, d - 1, at(e.map, d - 1, v as int) as int));
                    assert(at(r.map, d - 1, at(e.map, d - 1, v as int) as int) == v);
                }
                if r.image_faces(s, d, j).contains(v) {
                    let m = choose|m: int| 0 <= m < r.image_faces(s, d, j).len() && r.image_faces(s, d, j)[m] == v;
                    let g = y.faces(s, d, j)[m];
                    lemma_face_is_cell(y, s, d, j, m);
                    assert(e.image_faces(s, d, i).contains(g));
                    let k = choose|k: int| 0 <= k < e.image_faces(s, d, i).len() && e.image_faces(s, d, i)[k] == g;
                    let f = x.faces(s, d, i)[k];
                    lemma_face_is_cell(x, s, d, i, k);
                    assert(at(e.map, d - 1, f as int) == g);
                    assert(at(r.map, d - 1, g as int) == f);
                    assert(v == f);
                }
            }
        }
    }
}


/// Going down from the image of a closed embedding along signed faces stays
/// in the image.
proof fn lemma_closed_image_reach(e: Embedding, keep: spec_fn(int, int) -> bool, d: int, j: int)
    requires
        e.valid(),
        e.closed(),
        forall|a: int, b: int| e.cod.cell(a, b) ==> (keep(a, b) <==> in_image(e.map, a, b)),
        e.cod.cell(d, j),
    ensures
        reach(*e.cod, keep, d, j) <==> in_image(e.map, d, j),
    decreases e.cod.levels() - d,
{
    let y = *e.cod;
    if reach(y, keep, d, j) && !keep(d, j) {
        let c = choose|c: int| #[trigger] lower_face(y, d, j, c) && reach(y, keep, d + 1, c);
        lemma_closed_image_reach(e, keep, d + 1, c);
        let i = choose|i: int| 0 <= d + 1 < e.map@.len() && 0 <= i < e.map@[d + 1]@.len() && #[trigger] at(e.map, d + 1, i) == c;
        assert(e.dom.cell(d + 1, i));
        let s = if y.faces(Sign::Input, d + 1, c).contains(j as usize) { Sign::Input } else { Sign::Output };
        assert(y.faces(s, d + 1, c).contains(j as usize));
        assert(same_elements(y.faces(s, d + 1, at(e.map, d + 1, i) as int), e.image_faces(s, d + 1, i)));
        assert(e.image_faces(s, d + 1, i).contains(j as usize));
        let imf = e.image_faces(s, d + 1, i);
        let k = choose|k: int| 0 <= k < imf.len() && #[trigger] imf[k] == j as usize;
        let x = *e.dom;
        lemma_face_is_cell(x, s, d + 1, i, k);
        let f = e.dom.faces(s, d + 1, i)[k];
        assert(imf[k] == at(e.map, d, f as int));
        assert(y.basis@[d]@.len() == y.basis@[d].len());
        assert(j as usize as int == j);
        assert(at(e.map, d, f as int) == j);
        assert(0 <= f < e.map@[d]@.len());
    }
}

/// A closed embedding whose image is that of another closed embedding into
/// the same framed poset is the same subobject.
proof fn lemma_closed_same_image(a: Embedding, b: Embedding)
    requires
        a.valid(),
        a.closed(),
        b.valid(),
        b.closed(),
        a.cod == b.cod,
        forall|d: int, j: int| a.cod.cell(d, j) ==> (in_image(a.map, d, j) <==> in_image(b.map, d, j)),
    ensures
        a.same_subobject(&b),
{
    let y = *a.cod;
    assert(a.cod.same_poset(&*b.cod));
    assert forall|d: int, j: int| #[trigger] in_image(a.map, d, j) <==> in_image(b.map, d, j) by {
        if in_image(a.map, d, j) {
            let i = choose|i: int| 0 <= d < a.map@.len() && 0 <= i < a.map@[d]@.len() && #[trigger] at(a.map, d, i) == j;
            assert(a.dom.cell(d, i));
        }
        if in_image(b.map, d, j) {
            let i = choose|i: int| 0 <= d < b.map@.len() && 0 <= i < b.map@[d]@.len() && #[trigger] at(b.map, d, i) == j;
            assert(b.dom.cell(d, i));
        }
    }
    assert forall|s: Sign, d: int, f: usize, c: int| #[trigger] a.image_edge(s, d, f, c) <==> b.image_edge(s, d, f, c) by {
        if a.image_edge(s, d, f, c) {
            let i = choose|i: int| 1 <= d && a.dom.cell(d, i) && #[trigger] at(a.map, d, i) == c && a.image_faces(s, d, i).contains(f);
            assert(same_elements(y.faces(s, d, c), a.image_faces(s, d, i)));
            assert(y.cell(d, c));
            assert(in_image(a.map, d, c));
            assert(in_image(b.map, d, c));
            let i2 = choose|i2: int| 0 <= d < b.map@.len() && 0 <= i2 < b.map@[d]@.len() && #[trigger] at(b.map, d, i2) == c;
            assert(b.dom.cell(d, i2));
            assert(same_elements(y.faces(s, d, c), b.image_faces(s, d, i2)));
            assert(b.image_faces(s, d, i2).contains(f));
        }
        if b.image_edge(s, d, f, c) {
            let i = choose|i: int| 1 <= d && b.dom.cell(d, i) && #[trigger] at(b.map, d, i) == c && b.image_faces(s, d, i).contains(f);
            assert(same_elements(y.faces(s, d, c), b.image_faces(s, d, i)));
            assert(y.cell(d, c));
            assert(in_image(b.map, d, c));
            assert(in_image(a.map, d, c));
            let i2 = choose|i2: int| 0 <= d < a.map@.len() && 0 <= i2 < a.map@[d]@.len() && #[trigger] at(a.map, d, i2) == c;
            assert(a.dom.cell(d, i2));
            assert(same_elements(y.faces(s, d, c), a.image_faces(s, d, i2)));
            assert(a.image_faces(s, d, i2).contains(f));
        }
    }
}

/// Closing the image of a closed embedding gives it back: a closed
/// embedding whose image is everything reached from that image is the same
/// subobject, as [`closure`] returns for the subset of the image.
pub proof fn law_closure_of_closed(e: Embedding, keep: spec_fn(int, int) -> bool, c: Embedding)
    requires
        e.valid(),
        e.closed(),
        forall|a: int, b: int| e.cod.cell(a, b) ==> (keep(a, b) <==> in_image(e.map, a, b)),
        c.valid(),
        c.closed(),
        c.cod == e.cod,
        forall|d: int, j: int| e.cod.cell(d, j) ==> (#[trigger] in_image(c.map, d, j) <==> reach(*e.cod, keep, d, j)),
    ensures
        c.same_subobject(&e),
{
    assert forall|d: int, j: int| c.cod.cell(d, j) implies (in_image(c.map, d, j) <==> in_image(e.map, d, j)) by {
        lemma_closed_image_reach(e, keep, d, j);
    }
    lemma_closed_same_image(c, e);
}

} // verus!

//! Checking the serialized tables of a framed poset before building it.

use vstd::prelude::*;

use crate::intset::{IntSet, is_sorted_unique, strictly_sorted};
use crate::poset::{FramedPoset, defining_tables, entry, rows};

verus! {

/// Version written into, and required of, every serialized framed poset.
pub const SERIALIZATION_VERSION: usize = 1;

/// Why serialized tables do not describe a framed poset.
#[derive(Debug, Clone, Copy, PartialEq, Eq, Structural)]
pub enum TableError {
    /// The tables were written by an unsupported serialization version.
    Version { version: usize },
    /// The basis and signed face tables have different numbers of levels.
    LevelCount,
    /// More levels than a dimension can count.
    TooManyLevels,
    /// A signed face table has a row count at `level` unlike the basis table.
    RowCount { level: usize },
    /// A set at `level` is not strictly increasing.
    Unsorted { level: usize },
    /// A cell at level 0 has a face.
    FacesAtLevelZero,
    /// A face at `level` names no cell one level down.
    FaceOutOfRange { level: usize },
}

/// Every set at level `d` of `t` is strictly increasing.
pub open spec fn level_sorted(t: Vec<Vec<IntSet>>, d: int) -> bool {
    forall|p: int| 0 <= p < t@[d]@.len() ==> strictly_sorted(#[trigger] entry(t, d, p))
}

/// Every entry of a set at level `d` of `t` is below `n`.
pub open spec fn level_below(t: Vec<Vec<IntSet>>, d: int, n: int) -> bool {
    forall|p: int, i: int| 0 <= p < t@[d]@.len() && 0 <= i < entry(t, d, p).len() ==> #[trigger] entry(t, d, p)[i] < n
}

/// Level `d` has as many face rows as cells, sorted sets, and faces that
/// name cells one level down.
pub open spec fn level_fits(basis: Vec<Vec<IntSet>>, faces_in: Vec<Vec<IntSet>>, faces_out: Vec<Vec<IntSet>>, d: int) -> bool {
    &&& faces_in@[d]@.len() == basis@[d]@.len()
    &&& faces_out@[d]@.len() == basis@[d]@.len()
    &&& level_sorted(basis, d)
    &&& level_sorted(faces_in, d)
    &&& level_sorted(faces_out, d)
    &&& level_below(faces_in, d, rows(basis, d - 1))
    &&& level_below(faces_out, d, rows(basis, d - 1))
}

/// The first check that level `d` fails.
pub open spec fn level_error(basis: Vec<Vec<IntSet>>, faces_in: Vec<Vec<IntSet>>, faces_out: Vec<Vec<IntSet>>, d: int) -> TableError {
    if faces_in@[d]@.len() != basis@[d]@.len() || faces_out@[d]@.len() != basis@[d]@.len() {
        TableError::RowCount { level: d as usize }
    } else if !(level_sorted(basis, d) && level_sorted(faces_in, d) && level_sorted(faces_out, d)) {
        TableError::Unsorted { level: d as usize }
    } else if d == 0 {
        TableError::FacesAtLevelZero
    } else {
        TableError::FaceOutOfRange { level: d as usize }
    }
}

/// Whether every set at level `d` of `t` is strictly increasing.
fn check_sorted(t: &Vec<Vec<IntSet>>, d: usize) -> (r: bool)
    requires
        d < t@.len(),
    ensures
        r == level_sorted(*t, d as int),
{
    let n = t[d].len();
    for p in 0..n
        invariant
            d < t@.len(),
            n == t@[d as int]@.len(),
            forall|q: int| 0 <= q < p ==> strictly_sorted(#[trigger] entry(*t, d as int, q)),
    {
        if !is_sorted_unique(t[d][p].as_slice()) {
            proof {
                assert(entry(*t, d as int, p as int) == t@[d as int]@[p as int]@);
            }
            return false;
        }
    }
    true
}

/// Whether every entry of a set at level `d` of `t` is below `bound`.
fn check_below(t: &Vec<Vec<IntSet>>, d: usize, bound: usize) -> (r: bool)
    requires
        d < t@.len(),
    ensures
        r == level_below(*t, d as int, bound as int),
{
    let n = t[d].len();
    for p in 0..n
        invariant
            d < t@.len(),
            n == t@[d as int]@.len(),
            forall|q: int, i: int| 0 <= q < p && 0 <= i < entry(*t, d as int, q).len() ==> #[trigger] entry(*t, d as int, q)[i] < bound,
    {
        let m = t[d][p].len();
        for i in 0..m
            invariant
                d < t@.len(),
                p < n,
                n == t@[d as int]@.len(),
                m == entry(*t, d as int, p as int).len(),
                forall|q: int, j: int| 0 <= q < p && 0 <= j < entry(*t, d as int, q).len() ==> #[trigger] entry(*t, d as int, q)[j] < bound,
                forall|j: int| 0 <= j < i ==> #[trigger] entry(*t, d as int, p as int)[j] < bound,
        {
            if t[d][p][i] >= bound {
                return false;
            }
        }
    }
    true
}

/// The first level that does not fit is the only one after levels that all fit.
proof fn lemma_first_bad_level(basis: Vec<Vec<IntSet>>, faces_in: Vec<Vec<IntSet>>, faces_out: Vec<Vec<IntSet>>, d0: int)
    requires
        0 <= d0 < basis@.len(),
        forall|e: int| 0 <= e < d0 ==> level_fits(basis, faces_in, faces_out, e),
        !level_fits(basis, faces_in, faces_out, d0),
    ensures
        forall|d: int| #![trigger level_error(basis, faces_in, faces_out, d)] 0 <= d < basis@.len()
            && (forall|e: int| 0 <= e < d ==> level_fits(basis, faces_in, faces_out, e)) && !level_fits(basis, faces_in, faces_out, d)
            ==> d == d0,
        !(forall|d: int| 0 <= d < basis@.len() ==> level_fits(basis, faces_in, faces_out, d)),
{
    assert forall|d: int| #![trigger level_error(basis, faces_in, faces_out, d)] 0 <= d < basis@.len()
        && (forall|e: int| 0 <= e < d ==> level_fits(basis, faces_in, faces_out, e)) && !level_fits(basis, faces_in, faces_out, d)
        implies d == d0 by {
        if d < d0 {
            assert(level_fits(basis, faces_in, faces_out, d));
        } else if d0 < d {
            assert(level_fits(basis, faces_in, faces_out, d0));
        }
    }
}

/// Build a framed poset from serialized tables, refusing tables of another
/// version, with different numbers of levels, with too many levels, or with
/// a level that fails [`level_fits`]: the first such level gives the error.
pub fn from_tables(version: usize, basis: Vec<Vec<IntSet>>, faces_in: Vec<Vec<IntSet>>, faces_out: Vec<Vec<IntSet>>)
    -> (r: Result<FramedPoset, TableError>)
    ensures
        version != SERIALIZATION_VERSION ==> r == Err::<FramedPoset, TableError>(TableError::Version { version }),
        version == SERIALIZATION_VERSION && (faces_in@.len() != basis@.len() || faces_out@.len() != basis@.len())
            ==> r == Err::<FramedPoset, TableError>(TableError::LevelCount),
        version == SERIALIZATION_VERSION && faces_in@.len() == basis@.len() && faces_out@.len() == basis@.len()
            && basis@.len() > isize::MAX ==> r == Err::<FramedPoset, TableError>(TableError::TooManyLevels),
        forall|d: int| #![trigger level_error(basis, faces_in, faces_out, d)]
            version == SERIALIZATION_VERSION && faces_in@.len() == basis@.len() && faces_out@.len() == basis@.len()
            && basis@.len() <= isize::MAX && 0 <= d < basis@.len()
            && (forall|e: int| 0 <= e < d ==> level_fits(basis, faces_in, faces_out, e)) && !level_fits(basis, faces_in, faces_out, d)
            ==> r == Err::<FramedPoset, TableError>(level_error(basis, faces_in, faces_out, d)),
        r is Ok <==> version == SERIALIZATION_VERSION && faces_in@.len() == basis@.len() && faces_out@.len() == basis@.len()
            && basis@.len() <= isize::MAX && forall|d: int| 0 <= d < basis@.len() ==> level_fits(basis, faces_in, faces_out, d),
        r matches Ok(x) ==> x.valid() && !x.normal && x.basis == basis && x.faces_in == faces_in && x.faces_out == faces_out,
{
    if version != SERIALIZATION_VERSION {
        return Err(TableError::Version { version });
    }
    let levels = basis.len();
    if faces_in.len() != levels || faces_out.len() != levels {
        return Err(TableError::LevelCount);
    }
    if levels > isize::MAX as usize {
        return Err(TableError::TooManyLevels);
    }
    for d in 0..levels
        invariant
            version == SERIALIZATION_VERSION,
            levels <= isize::MAX,
            levels == basis@.len(),
            faces_in@.len() == levels,
            faces_out@.len() == levels,
            forall|e: int| 0 <= e < d ==> level_fits(basis, faces_in, faces_out, e),
    {
        let size = basis[d].len();
        if faces_in[d].len() != size || faces_out[d].len() != size {
            proof {
                lemma_first_bad_level(basis, faces_in, faces_out, d as int);
            }
            return Err(TableError::RowCount { level: d });
        }
        if !check_sorted(&basis, d) || !check_sorted(&faces_in, d) || !check_sorted(&faces_out, d) {
            proof {
                lemma_first_bad_level(basis, faces_in, faces_out, d as int);
            }
            return Err(TableError::Unsorted { level: d });
        }
        let below = if d == 0 {
            0
        } else {
            basis[d - 1].len()
        };
        proof {
            assert(below == rows(basis, d - 1));
        }
        if !check_below(&faces_in, d, below) || !check_below(&faces_out, d, below) {
            proof {
                lemma_first_bad_level(basis, faces_in, faces_out, d as int);
            }
            if d == 0 {
                return Err(TableError::FacesAtLevelZero);
            }
            return Err(TableError::FaceOutOfRange { level: d });
        }
    }
    proof {
        assert(defining_tables(basis, faces_in, faces_out)) by {
            assert forall|d: int, p: int| 0 <= d < basis@.len() && 0 <= p < basis@[d]@.len() implies strictly_sorted(#[trigger] entry(basis, d, p)) by {
                assert(level_fits(basis, faces_in, faces_out, d));
            }
            assert forall|d: int, p: int| 0 <= d < faces_in@.len() && 0 <= p < faces_in@[d]@.len() implies strictly_sorted(#[trigger] entry(faces_in, d, p)) by {
                assert(level_fits(basis, faces_in, faces_out, d));
            }
            assert forall|d: int, p: int| 0 <= d < faces_out@.len() && 0 <= p < faces_out@[d]@.len() implies strictly_sorted(#[trigger] entry(faces_out, d, p)) by {
                assert(level_fits(basis, faces_in, faces_out, d));
            }
            assert forall|d: int, p: int, i: int| 0 <= d < faces_in@.len() && 0 <= p < faces_in@[d]@.len() && 0 <= i < entry(faces_in, d, p).len()
                implies #[trigger] entry(faces_in, d, p)[i] < rows(basis, d - 1) by {
                assert(level_fits(basis, faces_in, faces_out, d));
            }
            assert forall|d: int, p: int, i: int| 0 <= d < faces_out@.len() && 0 <= p < faces_out@[d]@.len() && 0 <= i < entry(faces_out, d, p).len()
                implies #[trigger] entry(faces_out, d, p)[i] < rows(basis, d - 1) by {
                assert(level_fits(basis, faces_in, faces_out, d));
            }
            assert forall|d: int| 0 <= d < basis@.len() implies #[trigger] faces_in@[d]@.len() == basis@[d]@.len() by {
                assert(level_fits(basis, faces_in, faces_out, d));
            }
            assert forall|d: int| 0 <= d < basis@.len() implies #[trigger] faces_out@[d]@.len() == basis@[d]@.len() by {
                assert(level_fits(basis, faces_in, faces_out, d));
            }
        }
    }
    Ok(FramedPoset::from_faces(basis, faces_in, faces_out))
}

} // verus!

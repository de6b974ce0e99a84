//! Cubularity conditions defined by directional boundaries.

use std::sync::Arc;

use vstd::prelude::*;

use crate::embedding::{Embedding, in_image};
use crate::intset::strictly_sorted;
use crate::poset::{BoundaryMode, FramedPoset, Sign, boundary, plain_boundary};
use crate::pushout::composite;

verus! {

/// Strength of the cubularity condition.
#[derive(Debug, Clone, Copy, PartialEq, Eq, Hash, Structural)]
pub enum CubularityMode {
    /// Require distinct directional boundary operators to commute.
    Regular,
    /// Additionally require each iterated boundary to equal the corresponding
    /// intersection of direct boundaries.
    Strong,
}

/// At most one direction occurs in the bases of `shape`.
pub open spec fn at_most_one_direction(shape: FramedPoset) -> bool {
    forall|v: usize, w: usize| shape.is_active(v) && shape.is_active(w) ==> v == w
}

/// `directions` lists the active directions of `shape` in increasing order.
pub open spec fn lists_active(shape: FramedPoset, directions: Seq<usize>) -> bool {
    &&& strictly_sorted(directions)
    &&& forall|v: usize| directions.contains(v) <==> shape.is_active(v)
}

/// `b[k]` holds the input and the output plain boundary of `shape` in
/// `directions[k]`.
pub open spec fn direction_boundaries(shape: Arc<FramedPoset>, directions: Seq<usize>, b: Seq<(Embedding, Embedding)>) -> bool {
    &&& b.len() == directions.len()
    &&& forall|k: int| 0 <= k < b.len() ==> plain_boundary((#[trigger] b[k]).0, shape, Sign::Input, directions[k])
        && plain_boundary(b[k].1, shape, Sign::Output, directions[k])
}

/// The sign at position `k` of (input, output).
pub open spec fn sign_of(k: int) -> Sign {
    if k == 0 {
        Sign::Input
    } else {
        Sign::Output
    }
}

/// The boundary at position `k` of the pair (input, output).
pub open spec fn pick(pair: (Embedding, Embedding), k: int) -> Embedding {
    if k == 0 {
        pair.0
    } else {
        pair.1
    }
}

/// `c` is the plain `sign` boundary in `direction` of the domain of
/// `first`, embedded through `first` into its codomain.
pub open spec fn boundary_through(first: Embedding, sign: Sign, direction: usize, c: Embedding) -> bool {
    exists|second: Embedding| #[trigger] plain_boundary(second, first.dom, sign, direction) && composite(second, first, c)
}

/// `i` is the intersection of the closed embeddings `x` and `y`.
pub open spec fn intersection_of(i: Embedding, x: Embedding, y: Embedding) -> bool {
    &&& i.valid()
    &&& i.closed()
    &&& i.cod == x.cod
    &&& forall|d: int, j: int| x.cod.cell(d, j) ==> (#[trigger] in_image(i.map, d, j) <==> (in_image(x.map, d, j) && in_image(y.map, d, j)))
}

/// `ab` takes boundary `alpha` in `directions[left]` after boundary `beta`
/// in `directions[right]`, and `ba` the two in the other order.
pub open spec fn pair_outcome(directions: Seq<usize>, b: Seq<(Embedding, Embedding)>, left: int, right: int, alpha: int, beta: int,
    ab: Embedding, ba: Embedding) -> bool {
    &&& boundary_through(pick(b[right], beta), sign_of(alpha), directions[left], ab)
    &&& boundary_through(pick(b[left], alpha), sign_of(beta), directions[right], ba)
}

/// The two orders agree: as subobjects (regular), or each with the
/// intersection of the two direct boundaries `x` and `y` (strong).
pub open spec fn orders_agree(mode: CubularityMode, ab: Embedding, ba: Embedding, x: Embedding, y: Embedding) -> bool {
    match mode {
        CubularityMode::Regular => ab.same_subobject(&ba),
        CubularityMode::Strong => exists|i: Embedding| #[trigger] intersection_of(i, x, y) && ab.same_subobject(&i) && ba.same_subobject(&i),
    }
}

/// The two orders disagree.
pub open spec fn orders_disagree(mode: CubularityMode, ab: Embedding, ba: Embedding, x: Embedding, y: Embedding) -> bool {
    match mode {
        CubularityMode::Regular => !ab.same_subobject(&ba),
        CubularityMode::Strong => exists|i: Embedding| #[trigger] intersection_of(i, x, y) && !(ab.same_subobject(&i) && ba.same_subobject(&i)),
    }
}

/// The pair of boundaries at positions `left < right` with signs `alpha`
/// and `beta` passes the test.
pub open spec fn pair_agrees(mode: CubularityMode, directions: Seq<usize>, b: Seq<(Embedding, Embedding)>, left: int, right: int,
    alpha: int, beta: int) -> bool {
    exists|ab: Embedding, ba: Embedding| #[trigger] pair_outcome(directions, b, left, right, alpha, beta, ab, ba)
        && orders_agree(mode, ab, ba, pick(b[left], alpha), pick(b[right], beta))
}

/// The pair fails the test.
pub open spec fn pair_disagrees(mode: CubularityMode, directions: Seq<usize>, b: Seq<(Embedding, Embedding)>, left: int, right: int,
    alpha: int, beta: int) -> bool {
    exists|ab: Embedding, ba: Embedding| #[trigger] pair_outcome(directions, b, left, right, alpha, beta, ab, ba)
        && orders_disagree(mode, ab, ba, pick(b[left], alpha), pick(b[right], beta))
}

/// A valid choice of positions and signs.
pub open spec fn pair_index(n: int, left: int, right: int, alpha: int, beta: int) -> bool {
    0 <= left < right < n && 0 <= alpha < 2 && 0 <= beta < 2
}

/// Every pair of distinct `directions`, with every two signs, passes the
/// test on `shape`.
pub open spec fn last_two_agree(mode: CubularityMode, shape: Arc<FramedPoset>, directions: Seq<usize>) -> bool {
    exists|b: Seq<(Embedding, Embedding)>| #[trigger] direction_boundaries(shape, directions, b)
        && forall|left: int, right: int, alpha: int, beta: int| pair_index(directions.len() as int, left, right, alpha, beta)
            ==> #[trigger] pair_agrees(mode, directions, b, left, right, alpha, beta)
}

/// Some pair of distinct `directions`, with some two signs, fails the test
/// on `shape`.
pub open spec fn last_two_fail(mode: CubularityMode, shape: Arc<FramedPoset>, directions: Seq<usize>) -> bool {
    exists|b: Seq<(Embedding, Embedding)>, left: int, right: int, alpha: int, beta: int|
        #![trigger direction_boundaries(shape, directions, b), pair_disagrees(mode, directions, b, left, right, alpha, beta)]
        direction_boundaries(shape, directions, b) && pair_index(directions.len() as int, left, right, alpha, beta)
            && pair_disagrees(mode, directions, b, left, right, alpha, beta)
}

/// Every state reached from `shape` by taking, for each of
/// `directions[next..]` in turn, no boundary or one of its two boundaries
/// passes the test on the pairs of the directions not taken: those in
/// `remaining`, then those skipped after `next`.
pub open spec fn states_agree(mode: CubularityMode, shape: Arc<FramedPoset>, directions: Seq<usize>, remaining: Seq<usize>, next: int) -> bool
    decreases directions.len() - next,
{
    if next >= directions.len() {
        remaining.len() < 2 || last_two_agree(mode, shape, remaining)
    } else {
        &&& states_agree(mode, shape, directions, remaining.push(directions[next]), next + 1)
        &&& exists|f: Embedding| #[trigger] plain_boundary(f, shape, Sign::Input, directions[next])
            && states_agree(mode, f.dom, directions, remaining, next + 1)
        &&& exists|f: Embedding| #[trigger] plain_boundary(f, shape, Sign::Output, directions[next])
            && states_agree(mode, f.dom, directions, remaining, next + 1)
    }
}

/// Some such state fails the test.
pub open spec fn states_fail(mode: CubularityMode, shape: Arc<FramedPoset>, directions: Seq<usize>, remaining: Seq<usize>, next: int) -> bool
    decreases directions.len() - next,
{
    if next >= directions.len() {
        remaining.len() >= 2 && last_two_fail(mode, shape, remaining)
    } else {
        ||| states_fail(mode, shape, directions, remaining.push(directions[next]), next + 1)
        ||| exists|f: Embedding| #[trigger] plain_boundary(f, shape, Sign::Input, directions[next])
            && states_fail(mode, f.dom, directions, remaining, next + 1)
        ||| exists|f: Embedding| #[trigger] plain_boundary(f, shape, Sign::Output, directions[next])
            && states_fail(mode, f.dom, directions, remaining, next + 1)
    }
}

/// `shape` passes the cubularity test of strength `mode`.
pub open spec fn cubular(mode: CubularityMode, shape: Arc<FramedPoset>) -> bool {
    exists|directions: Seq<usize>| #[trigger] lists_active(*shape, directions) && states_agree(mode, shape, directions, Seq::empty(), 0)
}

/// `shape` fails the cubularity test of strength `mode`.
pub open spec fn not_cubular(mode: CubularityMode, shape: Arc<FramedPoset>) -> bool {
    exists|directions: Seq<usize>| #[trigger] lists_active(*shape, directions) && states_fail(mode, shape, directions, Seq::empty(), 0)
}

/// A directional boundary with its embedding into the framed poset it bounds.
struct Boundary {
    domain: Arc<FramedPoset>,
    into_parent: Embedding,
}

impl Boundary {
    spec fn sound(&self, parent: Arc<FramedPoset>) -> bool {
        &&& self.into_parent.valid()
        &&& self.into_parent.closed()
        &&& self.into_parent.dom == self.domain
        &&& self.into_parent.cod == parent
    }
}

/// The plain `sign` boundary of `shape` in `direction`.
fn directional_boundary(sign: Sign, direction: usize, shape: &Arc<FramedPoset>) -> (b: Boundary)
    requires
        shape.valid(),
    ensures
        b.sound(*shape),
        b.domain.valid(),
        plain_boundary(b.into_parent, *shape, sign, direction),
{
    let (domain, into_parent) = boundary(BoundaryMode::Plain, sign, direction, shape);
    Boundary { domain, into_parent }
}

/// The `second_sign` boundary in `second_direction` of the domain of
/// `first`, embedded through `first` into its parent.
fn boundary_after(first: &Boundary, second_sign: Sign, second_direction: usize, parent: Ghost<Arc<FramedPoset>>) -> (e: Embedding)
    requires
        first.sound(parent@),
        first.domain.valid(),
    ensures
        e.valid(),
        e.cod == parent@,
        boundary_through(first.into_parent, second_sign, second_direction, e),
{
    let (_, second_into_first) = boundary(BoundaryMode::Plain, second_sign, second_direction, &first.domain);
    let e = Embedding::compose(&second_into_first, &first.into_parent);
    proof {
        assert(plain_boundary(second_into_first, first.into_parent.dom, second_sign, second_direction));
        assert(composite(second_into_first, first.into_parent, e));
    }
    e
}

/// Test cubularity using the selected strength.
///
/// Regular cubularity requires every ordering of distinct directional
/// boundaries to agree. Strong cubularity requires, at every iterated boundary,
/// both orders of two further boundaries to equal their intersection. Thus
/// strong cubularity implies regular cubularity.
pub fn is_cubular(cubularity_mode: CubularityMode, shape: &Arc<FramedPoset>) -> (r: bool)
    requires
        shape.valid(),
    ensures
        r ==> cubular(cubularity_mode, *shape),
        !r ==> not_cubular(cubularity_mode, *shape),
        at_most_one_direction(**shape) ==> r,
{
    let directions = shape.active_directions();
    let whole: &FramedPoset = shape;
    proof {
        if at_most_one_direction(*whole) && directions@.len() >= 2 {
            assert(directions@.contains(directions@[0]));
            assert(directions@.contains(directions@[1]));
            assert(directions@[0] < directions@[1]);
            assert(whole.is_active(directions@[0]));
            assert(whole.is_active(directions@[1]));
        }
        assert(at_most_one_direction(*whole) ==> directions@.len() < 2);
        assert(lists_active(*whole, directions@));
    }
    let remaining: Vec<usize> = Vec::new();
    let r = check_states(shape, &directions, &remaining, 0, cubularity_mode);
    proof {
        assert(remaining@ =~= Seq::<usize>::empty());
    }
    r
}

/// Check every state reached by taking, for each of `directions[next..]`,
/// either no boundary or one of its two boundaries, ending with the pairs of
/// the directions not taken: those in `remaining`, then those skipped.
fn check_states(
    shape: &Arc<FramedPoset>,
    directions: &Vec<usize>,
    remaining: &Vec<usize>,
    next: usize,
    cubularity_mode: CubularityMode,
) -> (r: bool)
    requires
        shape.valid(),
        next <= directions@.len(),
    ensures
        r ==> states_agree(cubularity_mode, *shape, directions@, remaining@, next as int),
        !r ==> states_fail(cubularity_mode, *shape, directions@, remaining@, next as int),
        remaining@.len() + directions@.len() - next < 2 ==> r,
    decreases directions@.len() - next,
{
    if next == directions.len() {
        return check_last_two(shape, remaining, cubularity_mode);
    }
    let mut skipped: Vec<usize> = Vec::new();
    for i in 0..remaining.len()
        invariant
            skipped@ == remaining@.take(i as int),
    {
        skipped.push(remaining[i]);
        proof {
            assert(remaining@.take(i + 1) == remaining@.take(i as int).push(remaining@[i as int]));
        }
    }
    skipped.push(directions[next]);
    proof {
        assert(remaining@.take(remaining@.len() as int) =~= remaining@);
        assert(skipped@ == remaining@.push(directions@[next as int]));
    }
    if !check_states(shape, directions, &skipped, next + 1, cubularity_mode) {
        return false;
    }
    let input = directional_boundary(Sign::Input, directions[next], shape);
    if !check_states(&input.domain, directions, remaining, next + 1, cubularity_mode) {
        proof {
            assert(plain_boundary(input.into_parent, *shape, Sign::Input, directions@[next as int]));
            assert(input.into_parent.dom == input.domain);
        }
        return false;
    }
    let output = directional_boundary(Sign::Output, directions[next], shape);
    if !check_states(&output.domain, directions, remaining, next + 1, cubularity_mode) {
        proof {
            assert(plain_boundary(output.into_parent, *shape, Sign::Output, directions@[next as int]));
            assert(output.into_parent.dom == output.domain);
        }
        return false;
    }
    proof {
        assert(plain_boundary(input.into_parent, *shape, Sign::Input, directions@[next as int]));
        assert(input.into_parent.dom == input.domain);
        assert(plain_boundary(output.into_parent, *shape, Sign::Output, directions@[next as int]));
        assert(output.into_parent.dom == output.domain);
    }
    true
}

/// The sign at position `k` of (input, output).
fn sign_at(k: usize) -> (s: Sign)
    ensures
        s == sign_of(k as int),
{
    if k == 0 {
        Sign::Input
    } else {
        Sign::Output
    }
}

/// Every choice of positions and signs before `(left, right, alpha, beta)`,
/// in lexicographic order, passes the test.
spec fn passed_before(mode: CubularityMode, directions: Seq<usize>, b: Seq<(Embedding, Embedding)>, left: int, right: int, alpha: int,
    beta: int) -> bool {
    forall|l: int, r: int, a: int, c: int|
        pair_index(directions.len() as int, l, r, a, c) && (l < left || (l == left && (r < right || (r == right && (a < alpha
            || (a == alpha && c < beta)))))) ==> #[trigger] pair_agrees(mode, directions, b, l, r, a, c)
}

/// Check that each two further boundaries in distinct `directions` commute
/// (regular mode), or both equal the intersection of the two direct
/// boundaries (strong mode).
pub fn check_last_two(shape: &Arc<FramedPoset>, directions: &Vec<usize>, cubularity_mode: CubularityMode) -> (r: bool)
    requires
        shape.valid(),
    ensures
        r ==> directions@.len() < 2 || last_two_agree(cubularity_mode, *shape, directions@),
        !r ==> directions@.len() >= 2 && last_two_fail(cubularity_mode, *shape, directions@),
        directions@.len() < 2 ==> r,
{
    if directions.len() < 2 {
        return true;
    }
    let n = directions.len();
    let mut boundaries: Vec<(Boundary, Boundary)> = Vec::new();
    for i in 0..n
        invariant
            shape.valid(),
            n == directions@.len(),
            boundaries@.len() == i,
            forall|k: int| 0 <= k < i ==> (#[trigger] boundaries@[k]).0.sound(*shape) && boundaries@[k].0.domain.valid()
                && boundaries@[k].1.sound(*shape) && boundaries@[k].1.domain.valid()
                && plain_boundary(boundaries@[k].0.into_parent, *shape, Sign::Input, directions@[k])
                && plain_boundary(boundaries@[k].1.into_parent, *shape, Sign::Output, directions@[k]),
    {
        let input = directional_boundary(Sign::Input, directions[i], shape);
        let output = directional_boundary(Sign::Output, directions[i], shape);
        boundaries.push((input, output));
    }
    let ghost b = boundaries@.map_values(|p: (Boundary, Boundary)| (p.0.into_parent, p.1.into_parent));
    let ghost ds = directions@;
    let ghost mode = cubularity_mode;
    proof {
        assert forall|k: int| 0 <= k < b.len() implies plain_boundary((#[trigger] b[k]).0, *shape, Sign::Input, ds[k])
            && plain_boundary(b[k].1, *shape, Sign::Output, ds[k]) by {
            assert(b[k] == (boundaries@[k].0.into_parent, boundaries@[k].1.into_parent));
        }
        assert(direction_boundaries(*shape, ds, b));
    }
    for left in 0..n
        invariant
            shape.valid(),
            n == directions@.len(),
            ds == directions@,
            mode == cubularity_mode,
            boundaries@.len() == n,
            b == boundaries@.map_values(|p: (Boundary, Boundary)| (p.0.into_parent, p.1.into_parent)),
            direction_boundaries(*shape, ds, b),
            forall|k: int| 0 <= k < n ==> (#[trigger] boundaries@[k]).0.sound(*shape) && boundaries@[k].0.domain.valid()
                && boundaries@[k].1.sound(*shape) && boundaries@[k].1.domain.valid(),
            passed_before(mode, ds, b, left as int, 0, 0, 0),
    {
        for right in left + 1..n
            invariant
                shape.valid(),
                left < n,
                n == directions@.len(),
                ds == directions@,
                mode == cubularity_mode,
                boundaries@.len() == n,
                b == boundaries@.map_values(|p: (Boundary, Boundary)| (p.0.into_parent, p.1.into_parent)),
                direction_boundaries(*shape, ds, b),
                forall|k: int| 0 <= k < n ==> (#[trigger] boundaries@[k]).0.sound(*shape) && boundaries@[k].0.domain.valid()
                    && boundaries@[k].1.sound(*shape) && boundaries@[k].1.domain.valid(),
                left + 1 <= right <= n,
                passed_before(mode, ds, b, left as int, right as int, 0, 0),
        {
            for alpha in 0..2usize
                invariant
                    shape.valid(),
                    left < right < n,
                    n == directions@.len(),
                    ds == directions@,
                    mode == cubularity_mode,
                    boundaries@.len() == n,
                    b == boundaries@.map_values(|p: (Boundary, Boundary)| (p.0.into_parent, p.1.into_parent)),
                    direction_boundaries(*shape, ds, b),
                    forall|k: int| 0 <= k < n ==> (#[trigger] boundaries@[k]).0.sound(*shape) && boundaries@[k].0.domain.valid()
                        && boundaries@[k].1.sound(*shape) && boundaries@[k].1.domain.valid(),
                    passed_before(mode, ds, b, left as int, right as int, alpha as int, 0),
            {
                for beta in 0..2usize
                    invariant
                        shape.valid(),
                        left < right < n,
                        alpha < 2,
                        n == directions@.len(),
                        ds == directions@,
                        mode == cubularity_mode,
                        boundaries@.len() == n,
                        b == boundaries@.map_values(|p: (Boundary, Boundary)| (p.0.into_parent, p.1.into_parent)),
                        direction_boundaries(*shape, ds, b),
                        forall|k: int| 0 <= k < n ==> (#[trigger] boundaries@[k]).0.sound(*shape) && boundaries@[k].0.domain.valid()
                            && boundaries@[k].1.sound(*shape) && boundaries@[k].1.domain.valid(),
                        passed_before(mode, ds, b, left as int, right as int, alpha as int, beta as int),
                {
                    let alpha_sign = sign_at(alpha);
                    let beta_sign = sign_at(beta);
                    let alpha_boundary = if alpha == 0 { &boundaries[left].0 } else { &boundaries[left].1 };
                    let beta_boundary = if beta == 0 { &boundaries[right].0 } else { &boundaries[right].1 };
                    proof {
                        assert(boundaries@[left as int].0.sound(*shape));
                        assert(boundaries@[right as int].0.sound(*shape));
                        assert(b[left as int] == (boundaries@[left as int].0.into_parent, boundaries@[left as int].1.into_parent));
                        assert(b[right as int] == (boundaries@[right as int].0.into_parent, boundaries@[right as int].1.into_parent));
                        assert(alpha_boundary.into_parent == pick(b[left as int], alpha as int));
                        assert(beta_boundary.into_parent == pick(b[right as int], beta as int));
                    }
                    let alpha_after_beta = boundary_after(beta_boundary, alpha_sign, directions[left], Ghost(*shape));
                    let beta_after_alpha = boundary_after(alpha_boundary, beta_sign, directions[right], Ghost(*shape));
                    proof {
                        assert(pair_outcome(ds, b, left as int, right as int, alpha as int, beta as int, alpha_after_beta, beta_after_alpha));
                    }
                    let equal = match cubularity_mode {
                        CubularityMode::Regular => Embedding::equal(&alpha_after_beta, &beta_after_alpha),
                        CubularityMode::Strong => {
                            let intersection = Embedding::intersection(&alpha_boundary.into_parent, &beta_boundary.into_parent).into_codomain;
                            let eq = Embedding::equal(&alpha_after_beta, &intersection) && Embedding::equal(&beta_after_alpha, &intersection);
                            proof {
                                assert(intersection_of(intersection, alpha_boundary.into_parent, beta_boundary.into_parent));
                                if eq {
                                    assert(orders_agree(mode, alpha_after_beta, beta_after_alpha, alpha_boundary.into_parent, beta_boundary.into_parent));
                                } else {
                                    assert(orders_disagree(mode, alpha_after_beta, beta_after_alpha, alpha_boundary.into_parent, beta_boundary.into_parent));
                                }
                            }
                            eq
                        },
                    };
                    if !equal {
                        proof {
                            assert(orders_disagree(mode, alpha_after_beta, beta_after_alpha, pick(b[left as int], alpha as int), pick(b[right as int], beta as int)));
                            assert(pair_disagrees(mode, ds, b, left as int, right as int, alpha as int, beta as int));
                            assert(pair_index(n as int, left as int, right as int, alpha as int, beta as int));
                        }
                        return false;
                    }
                    proof {
                        assert(orders_agree(mode, alpha_after_beta, beta_after_alpha, pick(b[left as int], alpha as int), pick(b[right as int], beta as int)));
                        assert(pair_agrees(mode, ds, b, left as int, right as int, alpha as int, beta as int));
                        assert forall|l: int, r: int, a: int, c: int|
                            pair_index(ds.len() as int, l, r, a, c) && (l < left || (l == left && (r < right || (r == right && (a < alpha
                                || (a == alpha && c < beta + 1)))))) implies #[trigger] pair_agrees(mode, ds, b, l, r, a, c) by {
                            if !(l == left && r == right && a == alpha && c == beta) {
                                assert(l < left || (l == left && (r < right || (r == right && (a < alpha || (a == alpha && c < beta))))));
                            }
                        }
                    }
                }
                proof {
                    assert forall|l: int, r: int, a: int, c: int|
                        pair_index(ds.len() as int, l, r, a, c) && (l < left || (l == left && (r < right || (r == right && (a < alpha + 1
                            || (a == alpha + 1 && c < 0)))))) implies #[trigger] pair_agrees(mode, ds, b, l, r, a, c) by {
                        if l == left && r == right && a == alpha {
                            assert(c < 2);
                        }
                    }
                }
            }
            proof {
                assert forall|l: int, r: int, a: int, c: int|
                    pair_index(ds.len() as int, l, r, a, c) && (l < left || (l == left && (r < right + 1 || (r == right + 1 && (a < 0
                        || (a == 0 && c < 0)))))) implies #[trigger] pair_agrees(mode, ds, b, l, r, a, c) by {
                    if l == left && r == right {
                        assert(a < 2);
                    }
                }
            }
        }
        proof {
            assert forall|l: int, r: int, a: int, c: int|
                pair_index(ds.len() as int, l, r, a, c) && (l < left + 1 || (l == left + 1 && (r < 0 || (r == 0 && (a < 0
                    || (a == 0 && c < 0)))))) implies #[trigger] pair_agrees(mode, ds, b, l, r, a, c) by {
                if l == left {
                    assert(r < n);
                }
            }
        }
    }
    proof {
        assert forall|left: int, right: int, alpha: int, beta: int| pair_index(ds.len() as int, left, right, alpha, beta)
            implies #[trigger] pair_agrees(mode, ds, b, left, right, alpha, beta) by {
            assert(left < n);
        }
        assert(last_two_agree(mode, *shape, ds));
    }
    true
}


/// Two embeddings that are the same subobject as a third are the same
/// subobject.
proof fn lemma_same_subobject_through(ab: Embedding, ba: Embedding, i: Embedding)
    requires
        ab.same_subobject(&i),
        ba.same_subobject(&i),
    ensures
        ab.same_subobject(&ba),
{
    crate::poset::lemma_same_poset_symmetric(&*ba.cod, &*i.cod);
    assert forall|d: int, p: int| 0 <= d < ab.cod.basis@.len() && 0 <= p < ab.cod.basis@[d]@.len() implies
        #[trigger] crate::poset::entry(ab.cod.basis, d, p) == crate::poset::entry(ba.cod.basis, d, p) by {
        assert(crate::poset::entry(ab.cod.basis, d, p) == crate::poset::entry(i.cod.basis, d, p));
    }
    assert forall|d: int, p: int| 0 <= d < ab.cod.faces_in@.len() && 0 <= p < ab.cod.faces_in@[d]@.len() implies
        #[trigger] crate::poset::entry(ab.cod.faces_in, d, p) == crate::poset::entry(ba.cod.faces_in, d, p) by {
        assert(crate::poset::entry(ab.cod.faces_in, d, p) == crate::poset::entry(i.cod.faces_in, d, p));
    }
    assert forall|d: int, p: int| 0 <= d < ab.cod.faces_out@.len() && 0 <= p < ab.cod.faces_out@[d]@.len() implies
        #[trigger] crate::poset::entry(ab.cod.faces_out, d, p) == crate::poset::entry(ba.cod.faces_out, d, p) by {
        assert(crate::poset::entry(ab.cod.faces_out, d, p) == crate::poset::entry(i.cod.faces_out, d, p));
    }
    assert forall|d: int| 0 <= d < ab.cod.basis@.len() implies #[trigger] ab.cod.basis@[d]@.len() == ba.cod.basis@[d]@.len() by {
        assert(ab.cod.basis@[d]@.len() == i.cod.basis@[d]@.len());
    }
    assert forall|d: int| 0 <= d < ab.cod.faces_in@.len() implies #[trigger] ab.cod.faces_in@[d]@.len() == ba.cod.faces_in@[d]@.len() by {
        assert(ab.cod.faces_in@[d]@.len() == i.cod.faces_in@[d]@.len());
    }
    assert forall|d: int| 0 <= d < ab.cod.faces_out@.len() implies #[trigger] ab.cod.faces_out@[d]@.len() == ba.cod.faces_out@[d]@.len() by {
        assert(ab.cod.faces_out@[d]@.len() == i.cod.faces_out@[d]@.len());
    }
    assert forall|d: int, j: int| #[trigger] in_image(ab.map, d, j) <==> in_image(ba.map, d, j) by {
        assert(in_image(ab.map, d, j) <==> in_image(i.map, d, j));
        assert(in_image(ba.map, d, j) <==> in_image(i.map, d, j));
    }
    assert forall|s: Sign, d: int, f: usize, c: int| #[trigger] ab.image_edge(s, d, f, c) <==> ba.image_edge(s, d, f, c) by {
        assert(ab.image_edge(s, d, f, c) <==> i.image_edge(s, d, f, c));
        assert(ba.image_edge(s, d, f, c) <==> i.image_edge(s, d, f, c));
    }
}

proof fn lemma_states_strong_regular(shape: Arc<FramedPoset>, directions: Seq<usize>, remaining: Seq<usize>, next: int)
    requires
        states_agree(CubularityMode::Strong, shape, directions, remaining, next),
    ensures
        states_agree(CubularityMode::Regular, shape, directions, remaining, next),
    decreases directions.len() - next,
{
    if next >= directions.len() {
        if remaining.len() >= 2 {
            let b = choose|b: Seq<(Embedding, Embedding)>| #[trigger] direction_boundaries(shape, remaining, b)
                && forall|left: int, right: int, alpha: int, beta: int| pair_index(remaining.len() as int, left, right, alpha, beta)
                    ==> #[trigger] pair_agrees(CubularityMode::Strong, remaining, b, left, right, alpha, beta);
            assert forall|l: int, r: int, a: int, c: int| pair_index(remaining.len() as int, l, r, a, c)
                implies #[trigger] pair_agrees(CubularityMode::Regular, remaining, b, l, r, a, c) by {
                assert(pair_agrees(CubularityMode::Strong, remaining, b, l, r, a, c));
                let (ab, ba) = choose|ab: Embedding, ba: Embedding| #[trigger] pair_outcome(remaining, b, l, r, a, c, ab, ba)
                    && orders_agree(CubularityMode::Strong, ab, ba, pick(b[l], a), pick(b[r], c));
                let i = choose|i: Embedding| #[trigger] intersection_of(i, pick(b[l], a), pick(b[r], c)) && ab.same_subobject(&i) && ba.same_subobject(&i);
                lemma_same_subobject_through(ab, ba, i);
                assert(pair_outcome(remaining, b, l, r, a, c, ab, ba));
                assert(orders_agree(CubularityMode::Regular, ab, ba, pick(b[l], a), pick(b[r], c)));
            }
        }
    } else {
        let v = directions[next];
        lemma_states_strong_regular(shape, directions, remaining.push(v), next + 1);
        let f = choose|f: Embedding| #[trigger] plain_boundary(f, shape, Sign::Input, v)
            && states_agree(CubularityMode::Strong, f.dom, directions, remaining, next + 1);
        lemma_states_strong_regular(f.dom, directions, remaining, next + 1);
        let g = choose|g: Embedding| #[trigger] plain_boundary(g, shape, Sign::Output, v)
            && states_agree(CubularityMode::Strong, g.dom, directions, remaining, next + 1);
        lemma_states_strong_regular(g.dom, directions, remaining, next + 1);
        assert(plain_boundary(f, shape, Sign::Input, v));
        assert(plain_boundary(g, shape, Sign::Output, v));
    }
}

/// Strong cubularity implies cubularity: a framed poset that passes the
/// strong test passes the regular one.
pub proof fn strong_cubularity_implies_regular(shape: Arc<FramedPoset>)
    requires
        cubular(CubularityMode::Strong, shape),
    ensures
        cubular(CubularityMode::Regular, shape),
{
    let directions = choose|directions: Seq<usize>| #[trigger] lists_active(*shape, directions)
        && states_agree(CubularityMode::Strong, shape, directions, Seq::empty(), 0);
    lemma_states_strong_regular(shape, directions, Seq::empty(), 0);
    assert(lists_active(*shape, directions));
}

} // verus!

//! Connectedness of the undirected Hasse diagram of a framed poset.

use vstd::prelude::*;

use crate::poset::{FramedPoset, Sign, entry};

verus! {

/// A cell, as (level, position).
pub type CellRef = (int, int);

/// `b` is a signed face of `a`.
pub open spec fn covers(x: FramedPoset, a: CellRef, b: CellRef) -> bool {
    &&& x.cell(a.0, a.1)
    &&& x.cell(b.0, b.1)
    &&& b.0 + 1 == a.0
    &&& (x.faces(Sign::Input, a.0, a.1).contains(b.1 as usize) || x.faces(Sign::Output, a.0, a.1).contains(b.1 as usize))
}

/// `a` and `b` are joined by a cover relation, in either direction.
pub open spec fn adjacent(x: FramedPoset, a: CellRef, b: CellRef) -> bool {
    covers(x, a, b) || covers(x, b, a)
}

/// `path` walks from its first cell to its last along cover relations.
pub open spec fn is_walk(x: FramedPoset, path: Seq<CellRef>) -> bool {
    &&& path.len() >= 1
    &&& x.cell(path[0].0, path[0].1)
    &&& forall|i: int| 0 <= i < path.len() - 1 ==> adjacent(x, #[trigger] path[i], path[i + 1])
}

/// `b` can be reached from `a` in the undirected Hasse diagram.
pub open spec fn reaches(x: FramedPoset, a: CellRef, b: CellRef) -> bool {
    exists|path: Seq<CellRef>| #[trigger] is_walk(x, path) && path[0] == a && path.last() == b
}

/// Every cell is reached from `(sd, sp)`.
pub open spec fn reaches_all(x: FramedPoset, sd: int, sp: int) -> bool {
    forall|e: int, q: int| #[trigger] x.cell(e, q) ==> reaches(x, (sd, sp), (e, q))
}

/// The undirected Hasse diagram is connected: some cell reaches every cell.
pub open spec fn connected(x: FramedPoset) -> bool {
    exists|sd: int, sp: int| x.cell(sd, sp) && #[trigger] reaches_all(x, sd, sp)
}

proof fn lemma_walk_reverse(x: FramedPoset, path: Seq<CellRef>)
    requires
        is_walk(x, path),
    ensures
        is_walk(x, path.reverse()),
        path.reverse()[0] == path.last(),
        path.reverse().last() == path[0],
{
    let r = path.reverse();
    assert forall|i: int| 0 <= i < r.len() - 1 implies adjacent(x, #[trigger] r[i], r[i + 1]) by {
        let j = path.len() - 2 - i;
        assert(adjacent(x, path[j], path[j + 1]));
        assert(r[i] == path[j + 1]);
        assert(r[i + 1] == path[j]);
    }
    let last = path.len() - 1;
    if last > 0 {
        assert(adjacent(x, path[last - 1], path[last]));
    }
}

proof fn lemma_walk_concat(x: FramedPoset, p: Seq<CellRef>, q: Seq<CellRef>)
    requires
        is_walk(x, p),
        is_walk(x, q),
        p.last() == q[0],
    ensures
        is_walk(x, p + q.drop_first()),
        (p + q.drop_first())[0] == p[0],
        (p + q.drop_first()).last() == q.last(),
{
    let w = p + q.drop_first();
    assert forall|i: int| 0 <= i < w.len() - 1 implies adjacent(x, #[trigger] w[i], w[i + 1]) by {
        if i < p.len() - 1 {
            assert(adjacent(x, p[i], p[i + 1]));
        } else if i == p.len() - 1 {
            assert(w[i] == q[0]);
            assert(w[i + 1] == q[1]);
            assert(adjacent(x, q[0], q[1]));
        } else {
            let j = i - p.len() + 1;
            assert(w[i] == q[j]);
            assert(w[i + 1] == q[j + 1]);
            assert(adjacent(x, q[j], q[j + 1]));
        }
    }
    if q.len() > 1 {
        assert(w.last() == q.last());
    }
}

/// A table of marks with one entry per cell.
pub open spec fn marks_shaped(x: FramedPoset, seen: Seq<Seq<bool>>) -> bool {
    &&& seen.len() == x.levels()
    &&& forall|d: int| 0 <= d < x.levels() ==> #[trigger] seen[d].len() == x.size(d)
}

/// The neighbours of every marked cell are marked.
pub open spec fn marks_closed(x: FramedPoset, seen: Seq<Seq<bool>>) -> bool {
    forall|ae: int, aq: int, be: int, bq: int| #[trigger] adjacent(x, (ae, aq), (be, bq)) && seen[ae][aq] ==> seen[be][bq]
}

proof fn lemma_closed_walk(x: FramedPoset, seen: Seq<Seq<bool>>, path: Seq<CellRef>)
    requires
        marks_closed(x, seen),
        is_walk(x, path),
        seen[path[0].0][path[0].1],
    ensures
        seen[path.last().0][path.last().1],
    decreases path.len(),
{
    if path.len() > 1 {
        let front = path.drop_last();
        assert(is_walk(x, front)) by {
            assert forall|i: int| 0 <= i < front.len() - 1 implies adjacent(x, #[trigger] front[i], front[i + 1]) by {
                assert(adjacent(x, path[i], path[i + 1]));
            }
        }
        lemma_closed_walk(x, seen, front);
        let k = path.len() - 2;
        assert(adjacent(x, path[k], path[k + 1]));
        assert(front.last() == path[k]);
        assert(adjacent(x, (path[k].0, path[k].1), (path[k + 1].0, path[k + 1].1)));
    }
}

/// Number of marked cells.
pub open spec fn count_row(r: Seq<bool>) -> nat
    decreases r.len(),
{
    if r.len() == 0 {
        0
    } else {
        count_row(r.drop_last()) + if r.last() { 1nat } else { 0nat }
    }
}

pub open spec fn count_marks(t: Seq<Seq<bool>>) -> nat
    decreases t.len(),
{
    if t.len() == 0 {
        0
    } else {
        count_marks(t.drop_last()) + count_row(t.last())
    }
}

proof fn lemma_count_row_bound(r: Seq<bool>)
    ensures
        count_row(r) <= r.len(),
    decreases r.len(),
{
    if r.len() > 0 {
        lemma_count_row_bound(r.drop_last());
    }
}

proof fn lemma_count_row_set(r: Seq<bool>, i: int)
    requires
        0 <= i < r.len(),
        !r[i],
    ensures
        count_row(r.update(i, true)) == count_row(r) + 1,
    decreases r.len(),
{
    let u = r.update(i, true);
    if i == r.len() - 1 {
        assert(u.drop_last() =~= r.drop_last());
    } else {
        assert(u.drop_last() =~= r.drop_last().update(i, true));
        lemma_count_row_set(r.drop_last(), i);
    }
}

proof fn lemma_count_marks_set(t: Seq<Seq<bool>>, d: int, i: int)
    requires
        0 <= d < t.len(),
        0 <= i < t[d].len(),
        !t[d][i],
    ensures
        count_marks(t.update(d, t[d].update(i, true))) == count_marks(t) + 1,
    decreases t.len(),
{
    let u = t.update(d, t[d].update(i, true));
    lemma_count_row_set(t[d], i);
    if d == t.len() - 1 {
        assert(u.drop_last() =~= t.drop_last());
    } else {
        assert(u.drop_last() =~= t.drop_last().update(d, t[d].update(i, true)));
        lemma_count_marks_set(t.drop_last(), d, i);
    }
}

/// Total number of entries of a table of marks.
pub open spec fn mark_slots(t: Seq<Seq<bool>>) -> nat
    decreases t.len(),
{
    if t.len() == 0 {
        0
    } else {
        mark_slots(t.drop_last()) + t.last().len()
    }
}

proof fn lemma_count_marks_bound(t: Seq<Seq<bool>>)
    ensures
        count_marks(t) <= mark_slots(t),
    decreases t.len(),
{
    if t.len() > 0 {
        lemma_count_marks_bound(t.drop_last());
        lemma_count_row_bound(t.last());
    }
}

proof fn lemma_mark_slots_set(t: Seq<Seq<bool>>, d: int, i: int)
    requires
        0 <= d < t.len(),
        0 <= i < t[d].len(),
    ensures
        mark_slots(t.update(d, t[d].update(i, true))) == mark_slots(t),
    decreases t.len(),
{
    let u = t.update(d, t[d].update(i, true));
    if d == t.len() - 1 {
        assert(u.drop_last() =~= t.drop_last());
    } else {
        assert(u.drop_last() =~= t.drop_last().update(d, t[d].update(i, true)));
        lemma_mark_slots_set(t.drop_last(), d, i);
    }
}

/// The view of a table of marks.
pub open spec fn marks_view(t: Vec<Vec<bool>>) -> Seq<Seq<bool>> {
    t@.map_values(|r: Vec<bool>| r@)
}


/// Every entry of the stack is a marked cell.
pub open spec fn stack_ok(x: FramedPoset, seen: Seq<Seq<bool>>, stack: Seq<(usize, usize)>) -> bool {
    forall|k: int| 0 <= k < stack.len() ==> x.cell((#[trigger] stack[k]).0 as int, stack[k].1 as int) && seen[stack[k].0 as int][stack[k].1 as int]
}

/// Every marked cell is reached from `s`.
pub open spec fn reach_ok(x: FramedPoset, seen: Seq<Seq<bool>>, s: CellRef) -> bool {
    forall|e: int, q: int| #![trigger seen[e][q]] x.cell(e, q) && seen[e][q] ==> reaches(x, s, (e, q))
}

/// A marked cell other than `skip` whose neighbours are not all marked is
/// still on the stack.
pub open spec fn pending_ok(x: FramedPoset, seen: Seq<Seq<bool>>, stack: Seq<(usize, usize)>, skip: Option<CellRef>) -> bool {
    forall|ae: int, aq: int, be: int, bq: int| #[trigger] adjacent(x, (ae, aq), (be, bq)) && seen[ae][aq] && skip != Some((ae, aq))
        ==> seen[be][bq] || stack.contains((ae as usize, aq as usize))
}

/// Marks only get set.
pub open spec fn marks_grow(x: FramedPoset, before: Seq<Seq<bool>>, after: Seq<Seq<bool>>) -> bool {
    forall|e: int, q: int| #![trigger after[e][q]] x.cell(e, q) && before[e][q] ==> after[e][q]
}

proof fn lemma_reach_step(x: FramedPoset, s: CellRef, a: CellRef, b: CellRef)
    requires
        reaches(x, s, a),
        adjacent(x, a, b),
    ensures
        reaches(x, s, b),
{
    let p = choose|path: Seq<CellRef>| #[trigger] is_walk(x, path) && path[0] == s && path.last() == a;
    let q = seq![a, b];
    assert(is_walk(x, q)) by {
        assert forall|i: int| 0 <= i < q.len() - 1 implies adjacent(x, #[trigger] q[i], q[i + 1]) by {
            assert(i == 0);
        }
    }
    lemma_walk_concat(x, p, q);
    let w = p + q.drop_first();
    assert(is_walk(x, w) && w[0] == s && w.last() == b);
}

/// Mark cell `(d, q)`, a neighbour of the marked cell `from`, and push it on
/// the stack if it was not marked.
fn visit(
    x: &FramedPoset,
    seen: &mut Vec<Vec<bool>>,
    stack: &mut Vec<(usize, usize)>,
    d: usize,
    q: usize,
    Ghost(s): Ghost<CellRef>,
    Ghost(from): Ghost<CellRef>,
    Ghost(skip): Ghost<Option<CellRef>>,
)
    requires
        x.cell(d as int, q as int),
        marks_shaped(*x, marks_view(*old(seen))),
        stack_ok(*x, marks_view(*old(seen)), old(stack)@),
        reach_ok(*x, marks_view(*old(seen)), s),
        pending_ok(*x, marks_view(*old(seen)), old(stack)@, skip),
        x.cell(from.0, from.1),
        marks_view(*old(seen))[from.0][from.1],
        adjacent(*x, from, (d as int, q as int)),
    ensures
        marks_shaped(*x, marks_view(*final(seen))),
        stack_ok(*x, marks_view(*final(seen)), final(stack)@),
        reach_ok(*x, marks_view(*final(seen)), s),
        pending_ok(*x, marks_view(*final(seen)), final(stack)@, skip),
        marks_view(*final(seen))[d as int][q as int],
        marks_grow(*x, marks_view(*old(seen)), marks_view(*final(seen))),
        final(stack)@.len() >= old(stack)@.len(),
        forall|k: int| 0 <= k < old(stack)@.len() ==> #[trigger] final(stack)@[k] == old(stack)@[k],
        final(stack)@.len() - old(stack)@.len() == count_marks(marks_view(*final(seen))) - count_marks(marks_view(*old(seen))),
        mark_slots(marks_view(*final(seen))) == mark_slots(marks_view(*old(seen))),
{
    let ghost sv = marks_view(*seen);
    proof {
        assert(sv[d as int] == seen@[d as int]@);
    }
    if !seen[d][q] {
        let mut row = seen[d].clone();
        row.set(q, true);
        seen.set(d, row);
        stack.push((d, q));
        proof {
            let nv = marks_view(*seen);
            assert(nv =~= sv.update(d as int, sv[d as int].update(q as int, true)));
            lemma_count_marks_set(sv, d as int, q as int);
            lemma_mark_slots_set(sv, d as int, q as int);
            lemma_reach_step(*x, s, from, (d as int, q as int));
            assert forall|e: int, r: int| #![trigger nv[e][r]] x.cell(e, r) && nv[e][r] implies reaches(*x, s, (e, r)) by {
                if (e, r) != (d as int, q as int) {
                    assert(sv[e][r]);
                }
            }
            assert forall|k: int| 0 <= k < stack@.len() implies x.cell((#[trigger] stack@[k]).0 as int, stack@[k].1 as int)
                && nv[stack@[k].0 as int][stack@[k].1 as int] by {
                if k < stack@.len() - 1 {
                    let e = stack@[k];
                    assert(sv[e.0 as int][e.1 as int]);
                    if e.0 == d && e.1 == q {
                    } else {
                        assert(nv[e.0 as int][e.1 as int] == sv[e.0 as int][e.1 as int]);
                    }
                }
            }
            assert forall|ae: int, aq: int, be: int, bq: int| #[trigger] adjacent(*x, (ae, aq), (be, bq)) && nv[ae][aq] && skip != Some((ae, aq))
                implies nv[be][bq] || stack@.contains((ae as usize, aq as usize)) by {
                if ae == d && aq == q {
                    assert(stack@[stack@.len() - 1] == (d, q));
                } else {
                    assert(sv[ae][aq]);
                    if sv[be][bq] {
                        assert(nv[be][bq]);
                    } else {
                        assert(old(stack)@.contains((ae as usize, aq as usize)));
                        let k = choose|k: int| 0 <= k < old(stack)@.len() && old(stack)@[k] == (ae as usize, aq as usize);
                        assert(stack@[k] == (ae as usize, aq as usize));
                    }
                }
            }
            assert(marks_grow(*x, sv, nv));
        }
    }
}


/// Visit every cell `(level, list[i])`, all neighbours of the marked cell `from`.
fn visit_all(
    x: &FramedPoset,
    seen: &mut Vec<Vec<bool>>,
    stack: &mut Vec<(usize, usize)>,
    list: &Vec<usize>,
    level: usize,
    Ghost(s): Ghost<CellRef>,
    Ghost(from): Ghost<CellRef>,
    Ghost(skip): Ghost<Option<CellRef>>,
)
    requires
        forall|i: int| 0 <= i < list@.len() ==> x.cell(level as int, #[trigger] list@[i] as int) && adjacent(*x, from, (level as int, list@[i] as int)),
        marks_shaped(*x, marks_view(*old(seen))),
        stack_ok(*x, marks_view(*old(seen)), old(stack)@),
        reach_ok(*x, marks_view(*old(seen)), s),
        pending_ok(*x, marks_view(*old(seen)), old(stack)@, skip),
        x.cell(from.0, from.1),
        marks_view(*old(seen))[from.0][from.1],
    ensures
        marks_shaped(*x, marks_view(*final(seen))),
        stack_ok(*x, marks_view(*final(seen)), final(stack)@),
        reach_ok(*x, marks_view(*final(seen)), s),
        pending_ok(*x, marks_view(*final(seen)), final(stack)@, skip),
        forall|i: int| 0 <= i < list@.len() ==> #[trigger] marks_view(*final(seen))[level as int][list@[i] as int],
        marks_grow(*x, marks_view(*old(seen)), marks_view(*final(seen))),
        final(stack)@.len() >= old(stack)@.len(),
        forall|k: int| 0 <= k < old(stack)@.len() ==> #[trigger] final(stack)@[k] == old(stack)@[k],
        final(stack)@.len() - old(stack)@.len() == count_marks(marks_view(*final(seen))) - count_marks(marks_view(*old(seen))),
        mark_slots(marks_view(*final(seen))) == mark_slots(marks_view(*old(seen))),
{
    let n = list.len();
    let ghost s0 = marks_view(*seen);
    let ghost k0 = stack@;
    for i in 0..n
        invariant
            n == list@.len(),
            forall|j: int| 0 <= j < list@.len() ==> x.cell(level as int, #[trigger] list@[j] as int) && adjacent(*x, from, (level as int, list@[j] as int)),
            marks_shaped(*x, marks_view(*seen)),
            stack_ok(*x, marks_view(*seen), stack@),
            reach_ok(*x, marks_view(*seen), s),
            pending_ok(*x, marks_view(*seen), stack@, skip),
            x.cell(from.0, from.1),
            s0[from.0][from.1],
            forall|j: int| 0 <= j < i ==> #[trigger] marks_view(*seen)[level as int][list@[j] as int],
            marks_grow(*x, s0, marks_view(*seen)),
            stack@.len() >= k0.len(),
            forall|k: int| 0 <= k < k0.len() ==> #[trigger] stack@[k] == k0[k],
            stack@.len() - k0.len() == count_marks(marks_view(*seen)) - count_marks(s0),
            mark_slots(marks_view(*seen)) == mark_slots(s0),
    {
        let ghost before = marks_view(*seen);
        let ghost kb = stack@;
        proof {
            assert(x.cell(level as int, list@[i as int] as int));
            assert(marks_view(*seen)[from.0][from.1]);
        }
        visit(x, seen, stack, level, list[i], Ghost(s), Ghost(from), Ghost(skip));
        proof {
            assert forall|j: int| 0 <= j < i + 1 implies #[trigger] marks_view(*seen)[level as int][list@[j] as int] by {
                if j < i {
                    assert(before[level as int][list@[j] as int]);
                    assert(x.cell(level as int, list@[j] as int));
                }
            }
            assert forall|k: int| 0 <= k < k0.len() implies #[trigger] stack@[k] == k0[k] by {
                assert(stack@[k] == kb[k]);
            }
        }
    }
}


/// A table of marks, one per cell, all unset.
fn unmarked(x: &FramedPoset) -> (t: Vec<Vec<bool>>)
    ensures
        marks_shaped(*x, marks_view(t)),
        forall|d: int, p: int| #![trigger marks_view(t)[d][p]] x.cell(d, p) ==> !marks_view(t)[d][p],
{
    let sizes = x.sizes();
    let n = sizes.len();
    let mut t: Vec<Vec<bool>> = Vec::new();
    for d in 0..n
        invariant
            n == x.levels(),
            sizes@ == x.size_seq(),
            t@.len() == d,
            forall|e: int| 0 <= e < d ==> #[trigger] t@[e]@.len() == x.size(e),
            forall|e: int, p: int| 0 <= e < d && 0 <= p < x.size(e) ==> !(#[trigger] t@[e]@[p]),
    {
        t.push(vec![false; sizes[d]]);
    }
    proof {
        assert forall|e: int| 0 <= e < x.levels() implies #[trigger] marks_view(t)[e].len() == x.size(e) by {
            assert(marks_view(t)[e] == t@[e]@);
        }
        assert forall|e: int, p: int| #![trigger marks_view(t)[e][p]] x.cell(e, p) implies !marks_view(t)[e][p] by {
            assert(marks_view(t)[e] == t@[e]@);
        }
    }
    t
}

impl FramedPoset {
    /// Whether the undirected Hasse diagram is connected.
    ///
    /// Input and output cover relations are both treated as undirected edges.
    /// The empty framed poset is not connected.
    pub fn is_connected(&self) -> (r: bool)
        requires
            self.valid(),
        ensures
            r == connected(*self),
    {
        let sizes = self.sizes();
        let levels = sizes.len();
        let mut start = levels;
        for d in 0..levels
            invariant
                levels == self.levels(),
                sizes@ == self.size_seq(),
                start == levels ==> forall|e: int| 0 <= e < d ==> #[trigger] self.size(e) == 0,
                start < levels ==> start < d && self.size(start as int) > 0,
                start <= levels,
        {
            if start == levels && sizes[d] > 0 {
                start = d;
            }
        }
        if start == levels {
            proof {
                assert forall|sd: int, sp: int| !(self.cell(sd, sp) && #[trigger] reaches_all(*self, sd, sp)) by {
                    if self.cell(sd, sp) {
                        assert(self.size(sd) == 0);
                    }
                }
            }
            return false;
        }
        let ghost s: CellRef = (start as int, 0int);
        let mut seen = unmarked(self);
        let ghost blank = marks_view(seen);
        let mut row = seen[start].clone();
        proof {
            assert(blank[start as int] == seen@[start as int]@);
        }
        row.set(0, true);
        seen.set(start, row);
        let mut stack: Vec<(usize, usize)> = Vec::new();
        stack.push((start, 0));
        proof {
            let sv = marks_view(seen);
            assert(sv =~= blank.update(start as int, blank[start as int].update(0, true)));
            assert(self.cell(start as int, 0));
            assert(sv[start as int][0]);
            assert(is_walk(*self, seq![s]));
            assert(reaches(*self, s, s));
            assert forall|e: int, q: int| #![trigger sv[e][q]] self.cell(e, q) && sv[e][q] implies reaches(*self, s, (e, q)) by {
                if (e, q) != s {
                    assert(!blank[e][q]);
                }
            }
            assert forall|ae: int, aq: int, be: int, bq: int| #[trigger] adjacent(*self, (ae, aq), (be, bq)) && sv[ae][aq] && None::<CellRef> != Some((ae, aq))
                implies sv[be][bq] || stack@.contains((ae as usize, aq as usize)) by {
                if (ae, aq) != s {
                    assert(!blank[ae][aq]);
                } else {
                    assert(stack@[0] == (start, 0usize));
                }
            }
            lemma_count_marks_bound(sv);
        }
        let ghost slots = mark_slots(marks_view(seen));
        while stack.len() > 0
            invariant
                self.valid(),
                levels == self.levels(),
                self.cell(s.0, s.1),
                marks_shaped(*self, marks_view(seen)),
                stack_ok(*self, marks_view(seen), stack@),
                reach_ok(*self, marks_view(seen), s),
                pending_ok(*self, marks_view(seen), stack@, None),
                marks_view(seen)[s.0][s.1],
                mark_slots(marks_view(seen)) == slots,
                count_marks(marks_view(seen)) <= slots,
            decreases slots - count_marks(marks_view(seen)), stack@.len(),
        {
            let ghost k0 = stack@;
            let ghost sv0 = marks_view(seen);
            let (d, p) = stack.pop().unwrap();
            proof {
                assert(k0 =~= stack@.push((d, p)));
                lemma_popped(*self, sv0, k0, stack@, d, p);
            }
            expand(self, &mut seen, &mut stack, d, p, Ghost(s));
            proof {
                lemma_count_marks_bound(marks_view(seen));
                assert(marks_view(seen)[s.0][s.1]);
            }
        }
        let ghost sv = marks_view(seen);
        proof {
            assert forall|ae: int, aq: int, be: int, bq: int| #[trigger] adjacent(*self, (ae, aq), (be, bq)) && sv[ae][aq] implies sv[be][bq] by {
                assert(None::<CellRef> != Some((ae, aq)));
                assert(!stack@.contains((ae as usize, aq as usize)));
            }
            assert(marks_closed(*self, sv));
        }
        let mut all = true;
        for d in 0..levels
            invariant
                levels == self.levels(),
                sizes@ == self.size_seq(),
                sv == marks_view(seen),
                marks_shaped(*self, sv),
                all == forall|e: int, q: int| #![trigger sv[e][q]] 0 <= e < d && self.cell(e, q) ==> sv[e][q],
        {
            let m = sizes[d];
            for q in 0..m
                invariant
                    levels == self.levels(),
                    d < levels,
                    m == self.size(d as int),
                    sv == marks_view(seen),
                    marks_shaped(*self, sv),
                    all == forall|e: int, q2: int| #![trigger sv[e][q2]] ((0 <= e < d) || (e == d && q2 < q)) && self.cell(e, q2) ==> sv[e][q2],
            {
                proof {
                    assert(sv[d as int] == seen@[d as int]@);
                }
                if !seen[d][q] {
                    all = false;
                }
            }
        }
        proof {
            if all {
                assert forall|e: int, q: int| #[trigger] self.cell(e, q) implies reaches(*self, s, (e, q)) by {
                    assert(sv[e][q]);
                }
                assert(reaches_all(*self, s.0, s.1));
            } else {
                let (e, q) = choose|e: int, q: int| #![trigger sv[e][q]] 0 <= e < levels && self.cell(e, q) && !sv[e][q];
                if connected(*self) {
                    let (td, tp) = choose|sd: int, sp: int| self.cell(sd, sp) && #[trigger] reaches_all(*self, sd, sp);
                    assert(reaches(*self, (td, tp), s));
                    assert(reaches(*self, (td, tp), (e, q)));
                    let p1 = choose|path: Seq<CellRef>| #[trigger] is_walk(*self, path) && path[0] == (td, tp) && path.last() == s;
                    let p2 = choose|path: Seq<CellRef>| #[trigger] is_walk(*self, path) && path[0] == (td, tp) && path.last() == (e, q);
                    lemma_walk_reverse(*self, p1);
                    lemma_walk_concat(*self, p1.reverse(), p2);
                    lemma_closed_walk(*self, sv, p1.reverse() + p2.drop_first());
                }
            }
        }
        all
    }
}

/// Taking the last cell off the stack leaves its neighbours as the only
/// pending work not on the stack.
proof fn lemma_popped(x: FramedPoset, sv: Seq<Seq<bool>>, before: Seq<(usize, usize)>, after: Seq<(usize, usize)>, d: usize, p: usize)
    requires
        stack_ok(x, sv, before),
        pending_ok(x, sv, before, None),
        before == after.push((d, p)),
    ensures
        stack_ok(x, sv, after),
        pending_ok(x, sv, after, Some((d as int, p as int))),
        x.cell(d as int, p as int),
        sv[d as int][p as int],
{
    assert(before[before.len() - 1] == (d, p));
    assert forall|k: int| 0 <= k < after.len() implies x.cell((#[trigger] after[k]).0 as int, after[k].1 as int)
        && sv[after[k].0 as int][after[k].1 as int] by {
        assert(after[k] == before[k]);
    }
    assert forall|ae: int, aq: int, be: int, bq: int| #[trigger] adjacent(x, (ae, aq), (be, bq)) && sv[ae][aq] && Some((d as int, p as int)) != Some((ae, aq))
        implies sv[be][bq] || after.contains((ae as usize, aq as usize)) by {
        if !sv[be][bq] {
            assert(None::<CellRef> != Some((ae, aq)));
            assert(before.contains((ae as usize, aq as usize)));
            assert(x.cell(ae, aq));
            assert(x.basis@.len() == x.basis.len());
            assert(x.basis@[ae]@.len() == x.basis@[ae].len());
            let k = choose|k: int| 0 <= k < before.len() && before[k] == (ae as usize, aq as usize);
            if k == before.len() - 1 {
                assert(ae == d && aq == p);
            } else {
                assert(after[k] == before[k]);
            }
        }
    }
}

/// Visit every neighbour of the marked cell `(d, p)`, just taken off the stack.
fn expand(x: &FramedPoset, seen: &mut Vec<Vec<bool>>, stack: &mut Vec<(usize, usize)>, d: usize, p: usize, Ghost(s): Ghost<CellRef>)
    requires
        x.valid(),
        x.cell(d as int, p as int),
        marks_view(*old(seen))[d as int][p as int],
        marks_shaped(*x, marks_view(*old(seen))),
        stack_ok(*x, marks_view(*old(seen)), old(stack)@),
        reach_ok(*x, marks_view(*old(seen)), s),
        pending_ok(*x, marks_view(*old(seen)), old(stack)@, Some((d as int, p as int))),
    ensures
        marks_shaped(*x, marks_view(*final(seen))),
        stack_ok(*x, marks_view(*final(seen)), final(stack)@),
        reach_ok(*x, marks_view(*final(seen)), s),
        pending_ok(*x, marks_view(*final(seen)), final(stack)@, None),
        marks_grow(*x, marks_view(*old(seen)), marks_view(*final(seen))),
        final(stack)@.len() >= old(stack)@.len(),
        final(stack)@.len() - old(stack)@.len() == count_marks(marks_view(*final(seen))) - count_marks(marks_view(*old(seen))),
        mark_slots(marks_view(*final(seen))) == mark_slots(marks_view(*old(seen))),
{
    let levels = x.basis.len();
    let ghost c: CellRef = (d as int, p as int);
    let ghost s0 = marks_view(*seen);
    if d > 0 {
        let fi = x.faces_of(Sign::Input, d, p);
        let fo = x.faces_of(Sign::Output, d, p);
        proof {
            assert forall|i: int| 0 <= i < fi@.len() implies x.cell(d - 1, #[trigger] fi@[i] as int) && adjacent(*x, c, (d - 1, fi@[i] as int)) by {
                assert(entry(x.faces_in, d as int, p as int)[i] < x.size(d - 1));
                assert(fi@.contains(fi@[i]));
            }
            assert forall|i: int| 0 <= i < fo@.len() implies x.cell(d - 1, #[trigger] fo@[i] as int) && adjacent(*x, c, (d - 1, fo@[i] as int)) by {
                assert(entry(x.faces_out, d as int, p as int)[i] < x.size(d - 1));
                assert(fo@.contains(fo@[i]));
            }
        }
        visit_all(x, seen, stack, fi, d - 1, Ghost(s), Ghost(c), Ghost(Some(c)));
        let ghost m1 = marks_view(*seen);
        visit_all(x, seen, stack, fo, d - 1, Ghost(s), Ghost(c), Ghost(Some(c)));
        proof {
            let m2 = marks_view(*seen);
            assert forall|i: int| 0 <= i < fi@.len() implies #[trigger] m2[d - 1][fi@[i] as int] by {
                assert(m1[d - 1][fi@[i] as int]);
                assert(x.cell(d - 1, fi@[i] as int));
            }
        }
    }
    let ghost sv1 = marks_view(*seen);
    proof {
        assert(marks_grow(*x, s0, sv1));
    }
    if d + 1 < levels {
        let ci = x.cofaces_of(Sign::Input, d, p);
        let co = x.cofaces_of(Sign::Output, d, p);
        proof {
            assert forall|i: int| 0 <= i < ci@.len() implies x.cell(d + 1, #[trigger] ci@[i] as int) && adjacent(*x, c, (d + 1, ci@[i] as int)) by {
                let g = ci@[i];
                assert(entry(x.cofaces_in, d as int, p as int)[i] < x.size(d + 1));
                assert(entry(x.cofaces_in, d as int, p as int).contains(g));
                assert(entry(x.faces_in, d + 1, g as int).contains(p));
            }
            assert forall|i: int| 0 <= i < co@.len() implies x.cell(d + 1, #[trigger] co@[i] as int) && adjacent(*x, c, (d + 1, co@[i] as int)) by {
                let g = co@[i];
                assert(entry(x.cofaces_out, d as int, p as int)[i] < x.size(d + 1));
                assert(entry(x.cofaces_out, d as int, p as int).contains(g));
                assert(entry(x.faces_out, d + 1, g as int).contains(p));
            }
        }
        visit_all(x, seen, stack, ci, d + 1, Ghost(s), Ghost(c), Ghost(Some(c)));
        let ghost m3 = marks_view(*seen);
        visit_all(x, seen, stack, co, d + 1, Ghost(s), Ghost(c), Ghost(Some(c)));
        proof {
            let m4 = marks_view(*seen);
            assert forall|i: int| 0 <= i < ci@.len() implies #[trigger] m4[d + 1][ci@[i] as int] by {
                assert(m3[d + 1][ci@[i] as int]);
                assert(x.cell(d + 1, ci@[i] as int));
            }
        }
    }
    proof {
        let sv = marks_view(*seen);
        lemma_neighbours_marked(*x, sv1, sv, d, p);
        assert forall|ae: int, aq: int, be: int, bq: int| #[trigger] adjacent(*x, (ae, aq), (be, bq)) && sv[ae][aq] && None::<CellRef> != Some((ae, aq))
            implies sv[be][bq] || stack@.contains((ae as usize, aq as usize)) by {
            if ae == d && aq == p {
                assert(adjacent(*x, c, (be, bq)));
            } else {
                assert(Some(c) != Some((ae, aq)));
            }
        }
    }
}

/// Once its faces (in `sv1`) and cofaces (in `sv`) are marked, every
/// neighbour of cell `(d, p)` is marked in `sv`.
proof fn lemma_neighbours_marked(x: FramedPoset, sv1: Seq<Seq<bool>>, sv: Seq<Seq<bool>>, d: usize, p: usize)
    requires
        x.valid(),
        x.cell(d as int, p as int),
        marks_grow(x, sv1, sv),
        d > 0 ==> forall|i: int| 0 <= i < x.faces(Sign::Input, d as int, p as int).len() ==> #[trigger] sv1[d - 1][x.faces(Sign::Input, d as int, p as int)[i] as int],
        d > 0 ==> forall|i: int| 0 <= i < x.faces(Sign::Output, d as int, p as int).len() ==> #[trigger] sv1[d - 1][x.faces(Sign::Output, d as int, p as int)[i] as int],
        d + 1 < x.levels() ==> forall|i: int| 0 <= i < x.cofaces(Sign::Input, d as int, p as int).len() ==> #[trigger] sv[d + 1][x.cofaces(Sign::Input, d as int, p as int)[i] as int],
        d + 1 < x.levels() ==> forall|i: int| 0 <= i < x.cofaces(Sign::Output, d as int, p as int).len() ==> #[trigger] sv[d + 1][x.cofaces(Sign::Output, d as int, p as int)[i] as int],
    ensures
        forall|be: int, bq: int| #[trigger] adjacent(x, (d as int, p as int), (be, bq)) ==> sv[be][bq],
{
    let c: CellRef = (d as int, p as int);
    assert forall|be: int, bq: int| #[trigger] adjacent(x, (d as int, p as int), (be, bq)) implies sv[be][bq] by {
        let b: CellRef = (be, bq);
        assert(x.cell(be, bq));
        assert(x.basis@.len() == x.basis.len());
        assert(x.basis@[be]@.len() == x.basis@[be].len());
        assert(bq as usize as int == bq);
        if covers(x, c, b) {
            let fs_in = x.faces(Sign::Input, d as int, p as int);
            let fs_out = x.faces(Sign::Output, d as int, p as int);
            if fs_in.contains(bq as usize) {
                let i = choose|i: int| 0 <= i < fs_in.len() && fs_in[i] == bq as usize;
                assert(sv1[d - 1][fs_in[i] as int]);
            } else {
                let i = choose|i: int| 0 <= i < fs_out.len() && fs_out[i] == bq as usize;
                assert(sv1[d - 1][fs_out[i] as int]);
            }
            assert(sv1[be][bq]);
        } else {
            assert(covers(x, b, c));
            let g = bq as usize;
            assert(g as int == bq);
            assert(be == d + 1);
            assert(g < crate::poset::rows(x.faces_in, d + 1));
            assert(d < x.cofaces_in@.len() && p < x.cofaces_in@[d as int]@.len());
            assert(d < x.cofaces_out@.len() && p < x.cofaces_out@[d as int]@.len());
            if x.faces(Sign::Input, be, bq).contains(p) {
                assert(entry(x.faces_in, d + 1, g as int).contains(p));
                assert(entry(x.cofaces_in, d as int, p as int).contains(g));
                let cs = x.cofaces(Sign::Input, d as int, p as int);
                let i = choose|i: int| 0 <= i < cs.len() && cs[i] == g;
                assert(sv[d + 1][cs[i] as int]);
            } else {
                assert(entry(x.faces_out, d + 1, g as int).contains(p));
                assert(entry(x.cofaces_out, d as int, p as int).contains(g));
                let cs = x.cofaces(Sign::Output, d as int, p as int);
                let i = choose|i: int| 0 <= i < cs.len() && cs[i] == g;
                assert(sv[d + 1][cs[i] as int]);
            }
        }
    }
}

} // verus!

//! Small sorted integer sets.

use vstd::prelude::*;

verus! {

/// A sorted, deduplicated vector of `usize`s.
pub type IntSet = Vec<usize>;

/// The second set contains no direction absent from the first set.
#[derive(Debug, Clone, Copy, PartialEq, Eq, Structural)]
pub struct CoverDirectionError;

/// Every element is strictly smaller than every later element.
pub open spec fn strictly_sorted(s: Seq<usize>) -> bool {
    forall|i: int, j: int| 0 <= i < j < s.len() ==> s[i] < s[j]
}

/// Every element of `small` occurs in `big`.
pub open spec fn seq_subset(small: Seq<usize>, big: Seq<usize>) -> bool {
    forall|v: usize| small.contains(v) ==> big.contains(v)
}

/// The two sequences share no element.
pub open spec fn seq_disjoint(a: Seq<usize>, b: Seq<usize>) -> bool {
    forall|v: usize| !(a.contains(v) && b.contains(v))
}

/// Same elements, regardless of order and multiplicity.
pub open spec fn same_elements(a: Seq<usize>, b: Seq<usize>) -> bool {
    forall|v: usize| a.contains(v) <==> b.contains(v)
}

/// The position of the first element of `second` that does not occur in `first`.
pub open spec fn first_new_index(first: Seq<usize>, second: Seq<usize>, k: int) -> bool {
    &&& 0 <= k < second.len()
    &&& !first.contains(second[k])
    &&& forall|i: int| 0 <= i < k ==> first.contains(#[trigger] second[i])
}

/// In a strictly sorted sequence, adjacent order gives global order.
proof fn lemma_adjacent_sorted(s: Seq<usize>)
    requires
        forall|i: int| 0 <= i < s.len() - 1 ==> #[trigger] s[i] < s[i + 1],
    ensures
        strictly_sorted(s),
    decreases s.len(),
{
    if s.len() > 1 {
        let t = s.drop_last();
        assert forall|i: int| 0 <= i < t.len() - 1 implies #[trigger] t[i] < t[i + 1] by {
            assert(t[i] == s[i] && t[i + 1] == s[i + 1]);
        }
        lemma_adjacent_sorted(t);
        assert forall|i: int, j: int| 0 <= i < j < s.len() implies s[i] < s[j] by {
            if j < s.len() - 1 {
                assert(t[i] == s[i] && t[j] == s[j]);
            } else if i < j - 1 {
                assert(t[i] == s[i] && t[j - 1] == s[j - 1]);
                assert(s[j - 1] < s[j]);
            }
        }
    }
}

/// Linear membership test, for slices not known to be sorted.
pub(crate) fn contains(xs: &[usize], x: usize) -> (r: bool)
    ensures
        r == xs@.contains(x),
{
    let n = xs.len();
    for i in 0..n
        invariant
            n == xs@.len(),
            forall|k: int| 0 <= k < i ==> xs@[k] != x,
    {
        if xs[i] == x {
            proof {
                assert(xs@[i as int] == x);
            }
            return true;
        }
    }
    false
}

/// Locate `x` in a strictly sorted slice: the index where it occurs, or the
/// index where it would be inserted.
pub(crate) fn search(xs: &[usize], x: usize) -> (res: (bool, usize))
    requires
        strictly_sorted(xs@),
    ensures
        res.1 <= xs@.len(),
        res.0 ==> res.1 < xs@.len() && xs@[res.1 as int] == x,
        res.0 <==> xs@.contains(x),
        forall|i: int| 0 <= i < res.1 ==> xs@[i] < x,
        forall|i: int| res.1 <= i < xs@.len() ==> xs@[i] >= x,
{
    let mut lo: usize = 0;
    let mut hi: usize = xs.len();
    while lo < hi
        invariant
            lo <= hi <= xs@.len(),
            strictly_sorted(xs@),
            forall|i: int| 0 <= i < lo ==> xs@[i] < x,
            forall|i: int| hi <= i < xs@.len() ==> xs@[i] >= x,
        decreases hi - lo,
    {
        let mid = lo + (hi - lo) / 2;
        if xs[mid] < x {
            lo = mid + 1;
        } else {
            hi = mid;
        }
    }
    if lo < xs.len() && xs[lo] == x {
        (true, lo)
    } else {
        proof {
            assert forall|i: int| 0 <= i < xs@.len() implies xs@[i] != x by {
                if i >= lo {
                    if i > lo {
                        assert(xs@[lo as int] < xs@[i]);
                    }
                }
            }
        }
        (false, lo)
    }
}

/// Return true exactly when `xs` is sorted and contains no duplicates.
pub fn is_sorted_unique(xs: &[usize]) -> (r: bool)
    ensures
        r == strictly_sorted(xs@),
{
    let n = xs.len();
    let mut i: usize = 1;
    while i < n
        invariant
            1 <= i || n == 0,
            n == xs@.len(),
            forall|k: int| 0 <= k < i - 1 && k < n - 1 ==> #[trigger] xs@[k] < xs@[k + 1],
        decreases n - i,
    {
        if xs[i - 1] >= xs[i] {
            return false;
        }
        i = i + 1;
    }
    proof {
        lemma_adjacent_sorted(xs@);
    }
    true
}

/// Insert `x`, preserving sorted deduplicated order.
pub fn insert(xs: &mut IntSet, x: usize)
    requires
        strictly_sorted(old(xs)@),
    ensures
        strictly_sorted(final(xs)@),
        forall|v: usize| final(xs)@.contains(v) <==> (old(xs)@.contains(v) || v == x),
        old(xs)@.contains(x) ==> final(xs)@ == old(xs)@,
{
    let (found, i) = search(xs.as_slice(), x);
    if !found {
        xs.insert(i, x);
        proof {
            let o = old(xs)@;
            let f = xs@;
            assert(f == o.insert(i as int, x));
            assert forall|v: usize| f.contains(v) <==> (o.contains(v) || v == x) by {
                if f.contains(v) {
                    let k = choose|k: int| 0 <= k < f.len() && f[k] == v;
                    if k < i {
                        assert(o[k] == v);
                    } else if k > i {
                        assert(o[k - 1] == v);
                    }
                }
                if o.contains(v) {
                    let k = choose|k: int| 0 <= k < o.len() && o[k] == v;
                    if k < i {
                        assert(f[k] == v);
                    } else {
                        assert(f[k + 1] == v);
                    }
                }
                if v == x {
                    assert(f[i as int] == x);
                }
            }
            assert forall|a: int, b: int| 0 <= a < b < f.len() implies f[a] < f[b] by {
                if b < i {
                } else if a < i && b == i {
                } else if a < i && b > i {
                    assert(f[b] == o[b - 1]);
                    assert(o[b - 1] > x);
                } else if a == i {
                    assert(f[b] == o[b - 1]);
                } else {
                    assert(f[a] == o[a - 1] && f[b] == o[b - 1]);
                }
            }
        }
    }
}

/// Collect a vector into a sorted, deduplicated set.
pub fn collect_sorted(items: Vec<usize>) -> (r: IntSet)
    ensures
        strictly_sorted(r@),
        same_elements(r@, items@),
{
    let mut out: Vec<usize> = Vec::new();
    let n = items.len();
    for k in 0..n
        invariant
            n == items@.len(),
            strictly_sorted(out@),
            forall|v: usize| out@.contains(v) <==> items@.take(k as int).contains(v),
    {
        insert(&mut out, items[k]);
        proof {
            let t = items@.take(k as int);
            let t2 = items@.take(k + 1);
            assert(t2 == t.push(items@[k as int]));
            assert forall|v: usize| t2.contains(v) <==> (t.contains(v) || v == items@[k as int]) by {
                if t2.contains(v) {
                    let j = choose|j: int| 0 <= j < t2.len() && t2[j] == v;
                    if j < k {
                        assert(t[j] == v);
                    }
                }
                if t.contains(v) {
                    let j = choose|j: int| 0 <= j < t.len() && t[j] == v;
                    assert(t2[j] == v);
                }
                if v == items@[k as int] {
                    assert(t2[k as int] == v);
                }
            }
        }
    }
    proof {
        assert(items@.take(n as int) == items@);
    }
    out
}

/// Union of two sorted sets.
pub fn union(a: &IntSet, b: &IntSet) -> (out: IntSet)
    requires
        strictly_sorted(a@),
        strictly_sorted(b@),
    ensures
        strictly_sorted(out@),
        forall|v: usize| out@.contains(v) <==> (a@.contains(v) || b@.contains(v)),
{
    let mut out: Vec<usize> = Vec::new();
    let mut i: usize = 0;
    let mut j: usize = 0;
    while i < a.len() || j < b.len()
        invariant
            i <= a@.len(),
            j <= b@.len(),
            strictly_sorted(a@),
            strictly_sorted(b@),
            strictly_sorted(out@),
            forall|v: usize| out@.contains(v) <==> (a@.take(i as int).contains(v) || b@.take(j as int).contains(v)),
            out@.len() > 0 ==> (i < a@.len() ==> out@.last() < a@[i as int]),
            out@.len() > 0 ==> (j < b@.len() ==> out@.last() < b@[j as int]),
        decreases a@.len() - i + b@.len() - j,
    {
        let ghost oo = out@;
        let ghost oi = i as int;
        let ghost oj = j as int;
        let take_a = j >= b.len() || (i < a.len() && a[i] <= b[j]);
        let take_b = i >= a.len() || (j < b.len() && b[j] <= a[i]);
        let v = if take_a { a[i] } else { b[j] };
        out.push(v);
        if take_a {
            i = i + 1;
        }
        if take_b {
            j = j + 1;
        }
        proof {
            assert(out@ == oo.push(v));
            assert forall|x: int, y: int| 0 <= x < y < out@.len() implies out@[x] < out@[y] by {
                if y == oo.len() && x < y {
                    assert(oo[x] <= oo.last());
                }
            }
            assert forall|w: usize| out@.contains(w) <==> (a@.take(i as int).contains(w) || b@.take(j as int).contains(w)) by {
                let ta = a@.take(oi);
                let tb = b@.take(oj);
                let na = a@.take(i as int);
                let nb = b@.take(j as int);
                if out@.contains(w) {
                    let k = choose|k: int| 0 <= k < out@.len() && out@[k] == w;
                    if k < oo.len() {
                        assert(oo[k] == w);
                        assert(oo.contains(w));
                        if ta.contains(w) {
                            let m = choose|m: int| 0 <= m < ta.len() && ta[m] == w;
                            assert(na[m] == w);
                        } else {
                            let m = choose|m: int| 0 <= m < tb.len() && tb[m] == w;
                            assert(nb[m] == w);
                        }
                    } else if take_a {
                        assert(na[oi] == w);
                    } else {
                        assert(nb[oj] == w);
                    }
                }
                if na.contains(w) {
                    let m = choose|m: int| 0 <= m < na.len() && na[m] == w;
                    if m < oi {
                        assert(ta[m] == w);
                        assert(oo.contains(w));
                        let k = choose|k: int| 0 <= k < oo.len() && oo[k] == w;
                        assert(out@[k] == w);
                    } else {
                        assert(out@[oo.len() as int] == w);
                    }
                }
                if nb.contains(w) {
                    let m = choose|m: int| 0 <= m < nb.len() && nb[m] == w;
                    if m < oj {
                        assert(tb[m] == w);
                        assert(oo.contains(w));
                        let k = choose|k: int| 0 <= k < oo.len() && oo[k] == w;
                        assert(out@[k] == w);
                    } else {
                        assert(out@[oo.len() as int] == w);
                    }
                }
            }
        }
    }
    proof {
        assert(a@.take(i as int) == a@);
        assert(b@.take(j as int) == b@);
    }
    out
}

/// Return true when two sorted sets have no element in common.
pub fn is_disjoint(a: &[usize], b: &[usize]) -> (r: bool)
    requires
        strictly_sorted(a@),
        strictly_sorted(b@),
    ensures
        r == seq_disjoint(a@, b@),
{
    let mut i: usize = 0;
    let mut j: usize = 0;
    while i < a.len() && j < b.len()
        invariant
            i <= a@.len(),
            j <= b@.len(),
            strictly_sorted(a@),
            strictly_sorted(b@),
            forall|x: int, y: int| 0 <= x < a@.len() && 0 <= y < b@.len() && (x < i || y < j) ==> a@[x] != b@[y],
        decreases a@.len() - i + b@.len() - j,
    {
        if a[i] < b[j] {
            proof {
                assert forall|x: int, y: int| 0 <= x < a@.len() && 0 <= y < b@.len() && (x < i + 1 || y < j) implies a@[x] != b@[y] by {
                    if x == i && y >= j {
                        if y > j {
                            assert(b@[j as int] < b@[y]);
                        }
                    }
                }
            }
            i = i + 1;
        } else if a[i] > b[j] {
            proof {
                assert forall|x: int, y: int| 0 <= x < a@.len() && 0 <= y < b@.len() && (x < i || y < j + 1) implies a@[x] != b@[y] by {
                    if y == j && x >= i {
                        if x > i {
                            assert(a@[i as int] < a@[x]);
                        }
                    }
                }
            }
            j = j + 1;
        } else {
            proof {
                assert(a@.contains(a@[i as int]));
                assert(b@.contains(b@[j as int]));
            }
            return false;
        }
    }
    proof {
        assert forall|v: usize| !(a@.contains(v) && b@.contains(v)) by {
            if a@.contains(v) && b@.contains(v) {
                let x = choose|x: int| 0 <= x < a@.len() && a@[x] == v;
                let y = choose|y: int| 0 <= y < b@.len() && b@[y] == v;
            }
        }
    }
    true
}

/// Return true if every element of `small` lies in `big`.
pub fn is_subset(small: &[usize], big: &[usize]) -> (r: bool)
    requires
        strictly_sorted(small@),
        strictly_sorted(big@),
    ensures
        r == seq_subset(small@, big@),
{
    let mut i: usize = 0;
    let mut j: usize = 0;
    while i < small.len() && j < big.len()
        invariant
            i <= small@.len(),
            j <= big@.len(),
            strictly_sorted(small@),
            strictly_sorted(big@),
            forall|x: int| 0 <= x < i ==> big@.contains(#[trigger] small@[x]),
            forall|y: int| 0 <= y < j ==> i < small@.len() ==> big@[y] < small@[i as int],
        decreases small@.len() - i + big@.len() - j,
    {
        if small[i] == big[j] {
            proof {
                assert(big@.contains(big@[j as int]));
                assert forall|y: int| 0 <= y < j + 1 implies (i + 1 < small@.len() ==> big@[y] < small@[i + 1]) by {
                    if i + 1 < small@.len() {
                        assert(small@[i as int] < small@[i + 1]);
                        if y < j {
                            assert(big@[y] < big@[j as int]);
                        }
                    }
                }
            }
            i = i + 1;
            j = j + 1;
        } else if small[i] > big[j] {
            j = j + 1;
        } else {
            proof {
                assert forall|y: int| 0 <= y < big@.len() implies big@[y] != small@[i as int] by {
                    if y > j {
                        assert(big@[j as int] < big@[y]);
                    }
                }
                assert(small@.contains(small@[i as int]));
            }
            return false;
        }
    }
    if i == small.len() {
        proof {
            assert forall|v: usize| small@.contains(v) implies big@.contains(v) by {
                let x = choose|x: int| 0 <= x < small@.len() && small@[x] == v;
                assert(big@.contains(small@[x]));
            }
        }
        true
    } else {
        proof {
            assert forall|y: int| 0 <= y < big@.len() implies big@[y] != small@[i as int] by {}
            assert(small@.contains(small@[i as int]));
        }
        false
    }
}

/// Return the first element of `second` that is not in `first`.
///
/// Both sets must be sorted and deduplicated.
pub fn cover_direction(first: &[usize], second: &[usize]) -> (r: Result<usize, CoverDirectionError>)
    requires
        strictly_sorted(first@),
        strictly_sorted(second@),
    ensures
        match r {
            Ok(c) => exists|k: int| first_new_index(first@, second@, k) && second@[k] == c,
            Err(_) => seq_subset(second@, first@),
        },
{
    let mut i: usize = 0;
    let n = second.len();
    for k in 0..n
        invariant
            n == second@.len(),
            i <= first@.len(),
            strictly_sorted(first@),
            strictly_sorted(second@),
            forall|x: int| 0 <= x < k ==> first@.contains(#[trigger] second@[x]),
            forall|y: int| 0 <= y < i ==> k < n ==> first@[y] < second@[k as int],
    {
        let candidate = second[k];
        while i < first.len() && first[i] < candidate
            invariant
                i <= first@.len(),
                k < n,
                n == second@.len(),
                candidate == second@[k as int],
                strictly_sorted(first@),
                forall|y: int| 0 <= y < i ==> first@[y] < candidate,
            decreases first@.len() - i,
        {
            i = i + 1;
        }
        if i == first.len() || first[i] != candidate {
            proof {
                assert forall|y: int| 0 <= y < first@.len() implies first@[y] != candidate by {
                    if y > i {
                        assert(first@[i as int] < first@[y]);
                    }
                }
                assert(first_new_index(first@, second@, k as int));
            }
            return Ok(candidate);
        }
        proof {
            assert(first@.contains(first@[i as int]));
            assert forall|y: int| 0 <= y < i + 1 implies (k + 1 < n ==> first@[y] < second@[k + 1]) by {
                if k + 1 < n {
                    assert(second@[k as int] < second@[k + 1]);
                }
            }
        }
        i = i + 1;
    }
    proof {
        assert forall|v: usize| second@.contains(v) implies first@.contains(v) by {
            let x = choose|x: int| 0 <= x < second@.len() && second@[x] == v;
            assert(first@.contains(second@[x]));
        }
    }
    Err(CoverDirectionError)
}

/// Two strictly sorted sequences with the same elements are equal.
pub proof fn lemma_sorted_same_elements(a: Seq<usize>, b: Seq<usize>)
    requires
        strictly_sorted(a),
        strictly_sorted(b),
        same_elements(a, b),
    ensures
        a == b,
    decreases a.len() + b.len(),
{
    if a.len() == 0 {
        if b.len() > 0 {
            assert(b.contains(b[0]));
        }
        assert(a =~= b);
    } else if b.len() == 0 {
        assert(a.contains(a[0]));
    } else {
        assert(a.contains(a[0]));
        assert(b.contains(b[0]));
        let i = choose|i: int| 0 <= i < b.len() && b[i] == a[0];
        let j = choose|j: int| 0 <= j < a.len() && a[j] == b[0];
        if i > 0 {
            assert(b[0] < b[i]);
            if j > 0 {
                assert(a[0] < a[j]);
            }
        }
        assert(a[0] == b[0]);
        let a1 = a.drop_first();
        let b1 = b.drop_first();
        assert forall|v: usize| a1.contains(v) <==> b1.contains(v) by {
            if a1.contains(v) {
                let k = choose|k: int| 0 <= k < a1.len() && a1[k] == v;
                assert(a[k + 1] == v);
                assert(a[0] < a[k + 1]);
                assert(b.contains(v));
                let m = choose|m: int| 0 <= m < b.len() && b[m] == v;
                assert(m != 0);
                assert(b1[m - 1] == v);
            }
            if b1.contains(v) {
                let k = choose|k: int| 0 <= k < b1.len() && b1[k] == v;
                assert(b[k + 1] == v);
                assert(b[0] < b[k + 1]);
                assert(a.contains(v));
                let m = choose|m: int| 0 <= m < a.len() && a[m] == v;
                assert(m != 0);
                assert(a1[m - 1] == v);
            }
        }
        lemma_sorted_same_elements(a1, b1);
        assert(a =~= b) by {
            assert forall|k: int| 0 <= k < a.len() implies a[k] == b[k] by {
                if k > 0 {
                    assert(a1[k - 1] == b1[k - 1]);
                }
            }
        }
    }
}

/// A strictly sorted sequence has as many distinct elements as entries.
pub proof fn lemma_sorted_set_len(s: Seq<usize>)
    requires
        strictly_sorted(s),
    ensures
        s.to_set().finite(),
        s.to_set().len() == s.len(),
{
    assert(s.no_duplicates()) by {
        assert forall|i: int, j: int| 0 <= i < s.len() && 0 <= j < s.len() && i != j implies s[i] != s[j] by {
            if i < j {
                assert(s[i] < s[j]);
            } else {
                assert(s[j] < s[i]);
            }
        }
    }
    s.unique_seq_to_set();
    vstd::seq_lib::seq_to_set_is_finite(s);
}

/// If `a` lies inside `b` and has one element fewer, at most one element of
/// `b` lies outside `a`.
pub proof fn lemma_single_new(a: Seq<usize>, b: Seq<usize>, v: usize, w: usize)
    requires
        strictly_sorted(a),
        strictly_sorted(b),
        seq_subset(a, b),
        a.len() + 1 == b.len(),
        b.contains(v),
        b.contains(w),
        !a.contains(v),
        !a.contains(w),
    ensures
        v == w,
{
    lemma_sorted_set_len(a);
    lemma_sorted_set_len(b);
    if v != w {
        let rest = b.to_set().remove(v).remove(w);
        assert(a.to_set().subset_of(rest));
        vstd::set_lib::lemma_len_subset(a.to_set(), rest);
    }
}

/// When `a` has fewer elements than `b`, some element of `b` lies outside `a`,
/// and there is a first one.
pub proof fn lemma_some_new(a: Seq<usize>, b: Seq<usize>)
    requires
        strictly_sorted(a),
        strictly_sorted(b),
        a.len() < b.len(),
    ensures
        exists|k: int| first_new_index(a, b, k),
{
    lemma_sorted_set_len(a);
    lemma_sorted_set_len(b);
    if forall|k: int| 0 <= k < b.len() ==> a.contains(#[trigger] b[k]) {
        assert(b.to_set().subset_of(a.to_set()));
        vstd::set_lib::lemma_len_subset(b.to_set(), a.to_set());
    } else {
        let k0 = choose|k: int| 0 <= k < b.len() && !a.contains(#[trigger] b[k]);
        lemma_first_new_below(a, b, k0);
    }
}

/// If some element of `b` lies outside `a`, there is a first one.
pub proof fn lemma_first_new_below(a: Seq<usize>, b: Seq<usize>, k0: int)
    requires
        0 <= k0 < b.len(),
        !a.contains(b[k0]),
    ensures
        exists|k: int| first_new_index(a, b, k),
    decreases k0,
{
    if forall|i: int| 0 <= i < k0 ==> a.contains(#[trigger] b[i]) {
        assert(first_new_index(a, b, k0));
    } else {
        let i = choose|i: int| 0 <= i < k0 && !a.contains(#[trigger] b[i]);
        lemma_first_new_below(a, b, i);
    }
}

/// Two sorted sequences whose elements correspond through an injective map
/// have the same length.
pub proof fn lemma_image_len(b: Seq<usize>, t: Seq<usize>, f: spec_fn(usize) -> usize)
    requires
        strictly_sorted(b),
        strictly_sorted(t),
        forall|x: usize| t.contains(x) <==> exists|v: usize| b.contains(v) && f(v) == x,
        forall|v: usize, w: usize| b.contains(v) && b.contains(w) && f(v) == f(w) ==> v == w,
    ensures
        t.len() == b.len(),
{
    lemma_sorted_set_len(b);
    lemma_sorted_set_len(t);
    let bs = b.to_set();
    assert(bs.map(f) =~= t.to_set()) by {
        assert forall|x: usize| bs.map(f).contains(x) implies t.to_set().contains(x) by {
            let v = choose|v: usize| bs.contains(v) && f(v) == x;
            assert(b.contains(v));
        }
        assert forall|x: usize| t.to_set().contains(x) implies bs.map(f).contains(x) by {
            assert(t.contains(x));
            let v = choose|v: usize| b.contains(v) && f(v) == x;
            assert(bs.contains(v));
        }
    }
    assert(vstd::relations::injective_on(f, bs)) by {
        assert forall|v: usize, w: usize| bs.contains(v) && bs.contains(w) && #[trigger] f(v) == #[trigger] f(w) implies v == w by {
            assert(b.contains(v) && b.contains(w));
        }
    }
    vstd::set_lib::lemma_map_size(bs, t.to_set(), f);
}

/// A sorted sequence holding exactly the elements of two disjoint sorted
/// sequences is as long as both together.
pub proof fn lemma_union_len(a: Seq<usize>, b: Seq<usize>, t: Seq<usize>)
    requires
        strictly_sorted(a),
        strictly_sorted(b),
        strictly_sorted(t),
        seq_disjoint(a, b),
        forall|v: usize| #[trigger] t.contains(v) <==> a.contains(v) || b.contains(v),
    ensures
        t.len() == a.len() + b.len(),
{
    lemma_sorted_set_len(a);
    lemma_sorted_set_len(b);
    lemma_sorted_set_len(t);
    assert(t.to_set() =~= a.to_set() + b.to_set());
    assert(a.to_set().disjoint(b.to_set())) by {
        assert forall|v: usize| !(a.to_set().contains(v) && b.to_set().contains(v)) by {
            assert(!(a.contains(v) && b.contains(v)));
        }
    }
    vstd::set_lib::lemma_set_disjoint_lens(a.to_set(), b.to_set());
}

} // verus!

//! Ordered sets of names, kept as strictly sorted vectors, and the quorum
//! rule over them.

use vstd::prelude::*;
use crate::name::{Name, Prefix};

verus! {

/// Strictly increasing by the underlying 64-bit value: sorted and free of
/// duplicates.
pub open spec fn sorted_names(s: Seq<Name>) -> bool {
    forall|i: int, j: int| 0 <= i < j < s.len() ==> s[i].0 < s[j].0
}

/// `voters` form a quorum of `members`: a strict majority of `members`
/// appears among `voters`.
pub open spec fn is_quorum_spec(voters: Seq<Name>, members: Seq<Name>) -> bool {
    voters.filter(|y: Name| members.contains(y)).len() * 2 > members.len()
}

/// Every element of a filtered sequence comes from the original.
pub proof fn lemma_filter_subset<A>(s: Seq<A>, pred: spec_fn(A) -> bool)
    ensures
        forall|x: A| #[trigger] s.filter(pred).contains(x) ==> s.contains(x),
    decreases s.len(),
{
    reveal(Seq::filter);
    if s.len() > 0 {
        lemma_filter_subset(s.drop_last(), pred);
        assert forall|x: A| #[trigger] s.filter(pred).contains(x) implies s.contains(x) by {
            if s.drop_last().filter(pred).contains(x) {
                assert(s.drop_last().contains(x));
                let i = choose|i: int| 0 <= i < s.drop_last().len() && s.drop_last()[i] == x;
                assert(s[i] == x);
            } else {
                assert(x == s.last());
                assert(s[s.len() - 1] == x);
            }
        }
    }
}

/// Filtering preserves strict sortedness.
pub proof fn lemma_sorted_filter(s: Seq<Name>, pred: spec_fn(Name) -> bool)
    requires
        sorted_names(s),
    ensures
        sorted_names(s.filter(pred)),
    decreases s.len(),
{
    reveal(Seq::filter);
    if s.len() > 0 {
        assert(sorted_names(s.drop_last()));
        lemma_sorted_filter(s.drop_last(), pred);
        lemma_filter_subset(s.drop_last(), pred);
        let sub = s.drop_last().filter(pred);
        if pred(s.last()) {
            assert forall|i: int, j: int|
                0 <= i < j < sub.push(s.last()).len() implies sub.push(s.last())[i].0 < sub.push(
                s.last(),
            )[j].0 by {
                if j < sub.len() {
                } else {
                    assert(sub.contains(sub[i]));
                    assert(s.drop_last().contains(sub[i]));
                    let m = choose|m: int|
                        0 <= m < s.drop_last().len() && s.drop_last()[m] == sub[i];
                    assert(s[m].0 < s[s.len() - 1].0);
                }
            }
        }
    }
}

/// Filters that agree on every element of a sequence produce the same
/// filtered sequence.
pub proof fn lemma_filter_ptwise<A>(s: Seq<A>, p1: spec_fn(A) -> bool, p2: spec_fn(A) -> bool)
    requires
        forall|x: A| s.contains(x) ==> p1(x) == p2(x),
    ensures
        s.filter(p1) == s.filter(p2),
    decreases s.len(),
{
    reveal(Seq::filter);
    if s.len() > 0 {
        assert forall|x: A| s.drop_last().contains(x) implies p1(x) == p2(x) by {
            let i = choose|i: int| 0 <= i < s.drop_last().len() && s.drop_last()[i] == x;
            assert(s[i] == x);
            assert(s.contains(x));
        }
        lemma_filter_ptwise(s.drop_last(), p1, p2);
        assert(s.contains(s.last()));
    }
}

/// Among strictly sorted name lists, a subset is no longer than its
/// superset.
pub proof fn lemma_sorted_subset_len(a: Seq<Name>, b: Seq<Name>)
    requires
        sorted_names(a),
        sorted_names(b),
        forall|y: Name| a.contains(y) ==> b.contains(y),
    ensures
        a.len() <= b.len(),
    decreases b.len(),
{
    if a.len() > 0 {
        assert(a.contains(a[0]));
        assert(b.contains(a[0]));
        assert(b.len() > 0);
        let tb = b.drop_first();
        assert(sorted_names(tb)) by {
            assert forall|m: int, n: int| 0 <= m < n < tb.len() implies tb[m].0 < tb[n].0 by {
                assert(tb[m] == b[m + 1]);
                assert(tb[n] == b[n + 1]);
            }
        }
        if a[0] == b[0] {
            let ta = a.drop_first();
            assert(sorted_names(ta)) by {
                assert forall|m: int, n: int|
                    0 <= m < n < ta.len() implies ta[m].0 < ta[n].0 by {
                    assert(ta[m] == a[m + 1]);
                    assert(ta[n] == a[n + 1]);
                }
            }
            assert forall|y: Name| ta.contains(y) implies tb.contains(y) by {
                let m = choose|m: int| 0 <= m < ta.len() && ta[m] == y;
                assert(a[m + 1] == y);
                assert(a.contains(y));
                assert(y.0 > a[0].0);
                assert(b.contains(y));
                let n = choose|n: int| 0 <= n < b.len() && b[n] == y;
                assert(n > 0) by {
                    if n == 0 {
                        assert(y == b[0]);
                    }
                }
                assert(tb[n - 1] == y);
            }
            lemma_sorted_subset_len(ta, tb);
        } else {
            // Every element of `a` sits strictly above `b`'s head.
            let j = choose|j: int| 0 <= j < b.len() && b[j] == a[0];
            assert(j > 0) by {
                if j == 0 {
                    assert(a[0] == b[0]);
                }
            }
            assert(a[0].0 > b[0].0);
            assert forall|y: Name| a.contains(y) implies tb.contains(y) by {
                let m = choose|m: int| 0 <= m < a.len() && a[m] == y;
                assert(y.0 >= a[0].0);
                assert(b.contains(y));
                let n = choose|n: int| 0 <= n < b.len() && b[n] == y;
                assert(n > 0) by {
                    if n == 0 {
                        assert(y == b[0]);
                        assert(y.0 > b[0].0);
                    }
                }
                assert(tb[n - 1] == y);
            }
            lemma_sorted_subset_len(a, tb);
        }
    }
}

/// Voters only ever grow, and growth never breaks an agreement: a voter
/// list that was a quorum of some members stays one when more voters are
/// recorded.
pub proof fn lemma_quorum_monotone(v1: Seq<Name>, v2: Seq<Name>, members: Seq<Name>)
    requires
        sorted_names(v1),
        sorted_names(v2),
        forall|y: Name| v1.contains(y) ==> v2.contains(y),
        is_quorum_spec(v1, members),
    ensures
        is_quorum_spec(v2, members),
{
    let p = |y: Name| members.contains(y);
    lemma_sorted_filter(v1, p);
    lemma_sorted_filter(v2, p);
    lemma_filter_subset(v1, p);
    lemma_filter_subset(v2, p);
    assert forall|y: Name| v1.filter(p).contains(y) implies v2.filter(p).contains(y) by {
        let k = choose|k: int| 0 <= k < v1.filter(p).len() && v1.filter(p)[k] == y;
        Seq::lemma_filter_pred(v1, p, k);
        assert(v1.contains(y));
        assert(v2.contains(y));
        let m = choose|m: int| 0 <= m < v2.len() && v2[m] == y;
        Seq::lemma_filter_contains(v2, p, m);
    }
    lemma_sorted_subset_len(v1.filter(p), v2.filter(p));
}

/// An element-for-element copy of a name list.
pub fn copy_names(v: &Vec<Name>) -> (r: Vec<Name>)
    ensures
        r@ == v@,
{
    let mut out: Vec<Name> = Vec::new();
    let mut i: usize = 0;
    while i < v.len()
        invariant
            i <= v.len(),
            out@ == v@.take(i as int),
        decreases v.len() - i,
    {
        let e = v[i];
        out.push(e);
        assert(out@ == v@.take(i + 1 as int));
        i = i + 1;
    }
    proof {
        assert(v@.take(v@.len() as int) =~= v@);
    }
    out
}

/// Sorted, duplicate-free name lists with the same membership are equal.
pub proof fn lemma_sorted_contains_eq(a: Seq<Name>, b: Seq<Name>)
    requires
        sorted_names(a),
        sorted_names(b),
        forall|y: Name| a.contains(y) <==> b.contains(y),
    ensures
        a == b,
    decreases a.len(),
{
    if a.len() == 0 {
        if b.len() > 0 {
            assert(b.contains(b[0]));
            assert(a.contains(b[0]));
        }
        assert(a =~= b);
    } else {
        assert(a.contains(a[0]));
        assert(b.contains(a[0]));
        let j = choose|j: int| 0 <= j < b.len() && b[j] == a[0];
        assert(a[0] == b[0]) by {
            if j > 0 {
                assert(b[0].0 < b[j].0);
                assert(b.contains(b[0]));
                assert(a.contains(b[0]));
                let k = choose|k: int| 0 <= k < a.len() && a[k] == b[0];
                if k > 0 {
                    assert(a[0].0 < a[k].0);
                }
                assert(false);
            }
        }
        let ta = a.drop_first();
        let tb = b.drop_first();
        assert(sorted_names(ta)) by {
            assert forall|m: int, n: int| 0 <= m < n < ta.len() implies ta[m].0 < ta[n].0 by {
                assert(ta[m] == a[m + 1]);
                assert(ta[n] == a[n + 1]);
            }
        }
        assert(sorted_names(tb)) by {
            assert forall|m: int, n: int| 0 <= m < n < tb.len() implies tb[m].0 < tb[n].0 by {
                assert(tb[m] == b[m + 1]);
                assert(tb[n] == b[n + 1]);
            }
        }
        assert forall|y: Name| ta.contains(y) <==> tb.contains(y) by {
            if ta.contains(y) {
                let m = choose|m: int| 0 <= m < ta.len() && ta[m] == y;
                assert(a[m + 1] == y);
                assert(a.contains(y));
                assert(y.0 > a[0].0);
                assert(b.contains(y));
                let n = choose|n: int| 0 <= n < b.len() && b[n] == y;
                assert(n > 0) by {
                    if n == 0 {
                        assert(y == b[0]);
                    }
                }
                assert(tb[n - 1] == y);
            }
            if tb.contains(y) {
                let m = choose|m: int| 0 <= m < tb.len() && tb[m] == y;
                assert(b[m + 1] == y);
                assert(b.contains(y));
                assert(y.0 > b[0].0);
                assert(a.contains(y));
                let n = choose|n: int| 0 <= n < a.len() && a[n] == y;
                assert(n > 0) by {
                    if n == 0 {
                        assert(y == a[0]);
                    }
                }
                assert(ta[n - 1] == y);
            }
        }
        lemma_sorted_contains_eq(ta, tb);
        assert(ta.len() == tb.len());
        assert(a.len() == b.len());
        assert forall|k: int| 0 <= k < a.len() implies a[k] == b[k] by {
            if k > 0 {
                assert(a[k] == ta[k - 1]);
                assert(b[k] == tb[k - 1]);
            }
        }
        assert(a =~= b);
    }
}

/// Returns `true` iff `x` occurs in `v`.
pub fn contains_name(v: &Vec<Name>, x: Name) -> (r: bool)
    ensures
        r == v@.contains(x),
{
    let mut i: usize = 0;
    while i < v.len()
        invariant
            i <= v.len(),
            forall|k: int| 0 <= k < i ==> v@[k] != x,
        decreases v.len() - i,
    {
        if v[i].0 == x.0 {
            assert(v@[i as int] == x);
            return true;
        }
        i = i + 1;
    }
    false
}

/// A copy of `v` with `x` inserted at its place in the order; `v` itself
/// when `x` is already there.
pub fn insert_name(v: &Vec<Name>, x: Name) -> (r: Vec<Name>)
    requires
        sorted_names(v@),
    ensures
        sorted_names(r@),
        forall|y: Name| r@.contains(y) <==> (v@.contains(y) || y == x),
        v@.contains(x) ==> r@ == v@,
        !v@.contains(x) ==> r@.len() == v@.len() + 1,
{
    let mut out: Vec<Name> = Vec::new();
    let mut i: usize = 0;
    while i < v.len() && v[i].0 < x.0
        invariant
            sorted_names(v@),
            i <= v.len(),
            out@ == v@.take(i as int),
            forall|k: int| 0 <= k < i ==> v@[k].0 < x.0,
        decreases v.len() - i,
    {
        let e = v[i];
        out.push(e);
        assert(out@ == v@.take(i + 1 as int));
        i = i + 1;
    }
    if i < v.len() && v[i].0 == x.0 {
        assert(v@[i as int] == x);
        assert(v@.contains(x));
        let mut out2 = out;
        let mut j: usize = i;
        while j < v.len()
            invariant
                j <= v.len(),
                i <= j,
                out2@ == v@.take(j as int),
            decreases v.len() - j,
        {
            let e = v[j];
            out2.push(e);
            assert(out2@ == v@.take(j + 1 as int));
            j = j + 1;
        }
        assert(out2@ == v@);
        return out2;
    }
    proof {
        if v@.contains(x) {
            let k = choose|k: int| 0 <= k < v@.len() && v@[k] == x;
            if k < i {
                assert(v@[k].0 < x.0);
            } else if k > i {
                assert(i < v@.len());
                assert(v@[i as int].0 < v@[k].0);
            }
            assert(false);
        }
    }
    let mut out2 = out;
    out2.push(x);
    let ghost mid = v@.take(i as int).push(x);
    assert(out2@ == mid);
    let mut j: usize = i;
    while j < v.len()
        invariant
            sorted_names(v@),
            i <= j <= v.len(),
            out2@ == mid + v@.subrange(i as int, j as int),
            mid == v@.take(i as int).push(x),
            forall|k: int| 0 <= k < i ==> v@[k].0 < x.0,
            i < v.len() ==> v@[i as int].0 > x.0,
        decreases v.len() - j,
    {
        let e = v[j];
        out2.push(e);
        assert(out2@ == mid + v@.subrange(i as int, j + 1 as int));
        j = j + 1;
    }
    proof {
        assert(out2@ == mid + v@.subrange(i as int, v@.len() as int));
        assert forall|m: int, n: int| 0 <= m < n < out2@.len() implies out2@[m].0 < out2@[n].0 by {
            assert(out2@.len() == v@.len() + 1);
        }
        assert forall|y: Name| out2@.contains(y) <==> (v@.contains(y) || y == x) by {
            if out2@.contains(y) {
                let k = choose|k: int| 0 <= k < out2@.len() && out2@[k] == y;
                if k < i {
                    assert(v@[k] == y);
                } else if k == i {
                    assert(y == x);
                } else {
                    assert(v@[k - 1] == y);
                }
            }
            if v@.contains(y) {
                let k = choose|k: int| 0 <= k < v@.len() && v@[k] == y;
                if k < i {
                    assert(out2@[k] == y);
                } else {
                    assert(out2@[k + 1] == y);
                }
            }
            if y == x {
                assert(out2@[i as int] == y);
            }
        }
    }
    out2
}

/// A copy of `v` without `x`.
pub fn remove_name(v: &Vec<Name>, x: Name) -> (r: Vec<Name>)
    requires
        sorted_names(v@),
    ensures
        sorted_names(r@),
        r@ == v@.filter(|y: Name| y != x),
        forall|y: Name| r@.contains(y) <==> (v@.contains(y) && y != x),
    decreases v.len(),
{
    let mut out: Vec<Name> = Vec::new();
    let mut i: usize = 0;
    proof {
        assert(v@.take(0) =~= Seq::<Name>::empty());
        reveal(Seq::filter);
    }
    while i < v.len()
        invariant
            sorted_names(v@),
            i <= v.len(),
            out@ == v@.take(i as int).filter(|y: Name| y != x),
        decreases v.len() - i,
    {
        let e = v[i];
        proof {
            assert(v@.take(i + 1 as int).drop_last() =~= v@.take(i as int));
            Seq::lemma_filter_push(v@.take(i as int), e, |y: Name| y != x);
            assert(v@.take(i + 1 as int) == v@.take(i as int).push(e));
        }
        if e.0 != x.0 {
            assert(e != x);
            out.push(e);
        } else {
            assert(e == x);
        }
        i = i + 1;
    }
    proof {
        assert(v@.take(v@.len() as int) =~= v@);
        lemma_sorted_filter(v@, |y: Name| y != x);
        lemma_filter_subset(v@, |y: Name| y != x);
        assert forall|y: Name| out@.contains(y) <==> (v@.contains(y) && y != x) by {
            if out@.contains(y) {
                let k = choose|k: int| 0 <= k < out@.len() && out@[k] == y;
                Seq::lemma_filter_pred(v@, |y: Name| y != x, k);
            }
            if v@.contains(y) && y != x {
                let k = choose|k: int| 0 <= k < v@.len() && v@[k] == y;
                Seq::lemma_filter_contains(v@, |y: Name| y != x, k);
            }
        }
    }
    out
}

/// Membership in a sequence extended by one element.
pub proof fn lemma_push_contains<A>(s: Seq<A>, e: A)
    ensures
        forall|y: A| #[trigger] s.push(e).contains(y) <==> (s.contains(y) || y == e),
{
    assert forall|y: A| #[trigger] s.push(e).contains(y) <==> (s.contains(y) || y == e) by {
        if s.push(e).contains(y) {
            let k = choose|k: int| 0 <= k < s.push(e).len() && s.push(e)[k] == y;
            if k < s.len() {
                assert(s[k] == y);
            }
        }
        if s.contains(y) {
            let k = choose|k: int| 0 <= k < s.len() && s[k] == y;
            assert(s.push(e)[k] == y);
        }
        if y == e {
            assert(s.push(e)[s.len() as int] == y);
        }
    }
}

/// Membership in one more element of a front segment.
pub proof fn lemma_take_contains<A>(s: Seq<A>, t: int)
    requires
        0 <= t < s.len(),
    ensures
        forall|y: A| #[trigger] s.take(t + 1).contains(y) <==> (s.take(t).contains(y) || y == s[t]),
{
    assert(s.take(t + 1) =~= s.take(t).push(s[t]));
    lemma_push_contains(s.take(t), s[t]);
}

/// The merge of two ordered name sets: contains a name iff one of the two
/// does.
pub fn union_names(a: &Vec<Name>, b: &Vec<Name>) -> (r: Vec<Name>)
    requires
        sorted_names(a@),
        sorted_names(b@),
    ensures
        sorted_names(r@),
        forall|y: Name| r@.contains(y) <==> (a@.contains(y) || b@.contains(y)),
        r@.len() <= a@.len() + b@.len(),
{
    let mut out: Vec<Name> = Vec::new();
    let mut i: usize = 0;
    let mut j: usize = 0;
    while i < a.len() || j < b.len()
        invariant
            sorted_names(a@),
            sorted_names(b@),
            i <= a.len(),
            j <= b.len(),
            sorted_names(out@),
            out@.len() <= i + j,
            forall|y: Name|
                out@.contains(y) <==> (a@.take(i as int).contains(y) || b@.take(
                    j as int,
                ).contains(y)),
            i < a.len() ==> (out@.len() == 0 || out@.last().0 < a@[i as int].0),
            j < b.len() ==> (out@.len() == 0 || out@.last().0 < b@[j as int].0),
        decreases a.len() + b.len() - i - j,
    {
        let take_a = if i >= a.len() {
            false
        } else if j >= b.len() {
            true
        } else {
            a[i].0 <= b[j].0
        };
        if take_a {
            let e = a[i];
            let also_b = j < b.len() && b[j].0 == e.0;
            let ghost pre = out@;
            out.push(e);
            proof {
                assert(out@ == pre.push(e));
                lemma_push_contains(pre, e);
                lemma_take_contains(a@, i as int);
                assert(a@[i as int] == e);
                if also_b {
                    lemma_take_contains(b@, j as int);
                    assert(b@[j as int] == e);
                }
            }
            i = i + 1;
            if also_b {
                j = j + 1;
            }
        } else {
            let e = b[j];
            let ghost pre = out@;
            out.push(e);
            proof {
                assert(out@ == pre.push(e));
                lemma_push_contains(pre, e);
                lemma_take_contains(b@, j as int);
                assert(b@[j as int] == e);
            }
            j = j + 1;
        }
    }
    proof {
        assert(a@.take(a@.len() as int) =~= a@);
        assert(b@.take(b@.len() as int) =~= b@);
    }
    out
}

/// The names of `v` that match the prefix `p`, in order.
pub fn names_matching(v: &Vec<Name>, p: &Prefix) -> (r: Vec<Name>)
    requires
        p.wf(),
    ensures
        r@ == v@.filter(|n: Name| p.spec_matches(n)),
        sorted_names(v@) ==> sorted_names(r@),
{
    let mut out: Vec<Name> = Vec::new();
    let mut i: usize = 0;
    proof {
        assert(v@.take(0) =~= Seq::<Name>::empty());
        reveal(Seq::filter);
    }
    while i < v.len()
        invariant
            p.wf(),
            i <= v.len(),
            out@ == v@.take(i as int).filter(|n: Name| p.spec_matches(n)),
        decreases v.len() - i,
    {
        let e = v[i];
        proof {
            assert(v@.take(i + 1 as int).drop_last() =~= v@.take(i as int));
            Seq::lemma_filter_push(v@.take(i as int), e, |n: Name| p.spec_matches(n));
            assert(v@.take(i + 1 as int) == v@.take(i as int).push(e));
        }
        if p.matches(e) {
            out.push(e);
        }
        i = i + 1;
    }
    proof {
        assert(v@.take(v@.len() as int) =~= v@);
        if sorted_names(v@) {
            lemma_sorted_filter(v@, |n: Name| p.spec_matches(n));
        }
    }
    out
}

/// The number of names of `a` that also occur in `b`.
pub fn count_in(a: &Vec<Name>, b: &Vec<Name>) -> (r: usize)
    ensures
        r == a@.filter(|y: Name| b@.contains(y)).len(),
{
    let mut count: usize = 0;
    let mut i: usize = 0;
    proof {
        assert(a@.take(0) =~= Seq::<Name>::empty());
        reveal(Seq::filter);
    }
    while i < a.len()
        invariant
            i <= a.len(),
            count == a@.take(i as int).filter(|y: Name| b@.contains(y)).len(),
            count <= i,
        decreases a.len() - i,
    {
        let e = a[i];
        proof {
            assert(a@.take(i + 1 as int).drop_last() =~= a@.take(i as int));
            Seq::lemma_filter_push(a@.take(i as int), e, |y: Name| b@.contains(y));
            Seq::lemma_filter_len_push(a@.take(i as int), |y: Name| b@.contains(y), e);
            assert(a@.take(i + 1 as int) == a@.take(i as int).push(e));
        }
        if contains_name(b, e) {
            count = count + 1;
        }
        i = i + 1;
    }
    proof {
        assert(a@.take(a@.len() as int) =~= a@);
    }
    count
}

/// The number of names of `a` that do not occur in `b`.
pub fn count_not_in(a: &Vec<Name>, b: &Vec<Name>) -> (r: usize)
    ensures
        r == a@.filter(|y: Name| !b@.contains(y)).len(),
{
    let mut count: usize = 0;
    let mut i: usize = 0;
    proof {
        assert(a@.take(0) =~= Seq::<Name>::empty());
        reveal(Seq::filter);
    }
    while i < a.len()
        invariant
            i <= a.len(),
            count == a@.take(i as int).filter(|y: Name| !b@.contains(y)).len(),
            count <= i,
        decreases a.len() - i,
    {
        let e = a[i];
        proof {
            assert(a@.take(i + 1 as int).drop_last() =~= a@.take(i as int));
            Seq::lemma_filter_push(a@.take(i as int), e, |y: Name| !b@.contains(y));
            Seq::lemma_filter_len_push(a@.take(i as int), |y: Name| !b@.contains(y), e);
            assert(a@.take(i + 1 as int) == a@.take(i as int).push(e));
        }
        if !contains_name(b, e) {
            count = count + 1;
        }
        i = i + 1;
    }
    proof {
        assert(a@.take(a@.len() as int) =~= a@);
    }
    count
}

/// Returns `true` iff the two name lists hold the same names in the same
/// order.
pub fn names_eq(a: &Vec<Name>, b: &Vec<Name>) -> (r: bool)
    ensures
        r == (a@ == b@),
{
    if a.len() != b.len() {
        return false;
    }
    let mut i: usize = 0;
    while i < a.len()
        invariant
            a@.len() == b@.len(),
            i <= a.len(),
            forall|k: int| 0 <= k < i ==> a@[k] == b@[k],
        decreases a.len() - i,
    {
        if a[i].0 != b[i].0 {
            return false;
        }
        assert(a@[i as int] == b@[i as int]);
        i = i + 1;
    }
    proof {
        assert(a@ =~= b@);
    }
    true
}

/// Lexicographic "greater than" on name lists, matching iteration order of
/// an ordered set: the first differing position decides, and a proper
/// prefix is smaller.
pub open spec fn names_lex_gt(a: Seq<Name>, b: Seq<Name>) -> bool
    decreases a.len(),
{
    if a.len() == 0 {
        false
    } else if b.len() == 0 {
        true
    } else if a[0].0 > b[0].0 {
        true
    } else if a[0].0 < b[0].0 {
        false
    } else {
        names_lex_gt(a.drop_first(), b.drop_first())
    }
}

/// Distinct sequences are strictly ordered one way or the other.
pub proof fn lemma_lex_total(a: Seq<Name>, b: Seq<Name>)
    requires
        a != b,
    ensures
        names_lex_gt(a, b) || names_lex_gt(b, a),
    decreases a.len(),
{
    if a.len() == 0 {
        assert(b.len() > 0) by {
            if b.len() == 0 {
                assert(a =~= b);
            }
        }
    } else if b.len() == 0 {
    } else if a[0].0 == b[0].0 {
        assert(a[0] == b[0]);
        assert(a.drop_first() != b.drop_first()) by {
            if a.drop_first() == b.drop_first() {
                assert(a.drop_first().len() == b.drop_first().len());
                assert(a.len() == b.len());
                assert forall|k: int| 0 <= k < a.len() implies a[k] == b[k] by {
                    if k > 0 {
                        assert(a[k] == a.drop_first()[k - 1]);
                        assert(b[k] == b.drop_first()[k - 1]);
                    }
                }
                assert(a =~= b);
            }
        }
        lemma_lex_total(a.drop_first(), b.drop_first());
    }
}

/// Exec comparison realising `names_lex_gt`.
pub fn names_gt(a: &Vec<Name>, b: &Vec<Name>) -> (r: bool)
    ensures
        r == names_lex_gt(a@, b@),
{
    let mut i: usize = 0;
    proof {
        assert(a@.skip(0) =~= a@);
        assert(b@.skip(0) =~= b@);
    }
    while i < a.len() && i < b.len()
        invariant
            i <= a.len(),
            i <= b.len(),
            forall|k: int| 0 <= k < i ==> a@[k] == b@[k],
            names_lex_gt(a@, b@) == names_lex_gt(a@.skip(i as int), b@.skip(i as int)),
        decreases a.len() - i,
    {
        if a[i].0 > b[i].0 {
            assert(names_lex_gt(a@.skip(i as int), b@.skip(i as int)));
            return true;
        }
        if a[i].0 < b[i].0 {
            assert(!names_lex_gt(a@.skip(i as int), b@.skip(i as int)));
            return false;
        }
        proof {
            assert(a@.skip(i as int)[0] == a@[i as int]);
            assert(b@.skip(i as int)[0] == b@[i as int]);
            assert(a@[i as int].0 == b@[i as int].0);
            assert(a@.skip(i as int).drop_first() =~= a@.skip(i + 1 as int));
            assert(b@.skip(i as int).drop_first() =~= b@.skip(i + 1 as int));
        }
        i = i + 1;
    }
    proof {
        if i >= a.len() {
            assert(a@.skip(i as int).len() == 0);
        } else {
            assert(b@.skip(i as int).len() == 0);
            assert(a@.skip(i as int).len() > 0);
        }
    }
    i < a.len()
}

} // verus!

//! Lists without duplicates, and sums over lists.

use crate::assoc::Key;
use vstd::prelude::*;

verus! {

/// A value that can be copied out of storage.
pub trait Dup: View + Sized {
    /// A copy with the same view.
    fn dup(&self) -> (r: Self)
        ensures
            r@ == self@,
    ;
}

impl Dup for u32 {
    fn dup(&self) -> (r: Self) {
        *self
    }
}

impl Dup for i128 {
    fn dup(&self) -> (r: Self) {
        *self
    }
}

impl Dup for bool {
    fn dup(&self) -> (r: Self) {
        *self
    }
}

impl<T: Copy> Dup for Vec<T> {
    fn dup(&self) -> (r: Self) {
        let mut out: Vec<T> = Vec::new();
        let mut i: usize = 0;
        while i < self.len()
            invariant
                i <= self@.len(),
                out@ == self@.take(i as int),
            decreases self@.len() - i,
        {
            out.push(self[i]);
            assert(self@.take(i + 1) =~= self@.take(i as int).push(self@[i as int]));
            i += 1;
        }
        assert(self@.take(i as int) =~= self@);
        out
    }
}

/// `s` with every occurrence of `x` left out.
pub open spec fn without<T>(s: Seq<T>, x: T) -> Seq<T>
    decreases s.len(),
{
    if s.len() == 0 {
        s
    } else if s.last() == x {
        without(s.drop_last(), x)
    } else {
        without(s.drop_last(), x).push(s.last())
    }
}

/// `s` with `x` appended, unless it is there already.
pub open spec fn with_member<T>(s: Seq<T>, x: T) -> Seq<T> {
    if s.contains(x) {
        s
    } else {
        s.push(x)
    }
}

/// The sum of `f` over the members of `s`.
pub open spec fn sum_by<T>(s: Seq<T>, f: spec_fn(T) -> int) -> int
    decreases s.len(),
{
    if s.len() == 0 {
        0
    } else {
        sum_by(s.drop_last(), f) + f(s.last())
    }
}

/// Whether `x` occurs in `v`.
pub fn contains_item<T: Key>(v: &Vec<T>, x: &T) -> (r: bool)
    ensures
        r == v@.contains(*x),
{
    let mut i: usize = 0;
    while i < v.len()
        invariant
            i <= v@.len(),
            forall|j: int| 0 <= j < i ==> v@[j] != *x,
        decreases v@.len() - i,
    {
        if v[i].same(x) {
            return true;
        }
        i += 1;
    }
    false
}

/// A copy of `v` with every occurrence of `x` left out.
pub fn copy_without<T: Key>(v: &Vec<T>, x: &T) -> (r: Vec<T>)
    ensures
        r@ == without(v@, *x),
{
    let mut out: Vec<T> = Vec::new();
    let mut i: usize = 0;
    while i < v.len()
        invariant
            i <= v@.len(),
            out@ == without(v@.take(i as int), *x),
        decreases v@.len() - i,
    {
        assert(v@.take(i + 1).drop_last() =~= v@.take(i as int));
        if !v[i].same(x) {
            out.push(v[i]);
        }
        i += 1;
    }
    assert(v@.take(i as int) =~= v@);
    out
}

/// Leaving out `x` leaves every other member, and no duplicates where there were none.
pub proof fn lemma_without<T>(s: Seq<T>, x: T)
    ensures
        forall|y: T| #[trigger] without(s, x).contains(y) <==> s.contains(y) && y != x,
        s.no_duplicates() ==> without(s, x).no_duplicates(),
        without(s, x).len() <= s.len(),
    decreases s.len(),
{
    if s.len() > 0 {
        let d = s.drop_last();
        lemma_without(d, x);
        assert forall|y: T| #[trigger] without(s, x).contains(y) <==> s.contains(y) && y != x by {
            let w = without(d, x);
            let r = without(s, x);
            if s.contains(y) && y != x {
                let j = choose|j: int| 0 <= j < s.len() && s[j] == y;
                if j < d.len() {
                    assert(d[j] == y);
                    assert(d.contains(y));
                    assert(w.contains(y));
                    let k = choose|k: int| 0 <= k < w.len() && w[k] == y;
                    assert(r[k] == y);
                } else {
                    assert(r[r.len() - 1] == y);
                }
            }
            if r.contains(y) {
                let k = choose|k: int| 0 <= k < r.len() && r[k] == y;
                if k < w.len() {
                    assert(w[k] == y);
                    assert(w.contains(y));
                    let j = choose|j: int| 0 <= j < d.len() && d[j] == y;
                    assert(s[j] == y);
                } else {
                    assert(s[s.len() - 1] == y);
                }
            }
        }
        if s.no_duplicates() {
            assert(d.no_duplicates());
            assert(!d.contains(s.last())) by {
                if d.contains(s.last()) {
                    assert(s[d.index_of(s.last())] == s[s.len() - 1]);
                }
            }
            assert(without(s, x).no_duplicates()) by {
                if s.last() != x {
                    let w = without(d, x);
                    assert(!w.contains(s.last()));
                    assert forall|i: int, j: int|
                        0 <= i < w.len() + 1 && 0 <= j < w.len() + 1 && i != j implies w.push(
                        s.last(),
                    )[i] != w.push(s.last())[j] by {
                        if i < w.len() {
                            assert(w.contains(w[i]));
                        }
                        if j < w.len() {
                            assert(w.contains(w[j]));
                        }
                    }
                }
            }
        }
    }
}

/// Adding a member keeps every other one, and brings in no duplicate.
pub proof fn lemma_with_member<T>(s: Seq<T>, x: T)
    ensures
        forall|y: T| #[trigger] with_member(s, x).contains(y) <==> s.contains(y) || y == x,
        s.no_duplicates() ==> with_member(s, x).no_duplicates(),
{
    if !s.contains(x) {
        let r = s.push(x);
        assert forall|y: T| #[trigger] r.contains(y) <==> s.contains(y) || y == x by {
            if s.contains(y) {
                assert(r[s.index_of(y)] == y);
            }
            if y == x {
                assert(r[s.len() as int] == y);
            }
            if r.contains(y) && y != x {
                assert(s[r.index_of(y)] == y);
            }
        }
        if s.no_duplicates() {
            assert forall|i: int, j: int|
                0 <= i < r.len() && 0 <= j < r.len() && i != j implies r[i] != r[j] by {
                if i < s.len() {
                    assert(s.contains(s[i]));
                }
                if j < s.len() {
                    assert(s.contains(s[j]));
                }
            }
        }
    }
}

/// Two functions that agree on the members have the same sum.
pub proof fn lemma_sum_agree<T>(s: Seq<T>, f: spec_fn(T) -> int, g: spec_fn(T) -> int)
    requires
        forall|y: T| #[trigger] s.contains(y) ==> f(y) == g(y),
    ensures
        sum_by(s, f) == sum_by(s, g),
    decreases s.len(),
{
    if s.len() > 0 {
        let d = s.drop_last();
        assert forall|y: T| #[trigger] d.contains(y) implies f(y) == g(y) by {
            assert(s[d.index_of(y)] == y);
            assert(s.contains(y));
        }
        assert(s.contains(s[s.len() - 1]));
        lemma_sum_agree(d, f, g);
    }
}

/// Leaving out one member takes its share from the sum.
pub proof fn lemma_sum_without<T>(s: Seq<T>, x: T, f: spec_fn(T) -> int)
    requires
        s.no_duplicates(),
    ensures
        sum_by(without(s, x), f) == sum_by(s, f) - (if s.contains(x) {
            f(x)
        } else {
            0
        }),
    decreases s.len(),
{
    if s.len() > 0 {
        let d = s.drop_last();
        assert(d.no_duplicates());
        lemma_sum_without(d, x, f);
        if s.last() == x {
            assert(s.contains(x)) by {
                assert(s[s.len() - 1] == x);
            }
            assert(!d.contains(x)) by {
                if d.contains(x) {
                    assert(s[d.index_of(x)] == s[s.len() - 1]);
                }
            }
        } else {
            assert(s.contains(x) == d.contains(x)) by {
                if s.contains(x) {
                    assert(d[s.index_of(x)] == x);
                }
                if d.contains(x) {
                    assert(s[d.index_of(x)] == x);
                }
            }
            let w = without(d, x);
            assert(w.push(s.last()).drop_last() =~= w);
        }
    }
}

/// Adding a new member adds its share to the sum.
pub proof fn lemma_sum_push<T>(s: Seq<T>, x: T, f: spec_fn(T) -> int)
    ensures
        sum_by(s.push(x), f) == sum_by(s, f) + f(x),
{
    assert(s.push(x).drop_last() =~= s);
}

/// The sum is the share of the first member and the sum of the others.
pub proof fn lemma_sum_first<T>(s: Seq<T>, f: spec_fn(T) -> int)
    requires
        s.len() > 0,
    ensures
        sum_by(s, f) == f(s[0]) + sum_by(s.skip(1), f),
    decreases s.len(),
{
    if s.len() == 1 {
        assert(s.drop_last() =~= Seq::empty());
        assert(s.skip(1) =~= Seq::empty());
    } else {
        lemma_sum_first(s.drop_last(), f);
        assert(s.drop_last().skip(1) =~= s.skip(1).drop_last());
    }
}

/// Where no share is negative, the sum is not negative and no share exceeds it.
pub proof fn lemma_sum_bounds<T>(s: Seq<T>, f: spec_fn(T) -> int)
    requires
        forall|y: T| #[trigger] s.contains(y) ==> f(y) >= 0,
    ensures
        sum_by(s, f) >= 0,
        forall|y: T| #[trigger] s.contains(y) ==> f(y) <= sum_by(s, f),
    decreases s.len(),
{
    if s.len() > 0 {
        let d = s.drop_last();
        assert forall|y: T| #[trigger] d.contains(y) implies f(y) >= 0 by {
            assert(s[d.index_of(y)] == y);
            assert(s.contains(y));
        }
        lemma_sum_bounds(d, f);
        assert(s.contains(s[s.len() - 1]));
        assert forall|y: T| #[trigger] s.contains(y) implies f(y) <= sum_by(s, f) by {
            let j = s.index_of(y);
            if j < d.len() {
                assert(d[j] == y);
                assert(d.contains(y));
            }
        }
    }
}

/// Where no two members are alike and only the share of `x` changes, the sum changes by as much.
pub proof fn lemma_sum_change<T>(s: Seq<T>, x: T, f: spec_fn(T) -> int, g: spec_fn(T) -> int)
    requires
        s.no_duplicates(),
        s.contains(x),
        forall|y: T| #[trigger] s.contains(y) && y != x ==> f(y) == g(y),
    ensures
        sum_by(s, g) == sum_by(s, f) - f(x) + g(x),
{
    lemma_without(s, x);
    lemma_sum_without(s, x, f);
    lemma_sum_without(s, x, g);
    assert forall|y: T| #[trigger] without(s, x).contains(y) implies f(y) == g(y) by {
        assert(s.contains(y));
    }
    lemma_sum_agree(without(s, x), f, g);
}

} // verus!

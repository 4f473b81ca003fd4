//! Two-sample Kolmogorov-Smirnov (KS) engine.
//!
//! The KS distance of two non-empty samples `a` and `b` is the maximum, over
//! all value thresholds `x`, of `|count_le(a,x)/|a| - count_le(b,x)/|b||`,
//! where `count_le(s,x)` counts the elements of `s` that are `<= x`.  The
//! distance is the exact rational `ks_num(a,b) / (|a|*|b|)`, computed here
//! with integer arithmetic only: no rounding, and 0 and 1 are hit exactly.

use vstd::prelude::*;
use vstd::math::abs;
use vstd::math::max;
use vstd::multiset::Multiset;
use crate::Error;

verus! {

broadcast use {vstd::seq_lib::group_to_multiset_ensures, vstd::multiset::group_multiset_axioms};

/// Number of elements of `s` that are `<= x`.  Defined over the multiset of
/// `s`, so it is invariant under reordering of `s`.
pub open spec fn count_le(s: Seq<i64>, x: i64) -> int {
    s.to_multiset().filter(|y: i64| y <= x).len() as int
}

/// The absolute difference of the two empirical CDFs at threshold `x`,
/// scaled by `|a|*|b|` to stay an integer.
pub open spec fn dev(a: Seq<i64>, b: Seq<i64>, x: i64) -> int {
    abs(count_le(a, x) * (b.len() as int) - count_le(b, x) * (a.len() as int)) as int
}

/// Maximum of `dev(a, b, x)` over the thresholds listed in `t` (0 if `t` is
/// empty).
pub open spec fn max_dev_over(a: Seq<i64>, b: Seq<i64>, t: Seq<i64>) -> int
    decreases t.len(),
{
    if t.len() == 0 {
        0
    } else {
        max(dev(a, b, t.last()), max_dev_over(a, b, t.drop_last()))
    }
}

/// Numerator of the KS distance of `a` and `b` over the denominator
/// `|a| * |b|`: the maximum scaled CDF deviation over every value occurring
/// in either sample.
pub open spec fn ks_num(a: Seq<i64>, b: Seq<i64>) -> int {
    max_dev_over(a, b, a + b)
}

/// `s` is sorted in non-decreasing order.
pub open spec fn is_sorted(s: Seq<i64>) -> bool {
    forall|i: int, j: int| 0 <= i < j < s.len() ==> s[i] <= s[j]
}

/// An exact KS distance: the rational `num / den`.
#[derive(Clone, Copy, Debug, PartialEq, Eq, Structural)]
pub struct Dist {
    pub num: u64,
    pub den: u64,
}

impl Dist {
    /// A distance is well formed when it lies in [0, 1].
    pub open spec fn wf(self) -> bool {
        0 < self.den && self.num <= self.den
    }

    /// The rational `self` is `<=` the rational `other`.
    pub open spec fn spec_le(self, other: Dist) -> bool {
        self.num * other.den <= other.num * self.den
    }

    /// Exact comparison of the two rationals, by cross multiplication.
    pub fn le(&self, other: &Dist) -> (r: bool)
        ensures
            r == self.spec_le(*other),
    {
        wide_mul(self.num, other.den) <= wide_mul(other.num, self.den)
    }

    /// Exact equality of the two rationals, by cross multiplication.
    pub fn eq_frac(&self, other: &Dist) -> (r: bool)
        ensures
            r == (self.num * other.den == other.num * self.den),
    {
        wide_mul(self.num, other.den) == wide_mul(other.num, self.den)
    }
}

/// The full product of two 64-bit values, which always fits in 128 bits.
fn wide_mul(x: u64, y: u64) -> (r: u128)
    ensures
        r == (x as int) * (y as int),
{
    proof {
        assert((x as int) * (y as int) <= (u64::MAX as int) * (u64::MAX as int))
            by (nonlinear_arith)
            requires
                0 <= x as int <= u64::MAX as int,
                0 <= y as int <= u64::MAX as int,
        ;
    }
    (x as u128) * (y as u128)
}

proof fn lemma_count_le_empty(x: i64)
    ensures
        count_le(Seq::<i64>::empty(), x) == 0,
{
    let f = |y: i64| y <= x;
    let m = Seq::<i64>::empty().to_multiset();
    assert(m.len() == 0);
    assert forall|v: i64| m.filter(f).count(v) == 0 by {
        assert(m.count(v) <= m.len());
    }
    assert(m.filter(f) =~= Multiset::<i64>::empty());
    vstd::multiset::lemma_multiset_empty_len(m.filter(f));
}

proof fn lemma_count_le_push(s: Seq<i64>, e: i64, x: i64)
    ensures
        count_le(s.push(e), x) == count_le(s, x) + if e <= x {
            1int
        } else {
            0int
        },
{
    let f = |y: i64| y <= x;
    let m = s.to_multiset();
    assert(s.push(e).to_multiset() =~= m.insert(e));
    if f(e) {
        assert(m.insert(e).filter(f) =~= m.filter(f).insert(e)) by {
            assert forall|v: i64| m.insert(e).filter(f).count(v) == m.filter(f).insert(e).count(
                v,
            ) by {
                if v == e {
                    assert(m.insert(e).count(e) == m.count(e) + 1);
                } else {
                    assert(m.insert(e).count(v) == m.count(v));
                }
            }
        }
        vstd::multiset::lemma_insert_len(m.filter(f), e);
    } else {
        assert(m.insert(e).filter(f) =~= m.filter(f)) by {
            assert forall|v: i64| m.insert(e).filter(f).count(v) == m.filter(f).count(v) by {
                if v == e {
                } else {
                    assert(m.insert(e).count(v) == m.count(v));
                }
            }
        }
    }
}

proof fn lemma_count_le_bounds(s: Seq<i64>, x: i64)
    ensures
        0 <= count_le(s, x) <= s.len(),
    decreases s.len(),
{
    if s.len() == 0 {
        assert(s =~= Seq::<i64>::empty());
        lemma_count_le_empty(x);
    } else {
        lemma_count_le_bounds(s.drop_last(), x);
        assert(s =~= s.drop_last().push(s.last()));
        lemma_count_le_push(s.drop_last(), s.last(), x);
    }
}

/// If every element before position `i` is `<= x` and every element from `i`
/// on is `> x`, then exactly `i` elements are `<= x`.
proof fn lemma_count_le_split(s: Seq<i64>, x: i64, i: int)
    requires
        0 <= i <= s.len(),
        forall|j: int| 0 <= j < i ==> s[j] <= x,
        forall|j: int| i <= j < s.len() ==> s[j] > x,
    ensures
        count_le(s, x) == i,
    decreases s.len(),
{
    if s.len() == 0 {
        assert(s =~= Seq::<i64>::empty());
        lemma_count_le_empty(x);
    } else {
        assert(s =~= s.drop_last().push(s.last()));
        lemma_count_le_push(s.drop_last(), s.last(), x);
        if i == s.len() {
            lemma_count_le_split(s.drop_last(), x, i - 1);
        } else {
            lemma_count_le_split(s.drop_last(), x, i);
        }
    }
}

proof fn lemma_max_dev_over_ge(a: Seq<i64>, b: Seq<i64>, t: Seq<i64>, x: i64)
    requires
        t.contains(x),
    ensures
        max_dev_over(a, b, t) >= dev(a, b, x),
    decreases t.len(),
{
    if t.last() == x {
    } else {
        let i = choose|i: int| 0 <= i < t.len() && t[i] == x;
        assert(t.drop_last()[i] == x);
        assert(t.drop_last().contains(x));
        lemma_max_dev_over_ge(a, b, t.drop_last(), x);
    }
}

proof fn lemma_max_dev_over_le(a: Seq<i64>, b: Seq<i64>, t: Seq<i64>, m: int)
    requires
        m >= 0,
        forall|x: i64| t.contains(x) ==> dev(a, b, x) <= m,
    ensures
        max_dev_over(a, b, t) <= m,
    decreases t.len(),
{
    if t.len() == 0 {
    } else {
        assert(t.contains(t.last()));
        assert forall|x: i64| t.drop_last().contains(x) implies dev(a, b, x) <= m by {
            let i = choose|i: int| 0 <= i < t.drop_last().len() && t.drop_last()[i] == x;
            assert(t[i] == x);
            assert(t.contains(x));
        }
        lemma_max_dev_over_le(a, b, t.drop_last(), m);
    }
}

/// The two facts that pin the maximum down: if `m` bounds every deviation at
/// a threshold of `a + b`, and some threshold reaches `m`, then `m` is the
/// KS numerator.
proof fn lemma_ks_num_char(a: Seq<i64>, b: Seq<i64>, m: int)
    requires
        m >= 0,
        forall|x: i64| #[trigger] (a + b).contains(x) ==> dev(a, b, x) <= m,
        exists|x: i64| #[trigger] (a + b).contains(x) && dev(a, b, x) == m,
    ensures
        ks_num(a, b) == m,
{
    lemma_max_dev_over_le(a, b, a + b, m);
    let x0 = choose|x: i64| #[trigger] (a + b).contains(x) && dev(a, b, x) == m;
    lemma_max_dev_over_ge(a, b, a + b, x0);
}

/// A sample is identical to itself: the KS numerator of `(a, a)` is 0.
/// This is the spec-level form of "`ks(A, A) == 0`".
pub proof fn lemma_ks_self(a: Seq<i64>)
    requires
        a.len() > 0,
    ensures
        ks_num(a, a) == 0,
{
    assert forall|x: i64| #[trigger] (a + a).contains(x) implies dev(a, a, x) <= 0 by {}
    assert((a + a)[0] == a[0]);
    assert((a + a).contains(a[0]));
    assert(dev(a, a, a[0]) == 0);
    lemma_ks_num_char(a, a, 0);
}

proof fn lemma_max_dev_over_nonneg(a: Seq<i64>, b: Seq<i64>, t: Seq<i64>)
    ensures
        max_dev_over(a, b, t) >= 0,
    decreases t.len(),
{
    if t.len() == 0 {
    } else {
        lemma_max_dev_over_nonneg(a, b, t.drop_last());
    }
}

/// The KS numerator never exceeds the denominator `|a| * |b|`: the distance
/// lies in [0, 1].
pub proof fn lemma_ks_range(a: Seq<i64>, b: Seq<i64>)
    ensures
        0 <= ks_num(a, b) <= a.len() * b.len(),
{
    let n = a.len() as int;
    let m = b.len() as int;
    assert(n * m >= 0) by (nonlinear_arith)
        requires
            n >= 0 && m >= 0,
    ;
    assert forall|x: i64| #[trigger] (a + b).contains(x) implies dev(a, b, x) <= n * m by {
        lemma_count_le_bounds(a, x);
        lemma_count_le_bounds(b, x);
        assert(count_le(a, x) * m <= n * m && count_le(b, x) * n <= m * n && n * m == m * n
            && count_le(a, x) * m >= 0 && count_le(b, x) * n >= 0) by (nonlinear_arith)
            requires
                0 <= count_le(a, x) <= n,
                0 <= count_le(b, x) <= m,
        ;
    }
    lemma_max_dev_over_le(a, b, a + b, n * m);
    lemma_max_dev_over_nonneg(a, b, a + b);
}

proof fn lemma_to_multiset_insert(s: Seq<i64>, p: int, e: i64)
    requires
        0 <= p <= s.len(),
    ensures
        s.insert(p, e).to_multiset() == s.to_multiset().insert(e),
{
    let t = s.insert(p, e);
    s.insert_ensures(p, e);
    t.remove_ensures(p);
    assert(t.remove(p) =~= s);
    assert(t[p] == e);
    assert(t.to_multiset().remove(e) == s.to_multiset());
    assert(t.contains(e));
    assert(t.to_multiset().count(e) > 0);
    assert(t.to_multiset() =~= s.to_multiset().insert(e)) by {
        assert forall|v: i64| t.to_multiset().count(v) == s.to_multiset().insert(e).count(v) by {
            assert(t.to_multiset().remove(e).count(v) == s.to_multiset().count(v));
            if v == e {
                assert(s.to_multiset().insert(e).count(e) == s.to_multiset().count(e) + 1);
            } else {
                assert(s.to_multiset().insert(e).count(v) == s.to_multiset().count(v));
            }
        }
    }
}

/// Returns the values of `v` in non-decreasing order, leaving `v` itself
/// untouched: each KS computation sorts a private copy of its inputs.
pub fn sorted_copy(v: &Vec<i64>) -> (r: Vec<i64>)
    ensures
        is_sorted(r@),
        r@.to_multiset() == v@.to_multiset(),
        r@.len() == v@.len(),
{
    let mut r: Vec<i64> = Vec::new();
    let mut i: usize = 0;
    proof {
        assert(v@.take(0) =~= Seq::<i64>::empty());
        assert(r@ =~= Seq::<i64>::empty());
    }
    while i < v.len()
        invariant
            i <= v.len(),
            is_sorted(r@),
            r@.to_multiset() == v@.take(i as int).to_multiset(),
            r@.len() == i,
        decreases v.len() - i,
    {
        let e = v[i];
        let mut p: usize = 0;
        while p < r.len() && r[p] <= e
            invariant
                p <= r@.len(),
                forall|q: int| 0 <= q < p ==> r@[q] <= e,
            decreases r@.len() - p,
        {
            p += 1;
        }
        let ghost old_r = r@;
        r.insert(p, e);
        proof {
            old_r.insert_ensures(p as int, e);
            lemma_to_multiset_insert(old_r, p as int, e);
            assert(v@.take(i as int + 1) =~= v@.take(i as int).push(v@[i as int]));
            assert(r@.to_multiset() =~= v@.take(i as int + 1).to_multiset());
            assert forall|x: int, y: int| 0 <= x < y < r@.len() implies r@[x] <= r@[y] by {
                if y <= p {
                } else if x < p {
                    assert(r@[y] == old_r[y - 1]);
                    if x == p {
                    } else {
                        assert(r@[x] == old_r[x]);
                    }
                } else if x == p {
                    assert(r@[y] == old_r[y - 1] && old_r[y - 1] >= old_r[p as int]);
                } else {
                    assert(r@[x] == old_r[x - 1] && r@[y] == old_r[y - 1]);
                }
            }
        }
        i += 1;
    }
    proof {
        assert(v@.take(v@.len() as int) =~= v@);
    }
    r
}

/// Some entry of `r` lists `x` as a threshold.
pub open spec fn has_threshold(r: Seq<(i64, usize, usize)>, x: i64) -> bool {
    exists|k: int| 0 <= k < r.len() && (#[trigger] r[k]).0 == x
}

/// Merges two sorted samples into the ascending list of their distinct
/// values; each value is listed once, together with how many elements of
/// each sample are `<=` it.
pub fn merge(a: &Vec<i64>, b: &Vec<i64>) -> (r: Vec<(i64, usize, usize)>)
    requires
        is_sorted(a@),
        is_sorted(b@),
    ensures
        forall|k: int|
            0 <= k < r@.len() ==> (#[trigger] r@[k]).1 == count_le(a@, r@[k].0) && r@[k].2
                == count_le(b@, r@[k].0),
        forall|k: int| 0 <= k < r@.len() ==> a@.contains((#[trigger] r@[k]).0) || b@.contains(
            r@[k].0,
        ),
        forall|k1: int, k2: int| 0 <= k1 < k2 < r@.len() ==> r@[k1].0 < r@[k2].0,
        forall|j: int| 0 <= j < a@.len() ==> has_threshold(r@, #[trigger] a@[j]),
        forall|j: int| 0 <= j < b@.len() ==> has_threshold(r@, #[trigger] b@[j]),
{
    let mut r: Vec<(i64, usize, usize)> = Vec::new();
    let mut i1: usize = 0;
    let mut i2: usize = 0;
    while i1 < a.len() || i2 < b.len()
        invariant
            is_sorted(a@),
            is_sorted(b@),
            i1 <= a@.len(),
            i2 <= b@.len(),
            forall|k: int|
                0 <= k < r@.len() ==> (#[trigger] r@[k]).1 == count_le(a@, r@[k].0) && r@[k].2
                    == count_le(b@, r@[k].0),
            forall|k: int| 0 <= k < r@.len() ==> a@.contains((#[trigger] r@[k]).0) || b@.contains(
                r@[k].0,
            ),
            forall|k1: int, k2: int| 0 <= k1 < k2 < r@.len() ==> r@[k1].0 < r@[k2].0,
            forall|j: int| 0 <= j < i1 ==> has_threshold(r@, #[trigger] a@[j]),
            forall|j: int| 0 <= j < i2 ==> has_threshold(r@, #[trigger] b@[j]),
            r@.len() == 0 ==> i1 == 0 && i2 == 0,
            r@.len() > 0 ==> forall|j: int| i1 <= j < a@.len() ==> a@[j] > r@.last().0,
            r@.len() > 0 ==> forall|j: int| i2 <= j < b@.len() ==> b@[j] > r@.last().0,
        decreases a@.len() + b@.len() - i1 - i2,
    {
        let x: i64 = if i1 == a.len() {
            b[i2]
        } else if i2 == b.len() {
            a[i1]
        } else if a[i1] < b[i2] {
            a[i1]
        } else {
            b[i2]
        };
        let ghost start1 = i1 as int;
        let ghost start2 = i2 as int;
        proof {
            assert(forall|j: int| i1 <= j < a@.len() ==> a@[j] >= x);
            assert(forall|j: int| i2 <= j < b@.len() ==> b@[j] >= x);
        }
        while i1 < a.len() && a[i1] == x
            invariant
                is_sorted(a@),
                start1 <= i1 <= a@.len(),
                forall|j: int| start1 <= j < i1 ==> a@[j] == x,
                forall|j: int| i1 <= j < a@.len() ==> a@[j] >= x,
            decreases a@.len() - i1,
        {
            i1 += 1;
        }
        while i2 < b.len() && b[i2] == x
            invariant
                is_sorted(b@),
                start2 <= i2 <= b@.len(),
                forall|j: int| start2 <= j < i2 ==> b@[j] == x,
                forall|j: int| i2 <= j < b@.len() ==> b@[j] >= x,
            decreases b@.len() - i2,
        {
            i2 += 1;
        }
        let ghost old_r = r@;
        proof {
            assert(forall|j: int| 0 <= j < start1 ==> a@[j] <= x);
            assert(forall|j: int| i1 <= j < a@.len() ==> a@[j] > x);
            assert(forall|j: int| 0 <= j < start2 ==> b@[j] <= x);
            assert(forall|j: int| i2 <= j < b@.len() ==> b@[j] > x);
            lemma_count_le_split(a@, x, i1 as int);
            lemma_count_le_split(b@, x, i2 as int);
        }
        r.push((x, i1, i2));
        proof {
            assert(r@.last() == (x, i1, i2));
            assert(r@.drop_last() =~= old_r);
            if start1 < i1 {
                assert(a@.contains(a@[start1]) && a@[start1] == x);
            } else if start2 < i2 {
                assert(b@.contains(b@[start2]) && b@[start2] == x);
            }
            assert forall|j: int| 0 <= j < i1 implies has_threshold(r@, #[trigger] a@[j]) by {
                if j < start1 {
                    let k0 = choose|k: int| 0 <= k < old_r.len() && (#[trigger] old_r[k]).0
                        == a@[j];
                    assert(r@[k0].0 == a@[j]);
                } else {
                    assert(r@[r@.len() - 1].0 == a@[j]);
                }
            }
            assert forall|j: int| 0 <= j < i2 implies has_threshold(r@, #[trigger] b@[j]) by {
                if j < start2 {
                    let k0 = choose|k: int| 0 <= k < old_r.len() && (#[trigger] old_r[k]).0
                        == b@[j];
                    assert(r@[k0].0 == b@[j]);
                } else {
                    assert(r@[r@.len() - 1].0 == b@[j]);
                }
            }
        }
    }
    r
}

/// Computes the exact two-sample KS distance of `a` and `b`.  Fails with
/// [`Error::EmptySample`] exactly when one of the samples is empty; the
/// samples themselves are left untouched.
pub fn ks(a: &Vec<i64>, b: &Vec<i64>) -> (r: Result<Dist, Error>)
    requires
        a@.len() * b@.len() <= u64::MAX,
    ensures
        r is Ok <==> (a@.len() > 0 && b@.len() > 0),
        r matches Ok(d) ==> d.num == ks_num(a@, b@) && d.den == a@.len() * b@.len() && d.wf(),
        r matches Err(e) ==> e == Error::EmptySample,
{
    if a.len() == 0 || b.len() == 0 {
        return Err(Error::EmptySample);
    }
    let sa = sorted_copy(a);
    let sb = sorted_copy(b);
    let merged = merge(&sa, &sb);
    let n = a.len() as u64;
    let m = b.len() as u64;
    proof {
        assert(sa@.contains(sa@[0]));
        assert(merged@.len() > 0);
    }
    let mut maxd: u64 = 0;
    let mut k: usize = 0;
    while k < merged.len()
        invariant
            k <= merged@.len(),
            merged@.len() > 0,
            n == a@.len() && m == b@.len(),
            a@.len() * b@.len() <= u64::MAX,
            sa@.to_multiset() == a@.to_multiset(),
            sb@.to_multiset() == b@.to_multiset(),
            sa@.len() == a@.len(),
            sb@.len() == b@.len(),
            forall|t: int|
                0 <= t < merged@.len() ==> (#[trigger] merged@[t]).1 == count_le(sa@, merged@[t].0)
                    && merged@[t].2 == count_le(sb@, merged@[t].0),
            forall|t: int| 0 <= t < k ==> dev(a@, b@, (#[trigger] merged@[t]).0) <= maxd,
            k > 0 ==> exists|t: int| 0 <= t < k && dev(a@, b@, (#[trigger] merged@[t]).0) == maxd,
            k == 0 ==> maxd == 0,
        decreases merged@.len() - k,
    {
        let (x, c1, c2) = merged[k];
        proof {
            lemma_count_le_bounds(sa@, x);
            lemma_count_le_bounds(sb@, x);
            assert((c1 as int) * (m as int) <= (n as int) * (m as int) && (c2 as int) * (n as int)
                <= (m as int) * (n as int) && (n as int) * (m as int) == (m as int) * (n as int)
                && (c1 as int) * (m as int) >= 0 && (c2 as int) * (n as int) >= 0)
                by (nonlinear_arith)
                requires
                    0 <= c1 as int <= n as int,
                    0 <= c2 as int <= m as int,
            ;
        }
        let p1 = (c1 as u64) * m;
        let p2 = (c2 as u64) * n;
        let d = if p1 >= p2 {
            p1 - p2
        } else {
            p2 - p1
        };
        proof {
            assert(count_le(a@, x) == count_le(sa@, x));
            assert(count_le(b@, x) == count_le(sb@, x));
            assert(dev(a@, b@, x) == d);
        }
        if d > maxd {
            maxd = d;
        }
        k += 1;
    }
    proof {
        assert forall|x: i64| #[trigger] (a@ + b@).contains(x) implies dev(a@, b@, x)
            <= maxd as int by {
            let i = choose|i: int| 0 <= i < (a@ + b@).len() && (a@ + b@)[i] == x;
            if i < a@.len() {
                assert(a@.contains(x));
                assert(a@.to_multiset().count(x) > 0);
                assert(sa@.to_multiset().count(x) > 0);
                assert(sa@.contains(x));
                let j = choose|j: int| 0 <= j < sa@.len() && sa@[j] == x;
                assert(has_threshold(merged@, sa@[j]));
                let t = choose|t: int| 0 <= t < merged@.len() && (#[trigger] merged@[t]).0
                    == sa@[j];
                assert(dev(a@, b@, merged@[t].0) <= maxd);
            } else {
                assert(b@[i - a@.len()] == x);
                assert(b@.contains(x));
                assert(b@.to_multiset().count(x) > 0);
                assert(sb@.to_multiset().count(x) > 0);
                assert(sb@.contains(x));
                let j = choose|j: int| 0 <= j < sb@.len() && sb@[j] == x;
                assert(has_threshold(merged@, sb@[j]));
                let t = choose|t: int| 0 <= t < merged@.len() && (#[trigger] merged@[t]).0
                    == sb@[j];
                assert(dev(a@, b@, merged@[t].0) <= maxd);
            }
        }
        let t0 = choose|t: int|
            0 <= t < merged@.len() && dev(a@, b@, (#[trigger] merged@[t]).0) == maxd;
        let x0 = merged@[t0].0;
        assert(sa@.contains(x0) || sb@.contains(x0));
        if sa@.contains(x0) {
            assert(sa@.to_multiset().count(x0) > 0);
            assert(a@.to_multiset().count(x0) > 0);
            assert(a@.contains(x0));
            let j = choose|j: int| 0 <= j < a@.len() && a@[j] == x0;
            assert((a@ + b@)[j] == x0);
            assert((a@ + b@).contains(x0));
        } else {
            assert(sb@.to_multiset().count(x0) > 0);
            assert(b@.to_multiset().count(x0) > 0);
            assert(b@.contains(x0));
            let j = choose|j: int| 0 <= j < b@.len() && b@[j] == x0;
            assert((a@ + b@)[j + a@.len()] == x0);
            assert((a@ + b@).contains(x0));
        }
        assert((a@ + b@).contains(x0) && dev(a@, b@, x0) == maxd as int);
        lemma_ks_num_char(a@, b@, maxd as int);
        lemma_ks_range(a@, b@);
        assert((n as int) * (m as int) >= 1) by (nonlinear_arith)
            requires
                n as int >= 1,
                m as int >= 1,
        ;
    }
    Ok(Dist { num: maxd, den: n * m })
}

/// The KS numerator is symmetric in its two samples.  Together with the
/// symmetric denominator this is the spec-level form of
/// "`ks(A, B) == ks(B, A)`".
pub proof fn lemma_ks_symmetric(a: Seq<i64>, b: Seq<i64>)
    requires
        a.len() > 0,
        b.len() > 0,
    ensures
        ks_num(a, b) == ks_num(b, a),
{
    assert forall|x: i64| #[trigger] (a + b).contains(x) implies (b + a).contains(x) by {
        let i = choose|i: int| 0 <= i < (a + b).len() && (a + b)[i] == x;
        if i < a.len() {
            assert((b + a)[i + b.len()] == x);
        } else {
            assert((b + a)[i - a.len()] == x);
        }
    }
    assert forall|x: i64| #[trigger] (b + a).contains(x) implies (a + b).contains(x) by {
        let i = choose|i: int| 0 <= i < (b + a).len() && (b + a)[i] == x;
        if i < b.len() {
            assert((a + b)[i + a.len()] == x);
        } else {
            assert((a + b)[i - b.len()] == x);
        }
    }
    lemma_max_dev_over_nonneg(a, b, a + b);
    let k = ks_num(a, b);
    assert forall|x: i64| #[trigger] (b + a).contains(x) implies dev(b, a, x) <= k by {
        lemma_max_dev_over_ge(a, b, a + b, x);
    }
    lemma_max_dev_over_le(b, a, b + a, k);
    let k2 = max_dev_over(b, a, b + a);
    lemma_max_dev_over_nonneg(b, a, b + a);
    assert forall|x: i64| #[trigger] (a + b).contains(x) implies dev(a, b, x) <= k2 by {
        lemma_max_dev_over_ge(b, a, b + a, x);
    }
    lemma_max_dev_over_le(a, b, a + b, k2);
}

} // verus!

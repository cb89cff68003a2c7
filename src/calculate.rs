//! Exact statistics over ink-count profiles.
//!
//! Profiles hold pixel counts, so their mean and variance are rational
//! numbers. Both are returned as exact fractions; the standard deviation is
//! represented by its square, which orders profiles the same way.
use vstd::prelude::*;

verus! {

/// Largest supported image side, in pixels; also bounds every ink count.
pub const MAX_SIDE: u64 = 1048576;

/// `MAX_SIDE^2`: bound of a fraction's denominator.
pub const MAX_DEN: u128 = 1099511627776;

/// `MAX_SIDE^3`: bound of a sum of squared counts.
pub const MAX_SUM_SQ: u128 = 1152921504606846976;

/// `MAX_SIDE^4`: bound of a fraction's numerator.
pub const MAX_NUM: u128 = 1208925819614629174706176;

/// A non-negative fraction `num / den`.
#[derive(Clone, Copy, Debug, PartialEq, Eq, Structural)]
pub struct Fraction {
    pub num: u128,
    pub den: u128,
}

impl Fraction {
    /// Bounds that keep cross products within `u128`.
    pub open spec fn wf(self) -> bool {
        &&& 0 < self.den <= MAX_DEN
        &&& self.num <= MAX_NUM
    }

    /// `self < o` as rational numbers.
    pub open spec fn spec_lt(self, o: Fraction) -> bool {
        self.num * o.den < o.num * self.den
    }

    /// `self == o` as rational numbers.
    pub open spec fn spec_same(self, o: Fraction) -> bool {
        self.num * o.den == o.num * self.den
    }

    /// Compares two fractions by value.
    pub fn less_than(&self, o: &Fraction) -> (r: bool)
        requires
            self.wf(),
            o.wf(),
        ensures
            r == self.spec_lt(*o),
    {
        proof {
            lemma_cross_bound(self.num, o.den);
            lemma_cross_bound(o.num, self.den);
        }
        self.num * o.den < o.num * self.den
    }

    /// Tests two fractions for equal value.
    pub fn same_value(&self, o: &Fraction) -> (r: bool)
        requires
            self.wf(),
            o.wf(),
        ensures
            r == self.spec_same(*o),
    {
        proof {
            lemma_cross_bound(self.num, o.den);
            lemma_cross_bound(o.num, self.den);
        }
        self.num * o.den == o.num * self.den
    }
}

proof fn lemma_cross_bound(a: u128, b: u128)
    requires
        a <= MAX_NUM,
        b <= MAX_DEN,
    ensures
        a * b <= u128::MAX,
{
    assert(a * b <= 1208925819614629174706176 * 1099511627776) by (nonlinear_arith)
        requires
            a <= 1208925819614629174706176int,
            b <= 1099511627776int,
    ;
}

/// Sum of a sequence.
pub open spec fn seq_sum(s: Seq<u64>) -> int
    decreases s.len(),
{
    if s.len() == 0 {
        0
    } else {
        seq_sum(s.drop_last()) + s.last()
    }
}

/// Sum of the squares of a sequence.
pub open spec fn seq_sum_sq(s: Seq<u64>) -> int
    decreases s.len(),
{
    if s.len() == 0 {
        0
    } else {
        seq_sum_sq(s.drop_last()) + s.last() * s.last()
    }
}

/// `sum over i of (m * s[i] - c)^2`.
pub open spec fn sq_dev_sum(s: Seq<u64>, m: int, c: int) -> int
    decreases s.len(),
{
    if s.len() == 0 {
        0
    } else {
        sq_dev_sum(s.drop_last(), m, c) + (m * s.last() - c) * (m * s.last() - c)
    }
}

/// `n^2` times the population variance of `s`, where `n` is its length:
/// `n * sum(x^2) - sum(x)^2`.
pub open spec fn variance_num(s: Seq<u64>) -> int {
    s.len() * seq_sum_sq(s) - seq_sum(s) * seq_sum(s)
}

/// Every element of `s` is a valid ink count, and `s` fits an image side.
pub open spec fn profile_ok(s: Seq<u64>) -> bool {
    &&& s.len() <= MAX_SIDE
    &&& forall|i: int| 0 <= i < s.len() ==> #[trigger] s[i] <= MAX_SIDE
}

/// All elements of `s` are equal.
pub open spec fn all_equal(s: Seq<u64>) -> bool {
    forall|i: int, j: int| 0 <= i < s.len() && 0 <= j < s.len() ==> s[i] == s[j]
}

proof fn lemma_sum_bounds(s: Seq<u64>)
    requires
        profile_ok(s),
    ensures
        0 <= seq_sum(s) <= s.len() * MAX_SIDE,
        0 <= seq_sum_sq(s) <= s.len() * MAX_DEN,
        seq_sum(s) <= MAX_DEN,
        seq_sum_sq(s) <= MAX_SUM_SQ,
    decreases s.len(),
{
    if s.len() > 0 {
        let t = s.drop_last();
        assert(profile_ok(t)) by {
            assert forall|i: int| 0 <= i < t.len() implies #[trigger] t[i] <= MAX_SIDE by {
                assert(t[i] == s[i]);
            }
        }
        lemma_sum_bounds(t);
        let x = s.last();
        assert(s[s.len() - 1] <= MAX_SIDE);
        assert(x * x <= 1099511627776) by (nonlinear_arith)
            requires
                x <= 1048576int,
        ;
    }
    let n = s.len() as int;
    assert(n * 1048576 <= 1099511627776 && n * 1099511627776 <= 1152921504606846976) by (nonlinear_arith)
        requires
            n <= 1048576,
    ;
}

proof fn lemma_sq_dev_expand(s: Seq<u64>, m: int, c: int)
    ensures
        sq_dev_sum(s, m, c) == m * m * seq_sum_sq(s) - 2 * m * c * seq_sum(s) + s.len() * (c * c),
    decreases s.len(),
{
    if s.len() > 0 {
        let t = s.drop_last();
        lemma_sq_dev_expand(t, m, c);
        let x = s.last() as int;
        let q = seq_sum_sq(t);
        let p = seq_sum(t);
        let k = t.len() as int;
        assert((m * m * q - 2 * m * c * p + k * (c * c)) + (m * x - c) * (m * x - c) == m * m * (q
            + x * x) - 2 * m * c * (p + x) + (k + 1) * (c * c)) by (nonlinear_arith);
    }
}

proof fn lemma_sq_dev_nonneg(s: Seq<u64>, m: int, c: int)
    ensures
        sq_dev_sum(s, m, c) >= 0,
        sq_dev_sum(s, m, c) == 0 <==> forall|i: int| 0 <= i < s.len() ==> m * #[trigger] s[i] == c,
    decreases s.len(),
{
    if s.len() > 0 {
        let t = s.drop_last();
        lemma_sq_dev_nonneg(t, m, c);
        let d = m * s.last() - c;
        assert(d * d >= 0) by (nonlinear_arith);
        assert(d * d == 0 <==> d == 0) by (nonlinear_arith);
        if sq_dev_sum(s, m, c) == 0 {
            assert forall|i: int| 0 <= i < s.len() implies m * #[trigger] s[i] == c by {
                if i < s.len() - 1 {
                    assert(s[i] == t[i]);
                }
            }
        }
        if forall|i: int| 0 <= i < s.len() ==> m * #[trigger] s[i] == c {
            assert forall|i: int| 0 <= i < t.len() implies m * #[trigger] t[i] == c by {
                assert(t[i] == s[i]);
            }
            assert(m * s[s.len() - 1] == c);
        }
    }
}

proof fn lemma_sum_constant(s: Seq<u64>, x: u64)
    requires
        forall|i: int| 0 <= i < s.len() ==> #[trigger] s[i] == x,
    ensures
        seq_sum(s) == s.len() * x,
    decreases s.len(),
{
    if s.len() > 0 {
        let t = s.drop_last();
        assert forall|i: int| 0 <= i < t.len() implies #[trigger] t[i] == x by {
            assert(t[i] == s[i]);
        }
        lemma_sum_constant(t, x);
        assert(s[s.len() - 1] == x);
        assert(t.len() * x + x == (t.len() + 1) * x) by (nonlinear_arith);
    }
}

/// The population variance of a non-empty sequence is never negative, and it
/// is zero exactly when all elements are equal; the same holds of the
/// standard deviation, its square root.
pub proof fn lemma_variance_zero_iff_constant(s: Seq<u64>)
    requires
        s.len() > 0,
    ensures
        variance_num(s) >= 0,
        variance_num(s) == 0 <==> all_equal(s),
{
    let n = s.len() as int;
    let total = seq_sum(s);
    lemma_sq_dev_expand(s, n, total);
    lemma_sq_dev_nonneg(s, n, total);
    let q = seq_sum_sq(s);
    let v = variance_num(s);
    assert(n * v == n * n * q - 2 * n * total * total + n * (total * total)) by (nonlinear_arith)
        requires
            v == n * q - total * total,
    ;
    assert(v >= 0) by (nonlinear_arith)
        requires
            n > 0,
            n * v >= 0,
    ;
    if v == 0 {
        assert(n * v == 0) by (nonlinear_arith)
            requires
                v == 0,
        ;
        assert(sq_dev_sum(s, n, total) == 0);
        assert forall|i: int, j: int|
            0 <= i < s.len() && 0 <= j < s.len() implies s[i] == s[j] by {
            assert(n * s[i] == total);
            assert(n * s[j] == total);
            let a = s[i] as int;
            let b = s[j] as int;
            assert(a == b) by (nonlinear_arith)
                requires
                    n > 0,
                    n * a == n * b,
            ;
        }
    }
    if all_equal(s) {
        let x = s[0];
        assert forall|i: int| 0 <= i < s.len() implies #[trigger] s[i] == x by {}
        lemma_sum_constant(s, x);
        assert forall|i: int| 0 <= i < s.len() implies n * #[trigger] s[i] == total by {
            assert(s[i] == x);
        }
        assert(n * v == 0);
        assert(v == 0) by (nonlinear_arith)
            requires
                n > 0,
                n * v == 0,
        ;
    }
}

/// Sum and sum of squares of `xs`.
fn sums(xs: &Vec<u64>) -> (r: (u128, u128))
    requires
        profile_ok(xs@),
    ensures
        r.0 == seq_sum(xs@),
        r.1 == seq_sum_sq(xs@),
{
    let mut sum: u128 = 0;
    let mut sum_sq: u128 = 0;
    let mut i: usize = 0;
    while i < xs.len()
        invariant
            i <= xs@.len(),
            profile_ok(xs@),
            sum == seq_sum(xs@.take(i as int)),
            sum_sq == seq_sum_sq(xs@.take(i as int)),
        decreases xs@.len() - i,
    {
        let ghost prefix = xs@.take(i as int);
        let ghost next = xs@.take(i as int + 1);
        proof {
            assert(next.drop_last() =~= prefix);
            assert(profile_ok(next)) by {
                assert forall|k: int| 0 <= k < next.len() implies #[trigger] next[k] <= MAX_SIDE by {
                    assert(next[k] == xs@[k]);
                }
            }
            lemma_sum_bounds(next);
            assert(next.last() == xs@[i as int]);
            assert(xs@[i as int] <= MAX_SIDE);
        }
        let x = xs[i] as u128;
        assert(x * x <= 1099511627776) by (nonlinear_arith)
            requires
                x <= 1048576,
        ;
        assert(seq_sum_sq(next) == sum_sq + x * x);
        sum = sum + x;
        sum_sq = sum_sq + x * x;
        i = i + 1;
    }
    proof {
        assert(xs@.take(xs@.len() as int) =~= xs@);
    }
    (sum, sum_sq)
}

/// Arithmetic mean of a non-empty profile, as the exact fraction `sum / len`.
pub fn get_arithmetic_mean(xs: &Vec<u64>) -> (r: Fraction)
    requires
        xs@.len() > 0,
        profile_ok(xs@),
    ensures
        r.wf(),
        r.num == seq_sum(xs@),
        r.den == xs@.len(),
{
    let (sum, _) = sums(xs);
    proof {
        lemma_sum_bounds(xs@);
    }
    Fraction { num: sum, den: xs.len() as u128 }
}

/// Population standard deviation of a non-empty profile, given by its square
/// (the variance) as the exact fraction
/// `(n * sum(x^2) - sum(x)^2) / n^2`.
pub fn get_standard_deviation(xs: &Vec<u64>) -> (r: Fraction)
    requires
        xs@.len() > 0,
        profile_ok(xs@),
    ensures
        r.wf(),
        r.num == variance_num(xs@),
        r.den == xs@.len() * xs@.len(),
{
    let (sum, sum_sq) = sums(xs);
    let n = xs.len() as u128;
    proof {
        lemma_sum_bounds(xs@);
        lemma_variance_zero_iff_constant(xs@);
        let ni = n as int;
        assert(ni * sum_sq <= 1208925819614629174706176) by (nonlinear_arith)
            requires
                ni <= 1048576,
                sum_sq <= 1152921504606846976int,
        ;
        assert(sum * sum <= ni * sum_sq) by {
            assert(variance_num(xs@) == ni * sum_sq - sum * sum);
        }
        assert(ni * ni <= 1099511627776) by (nonlinear_arith)
            requires
                0 < ni <= 1048576,
        ;
        assert(0 < ni * ni) by (nonlinear_arith)
            requires
                0 < ni,
        ;
    }
    Fraction { num: n * sum_sq - sum * sum, den: n * n }
}

} // verus!

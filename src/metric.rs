//! The aspect-ratio badness of a row of the squarified layout, computed
//! exactly as a fraction.
use vstd::prelude::*;

verus! {

pub open spec fn seq_sum(s: Seq<u64>) -> int
    decreases s.len(),
{
    if s.len() == 0 {
        0
    } else {
        seq_sum(s.drop_last()) + s.last()
    }
}

pub open spec fn seq_max(s: Seq<u64>) -> int
    decreases s.len(),
{
    if s.len() == 0 {
        0
    } else if seq_max(s.drop_last()) >= s.last() {
        seq_max(s.drop_last())
    } else {
        s.last() as int
    }
}

pub open spec fn seq_min(s: Seq<u64>) -> int
    decreases s.len(),
{
    if s.len() <= 1 {
        if s.len() == 0 { 0 } else { s[0] as int }
    } else if seq_min(s.drop_last()) <= s.last() {
        seq_min(s.drop_last())
    } else {
        s.last() as int
    }
}

/// The sign of `a / b - c / d` for positive `b` and `d`.
pub open spec fn cmp_spec(a: int, b: int, c: int, d: int) -> int {
    if a * d < c * b {
        -1
    } else if a * d == c * b {
        0
    } else {
        1
    }
}

/// The worst aspect ratio of a row of items of the given sizes laid along a
/// side of length `len`, as a fraction `(numerator, denominator)`: the larger
/// of `len^2 * max / sum^2` and `sum^2 / (len^2 * min)`. Where one of the two
/// has a zero denominator, the other one; where both have, zero.
pub open spec fn worst_spec(row: Seq<u64>, len: int) -> (int, int) {
    let s = seq_sum(row);
    let l2 = len * len;
    let left = (l2 * seq_max(row), s * s);
    let right = (s * s, l2 * seq_min(row));
    if s == 0 || len == 0 {
        (0, 1)
    } else if seq_min(row) == 0 {
        left
    } else if cmp_spec(left.0, left.1, right.0, right.1) >= 0 {
        left
    } else {
        right
    }
}

/// Compares the fractions `a / b` and `c / d` without overflow, by their
/// integer parts and then, reversed, by the reciprocals of their remainders.
pub fn cmp_ratio(a: u128, b: u128, c: u128, d: u128) -> (r: i8)
    requires
        b > 0,
        d > 0,
    ensures
        r == cmp_spec(a as int, b as int, c as int, d as int),
    decreases b + d,
{
    let qa = a / b;
    let ra = a % b;
    let qc = c / d;
    let rc = c % d;
    proof {
        vstd::arithmetic::div_mod::lemma_fundamental_div_mod(a as int, b as int);
        vstd::arithmetic::div_mod::lemma_fundamental_div_mod(c as int, d as int);
    }
    if qa < qc {
        assert(a * d < c * b) by (nonlinear_arith)
            requires
                a == b * qa + ra,
                c == d * qc + rc,
                0 <= ra < b,
                0 <= rc < d,
                qa + 1 <= qc,
                b > 0,
                d > 0,
        ;
        assert(cmp_spec(a as int, b as int, c as int, d as int) == -1);
        -1
    } else if qa > qc {
        assert(a * d > c * b) by (nonlinear_arith)
            requires
                a == b * qa + ra,
                c == d * qc + rc,
                0 <= ra < b,
                0 <= rc < d,
                qc + 1 <= qa,
                b > 0,
                d > 0,
        ;
        assert(cmp_spec(a as int, b as int, c as int, d as int) == 1);
        1
    } else {
        assert(a * d - c * b == ra * d - rc * b) by (nonlinear_arith)
            requires
                a == b * qa + ra,
                c == d * qc + rc,
                qa == qc,
        ;
        if ra == 0 && rc == 0 {
            assert(ra * d - rc * b == 0) by (nonlinear_arith)
                requires
                    ra == 0,
                    rc == 0,
            ;
            0
        } else if ra == 0 {
            assert(a * d < c * b) by (nonlinear_arith)
                requires
                    rc > 0,
                    b > 0,
                    ra == 0,
                    a * d - c * b == ra * d - rc * b,
            ;
            -1
        } else if rc == 0 {
            assert(a * d > c * b) by (nonlinear_arith)
                requires
                    ra > 0,
                    d > 0,
                    rc == 0,
                    a * d - c * b == ra * d - rc * b,
            ;
            1
        } else {
            let s = cmp_ratio(b, ra, d, rc);
            assert(b * rc - d * ra == -(ra * d - rc * b)) by (nonlinear_arith);
            assert(s == -1 ==> a * d > c * b);
            assert(s == 0 ==> a * d == c * b);
            assert(s == 1 ==> a * d < c * b);
            assert(cmp_spec(a as int, b as int, c as int, d as int) == -s);
            -s
        }
    }
}

/// The worst aspect ratio of the items of `row` laid along a side of length
/// `length`, as `(numerator, denominator)`.
pub fn worst(row: &[u64], length: u32) -> (r: (u128, u128))
    requires
        seq_sum(row@) <= u64::MAX,
    ensures
        r.0 == worst_spec(row@, length as int).0,
        r.1 == worst_spec(row@, length as int).1,
        r.1 > 0,
{
    let mut sum: u64 = 0;
    let mut max: u64 = 0;
    let mut min: u64 = 0;
    let mut i: usize = 0;
    while i < row.len()
        invariant
            i <= row@.len(),
            seq_sum(row@) <= u64::MAX,
            sum == seq_sum(row@.take(i as int)),
            max == seq_max(row@.take(i as int)),
            min == seq_min(row@.take(i as int)),
        decreases row@.len() - i,
    {
        let ghost t = row@.take(i as int + 1);
        assert(t.drop_last() == row@.take(i as int));
        proof {
            lemma_seq_sum_prefix(row@, i as int + 1);
        }
        sum = sum + row[i];
        if row[i] > max {
            max = row[i];
        }
        if i == 0 || row[i] < min {
            min = row[i];
        }
        i = i + 1;
    }
    assert(row@.take(i as int) == row@);
    if sum == 0 || length == 0 {
        return (0, 1);
    }
    assert((length as int) * (length as int) <= u32::MAX as int * u32::MAX as int) by (nonlinear_arith)
        requires
            length <= u32::MAX,
    ;
    assert((length as int) * (length as int) > 0) by (nonlinear_arith)
        requires
            length > 0,
    ;
    let l2: u64 = (length as u64) * (length as u64);
    assert((length as int) * (length as int) == l2);
    assert(l2 * max <= u64::MAX * u64::MAX) by (nonlinear_arith)
        requires
            l2 <= u64::MAX,
            max <= u64::MAX,
    ;
    assert(l2 * min <= u64::MAX * u64::MAX) by (nonlinear_arith)
        requires
            l2 <= u64::MAX,
            min <= u64::MAX,
    ;
    assert(sum * sum <= u64::MAX * u64::MAX) by (nonlinear_arith)
        requires
            sum <= u64::MAX,
    ;
    let left_num: u128 = (l2 as u128) * (max as u128);
    let s2: u128 = (sum as u128) * (sum as u128);
    let right_den: u128 = (l2 as u128) * (min as u128);
    assert(s2 > 0) by (nonlinear_arith)
        requires
            sum > 0,
            s2 == sum * sum,
    ;
    if min == 0 {
        return (left_num, s2);
    }
    assert(right_den > 0) by (nonlinear_arith)
        requires
            l2 > 0,
            min > 0,
            right_den == l2 * min,
    ;
    if cmp_ratio(left_num, s2, s2, right_den) >= 0 {
        (left_num, s2)
    } else {
        (s2, right_den)
    }
}

/// Every prefix sums to no more than the whole.
pub proof fn lemma_seq_sum_prefix(s: Seq<u64>, k: int)
    requires
        0 <= k <= s.len(),
    ensures
        0 <= seq_sum(s.take(k)) <= seq_sum(s),
    decreases s.len() - k,
{
    if k < s.len() {
        lemma_seq_sum_prefix(s, k + 1);
        assert(s.take(k + 1).drop_last() == s.take(k));
    } else {
        assert(s.take(k) == s);
    }
    lemma_seq_sum_nonneg(s.take(k));
}

pub proof fn lemma_seq_sum_nonneg(s: Seq<u64>)
    ensures
        seq_sum(s) >= 0,
    decreases s.len(),
{
    if s.len() > 0 {
        lemma_seq_sum_nonneg(s.drop_last());
    }
}

} // verus!

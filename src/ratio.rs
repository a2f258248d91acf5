use vstd::prelude::*;
use vstd::arithmetic::mul::{
    lemma_mul_inequality, lemma_mul_inequality_converse, lemma_mul_is_associative,
    lemma_mul_is_commutative, lemma_mul_strict_inequality,
};
use crate::text::Decimal;

verus! {

pub open spec fn pow10(k: nat) -> nat
    decreases k,
{
    if k == 0 {
        1
    } else {
        10 * pow10((k - 1) as nat)
    }
}

pub proof fn lemma_pow10_positive(k: nat)
    ensures
        pow10(k) >= 1,
    decreases k,
{
    if k > 0 {
        lemma_pow10_positive((k - 1) as nat);
    }
}

pub proof fn lemma_pow10_add(a: nat, b: nat)
    ensures
        pow10(a + b) == pow10(a) * pow10(b),
    decreases b,
{
    if b > 0 {
        let c = (b - 1) as nat;
        lemma_pow10_add(a, c);
        assert((a + b - 1) as nat == a + c);
        let (pa, pc) = (pow10(a) as int, pow10(c) as int);
        assert(pow10(a + b) == 10 * pow10(a + c));
        assert(pow10(b) == 10 * pc);
        assert(10 * (pa * pc) == pa * (10 * pc)) by (nonlinear_arith);
    } else {
        assert(a + b == a);
        assert(pow10(b) == 1);
    }
}

/// The exact quotient `numer / denom` of two decimals.
#[derive(Clone, Copy, Debug, PartialEq, Eq)]
pub struct Ratio {
    pub numer: Decimal,
    pub denom: Decimal,
}

/// The numerator of the quotient over integers: `numer` scaled by the
/// denominator's power of ten.
pub open spec fn scaled_numer(x: Ratio) -> int {
    x.numer.mantissa * pow10(x.denom.scale as nat)
}

/// The denominator of the quotient over integers.
pub open spec fn scaled_denom(x: Ratio) -> int {
    x.denom.mantissa * pow10(x.numer.scale as nat)
}

/// A ratio is well formed when it does not divide by zero.
pub open spec fn ratio_wf(x: Ratio) -> bool {
    x.denom.mantissa > 0
}

/// `a <= b` as rational numbers.
pub open spec fn ratio_le(a: Ratio, b: Ratio) -> bool {
    scaled_numer(a) * scaled_denom(b) <= scaled_numer(b) * scaled_denom(a)
}

pub proof fn lemma_scaled_denom_positive(x: Ratio)
    requires
        ratio_wf(x),
    ensures
        scaled_denom(x) > 0,
{
    lemma_pow10_positive(x.numer.scale as nat);
    lemma_mul_inequality(1, x.denom.mantissa as int, pow10(x.numer.scale as nat) as int);
}

/// The order of ratios is transitive.
pub proof fn lemma_ratio_le_transitive(a: Ratio, b: Ratio, c: Ratio)
    requires
        ratio_wf(a),
        ratio_wf(b),
        ratio_wf(c),
        ratio_le(a, b),
        ratio_le(b, c),
    ensures
        ratio_le(a, c),
{
    lemma_scaled_denom_positive(a);
    lemma_scaled_denom_positive(b);
    lemma_scaled_denom_positive(c);
    let (na, nb, nc) = (scaled_numer(a), scaled_numer(b), scaled_numer(c));
    let (da, db, dc) = (scaled_denom(a), scaled_denom(b), scaled_denom(c));
    assert(na * dc * db <= nc * da * db) by (nonlinear_arith)
        requires
            na * db <= nb * da,
            nb * dc <= nc * db,
            da > 0,
            db > 0,
            dc > 0,
    ;
    lemma_mul_inequality_converse(na * dc, nc * da, db);
}

/// The sign of `x * 10^k - y`: -1, 0 or 1.
fn scaled_cmp(x: u128, k: u64, y: u128) -> (r: i8)
    ensures
        r == (if x * pow10(k as nat) < y {
            -1i8
        } else if x * pow10(k as nat) == y {
            0i8
        } else {
            1i8
        }),
{
    if x == 0 {
        assert(x * pow10(k as nat) == 0);
        return if y == 0 { 0 } else { -1 };
    }
    let mut cur: u128 = x;
    let mut j: u64 = 0;
    assert(pow10(0) == 1);
    assert(x * pow10(0) == x);
    while j < k
        invariant
            j <= k,
            cur == x * pow10(j as nat),
        decreases k - j,
    {
        if cur > y / 10 {
            proof {
                let rest = (k - j - 1) as nat;
                lemma_pow10_add(j as nat, (rest + 1) as nat);
                lemma_pow10_positive(rest);
                assert(pow10((rest + 1) as nat) == 10 * pow10(rest));
                lemma_mul_is_associative(x as int, pow10(j as nat) as int, pow10((rest + 1) as nat) as int);
                assert(cur * pow10((rest + 1) as nat) >= cur * 10) by (nonlinear_arith)
                    requires pow10((rest + 1) as nat) >= 10, cur >= 0;
                assert(cur * 10 > y) by (nonlinear_arith)
                    requires cur > y / 10, y >= 0;
            }
            return 1;
        }
        assert(cur * 10 <= y) by (nonlinear_arith)
            requires cur <= y / 10, y >= 0;
        proof {
            assert(pow10((j + 1) as nat) == 10 * pow10(j as nat));
            lemma_mul_is_associative(x as int, pow10(j as nat) as int, 10);
            lemma_mul_is_commutative(pow10(j as nat) as int, 10);
        }
        cur = cur * 10;
        j = j + 1;
    }
    if cur < y {
        -1
    } else if cur == y {
        0
    } else {
        1
    }
}

impl Ratio {
    /// Whether `self <= other` as rational numbers.
    pub fn le(&self, other: &Ratio) -> (r: bool)
        requires
            ratio_wf(*self),
            ratio_wf(*other),
        ensures
            r == ratio_le(*self, *other),
    {
        proof {
            let (m, n) = (self.numer.mantissa as int, other.denom.mantissa as int);
            assert(m * n <= u128::MAX) by (nonlinear_arith)
                requires 0 <= m <= u64::MAX, 0 <= n <= u64::MAX;
            let (m2, n2) = (other.numer.mantissa as int, self.denom.mantissa as int);
            assert(m2 * n2 <= u128::MAX) by (nonlinear_arith)
                requires 0 <= m2 <= u64::MAX, 0 <= n2 <= u64::MAX;
        }
        let x: u128 = self.numer.mantissa as u128 * other.denom.mantissa as u128;
        let y: u128 = other.numer.mantissa as u128 * self.denom.mantissa as u128;
        let e1: u64 = self.denom.scale as u64 + other.numer.scale as u64;
        let e2: u64 = other.denom.scale as u64 + self.numer.scale as u64;
        let ghost (an, ad, bn, bd) = (
            self.numer.mantissa as int,
            self.denom.mantissa as int,
            other.numer.mantissa as int,
            other.denom.mantissa as int,
        );
        let ghost (pan, pad, pbn, pbd) = (
            pow10(self.numer.scale as nat) as int,
            pow10(self.denom.scale as nat) as int,
            pow10(other.numer.scale as nat) as int,
            pow10(other.denom.scale as nat) as int,
        );
        proof {
            lemma_pow10_add(self.denom.scale as nat, other.numer.scale as nat);
            lemma_pow10_add(other.denom.scale as nat, self.numer.scale as nat);
            // lhs == x * 10^e1, rhs == y * 10^e2
            assert(scaled_numer(*self) * scaled_denom(*other) == x * (pad * pbn)) by (nonlinear_arith)
                requires
                    x == an * bd,
                    scaled_numer(*self) == an * pad,
                    scaled_denom(*other) == bd * pbn,
            ;
            assert(scaled_numer(*other) * scaled_denom(*self) == y * (pbd * pan)) by (nonlinear_arith)
                requires
                    y == bn * ad,
                    scaled_numer(*other) == bn * pbd,
                    scaled_denom(*self) == ad * pan,
            ;
        }
        if e1 >= e2 {
            let d = e1 - e2;
            proof {
                lemma_pow10_add(d as nat, e2 as nat);
                lemma_pow10_positive(e2 as nat);
                let p = pow10(e2 as nat) as int;
                let q = pow10(d as nat) as int;
                assert(x * (q * p) == (x * q) * p) by (nonlinear_arith);
                if x * q <= y {
                    lemma_mul_inequality(x * q, y as int, p);
                } else {
                    lemma_mul_strict_inequality(y as int, x * q, p);
                }
            }
            scaled_cmp(x, d, y) <= 0
        } else {
            let d = e2 - e1;
            proof {
                lemma_pow10_add(d as nat, e1 as nat);
                lemma_pow10_positive(e1 as nat);
                let p = pow10(e1 as nat) as int;
                let q = pow10(d as nat) as int;
                assert(y * (q * p) == (y * q) * p) by (nonlinear_arith);
                if x <= y * q {
                    lemma_mul_inequality(x as int, y * q, p);
                } else {
                    lemma_mul_strict_inequality(y * q, x as int, p);
                }
            }
            scaled_cmp(y, d, x) >= 0
        }
    }
}

} // verus!

//! Numbers with a fraction: degrees, metres a second. A number is a finite
//! 64-bit float, held as its bits, so that it is compared and handed on
//! without ever being rounded.

use vstd::arithmetic::power2::{
    lemma_pow2_adds,
    lemma_pow2_pos,
    lemma_pow2_strictly_increases,
    lemma_pow2_unfold,
    pow2,
};
use vstd::prelude::*;

verus! {

/// 2^52: one past the largest fraction.
pub const FRACTION: u64 = 0x10_0000_0000_0000;

/// 2^63: the bit that makes a number negative.
pub const SIGN: u64 = 0x8000_0000_0000_0000;

/// Whether bits are a finite number's.
pub open spec fn finite64(bits: u64) -> bool {
    bits as int / FRACTION as int % 2048 != 2047
}

/// How far from zero the bits below the sign put a number, in the smallest
/// steps there are: 2^-1074.
pub open spec fn magnitude(low: int) -> int {
    let e = low / FRACTION as int;
    let f = low % FRACTION as int;
    if e == 0 {
        f
    } else {
        (FRACTION + f) * pow2((e - 1) as nat)
    }
}

/// The number bits stand for, in steps of 2^-1074.
pub open spec fn worth(bits: u64) -> int {
    if bits >= SIGN {
        -magnitude(bits - SIGN)
    } else {
        magnitude(bits as int)
    }
}

/// The whole number `n`, in steps of 2^-1074.
pub open spec fn whole(n: int) -> int {
    n * pow2(1074)
}

/// A finite number.
#[derive(Clone, Copy, Debug)]
pub struct Real {
    bits: u64,
}

impl View for Real {
    type V = u64;

    closed spec fn view(&self) -> u64 {
        self.bits
    }
}

/// Bits further up put a number further from zero.
proof fn lemma_magnitude_grows(a: int, b: int)
    requires
        0 <= a < b,
    ensures
        0 <= magnitude(a) < magnitude(b),
{
    let k = FRACTION as int;
    let (ea, fa) = (a / k, a % k);
    let (eb, fb) = (b / k, b % k);
    assert(a == ea * k + fa && b == eb * k + fb && 0 <= fa < k && 0 <= fb < k);
    assert(ea <= eb);
    if ea > 0 {
        lemma_pow2_pos((ea - 1) as nat);
    }
    if eb > 0 {
        lemma_pow2_pos((eb - 1) as nat);
    }
    if eb == 0 {
    } else if ea == 0 {
        let p = pow2((eb - 1) as nat) as int;
        assert((k + fb) * p >= k) by (nonlinear_arith)
            requires
                p >= 1,
                fb >= 0,
                k >= 0,
        ;
    } else if ea == eb {
        let p = pow2((eb - 1) as nat) as int;
        assert(0 <= (k + fa) * p < (k + fb) * p) by (nonlinear_arith)
            requires
                p >= 1,
                0 <= fa < fb,
                k > 0,
        ;
    } else {
        let p = pow2((ea - 1) as nat) as int;
        let q = pow2((eb - 1) as nat) as int;
        lemma_pow2_unfold(ea as nat);
        if ea < eb - 1 {
            lemma_pow2_strictly_increases(ea as nat, (eb - 1) as nat);
        }
        assert(0 <= (k + fa) * p < (k + fb) * q) by (nonlinear_arith)
            requires
                p >= 1,
                q >= 2 * p,
                0 <= fa < k,
                0 <= fb,
        ;
    }
}

/// Two numbers compare as their bits do.
pub proof fn lemma_order(a: u64, b: u64)
    ensures
        (worth(a) < worth(b)) == (if a >= SIGN {
            if b >= SIGN {
                a > b
            } else {
                a > SIGN || b > 0
            }
        } else {
            b < SIGN && a < b
        }),
{
    let la = if a >= SIGN {
        a - SIGN
    } else {
        a as int
    };
    let lb = if b >= SIGN {
        b - SIGN
    } else {
        b as int
    };
    if la < lb {
        lemma_magnitude_grows(la, lb);
    } else if lb < la {
        lemma_magnitude_grows(lb, la);
    }
    if la > 0 {
        lemma_magnitude_grows(0, la);
    }
    if lb > 0 {
        lemma_magnitude_grows(0, lb);
    }
    assert(magnitude(0) == 0);
}

impl Real {
    #[verifier::type_invariant]
    spec fn finite(self) -> bool {
        finite64(self.bits)
    }

    /// The number with these bits, unless they're an infinity's or not a
    /// number's.
    pub fn new(bits: u64) -> (r: Option<Real>)
        ensures
            r is Some <==> finite64(bits),
            r matches Some(x) ==> x@ == bits,
    {
        if bits / FRACTION % 2048 == 2047 {
            return None;
        }
        Some(Real { bits })
    }

    /// Nothing.
    pub fn zero() -> (r: Real)
        ensures
            r@ == 0,
    {
        Real { bits: 0 }
    }

    /// The number's bits.
    pub fn bits(&self) -> (r: u64)
        ensures
            r == self@,
            finite64(r),
    {
        proof {
            use_type_invariant(self);
        }
        self.bits
    }

    /// Whether this is less than `other`.
    pub fn less(&self, other: &Real) -> (r: bool)
        ensures
            r == (worth(self@) < worth(other@)),
    {
        let a: u64 = self.bits;
        let b: u64 = other.bits;
        proof {
            lemma_order(a, b);
        }
        if a >= SIGN {
            if b >= SIGN {
                a > b
            } else {
                a > SIGN || b > 0
            }
        } else {
            b < SIGN && a < b
        }
    }

    /// Whether this is the number `other` is.
    pub fn equals(&self, other: &Real) -> (r: bool)
        ensures
            r == (worth(self@) == worth(other@)),
    {
        !self.less(other) && !other.less(self)
    }

    /// Whether this is between two numbers, or one of them.
    pub fn within(&self, low: &Real, high: &Real) -> (r: bool)
        ensures
            r == (worth(low@) <= worth(self@) <= worth(high@)),
    {
        !self.less(low) && !high.less(self)
    }

    /// A whole number.
    pub fn whole(n: i32) -> (r: Real)
        ensures
            worth(r@) == whole(n as int),
    {
        let ghost size = if n < 0 {
            -(n as int)
        } else {
            n as int
        };
        let mut m: u64 = if n < 0 {
            (-(n as i64)) as u64
        } else {
            n as u64
        };
        if m == 0 {
            assert(magnitude(0) == 0);
            return Real { bits: 0 };
        }
        let mut k: u64 = 0;
        proof {
            lemma_pow2_adds(0, 1074);
            assert(pow2(0) == 1) by {
                vstd::arithmetic::power2::lemma2_to64();
            }
        }
        while m < FRACTION
            invariant
                1 <= m < 2 * FRACTION,
                k <= 52,
                m as int == size * pow2(k as nat),
                1 <= size,
                k < 52 || m >= FRACTION,
                m >= pow2(k as nat),
            decreases 2 * FRACTION - m,
        {
            proof {
                lemma_pow2_unfold((k + 1) as nat);
                let p = pow2(k as nat) as int;
                assert(size * (2 * p) == 2 * (size * p)) by (nonlinear_arith);
                if k == 51 {
                    vstd::arithmetic::power2::lemma2_to64_rest();
                }
            }
            m = m * 2;
            k = k + 1;
        }
        let low: u64 = (1075 - k) * FRACTION + (m - FRACTION);
        let bits: u64 = if n < 0 {
            SIGN + low
        } else {
            low
        };
        proof {
            assert(low as int / FRACTION as int == 1075 - k);
            assert(low as int % FRACTION as int == m - FRACTION);
            lemma_pow2_adds(k as nat, (1074 - k) as nat);
            let p = pow2(k as nat) as int;
            let q = pow2((1074 - k) as nat) as int;
            assert((size * p) * q == size * (p * q)) by (nonlinear_arith);
            assert(n < 0 ==> (-size) * (p * q) == -(size * (p * q))) by (nonlinear_arith);
            assert(bits as int / FRACTION as int % 2048 == 1075 - k);
        }
        Real { bits }
    }
}

// --- Whole parts ------------------------------------------------------------------

/// 2^-60 of one, in steps of 2^-1074.
pub open spec fn tick() -> int {
    pow2(1014) as int
}

/// 2^`k`.
fn two_to(k: u64) -> (r: u128)
    requires
        k <= 126,
    ensures
        r == pow2(k as nat),
{
    let mut p: u128 = 1;
    let mut i: u64 = 0;
    proof {
        vstd::arithmetic::power2::lemma2_to64();
    }
    while i < k
        invariant
            i <= k <= 126,
            p == pow2(i as nat),
        decreases k - i,
    {
        proof {
            lemma_pow2_unfold((i + 1) as nat);
            lemma_pow2_adds(63, 63);
            vstd::arithmetic::power2::lemma2_to64_rest();
            if i + 1 < 126 {
                lemma_pow2_strictly_increases((i + 1) as nat, 126);
            }
        }
        p = p * 2;
        i += 1;
    }
    p
}

/// How many whole ticks there are in a magnitude below 2^66, and whether
/// there is more.
fn ticks(low: u64) -> (r: (u128, bool))
    requires
        low < 1089 * FRACTION,
    ensures
        r.0 * tick() <= magnitude(low as int) < (r.0 + 1) * tick(),
        r.1 == (magnitude(low as int) != r.0 * tick()),
        r.0 < 0x4000_0000_0000_0000_0000_0000_0000_0000,
        r.1 ==> r.0 < 0x20_0000_0000_0000,
{
    let e: u64 = low / FRACTION;
    let f: u64 = low % FRACTION;
    proof {
        lemma_pow2_strictly_increases(53, 1014);
        vstd::arithmetic::power2::lemma2_to64_rest();
        let t = tick();
        assert(0 * t == 0 && (0 + 1) * t == t) by (nonlinear_arith);
    }
    if e == 0 {
        return (0, f > 0);
    }
    let s: u64 = FRACTION + f;
    let ghost g = pow2((e - 1) as nat) as int;
    if e >= 1015 {
        let k: u64 = e - 1015;
        let p: u128 = two_to(k);
        proof {
            lemma_pow2_adds(k as nat, 1014);
            lemma_pow2_pos(1014);
            lemma_pow2_adds(53, 73);
            lemma_pow2_pos(k as nat);
            if k < 73 {
                lemma_pow2_strictly_increases(k as nat, 73);
            }
            let t = tick();
            let (a, b) = (s as int, p as int);
            assert(a * (b * t) == (a * b) * t) by (nonlinear_arith);
            assert((a * b + 1) * t == (a * b) * t + t) by (nonlinear_arith);
            assert(a * b < 0x20_0000_0000_0000 * pow2(73)) by (nonlinear_arith)
                requires
                    0 < a < 0x20_0000_0000_0000,
                    0 < b <= pow2(73),
            ;
            assert(pow2(126) == 0x4000_0000_0000_0000_0000_0000_0000_0000) by {
                lemma_pow2_adds(63, 63);
            }
        }
        return (s as u128 * p, false);
    }
    let k: u64 = 1015 - e;
    proof {
        lemma_pow2_adds(k as nat, (e - 1) as nat);
        lemma_pow2_pos((e - 1) as nat);
    }
    if k >= 53 {
        proof {
            if k > 53 {
                lemma_pow2_strictly_increases(53, k as nat);
            }
            let p = pow2(k as nat) as int;
            assert(0 < s * g < p * g) by (nonlinear_arith)
                requires
                    0 < s < p,
                    g > 0,
            ;
        }
        return (0, true);
    }
    let p: u128 = two_to(k);
    proof {
        lemma_pow2_pos(k as nat);
    }
    let q: u128 = s as u128 / p;
    let rest: u128 = s as u128 % p;
    proof {
        let (a, b, c) = (s as int, p as int, q as int);
        vstd::arithmetic::div_mod::lemma_fundamental_div_mod(a, b);
        vstd::arithmetic::div_mod::lemma_mod_bound(a, b);
        let d = rest as int;
        assert(a == b * c + d);
        assert(c * (b * g) <= a * g < (c + 1) * (b * g)) by (nonlinear_arith)
            requires
                a == b * c + d,
                0 <= d < b,
                g > 0,
        ;
        assert((a * g == c * (b * g)) == (d == 0)) by (nonlinear_arith)
            requires
                a == b * c + d,
                0 <= d < b,
                g > 0,
        ;
        assert(c <= a) by (nonlinear_arith)
            requires
                a == b * c + d,
                b >= 1,
                d >= 0,
                c >= 0,
        ;
    }
    (q, rest > 0)
}

impl Real {
    /// How many whole ticks a number is past zero, rounded down, and whether
    /// there is more: None from 2^66 on either way.
    fn floor_ticks(&self) -> (r: Option<(i128, bool)>)
        ensures
            r is Some <==> self@ % SIGN < 1089 * FRACTION,
            r matches Some((q, more)) ==> {
                &&& q * tick() <= worth(self@) < (q + 1) * tick()
                &&& more == (worth(self@) != q * tick())
                &&& -0x4000_0000_0000_0000_0000_0000_0000_0000 <= q
                    < 0x4000_0000_0000_0000_0000_0000_0000_0000
                &&& more ==> -0x20_0000_0000_0000 <= q < 0x20_0000_0000_0000
            },
    {
        let low: u64 = self.bits % SIGN;
        if low >= 1089 * FRACTION {
            return None;
        }
        let (q, more) = ticks(low);
        if self.bits >= SIGN {
            proof {
                let (a, t) = (q as int, tick());
                assert((-a) * t == -(a * t)) by (nonlinear_arith);
                assert((-a + 1) * t == -(a * t) + t) by (nonlinear_arith);
                assert((-a - 1) * t == -(a * t) - t) by (nonlinear_arith);
                assert((a + 1) * t == a * t + t) by (nonlinear_arith);
                lemma_pow2_pos(1014);
            }
            if more {
                Some((-(q as i128) - 1, true))
            } else {
                Some((-(q as i128), false))
            }
        } else {
            Some((q as i128, more))
        }
    }
}

/// The most the difference of two numbers may be to round to `n`, a whole
/// number from 8 to 15, or less: halfway to the next number there is.
pub open spec fn rounds_to(n: int) -> int {
    whole(n) + pow2(1024)
}

/// Numbers 2^66 and further from zero are at least 2^13 from any other.
proof fn lemma_far_apart(low: u64, high: u64)
    requires
        worth(low) < worth(high),
        low % SIGN >= 1089 * FRACTION || high % SIGN >= 1089 * FRACTION,
    ensures
        worth(high) - worth(low) >= pow2(1087),
{
    let a = (low % SIGN) as int;
    let b = (high % SIGN) as int;
    let step = pow2(1087) as int;
    lemma_pow2_pos(1087);
    lemma_steps(a);
    lemma_steps(b);
    let far = 1089 * FRACTION;
    let (m, n) = (magnitude(a), magnitude(b));
    let (x, y) = (m / step, n / step);
    if a >= far && b >= far {
        // Both are whole steps.
        assert(m == x * step && n == y * step);
        let d = worth(high) - worth(low);
        let k = (if high >= SIGN {
            -y
        } else {
            y
        }) - (if low >= SIGN {
            -x
        } else {
            x
        });
        assert((-y) * step == -(y * step) && (-x) * step == -(x * step)) by (nonlinear_arith);
        assert(d == k * step) by (nonlinear_arith)
            requires
                m == x * step,
                n == y * step,
                d == (if high >= SIGN {
                    -n
                } else {
                    n
                }) - (if low >= SIGN {
                    -m
                } else {
                    m
                }),
                k == (if high >= SIGN {
                    -y
                } else {
                    y
                }) - (if low >= SIGN {
                    -x
                } else {
                    x
                }),
        ;
        assert(d >= step) by (nonlinear_arith)
            requires
                d == k * step,
                d > 0,
                step > 0,
        ;
    }
}

/// From 2^66 on numbers are whole steps of 2^13, and those below it stop a
/// step short of it.
proof fn lemma_steps(low: int)
    requires
        0 <= low < SIGN,
    ensures
        low >= 1089 * FRACTION ==> magnitude(low) == (magnitude(low) / pow2(1087) as int) * pow2(
            1087,
        ),
        low >= 1089 * FRACTION ==> magnitude(low) >= pow2(1140),
        0 <= magnitude(low),
        low < 1089 * FRACTION ==> magnitude(low) <= pow2(1140) - pow2(1087),
        pow2(1087) > 0,
{
    let k = FRACTION as int;
    let (e, f) = (low / k, low % k);
    lemma_pow2_pos(1087);
    vstd::arithmetic::power2::lemma2_to64_rest();
    if low > 0 {
        lemma_magnitude_grows(0, low);
    }
    assert(magnitude(0) == 0);
    lemma_pow2_adds(53, 1087);
    if low >= 1089 * FRACTION {
        let s = k + f;
        let extra = pow2((e - 1088) as nat) as int;
        let step = pow2(1087) as int;
        lemma_pow2_adds((e - 1088) as nat, 1087);
        lemma_pow2_pos((e - 1088) as nat);
        if e > 1089 {
            lemma_pow2_strictly_increases(1, (e - 1088) as nat);
        }
        assert(s * (extra * step) == (s * extra) * step) by (nonlinear_arith);
        vstd::arithmetic::div_mod::lemma_div_multiples_vanish(s * extra, step);
        assert(step * (s * extra) == (s * extra) * step) by (nonlinear_arith);
        vstd::arithmetic::power2::lemma2_to64();
        assert(s * extra * step >= 0x20_0000_0000_0000 * step) by (nonlinear_arith)
            requires
                s >= 0x10_0000_0000_0000,
                extra >= 2,
                step > 0,
        ;
    } else {
        let top = 1089 * FRACTION - 1;
        assert(top / k == 1088 && top % k == k - 1) by (nonlinear_arith)
            requires
                k == 0x10_0000_0000_0000,
                top == 1089 * k - 1,
        ;
        let step = pow2(1087) as int;
        assert((0x20_0000_0000_0000 - 1) * step == 0x20_0000_0000_0000 * step - step)
            by (nonlinear_arith);
        if low < top {
            lemma_magnitude_grows(low, top);
        }
    }
}

impl Real {
    /// Whether a number, taken from one above it and rounded to a number,
    /// leaves more than `n`.
    pub fn spans_more_than(&self, high: &Real, n: u32) -> (r: bool)
        requires
            worth(self@) < worth(high@),
            8 <= n <= 15,
        ensures
            r == (worth(high@) - worth(self@) > rounds_to(n as int)),
    {
        let limit: i128 = n as i128 * 0x1000_0000_0000_0000 + 1024;
        let ghost t = tick();
        proof {
            lemma_pow2_pos(1014);
            lemma_pow2_adds(60, 1014);
            lemma_pow2_adds(10, 1014);
            vstd::arithmetic::power2::lemma2_to64();
            vstd::arithmetic::power2::lemma2_to64_rest();
            assert(n * (0x1000_0000_0000_0000 * t) + 1024 * t == (n * 0x1000_0000_0000_0000 + 1024)
                * t) by (nonlinear_arith);
        }
        assert(rounds_to(n as int) == limit * t);
        match (self.floor_ticks(), high.floor_ticks()) {
            (Some((low, low_more)), Some((top, top_more))) => {
                let d: i128 = top - low;
                proof {
                    let (a, b, k) = (top as int, low as int, limit as int);
                    let (hi, lo) = (worth(high@), worth(self@));
                    assert(a - b > k ==> hi - lo > k * t) by (nonlinear_arith)
                        requires
                            a * t <= hi,
                            lo < (b + 1) * t,
                            t > 0,
                    ;
                    assert(a - b < k ==> hi - lo < k * t) by (nonlinear_arith)
                        requires
                            hi < (a + 1) * t,
                            b * t <= lo,
                            t > 0,
                    ;
                    assert(a - b == k ==> a * t - b * t == k * t) by (nonlinear_arith);
                }
                d > limit || d == limit && top_more
            },
            _ => {
                proof {
                    lemma_far_apart(self@, high@);
                    lemma_pow2_adds(73, 1014);
                    lemma_pow2_adds(60, 13);
                    let p = pow2(73) as int;
                    assert(limit * t < p * t) by (nonlinear_arith)
                        requires
                            limit < p,
                            t > 0,
                    ;
                }
                true
            },
        }
    }
}

/// The whole number nearest a number, halves away from zero.
pub open spec fn nearest(w: int) -> int {
    if w >= 0 {
        (w + pow2(1073)) / pow2(1074) as int
    } else {
        -((-w + pow2(1073)) / pow2(1074) as int)
    }
}

/// A whole number, as near as 64 bits can hold it.
pub open spec fn to_i64(n: int) -> int {
    if n > i64::MAX {
        i64::MAX as int
    } else if n < i64::MIN {
        i64::MIN as int
    } else {
        n
    }
}

/// A magnitude's nearest whole number, from its ticks.
proof fn lemma_nearest(m: int, q: int)
    requires
        0 <= q,
        q * tick() <= m < (q + 1) * tick(),
    ensures
        (m + pow2(1073)) / pow2(1074) as int == (q + 0x800_0000_0000_0000)
            / 0x1000_0000_0000_0000,
{
    let t = tick();
    let c = (q + 0x800_0000_0000_0000) / 0x1000_0000_0000_0000;
    let one = 0x1000_0000_0000_0000 * t;
    lemma_pow2_pos(1014);
    lemma_pow2_adds(60, 1014);
    lemma_pow2_adds(59, 1014);
    vstd::arithmetic::power2::lemma2_to64();
    vstd::arithmetic::power2::lemma2_to64_rest();
    let x = m + 0x800_0000_0000_0000 * t;
    assert(c * 0x1000_0000_0000_0000 <= q + 0x800_0000_0000_0000);
    assert(q + 0x800_0000_0000_0000 + 1 <= (c + 1) * 0x1000_0000_0000_0000);
    assert(c * one <= x < c * one + one) by (nonlinear_arith)
        requires
            c * 0x1000_0000_0000_0000 <= q + 0x800_0000_0000_0000,
            q + 0x800_0000_0000_0000 + 1 <= (c + 1) * 0x1000_0000_0000_0000,
            q * t <= m < (q + 1) * t,
            x == m + 0x800_0000_0000_0000 * t,
            one == 0x1000_0000_0000_0000 * t,
            t > 0,
    ;
    vstd::arithmetic::div_mod::lemma_fundamental_div_mod_converse(x, one, c, x - c * one);
}

/// Numbers 2^66 and further from zero round to more than 64 bits hold.
proof fn lemma_far_nearest(low: int)
    requires
        1089 * FRACTION <= low < SIGN,
    ensures
        (magnitude(low) + pow2(1073)) / pow2(1074) as int > i64::MAX,
        magnitude(low) > 0,
{
    lemma_steps(low);
    let m = magnitude(low);
    let one = pow2(1074) as int;
    lemma_pow2_pos(1074);
    lemma_pow2_pos(1073);
    lemma_pow2_adds(66, 1074);
    lemma_pow2_adds(63, 3);
    vstd::arithmetic::power2::lemma2_to64();
    vstd::arithmetic::power2::lemma2_to64_rest();
    let x = m + pow2(1073);
    let big = 0x4_0000_0000_0000_0000int;
    assert(x >= big * one);
    vstd::arithmetic::div_mod::lemma_div_is_ordered(big * one, x, one);
    vstd::arithmetic::div_mod::lemma_div_multiples_vanish(big, one);
    assert(one * big == big * one) by (nonlinear_arith);
}

impl Real {
    /// The whole number nearest this, halves away from zero, as near as 64
    /// bits can hold it.
    pub fn rounded(&self) -> (r: i64)
        ensures
            r as int == to_i64(nearest(worth(self@))),
    {
        let low: u64 = self.bits % SIGN;
        let negative = self.bits >= SIGN;
        if low >= 1089 * FRACTION {
            proof {
                lemma_far_nearest(low as int);
            }
            return if negative {
                i64::MIN
            } else {
                i64::MAX
            };
        }
        let (q, _) = ticks(low);
        let n: u128 = (q + 0x800_0000_0000_0000) / 0x1000_0000_0000_0000;
        proof {
            lemma_nearest(magnitude(low as int), q as int);
            if low > 0 {
                lemma_magnitude_grows(0, low as int);
            } else {
                assert(magnitude(0) == 0);
                assert(n == 0) by {
                    lemma_pow2_unfold(1074);
                    lemma_pow2_pos(1073);
                    vstd::arithmetic::div_mod::lemma_basic_div(
                        pow2(1073) as int,
                        pow2(1074) as int,
                    );
                }
            }
        }
        if negative {
            if n > 0x8000_0000_0000_0000 {
                i64::MIN
            } else {
                (-(n as i128)) as i64
            }
        } else if n > 0x7fff_ffff_ffff_ffff {
            i64::MAX
        } else {
            n as i64
        }
    }
}

// --- Reading ----------------------------------------------------------------------

/// What `str::parse` makes of a text as a 64-bit float: its bits, if it reads
/// and is finite.
pub uninterp spec fn spelled(text: Seq<char>) -> Option<u64>;

/// `str::parse`, to a 64-bit float: the bits of the number `text` spells, if
/// it spells one and `serde_json::Number` takes it, which is if it is finite.
#[verifier::external_body]
fn read_bits(text: &str) -> (r: Option<u64>)
    ensures
        r == spelled(text@),
        r matches Some(bits) ==> finite64(bits),
{
    serde_json::Number::from_f64(text.parse().ok()?)?.as_f64().map(|x| x.to_bits())
}

impl Real {
    /// The finite number `text` spells, if it spells one.
    pub fn parse(text: &str) -> (r: Option<Real>)
        ensures
            r matches Some(x) ==> spelled(text@) == Some(x@),
            r is None ==> spelled(text@) is None,
    {
        match read_bits(text) {
            Some(bits) => Real::new(bits),
            None => None,
        }
    }
}

} // verus!

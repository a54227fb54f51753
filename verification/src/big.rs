//! Whole numbers of any size, for comparing what no machine word holds.

use crate::text::ten_to;
use vstd::arithmetic::power2::{lemma_pow2_adds, lemma_pow2_pos, pow2};
use vstd::prelude::*;

verus! {

/// The `i`th limb, and none past the last.
spec fn limb(v: Seq<u32>, i: int) -> int {
    if 0 <= i < v.len() {
        v[i] as int
    } else {
        0
    }
}

/// What one in limb `i` is worth.
spec fn unit(i: int) -> int {
    pow2((32 * i) as nat) as int
}

/// What the first `n` limbs come to.
spec fn sum(v: Seq<u32>, n: int) -> int
    decreases n,
{
    if n <= 0 {
        0
    } else {
        sum(v, n - 1) + limb(v, n - 1) * unit(n - 1)
    }
}

/// A whole number, never negative.
pub struct Big {
    /// 32 bits each, the least significant first.
    limbs: Vec<u32>,
}

impl View for Big {
    type V = int;

    closed spec fn view(&self) -> int {
        sum(self.limbs@, self.limbs@.len() as int)
    }
}

proof fn lemma_unit(i: int)
    requires
        0 <= i,
    ensures
        unit(i) >= 1,
        unit(i + 1) == 0x1_0000_0000 * unit(i),
        unit(0) == 1,
{
    lemma_pow2_pos((32 * i) as nat);
    lemma_pow2_adds(32, (32 * i) as nat);
    vstd::arithmetic::power2::lemma2_to64();
}

/// The first `n` limbs come to less than one in the next.
proof fn lemma_sum_bound(v: Seq<u32>, n: int)
    requires
        0 <= n,
    ensures
        0 <= sum(v, n) < unit(n),
    decreases n,
{
    lemma_unit(n);
    if n > 0 {
        lemma_sum_bound(v, n - 1);
        lemma_unit(n - 1);
        let (a, u) = (limb(v, n - 1), unit(n - 1));
        assert(0 <= a * u <= 0xffff_ffff * u) by (nonlinear_arith)
            requires
                0 <= a <= 0xffff_ffff,
                u >= 1,
        ;
    }
}

/// There is nothing past the last limb.
proof fn lemma_sum_past(v: Seq<u32>, n: int)
    requires
        v.len() <= n,
    ensures
        sum(v, n) == sum(v, v.len() as int),
    decreases n,
{
    if v.len() < n {
        lemma_sum_past(v, n - 1);
        assert(0 * unit(n - 1) == 0);
    }
}

/// The first `n` limbs come to the same in numbers that share them.
proof fn lemma_sum_same(v: Seq<u32>, w: Seq<u32>, n: int)
    requires
        forall|i: int| 0 <= i < n ==> limb(v, i) == limb(w, i),
    ensures
        sum(v, n) == sum(w, n),
    decreases n,
{
    if n > 0 {
        lemma_sum_same(v, w, n - 1);
    }
}

/// One more limb at the top.
proof fn lemma_push(v: Seq<u32>, x: u32)
    ensures
        sum(v.push(x), v.len() as int + 1) == sum(v, v.len() as int) + x * unit(v.len() as int),
{
    lemma_sum_same(v.push(x), v, v.len() as int);
}

impl Big {
    /// `n` times two to the `shift`.
    pub fn of(n: u32, shift: u32) -> (r: Big)
        ensures
            r@ == n * pow2(shift as nat),
    {
        let mut limbs: Vec<u32> = Vec::new();
        let places: u32 = shift / 32;
        let mut i: u32 = 0;
        while i < places
            invariant
                i <= places,
                limbs@.len() == i,
                sum(limbs@, i as int) == 0,
            decreases places - i,
        {
            proof {
                lemma_push(limbs@, 0);
                assert(0 * unit(i as int) == 0);
            }
            limbs.push(0);
            i += 1;
        }
        let rest: u32 = shift % 32;
        let mut m: u64 = n as u64;
        let mut j: u32 = 0;
        proof {
            vstd::arithmetic::power2::lemma2_to64();
        }
        while j < rest
            invariant
                j <= rest < 32,
                m as int == n * pow2(j as nat),
                m <= 0xffff_ffff * pow2(j as nat),
                pow2(j as nat) <= 0x8000_0000,
                pow2(32) == 0x1_0000_0000,
            decreases rest - j,
        {
            proof {
                vstd::arithmetic::power2::lemma_pow2_unfold((j + 1) as nat);
                let p = pow2(j as nat) as int;
                assert(n * (2 * p) == 2 * (n * p)) by (nonlinear_arith);
                if j + 1 < 32 {
                    vstd::arithmetic::power2::lemma_pow2_strictly_increases((j + 1) as nat, 32);
                    if j + 1 < 31 {
                        vstd::arithmetic::power2::lemma_pow2_strictly_increases(
                            (j + 1) as nat,
                            31,
                        );
                    }
                    vstd::arithmetic::power2::lemma_pow2_unfold(32);
                }
            }
            m = m * 2;
            j += 1;
        }
        let low: u32 = (m % 0x1_0000_0000) as u32;
        let high: u32 = (m / 0x1_0000_0000) as u32;
        proof {
            lemma_push(limbs@, low);
            lemma_push(limbs@.push(low), high);
            lemma_unit(places as int);
            let u = unit(places as int);
            lemma_pow2_adds((32 * places) as nat, rest as nat);
            let p = pow2(rest as nat) as int;
            assert(low * u + high * (0x1_0000_0000 * u) == (low + high * 0x1_0000_0000) * u) by (
            nonlinear_arith);
            assert((n * p) * u == n * (u * p)) by (nonlinear_arith);
        }
        limbs.push(low);
        limbs.push(high);
        Big { limbs }
    }

    /// This, times `m`.
    pub fn times(&self, m: u32) -> (r: Big)
        ensures
            r@ == self@ * m,
    {
        let mut limbs: Vec<u32> = Vec::new();
        let mut carry: u64 = 0;
        let mut i: usize = 0;
        proof {
            lemma_unit(0);
        }
        while i < self.limbs.len()
            invariant
                i <= self.limbs@.len(),
                limbs@.len() == i,
                carry <= 0xffff_ffff,
                sum(limbs@, i as int) + carry * unit(i as int) == sum(self.limbs@, i as int) * m,
            decreases self.limbs@.len() - i,
        {
            let a: u32 = self.limbs[i];
            assert(a * m <= 0xffff_ffff * 0xffff_ffff) by (nonlinear_arith)
                requires
                    0 <= a <= 0xffff_ffff,
                    0 <= m <= 0xffff_ffff,
            ;
            let t: u64 = a as u64 * m as u64 + carry;
            let low: u32 = (t % 0x1_0000_0000) as u32;
            let high: u64 = t / 0x1_0000_0000;
            proof {
                lemma_push(limbs@, low);
                lemma_unit(i as int);
                let u = unit(i as int);
                let before = sum(self.limbs@, i as int);
                assert((before + a * u) * m == before * m + (a * m) * u) by (nonlinear_arith);
                assert((a * m + carry) * u == (a * m) * u + carry * u) by (nonlinear_arith);
                assert((low + high * 0x1_0000_0000) * u == low * u + high * (0x1_0000_0000 * u))
                    by (nonlinear_arith);
            }
            limbs.push(low);
            carry = high;
            i += 1;
        }
        proof {
            lemma_push(limbs@, carry as u32);
        }
        limbs.push(carry as u32);
        Big { limbs }
    }

    /// This, times ten to the `n`.
    pub fn times_ten_to(self, n: u32) -> (r: Big)
        ensures
            r@ == self@ * ten_to(n as nat),
    {
        let ghost start = self@;
        let mut r = self;
        let mut i: u32 = 0;
        while n - i >= 9
            invariant
                i <= n,
                r@ == start * ten_to(i as nat),
            decreases n - i,
        {
            proof {
                reveal_with_fuel(ten_to, 10);
                let t = ten_to(i as nat);
                assert(ten_to((i + 9) as nat) == 1_000_000_000 * t);
                assert((start * t) * 1_000_000_000 == start * (1_000_000_000 * t)) by (
                nonlinear_arith);
            }
            r = r.times(1_000_000_000);
            i += 9;
        }
        while i < n
            invariant
                i <= n,
                r@ == start * ten_to(i as nat),
            decreases n - i,
        {
            proof {
                let t = ten_to(i as nat);
                assert((start * t) * 10 == start * (10 * t)) by (nonlinear_arith);
            }
            r = r.times(10);
            i += 1;
        }
        r
    }

    /// The sum of the two.
    pub fn plus(&self, other: &Big) -> (r: Big)
        ensures
            r@ == self@ + other@,
    {
        let mut limbs: Vec<u32> = Vec::new();
        let mut carry: u64 = 0;
        let n: usize = if self.limbs.len() < other.limbs.len() {
            other.limbs.len()
        } else {
            self.limbs.len()
        };
        let mut i: usize = 0;
        proof {
            lemma_unit(0);
        }
        while i < n
            invariant
                i <= n,
                limbs@.len() == i,
                carry <= 1,
                sum(limbs@, i as int) + carry * unit(i as int) == sum(self.limbs@, i as int) + sum(
                    other.limbs@,
                    i as int,
                ),
            decreases n - i,
        {
            let a: u32 = self.limb_at(i);
            let b: u32 = other.limb_at(i);
            let t: u64 = a as u64 + b as u64 + carry;
            let low: u32 = (t % 0x1_0000_0000) as u32;
            let high: u64 = t / 0x1_0000_0000;
            proof {
                lemma_push(limbs@, low);
                lemma_unit(i as int);
                let u = unit(i as int);
                assert((a + b + carry) * u == a * u + b * u + carry * u) by (nonlinear_arith);
                assert((low + high * 0x1_0000_0000) * u == low * u + high * (0x1_0000_0000 * u))
                    by (nonlinear_arith);
            }
            limbs.push(low);
            carry = high;
            i += 1;
        }
        proof {
            lemma_push(limbs@, carry as u32);
            lemma_sum_past(self.limbs@, n as int);
            lemma_sum_past(other.limbs@, n as int);
        }
        limbs.push(carry as u32);
        Big { limbs }
    }

    /// Whether this is no more than `other`.
    pub fn at_most(&self, other: &Big) -> (r: bool)
        ensures
            r == (self@ <= other@),
    {
        let n: usize = if self.limbs.len() < other.limbs.len() {
            other.limbs.len()
        } else {
            self.limbs.len()
        };
        let mut yes = true;
        let mut i: usize = 0;
        while i < n
            invariant
                i <= n,
                yes == (sum(self.limbs@, i as int) <= sum(other.limbs@, i as int)),
            decreases n - i,
        {
            let a: u32 = self.limb_at(i);
            let b: u32 = other.limb_at(i);
            proof {
                lemma_sum_bound(self.limbs@, i as int);
                lemma_sum_bound(other.limbs@, i as int);
                let u = unit(i as int);
                if a < b {
                    assert((a + 1) * u <= b * u) by (nonlinear_arith)
                        requires
                            a + 1 <= b,
                            u >= 1,
                    ;
                    assert((a + 1) * u == a * u + u) by (nonlinear_arith);
                } else if b < a {
                    assert((b + 1) * u <= a * u) by (nonlinear_arith)
                        requires
                            b + 1 <= a,
                            u >= 1,
                    ;
                    assert((b + 1) * u == b * u + u) by (nonlinear_arith);
                }
            }
            if a < b {
                yes = true;
            } else if b < a {
                yes = false;
            }
            i += 1;
        }
        proof {
            lemma_sum_past(self.limbs@, n as int);
            lemma_sum_past(other.limbs@, n as int);
        }
        yes
    }

    /// The `i`th limb, and none past the last.
    fn limb_at(&self, i: usize) -> (r: u32)
        ensures
            r as int == limb(self.limbs@, i as int),
    {
        if i < self.limbs.len() {
            self.limbs[i]
        } else {
            0
        }
    }
}

} // verus!

//! Natural numbers of any size, as 32-bit limbs with the lowest first.
use vstd::arithmetic::mul::*;
use vstd::arithmetic::power2::*;
use vstd::prelude::*;

verus! {

/// Limb `i`, where the limbs above the highest are zero.
pub open spec fn limb(s: Seq<u32>, i: int) -> nat {
    if 0 <= i < s.len() {
        s[i] as nat
    } else {
        0
    }
}

/// The number that the lowest `n` limbs stand for.
pub open spec fn low_value(s: Seq<u32>, n: nat) -> nat
    decreases n,
{
    if n == 0 {
        0
    } else {
        let k = (n - 1) as nat;
        low_value(s, k) + limb(s, k as int) * pow2(32 * k)
    }
}

/// A natural number.
pub struct Natural {
    limbs: Vec<u32>,
}

impl View for Natural {
    type V = nat;

    closed spec fn view(&self) -> nat {
        low_value(self.limbs@, self.limbs@.len())
    }
}

proof fn lemma_low_value_bound(s: Seq<u32>, n: nat)
    ensures
        low_value(s, n) < pow2(32 * n),
    decreases n,
{
    if n == 0 {
        lemma2_to64();
    } else {
        let k = (n - 1) as nat;
        lemma_low_value_bound(s, k);
        lemma_pow2_adds(32, 32 * k);
        lemma2_to64();
        let p = pow2(32 * k);
        let l = limb(s, k as int);
        assert(l * p + p <= 0x100000000 * p) by (nonlinear_arith)
            requires
                l < 0x100000000,
        ;
        assert(32 + 32 * k == 32 * n);
    }
}

proof fn lemma_low_value_beyond(s: Seq<u32>, n: nat)
    requires
        n >= s.len(),
    ensures
        low_value(s, n) == low_value(s, s.len()),
    decreases n,
{
    if n > s.len() {
        let k = (n - 1) as nat;
        lemma_low_value_beyond(s, k);
        assert(limb(s, k as int) * pow2(32 * k) == 0) by (nonlinear_arith)
            requires
                limb(s, k as int) == 0,
        ;
    }
}

proof fn lemma_low_value_prefix(a: Seq<u32>, b: Seq<u32>, n: nat)
    requires
        n <= a.len(),
        n <= b.len(),
        forall|i: int| 0 <= i < n ==> a[i] == b[i],
    ensures
        low_value(a, n) == low_value(b, n),
    decreases n,
{
    if n > 0 {
        lemma_low_value_prefix(a, b, (n - 1) as nat);
    }
}

impl Natural {
    pub fn from_u32(n: u32) -> (r: Natural)
        ensures
            r@ == n,
    {
        let mut limbs: Vec<u32> = Vec::new();
        limbs.push(n);
        proof {
            lemma2_to64();
            reveal_with_fuel(low_value, 2);
            assert(pow2(32 * 0) == 1);
            assert(low_value(limbs@, 1) == n as nat * pow2(32 * 0));
            assert(n as nat * 1 == n);
        }
        Natural { limbs }
    }

    /// Replace the number `n` by `n * m + a`.
    pub fn mul_add(&mut self, m: u64, a: u32)
        ensures
            final(self)@ == old(self)@ * m + a,
    {
        let ghost s = self.limbs@;
        let mut out: Vec<u32> = Vec::new();
        let mut carry: u128 = a as u128;
        let mut i: usize = 0;
        proof {
            lemma2_to64();
            assert(carry * pow2(0) == a);
            assert(0 * m == 0);
        }
        while i < self.limbs.len()
            invariant
                i <= self.limbs.len(),
                self.limbs@ == s,
                out@.len() == i,
                carry <= 0x1_0000_0000_0000_0000,
                low_value(out@, i as nat) + carry * pow2((32 * i) as nat) == low_value(s, i as nat)
                    * m + a,
            decreases self.limbs.len() - i,
        {
            let l: u32 = self.limbs[i];
            assert((l as int) * (m as int) <= 0xffff_ffff * 0xffff_ffff_ffff_ffff) by (nonlinear_arith)
                requires
                    0 <= l <= 0xffff_ffff,
                    0 <= m <= 0xffff_ffff_ffff_ffff,
            ;
            let t: u128 = (l as u128) * (m as u128) + carry;
            let lo: u32 = (t % 0x1_0000_0000) as u32;
            let hi: u128 = t / 0x1_0000_0000;
            let ghost before = out@;
            out.push(lo);
            proof {
                let p = pow2((32 * i) as nat);
                lemma_pow2_adds(32, (32 * i) as nat);
                lemma2_to64();
                assert(32 + 32 * i == 32 * (i + 1));
                lemma_low_value_prefix(before, out@, i as nat);
                assert(t == hi * 0x1_0000_0000 + lo);
                let v = low_value(s, i as nat);
                assert(lo * p + hi * (0x1_0000_0000 * p) == (l * m + carry) * p) by (nonlinear_arith)
                    requires
                        l * m + carry == hi * 0x1_0000_0000 + lo,
                ;
                assert((l * m + carry) * p == (l * p) * m + carry * p) by (nonlinear_arith);
                assert((v + l * p) * m == v * m + (l * p) * m) by (nonlinear_arith);
            }
            carry = hi;
            i += 1;
        }
        while carry > 0
            invariant
                carry <= 0x1_0000_0000_0000_0000,
                low_value(out@, out@.len()) + carry * pow2((32 * out@.len()) as nat) == low_value(
                    s,
                    s.len(),
                ) * m + a,
            decreases carry,
        {
            let lo: u32 = (carry % 0x1_0000_0000) as u32;
            let hi: u128 = carry / 0x1_0000_0000;
            let ghost before = out@;
            out.push(lo);
            proof {
                let n = before.len();
                let p = pow2((32 * n) as nat);
                lemma_pow2_adds(32, (32 * n) as nat);
                lemma2_to64();
                assert(32 + 32 * n == 32 * (n + 1));
                lemma_low_value_prefix(before, out@, n);
                assert(lo * p + hi * (0x1_0000_0000 * p) == carry * p) by (nonlinear_arith)
                    requires
                        carry == hi * 0x1_0000_0000 + lo,
                ;
            }
            carry = hi;
        }
        assert(carry * pow2((32 * out@.len()) as nat) == 0) by (nonlinear_arith)
            requires
                carry == 0,
        ;
        self.limbs = out;
    }

    /// Multiply by `2^k`.
    pub fn shift_up(&mut self, k: u32)
        ensures
            final(self)@ == old(self)@ * pow2(k as nat),
    {
        let mut i: u32 = 0;
        proof {
            lemma2_to64();
        }
        while i < k
            invariant
                i <= k,
                self@ == old(self)@ * pow2(i as nat),
            decreases k - i,
        {
            proof {
                lemma_pow2_adds(1, i as nat);
                lemma2_to64();
                let v = old(self)@;
                let p = pow2(i as nat);
                assert((v * p) * 2 == v * (2 * p)) by (nonlinear_arith);
            }
            self.mul_add(2, 0);
            i += 1;
        }
    }

    pub fn copy(&self) -> (r: Natural)
        ensures
            r@ == self@,
    {
        let mut limbs: Vec<u32> = Vec::new();
        let mut i: usize = 0;
        while i < self.limbs.len()
            invariant
                i <= self.limbs.len(),
                limbs@ == self.limbs@.take(i as int),
            decreases self.limbs.len() - i,
        {
            limbs.push(self.limbs[i]);
            i += 1;
        }
        assert(limbs@ == self.limbs@);
        Natural { limbs }
    }

    fn limb_at(&self, i: usize) -> (r: u32)
        ensures
            r as nat == limb(self.limbs@, i as int),
    {
        if i < self.limbs.len() {
            self.limbs[i]
        } else {
            0
        }
    }

    /// Whether this number is smaller than `other`.
    pub fn less(&self, other: &Natural) -> (r: bool)
        ensures
            r == (self@ < other@),
    {
        let n: usize = if self.limbs.len() < other.limbs.len() {
            other.limbs.len()
        } else {
            self.limbs.len()
        };
        let mut less = false;
        let mut i: usize = 0;
        while i < n
            invariant
                i <= n,
                less == (low_value(self.limbs@, i as nat) < low_value(other.limbs@, i as nat)),
            decreases n - i,
        {
            let x: u32 = self.limb_at(i);
            let y: u32 = other.limb_at(i);
            proof {
                lemma_low_value_bound(self.limbs@, i as nat);
                lemma_low_value_bound(other.limbs@, i as nat);
                let p = pow2((32 * i) as nat);
                if x < y {
                    assert(x * p + p <= y * p) by (nonlinear_arith)
                        requires
                            x < y,
                    ;
                } else if y < x {
                    assert(y * p + p <= x * p) by (nonlinear_arith)
                        requires
                            y < x,
                    ;
                }
            }
            if x != y {
                less = x < y;
            }
            i += 1;
        }
        proof {
            lemma_low_value_beyond(self.limbs@, n as nat);
            lemma_low_value_beyond(other.limbs@, n as nat);
        }
        less
    }
}

} // verus!

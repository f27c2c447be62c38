use crate::u256::{lemma_pow2_256, lemma_scaled_split, limb_base, pow256, U256};
use vstd::arithmetic::div_mod::{
    lemma_fundamental_div_mod, lemma_fundamental_div_mod_converse, lemma_mod_pos_bound,
    lemma_small_mod,
};
use vstd::arithmetic::power2::{
    lemma2_to64, lemma_pow2_strictly_increases, lemma_pow2_unfold, pow2,
};
use vstd::prelude::*;

verus! {

/// Division with remainder by a nonzero divisor, undone by multiplying back
/// and adding the remainder under 256-bit wrapping arithmetic, gives the
/// dividend back exactly; the remainder stays below the divisor.
pub proof fn lemma_div_rem_round_trip(a: U256, b: U256, q: U256, r: U256)
    requires
        b.value() != 0,
        q.value() == a.value() / b.value(),
        r.value() == a.value() % b.value(),
    ensures
        r.value() < b.value(),
        q.value() * b.value() + r.value() == a.value(),
        ((q.value() * b.value()) % pow256() + r.value()) % pow256() == a.value(),
{
    lemma_reconstruct(a.value(), b.value(), q.value(), r.value());
}

/// The same law for a one-limb divisor and a one-limb remainder.
pub proof fn lemma_div_rem_u64_round_trip(a: U256, b: u64, q: U256, r: u64)
    requires
        b != 0,
        q.value() == a.value() / (b as nat),
        r == a.value() % (b as nat),
    ensures
        r < b,
        q.value() * (b as nat) + (r as nat) == a.value(),
        ((q.value() * (b as nat)) % pow256() + (r as nat)) % pow256() == a.value(),
{
    lemma_reconstruct(a.value(), b as nat, q.value(), r as nat);
}

proof fn lemma_reconstruct(a: nat, b: nat, q: nat, r: nat)
    requires
        b != 0,
        a < pow256(),
        q == a / b,
        r == a % b,
    ensures
        r < b,
        q * b + r == a,
        ((q * b) % pow256() + r) % pow256() == a,
{
    lemma_fundamental_div_mod(a as int, b as int);
    lemma_mod_pos_bound(a as int, b as int);
    assert(q * b == b * q) by (nonlinear_arith);
    lemma_small_mod(q * b, pow256());
    lemma_small_mod(a, pow256());
}

/// Divides the two-limb number `high * 2^64 + low` by `d`, with `high < d` so
/// that the quotient fits in one limb: the quotient and the remainder.
pub fn div_2_1(low: u64, high: u64, d: u64) -> (r: (u64, u64))
    requires
        high < d,
    ensures
        r.0 * d + r.1 == high * limb_base() + low,
        r.1 < d,
{
    let n: u128 = high as u128 * 0x1_0000_0000_0000_0000 + low as u128;
    let q: u128 = n / (d as u128);
    let rem: u128 = n % (d as u128);
    proof {
        let b = limb_base() as int;
        lemma_fundamental_div_mod(n as int, d as int);
        lemma_mod_pos_bound(n as int, d as int);
        assert(n == q * d + rem) by (nonlinear_arith)
            requires
                n == d * q + rem,
        ;
        assert(q < b) by (nonlinear_arith)
            requires
                n == q * d + rem,
                0 <= rem,
                n < (high + 1) * b,
                high + 1 <= d,
                b > 0,
                d > 0,
        ;
    }
    (q as u64, rem as u64)
}

impl U256 {
    /// Divides by a one-limb divisor: `None` when it is zero, else the quotient
    /// and the remainder.
    pub fn div_rem_u64(&self, rhs: u64) -> (r: Option<(U256, u64)>)
        ensures
            rhs == 0 ==> r.is_none(),
            rhs != 0 ==> r.is_some() && r.unwrap().0.value() == self.value() / (rhs as nat)
                && r.unwrap().1 == self.value() % (rhs as nat),
    {
        if rhs == 0 {
            None
        } else {
            let (q3, r3) = div_2_1(self.l3, 0, rhs);
            let (q2, r2) = div_2_1(self.l2, r3, rhs);
            let (q1, r1) = div_2_1(self.l1, r2, rhs);
            let (q0, r0) = div_2_1(self.l0, r1, rhs);
            let q = U256::from_limbs([q0, q1, q2, q3]);
            proof {
                let b = limb_base() as int;
                let d = rhs as int;
                assert(self.value() == q.value() * d + r0) by (nonlinear_arith)
                    requires
                        b == 0x1_0000_0000_0000_0000,
                        q3 * d + r3 == self.l3,
                        q2 * d + r2 == r3 * b + self.l2,
                        q1 * d + r1 == r2 * b + self.l1,
                        q0 * d + r0 == r1 * b + self.l0,
                        self.value() == self.l0 + b * (self.l1 + b * (self.l2 + b * self.l3)),
                        q.value() == q0 + b * (q1 + b * (q2 + b * q3)),
                ;
                lemma_fundamental_div_mod_converse(self.value() as int, d, q.value() as int, r0 as int);
            }
            Some((q, r0))
        }
    }

    /// Schoolbook binary long division by a nonzero divisor: the dividend's
    /// bits are shifted, most significant first, into a running remainder, and
    /// the divisor is taken off it whenever it fits, giving one quotient bit.
    fn div_rem_long(&self, d: &U256) -> (r: (U256, U256))
        requires
            d.value() != 0,
        ensures
            self.value() == r.0.value() * d.value() + r.1.value(),
            r.1.value() < d.value(),
    {
        let mut q = U256::zero();
        let mut rem = U256::zero();
        let mut cur = *self;
        let mut i: u32 = 0;
        let ghost mut h: int = 0;
        proof {
            lemma2_to64();
        }
        while i < 256
            invariant
                i <= 256,
                self.value() * pow2(i as nat) == h * pow256() + cur.value(),
                h == q.value() * d.value() + rem.value(),
                rem.value() < d.value(),
                q.value() < pow2(i as nat),
            decreases 256 - i,
        {
            let (cur2, top) = cur.shl1(false);
            let (rem2, carry) = rem.shl1(top);
            let (diff, borrow) = rem2.overflowing_sub(d);
            let take = carry || !borrow;
            let (q2, q_out) = q.shl1(take);
            proof {
                lemma_pow2_unfold((i + 1) as nat);
                lemma_pow2_256();
                if i < 255 {
                    lemma_pow2_strictly_increases(i as nat, 255);
                }
                let t: int = if top { 1 } else { 0 };
                let bit: int = if take { 1 } else { 0 };
                let dv = d.value() as int;
                let qv = q.value() as int;
                let new_rem: int = if take { diff.value() as int } else { rem2.value() as int };
                rem.lemma_value_bound();
                d.lemma_value_bound();
                diff.lemma_value_bound();
                assert(new_rem == 2 * rem.value() + t - bit * dv);
                assert(new_rem < dv);
                assert(!q_out);
                assert(2 * h + t == (2 * qv + bit) * dv + new_rem) by (nonlinear_arith)
                    requires
                        h == qv * dv + rem.value(),
                        new_rem == 2 * rem.value() + t - bit * dv,
                ;
                assert(self.value() * pow2((i + 1) as nat) == (2 * h + t) * pow256() + cur2.value())
                    by (nonlinear_arith)
                    requires
                        self.value() * pow2(i as nat) == h * pow256() + cur.value(),
                        cur2.value() + t * pow256() == 2 * cur.value(),
                        pow2((i + 1) as nat) == 2 * pow2(i as nat),
                ;
                h = 2 * h + t;
            }
            cur = cur2;
            rem = if take { diff } else { rem2 };
            q = q2;
            i = i + 1;
        }
        proof {
            lemma_pow2_256();
            cur.lemma_value_bound();
            lemma_scaled_split(self.value() as int, h, cur.value() as int);
        }
        (q, rem)
    }

    /// Divides by `rhs`: `None` when it is zero, else the quotient and the
    /// remainder. The divisor's width decides the method: one limb takes the
    /// short division, more take the long one.
    pub fn div_rem(&self, rhs: &U256) -> (r: Option<(U256, U256)>)
        ensures
            rhs.value() == 0 ==> r.is_none(),
            rhs.value() != 0 ==> r.is_some() && r.unwrap().0.value() == self.value() / rhs.value()
                && r.unwrap().1.value() == self.value() % rhs.value(),
    {
        let width = rhs.significant_limbs();
        if width == 0 {
            None
        } else if width == 1 {
            match self.div_rem_u64(rhs.l0) {
                Some((q, rem)) => Some((q, U256::from_u64(rem))),
                None => None,
            }
        } else {
            let (q, rem) = self.div_rem_long(rhs);
            proof {
                lemma_fundamental_div_mod_converse(
                    self.value() as int,
                    rhs.value() as int,
                    q.value() as int,
                    rem.value() as int,
                );
            }
            Some((q, rem))
        }
    }

    /// Replaces the value by its quotient by `rhs`, which must not be zero.
    pub fn div_assign(&mut self, rhs: &U256)
        requires
            rhs.value() != 0,
        ensures
            final(self).value() == old(self).value() / rhs.value(),
    {
        match self.div_rem(rhs) {
            Some((q, _)) => {
                *self = q;
            },
            None => {},
        }
    }

    /// Replaces the value by its remainder by `rhs`, which must not be zero.
    pub fn rem_assign(&mut self, rhs: &U256)
        requires
            rhs.value() != 0,
        ensures
            final(self).value() == old(self).value() % rhs.value(),
    {
        match self.div_rem(rhs) {
            Some((_, rem)) => {
                *self = rem;
            },
            None => {},
        }
    }

    /// The quotient by `rhs`, which must not be zero.
    pub fn div(&self, rhs: &U256) -> (r: U256)
        requires
            rhs.value() != 0,
        ensures
            r.value() == self.value() / rhs.value(),
    {
        let mut r = *self;
        r.div_assign(rhs);
        r
    }

    /// The remainder by `rhs`, which must not be zero.
    pub fn rem(&self, rhs: &U256) -> (r: U256)
        requires
            rhs.value() != 0,
        ensures
            r.value() == self.value() % rhs.value(),
    {
        let mut r = *self;
        r.rem_assign(rhs);
        r
    }
}

} // verus!

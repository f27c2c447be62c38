use crate::u256::{
    lemma_double_add_mod, lemma_pow2_256, lemma_scaled_split, limb_base, pow128, pow256, U256,
};
use vstd::arithmetic::power2::{lemma2_to64, lemma_pow2_unfold, pow2};
use vstd::arithmetic::div_mod::{
    lemma_fundamental_div_mod, lemma_fundamental_div_mod_converse, lemma_mod_mod, lemma_mod_self_0,
    lemma_mod_twice, lemma_mod_multiples_vanish, lemma_mul_mod_noop, lemma_mul_mod_noop_left, lemma_mul_mod_noop_right,
    lemma_small_mod, lemma_add_mod_noop, lemma_mod_bound,
};
use vstd::prelude::*;

verus! {

/// One Newton step towards the inverse of `a`: if `r` inverts `a` modulo `m`,
/// then `r * (2 - aw * r)`, worked out modulo a multiple `w` of `m * m` with
/// any `aw` that agrees with `a` modulo `m * m`, inverts `a` modulo `m * m`.
pub proof fn lemma_newton_step(a: int, aw: int, r: int, x: int, t: int, k: int, r2: int, m: int, w: int)
    requires
        m > 1,
        w > 0,
        w % (m * m) == 0,
        (a * r) % m == 1,
        aw % (m * m) == a % (m * m),
        x == (aw * r) % w,
        t == 2 - x + k * w,
        r2 == (r * t) % w,
    ensures
        (a * r2) % (m * m) == 1,
{
    let n = m * m;
    assert(n > 1) by (nonlinear_arith)
        requires
            m > 1,
            n == m * m,
    ;
    lemma_fundamental_div_mod(a * r, m);
    let j = (a * r) / m;
    lemma_fundamental_div_mod(aw * r, w);
    let q1 = (aw * r) / w;
    lemma_fundamental_div_mod(r * t, w);
    let q2 = (r * t) / w;
    lemma_fundamental_div_mod(aw, n);
    lemma_fundamental_div_mod(a, n);
    let (ua, ub) = (aw / n, a / n);
    let e = ua - ub;
    assert(n * e == n * ua - n * ub) by (nonlinear_arith)
        requires
            e == ua - ub,
    ;
    lemma_fundamental_div_mod(w, n);
    let s = w / n;
    let aa = a * r;
    assert(aa == 1 + m * j);
    assert(aw == a + n * e);
    assert(w == n * s);
    assert(w * (q1 + k) == w * q1 + k * w) by (nonlinear_arith);
    assert(t == 2 - aw * r + w * (q1 + k));
    assert(r2 == r * t - w * q2);
    assert(a * r2 == aa * t - w * (a * q2)) by (nonlinear_arith)
        requires
            r2 == r * t - w * q2,
            aa == a * r,
    ;
    assert(aw * r == aa + n * (e * r)) by (nonlinear_arith)
        requires
            aw == a + n * e,
            aa == a * r,
    ;
    let y = q1 + k;
    assert(t == 2 - aa - n * (e * r) + w * y);
    assert(aa * t == aa * (2 - aa) - n * (e * r * aa) + w * (aa * y)) by (nonlinear_arith)
        requires
            t == 2 - aa - n * (e * r) + w * y,
    ;
    assert(aa * (2 - aa) == 1 - n * (j * j)) by (nonlinear_arith)
        requires
            aa == 1 + m * j,
            n == m * m,
    ;
    let xx = aa * y - a * q2;
    assert(w * (aa * y) - w * (a * q2) == n * (s * xx)) by (nonlinear_arith)
        requires
            w == n * s,
            xx == aa * y - a * q2,
    ;
    let big_k = -(j * j) - e * r * aa + s * xx;
    assert(n * big_k == -(n * (j * j)) - n * (e * r * aa) + n * (s * xx)) by (nonlinear_arith)
        requires
            big_k == -(j * j) - e * r * aa + s * xx,
    ;
    assert(a * r2 == n * big_k + 1);
    lemma_mod_multiples_vanish(big_k, 1, n);
    lemma_small_mod(1, n as nat);
}

/// Greatest common divisor, by Euclid's recurrence.
pub open spec fn gcd(a: nat, b: nat) -> nat
    decreases b,
{
    if b == 0 {
        a
    } else {
        gcd(b, a % b)
    }
}

/// The greatest common divisor is positive unless both numbers are zero, and
/// divides both.
pub proof fn lemma_gcd_divides(a: nat, b: nat)
    requires
        a != 0 || b != 0,
    ensures
        gcd(a, b) > 0,
        a % gcd(a, b) == 0,
        b % gcd(a, b) == 0,
    decreases b,
{
    if b == 0 {
        lemma_mod_self_0(a as int);
        lemma_small_mod(0, a);
    } else {
        lemma_gcd_divides(b, a % b);
        let g = gcd(a, b) as int;
        lemma_fundamental_div_mod(b as int, g);
        lemma_fundamental_div_mod((a % b) as int, g);
        lemma_fundamental_div_mod(a as int, b as int);
        let (bb, cc, qq) = (b as int / g, (a % b) as int / g, a as int / b as int);
        assert(a == g * (bb * qq + cc)) by (nonlinear_arith)
            requires
                b == g * bb,
                a % b == g * cc,
                a == b * qq + a % b,
        ;
        lemma_mod_multiples_vanish(bb * qq + cc, 0, g);
        lemma_small_mod(0, g as nat);
    }
}

/// A number that shares a factor other than one with a nonzero modulus has no
/// inverse modulo it.
pub proof fn lemma_no_inverse(a: nat, m: nat, x: nat)
    requires
        m > 0,
        gcd(a, m) != 1,
    ensures
        (a * x) % m != 1nat % m,
{
    lemma_gcd_divides(a, m);
    let g = gcd(a, m) as int;
    if m == 1 {
        lemma_small_mod(0, 1);
        assert(gcd(a, m) == gcd(1, 0));
    }
    assert(g >= 2);
    if (a * x) % m == 1nat % m {
        lemma_small_mod(1, m);
        lemma_fundamental_div_mod((a * x) as int, m as int);
        lemma_fundamental_div_mod(a as int, g);
        lemma_fundamental_div_mod(m as int, g);
        let (aa, mm, k) = (a as int / g, m as int / g, ((a * x) / m) as int);
        assert(g * (aa * x - mm * k) == 1) by (nonlinear_arith)
            requires
                a * x == m * k + 1,
                a == g * aa,
                m == g * mm,
        ;
        let d = aa * x - mm * k;
        assert(false) by (nonlinear_arith)
            requires
                g * d == 1,
                g >= 2,
        ;
    }
}

/// One step of the extended Euclidean algorithm keeps each remainder
/// congruent to its coefficient times `a`.
pub proof fn lemma_bezout_step(a: int, m: int, t0: int, t1: int, r0: int, r1: int, q: int, r: int, qt: int, t2: int)
    requires
        m > 0,
        (t0 * a) % m == r0 % m,
        (t1 * a) % m == r1 % m,
        r0 == q * r1 + r,
        qt == (q * t1) % m,
        t2 == (t0 - qt) % m,
    ensures
        (t2 * a) % m == r % m,
{
    lemma_fundamental_div_mod(t0 * a, m);
    lemma_fundamental_div_mod(r0, m);
    lemma_fundamental_div_mod(t1 * a, m);
    lemma_fundamental_div_mod(r1, m);
    lemma_fundamental_div_mod(q * t1, m);
    lemma_fundamental_div_mod(t0 - qt, m);
    let u0 = (t0 * a) / m - r0 / m;
    let u1 = (t1 * a) / m - r1 / m;
    let v = (q * t1) / m;
    let w = (t0 - qt) / m;
    assert(t0 * a - r0 == m * u0) by (nonlinear_arith)
        requires
            t0 * a == m * ((t0 * a) / m) + (t0 * a) % m,
            r0 == m * (r0 / m) + r0 % m,
            (t0 * a) % m == r0 % m,
            u0 == (t0 * a) / m - r0 / m,
    ;
    assert(t1 * a - r1 == m * u1) by (nonlinear_arith)
        requires
            t1 * a == m * ((t1 * a) / m) + (t1 * a) % m,
            r1 == m * (r1 / m) + r1 % m,
            (t1 * a) % m == r1 % m,
            u1 == (t1 * a) / m - r1 / m,
    ;
    let big_k = u0 - q * u1 + v * a - w * a;
    assert(t2 * a == t0 * a - qt * a - m * (w * a)) by (nonlinear_arith)
        requires
            t0 - qt == m * w + t2,
    ;
    assert(qt * a == q * (t1 * a) - m * (v * a)) by (nonlinear_arith)
        requires
            q * t1 == m * v + qt,
    ;
    assert(q * (t1 * a) == q * r1 + m * (q * u1)) by (nonlinear_arith)
        requires
            t1 * a - r1 == m * u1,
    ;
    assert(m * big_k == m * u0 - m * (q * u1) + m * (v * a) - m * (w * a)) by (nonlinear_arith)
        requires
            big_k == u0 - q * u1 + v * a - w * a,
    ;
    assert(t2 * a == m * big_k + r);
    lemma_mod_multiples_vanish(big_k, r, m);
}

/// `(3 * c) xor 2` inverts an odd `c` modulo 2^4.
proof fn lemma_seed(c: u64, r0: u64)
    requires
        c % 2 == 1,
        r0 == 3u64.wrapping_mul(c) ^ 2,
    ensures
        (c * r0) % 16 == 1,
{
    let x: u64 = 3u64.wrapping_mul(c);
    let c4: u64 = c % 16;
    assert(r0 % 16 == (x % 16) ^ 2) by (bit_vector)
        requires
            r0 == x ^ 2,
    ;
    assert(x as int == (3 * c) % 0x1_0000_0000_0000_0000int);
    lemma_mod_mod(3 * c, 16, 0x1000_0000_0000_0000);
    lemma_mul_mod_noop_right(3, c as int, 16);
    assert(x % 16 == (3 * c4) % 16);
    lemma_mul_mod_noop(c as int, r0 as int, 16);
    lemma_mod_mod(c as int, 2, 8);
    assert(c4 % 2 == 1);
    let y: u64 = ((3 * c4) % 16) as u64;
    let z: u64 = y ^ 2;
    assert(z == (if (y / 2) % 2 == 0 { y + 2 } else { y - 2 })) by (bit_vector)
        requires
            z == y ^ 2,
    ;
    if c4 == 1 {
    } else if c4 == 3 {
    } else if c4 == 5 {
    } else if c4 == 7 {
    } else if c4 == 9 {
    } else if c4 == 11 {
    } else if c4 == 13 {
    } else {
        assert(c4 == 15);
    }
    assert((c4 * z) % 16 == 1);
}

impl U256 {
    /// `(self + o) % m` for residues below `m`.
    fn add_mod(&self, o: &U256, m: &U256) -> (r: U256)
        requires
            self.value() < m.value(),
            o.value() < m.value(),
        ensures
            r.value() == (self.value() + o.value()) % m.value(),
    {
        let (s, carry) = self.overflowing_add(o);
        if carry || !s.less_than(m) {
            let (d, _) = s.overflowing_sub(m);
            proof {
                d.lemma_value_bound();
                m.lemma_value_bound();
                lemma_fundamental_div_mod_converse(
                    (self.value() + o.value()) as int,
                    m.value() as int,
                    1,
                    d.value() as int,
                );
            }
            d
        } else {
            proof {
                lemma_fundamental_div_mod_converse(
                    (self.value() + o.value()) as int,
                    m.value() as int,
                    0,
                    s.value() as int,
                );
            }
            s
        }
    }

    /// `(self - o) % m`, taken in `[0, m)`, for residues below `m`.
    fn sub_mod(&self, o: &U256, m: &U256) -> (r: U256)
        requires
            self.value() < m.value(),
            o.value() < m.value(),
        ensures
            r.value() == (self.value() - o.value()) % (m.value() as int),
    {
        let (d, borrow) = self.overflowing_sub(o);
        if borrow {
            let (e, _) = d.overflowing_add(m);
            proof {
                e.lemma_value_bound();
                m.lemma_value_bound();
                lemma_fundamental_div_mod_converse(
                    self.value() - o.value(),
                    m.value() as int,
                    -1,
                    e.value() as int,
                );
            }
            e
        } else {
            proof {
                lemma_fundamental_div_mod_converse(
                    self.value() - o.value(),
                    m.value() as int,
                    0,
                    d.value() as int,
                );
            }
            d
        }
    }

    /// `(self * o) % m` for `o` below `m`: the bits of `self` are taken most
    /// significant first, doubling the residue and adding `o` for each set bit.
    fn mul_mod(&self, o: &U256, m: &U256) -> (r: U256)
        requires
            o.value() < m.value(),
        ensures
            r.value() == (self.value() * o.value()) % m.value(),
            r.value() < m.value(),
    {
        let mut acc = U256::zero();
        let mut cur = *self;
        let mut i: u32 = 0;
        let ghost mut h: int = 0;
        proof {
            lemma2_to64();
            assert(h * o.value() == 0);
            lemma_small_mod(0, m.value());
        }
        while i < 256
            invariant
                i <= 256,
                o.value() < m.value(),
                self.value() * pow2(i as nat) == h * pow256() + cur.value(),
                acc.value() == (h * o.value()) % (m.value() as int),
            decreases 256 - i,
        {
            let (cur2, top) = cur.shl1(false);
            proof {
                lemma_mod_bound(h * o.value(), m.value() as int);
            }
            let acc2 = acc.add_mod(&acc, m);
            let acc3 = if top {
                acc2.add_mod(o, m)
            } else {
                acc2
            };
            proof {
                lemma_pow2_unfold((i + 1) as nat);
                let t: int = if top { 1 } else { 0 };
                let mv = m.value() as int;
                if top {
                    lemma_add_mod_noop(2 * acc.value() as int, o.value() as int, mv);
                    lemma_mod_twice(o.value() as int, mv);
                    lemma_small_mod(o.value(), m.value());
                    assert(t * o.value() == o.value());
                } else {
                    lemma_mod_twice(2 * acc.value() as int, mv);
                    assert(t * o.value() == 0);
                }
                assert(acc3.value() == (2 * acc.value() + t * o.value()) % mv);
                lemma_double_add_mod(h, t, o.value() as int, acc.value() as int, mv);
                assert(self.value() * pow2((i + 1) as nat) == (2 * h + t) * pow256() + cur2.value())
                    by (nonlinear_arith)
                    requires
                        self.value() * pow2(i as nat) == h * pow256() + cur.value(),
                        cur2.value() + t * pow256() == 2 * cur.value(),
                        pow2((i + 1) as nat) == 2 * pow2(i as nat),
                ;
                h = 2 * h + t;
            }
            cur = cur2;
            acc = acc3;
            i = i + 1;
        }
        proof {
            lemma_pow2_256();
            cur.lemma_value_bound();
            lemma_scaled_split(self.value() as int, h, cur.value() as int);
            lemma_mod_bound(h * o.value(), m.value() as int);
        }
        acc
    }

    /// The inverse modulo `modulus`, in `[0, modulus)`: `None` when the
    /// modulus is zero or shares a factor other than one with the value.
    /// Extended Euclidean algorithm: each remainder is kept together with a
    /// coefficient that, times the value, is congruent to it.
    pub fn inv_mod(&self, modulus: &U256) -> (r: Option<U256>)
        ensures
            r.is_some() <==> (modulus.value() != 0 && gcd(self.value(), modulus.value()) == 1),
            r.is_some() ==> r.unwrap().value() < modulus.value() && (self.value()
                * r.unwrap().value()) % modulus.value() == 1nat % modulus.value(),
    {
        let m = *modulus;
        if m.is_zero() {
            return None;
        }
        let ghost a = self.value() as int;
        let ghost mv = m.value() as int;
        let reduced = self.rem(&m);
        let mut r0 = m;
        let mut r1 = reduced;
        let mut t0 = U256::zero();
        let mut t1 = U256::one().rem(&m);
        proof {
            lemma_mod_self_0(mv);
            assert(0 * a == 0);
            lemma_mul_mod_noop_left(1, a, mv);
            lemma_mod_twice(a, mv);
            lemma_mod_bound(1, mv);
            lemma_mod_bound(a, mv);
        }
        while !r1.is_zero()
            invariant
                mv == m.value(),
                mv > 0,
                a == self.value(),
                r0.value() > 0,
                t0.value() < mv,
                t1.value() < mv,
                (t0.value() * a) % mv == (r0.value() as int) % mv,
                (t1.value() * a) % mv == (r1.value() as int) % mv,
                gcd(r0.value(), r1.value()) == gcd(self.value(), m.value()),
            decreases r1.value(),
        {
            let (q, rem) = match r0.div_rem(&r1) {
                Some(qr) => qr,
                None => (U256::zero(), U256::zero()),
            };
            let qt = q.mul_mod(&t1, &m);
            let t2 = t0.sub_mod(&qt, &m);
            proof {
                lemma_fundamental_div_mod(r0.value() as int, r1.value() as int);
                lemma_bezout_step(
                    a,
                    mv,
                    t0.value() as int,
                    t1.value() as int,
                    r0.value() as int,
                    r1.value() as int,
                    q.value() as int,
                    rem.value() as int,
                    qt.value() as int,
                    t2.value() as int,
                );
                lemma_mod_bound(t0.value() - qt.value(), mv);
                lemma_mod_bound(r0.value() as int, r1.value() as int);
            }
            r0 = r1;
            r1 = rem;
            t0 = t1;
            t1 = t2;
        }
        if r0.l0 == 1 && r0.l1 == 0 && r0.l2 == 0 && r0.l3 == 0 {
            proof {
                assert(gcd(r0.value(), 0) == r0.value());
                assert(r0.value() == 1);
                let tv = t0.value() as int;
                assert(self.value() * tv == tv * a) by (nonlinear_arith)
                    requires
                        a == self.value(),
                ;
                assert((t0.value() * a) % mv == 1int % mv);
            }
            Some(t0)
        } else {
            proof {
                assert(gcd(r0.value(), 0) == r0.value());
            }
            None
        }
    }

    /// The inverse modulo 2^256: `None` for an even value, which has none.
    /// Starting from an inverse modulo 2^4, each Newton step doubles the number
    /// of correct low bits, first on the low limb, then on the low 128 bits,
    /// then on the whole value.
    pub fn inv(&self) -> (r: Option<U256>)
        ensures
            self.value() % 2 == 0 ==> r.is_none(),
            self.value() % 2 == 1 ==> r.is_some() && (self.value() * r.unwrap().value())
                % pow256() == 1,
    {
        if !self.is_odd() {
            return None;
        }
        let ghost a = self.value() as int;
        let c: u64 = self.l0;
        let r0: u64 = 3u64.wrapping_mul(c) ^ 2;
        let x0 = c.wrapping_mul(r0);
        let t0 = 2u64.wrapping_sub(x0);
        let r1: u64 = r0.wrapping_mul(t0);
        let x1 = c.wrapping_mul(r1);
        let t1 = 2u64.wrapping_sub(x1);
        let r2: u64 = r1.wrapping_mul(t1);
        let x2 = c.wrapping_mul(r2);
        let t2 = 2u64.wrapping_sub(x2);
        let r3: u64 = r2.wrapping_mul(t2);
        let x3 = c.wrapping_mul(r3);
        let t3 = 2u64.wrapping_sub(x3);
        let r4: u64 = r3.wrapping_mul(t3);
        proof {
            let w = limb_base() as int;
            lemma_fundamental_div_mod_converse(a, w, (a - c) / w, c as int);
            assert(c as int == a % w);
            assert(c % 2 == 1) by {
                lemma_mod_mod(a, 2, 0x8000_0000_0000_0000);
            }
            lemma_seed(c, r0);
            lemma_mul_mod_noop_left(a, r0 as int, 16);
            lemma_mul_mod_noop_left(c as int, r0 as int, 16);
            lemma_mod_mod(a, 16, 0x1000_0000_0000_0000);
            lemma_mod_mod(c as int, 16, 0x1000_0000_0000_0000);
            lemma_mod_mod(a, 0x100, 0x100_0000_0000_0000);
            lemma_mod_mod(c as int, 0x100, 0x100_0000_0000_0000);
            lemma_newton_step(a, c as int, r0 as int, x0 as int, t0 as int, if x0 > 2 { 1 } else { 0 }, r1 as int, 16, w);
            lemma_mod_mod(a, 0x1_0000, 0x1_0000_0000_0000);
            lemma_mod_mod(c as int, 0x1_0000, 0x1_0000_0000_0000);
            lemma_newton_step(a, c as int, r1 as int, x1 as int, t1 as int, if x1 > 2 { 1 } else { 0 }, r2 as int, 0x100, w);
            lemma_mod_mod(a, 0x1_0000_0000, 0x1_0000_0000);
            lemma_mod_mod(c as int, 0x1_0000_0000, 0x1_0000_0000);
            lemma_newton_step(a, c as int, r2 as int, x2 as int, t2 as int, if x2 > 2 { 1 } else { 0 }, r3 as int, 0x1_0000, w);
            lemma_small_mod(c as nat, w as nat);
            lemma_newton_step(a, c as int, r3 as int, x3 as int, t3 as int, if x3 > 2 { 1 } else { 0 }, r4 as int, 0x1_0000_0000, w);
        }
        let c128: u128 = self.as_u128();
        let x4 = c128.wrapping_mul(r4 as u128);
        let t4 = 2u128.wrapping_sub(x4);
        let r5: u128 = (r4 as u128).wrapping_mul(t4);
        proof {
            let n = pow128() as int;
            lemma_mod_twice(a, n);
            lemma_newton_step(a, c128 as int, r4 as int, x4 as int, t4 as int, if x4 > 2 { 1 } else { 0 }, r5 as int, limb_base() as int, n);
        }
        let r6 = U256::from_u128(r5);
        let x5 = r6.wrapping_mul(self);
        let (t5, borrow) = U256::from_u64(2).overflowing_sub(&x5);
        let r7 = r6.wrapping_mul(&t5);
        proof {
            let p = pow256() as int;
            lemma_mod_twice(a, p);
            assert(r6.value() * a == a * r6.value());
            lemma_newton_step(a, a, r5 as int, x5.value() as int, t5.value() as int, if borrow { 1 } else { 0 }, r7.value() as int, pow128() as int, p);
        }
        Some(r7)
    }
}

} // verus!

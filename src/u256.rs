use vstd::arithmetic::div_mod::{
    lemma_fundamental_div_mod, lemma_fundamental_div_mod_converse, lemma_mod_multiples_vanish,
    lemma_small_mod,
};
use vstd::arithmetic::power2::{lemma2_to64, lemma_pow2_adds, lemma_pow2_unfold, pow2};
use vstd::prelude::*;

verus! {

/// 2^64, the weight of one limb.
pub open spec fn limb_base() -> nat {
    0x1_0000_0000_0000_0000
}

/// 2^128.
pub open spec fn pow128() -> nat {
    0x1_0000_0000_0000_0000 * 0x1_0000_0000_0000_0000
}

/// 2^256, the modulus of wrapping arithmetic on `U256`.
pub open spec fn pow256() -> nat {
    0x1_0000_0000_0000_0000 * 0x1_0000_0000_0000_0000 * 0x1_0000_0000_0000_0000
        * 0x1_0000_0000_0000_0000
}

pub proof fn lemma_pow2_256()
    ensures
        pow2(256) == pow256(),
        pow2(255) * 2 == pow256(),
{
    lemma2_to64();
    lemma_pow2_adds(64, 64);
    lemma_pow2_adds(128, 128);
    lemma_pow2_unfold(256);
    assert(pow2(128) == pow128());
    let (a, b) = (pow128() as int, pow256() as int);
    assert(a * a == b) by (nonlinear_arith)
        requires
            a == 0x1_0000_0000_0000_0000 * 0x1_0000_0000_0000_0000,
            b == a * 0x1_0000_0000_0000_0000 * 0x1_0000_0000_0000_0000,
    ;
    assert(pow2(256) == b);
}

/// A number `x` scaled by `2^256` and split as `h * 2^256 + rest` with `rest`
/// below `2^256` has `h == x` and `rest == 0`.
pub proof fn lemma_scaled_split(x: int, h: int, rest: int)
    requires
        x * pow256() == h * pow256() + rest,
        0 <= rest < pow256(),
    ensures
        h == x,
        rest == 0,
{
    let p = pow256() as int;
    assert((x - h) * p == rest) by (nonlinear_arith)
        requires
            x * p == h * p + rest,
    ;
    if x - h >= 1 {
        assert((x - h) * p >= p) by (nonlinear_arith)
            requires
                x - h >= 1,
                p > 0,
        ;
    } else if x - h <= -1 {
        assert((x - h) * p <= -p) by (nonlinear_arith)
            requires
                x - h <= -1,
                p > 0,
        ;
    }
}

/// Doubling a residue and adding `t * b` keeps step with doubling the
/// multiplier `h` and adding `t`.
pub proof fn lemma_double_add_mod(h: int, t: int, b: int, acc: int, m: int)
    requires
        m > 0,
        acc == (h * b) % m,
    ensures
        (2 * acc + t * b) % m == ((2 * h + t) * b) % m,
{
    lemma_fundamental_div_mod(h * b, m);
    let k = (h * b) / m;
    assert((2 * h + t) * b == m * (2 * k) + (2 * acc + t * b)) by (nonlinear_arith)
        requires
            h * b == m * k + acc,
    ;
    lemma_mod_multiples_vanish(2 * k, 2 * acc + t * b, m);
}

/// A 256-bit unsigned integer held as four 64-bit limbs, least significant first.
#[derive(Clone, Copy, Debug, PartialEq, Eq, Structural)]
pub struct U256 {
    pub l0: u64,
    pub l1: u64,
    pub l2: u64,
    pub l3: u64,
}

/// Adds two limbs and a carry bit: the low limb and the carry out.
pub(crate) fn add_carry(a: u64, b: u64, c: u64) -> (r: (u64, u64))
    requires
        c <= 1,
    ensures
        r.0 + r.1 * limb_base() == a + b + c,
        r.1 <= 1,
{
    let s: u128 = a as u128 + b as u128 + c as u128;
    ((s % 0x1_0000_0000_0000_0000) as u64, (s / 0x1_0000_0000_0000_0000) as u64)
}

/// Subtracts a limb and a borrow bit from a limb: the low limb and the borrow out.
pub(crate) fn sub_borrow(a: u64, b: u64, c: u64) -> (r: (u64, u64))
    requires
        c <= 1,
    ensures
        a + r.1 * limb_base() == b + c + r.0,
        r.1 <= 1,
{
    let s: u128 = a as u128 + 0x1_0000_0000_0000_0000 - b as u128 - c as u128;
    ((s % 0x1_0000_0000_0000_0000) as u64, 1 - (s / 0x1_0000_0000_0000_0000) as u64)
}

impl U256 {
    /// The number the limbs stand for.
    pub open spec fn value(self) -> nat {
        (self.l0 + 0x1_0000_0000_0000_0000 * (self.l1 + 0x1_0000_0000_0000_0000 * (self.l2
            + 0x1_0000_0000_0000_0000 * self.l3))) as nat
    }

    pub proof fn lemma_value_bound(self)
        ensures
            self.value() < pow256(),
    {
    }

    pub fn zero() -> (r: U256)
        ensures
            r.value() == 0,
    {
        U256 { l0: 0, l1: 0, l2: 0, l3: 0 }
    }

    pub fn one() -> (r: U256)
        ensures
            r.value() == 1,
    {
        U256 { l0: 1, l1: 0, l2: 0, l3: 0 }
    }

    /// Builds a value from its limbs, least significant first.
    pub fn from_limbs(limbs: [u64; 4]) -> (r: U256)
        ensures
            r.l0 == limbs[0],
            r.l1 == limbs[1],
            r.l2 == limbs[2],
            r.l3 == limbs[3],
    {
        U256 { l0: limbs[0], l1: limbs[1], l2: limbs[2], l3: limbs[3] }
    }

    /// The limbs, least significant first.
    pub fn limbs(&self) -> (r: [u64; 4])
        ensures
            r[0] == self.l0,
            r[1] == self.l1,
            r[2] == self.l2,
            r[3] == self.l3,
    {
        [self.l0, self.l1, self.l2, self.l3]
    }

    /// Limb `i`, counted from the least significant.
    pub fn limb(&self, i: usize) -> (r: u64)
        requires
            i < 4,
        ensures
            r == (if i == 0 {
                self.l0
            } else if i == 1 {
                self.l1
            } else if i == 2 {
                self.l2
            } else {
                self.l3
            }),
    {
        if i == 0 {
            self.l0
        } else if i == 1 {
            self.l1
        } else if i == 2 {
            self.l2
        } else {
            self.l3
        }
    }

    pub fn from_u64(v: u64) -> (r: U256)
        ensures
            r.value() == v,
    {
        U256 { l0: v, l1: 0, l2: 0, l3: 0 }
    }

    pub fn from_u128(v: u128) -> (r: U256)
        ensures
            r.value() == v,
    {
        U256 {
            l0: (v % 0x1_0000_0000_0000_0000) as u64,
            l1: (v / 0x1_0000_0000_0000_0000) as u64,
            l2: 0,
            l3: 0,
        }
    }

    /// The low 128 bits.
    pub fn as_u128(&self) -> (r: u128)
        ensures
            r == self.value() % pow128(),
    {
        let r: u128 = self.l0 as u128 + self.l1 as u128 * 0x1_0000_0000_0000_0000;
        proof {
            lemma_fundamental_div_mod_converse(
                self.value() as int,
                pow128() as int,
                self.l2 + self.l3 * 0x1_0000_0000_0000_0000,
                r as int,
            );
        }
        r
    }

    /// Whether bit `0` is set, that is whether the value is odd.
    pub fn is_odd(&self) -> (r: bool)
        ensures
            r == (self.value() % 2 == 1),
    {
        self.l0 % 2 == 1
    }

    pub fn is_zero(&self) -> (r: bool)
        ensures
            r == (self.value() == 0),
    {
        self.l0 == 0 && self.l1 == 0 && self.l2 == 0 && self.l3 == 0
    }

    /// The sum modulo 2^256, and whether it wrapped.
    pub fn overflowing_add(&self, o: &U256) -> (r: (U256, bool))
        ensures
            r.0.value() + (if r.1 { pow256() } else { 0 }) == self.value() + o.value(),
    {
        let (s0, c) = add_carry(self.l0, o.l0, 0);
        let (s1, c) = add_carry(self.l1, o.l1, c);
        let (s2, c) = add_carry(self.l2, o.l2, c);
        let (s3, c) = add_carry(self.l3, o.l3, c);
        (U256 { l0: s0, l1: s1, l2: s2, l3: s3 }, c == 1)
    }

    /// The difference modulo 2^256, and whether it wrapped (`self < o`).
    pub fn overflowing_sub(&self, o: &U256) -> (r: (U256, bool))
        ensures
            self.value() + (if r.1 { pow256() } else { 0 }) == o.value() + r.0.value(),
            r.1 == (self.value() < o.value()),
    {
        let (s0, b) = sub_borrow(self.l0, o.l0, 0);
        let (s1, b) = sub_borrow(self.l1, o.l1, b);
        let (s2, b) = sub_borrow(self.l2, o.l2, b);
        let (s3, b) = sub_borrow(self.l3, o.l3, b);
        let r = U256 { l0: s0, l1: s1, l2: s2, l3: s3 };
        proof {
            r.lemma_value_bound();
        }
        (r, b == 1)
    }

    /// Doubles the value and adds `bit`: the low 256 bits and the bit shifted out.
    pub fn shl1(&self, bit: bool) -> (r: (U256, bool))
        ensures
            r.0.value() + (if r.1 { pow256() } else { 0 }) == 2 * self.value() + (if bit { 1nat } else { 0 }),
    {
        let (s0, c) = add_carry(self.l0, self.l0, if bit { 1 } else { 0 });
        let (s1, c) = add_carry(self.l1, self.l1, c);
        let (s2, c) = add_carry(self.l2, self.l2, c);
        let (s3, c) = add_carry(self.l3, self.l3, c);
        (U256 { l0: s0, l1: s1, l2: s2, l3: s3 }, c == 1)
    }

    /// The product modulo 2^256: the multiplier's bits are taken most
    /// significant first, doubling the running product and adding the
    /// multiplicand for each set bit.
    pub fn wrapping_mul(&self, o: &U256) -> (r: U256)
        ensures
            r.value() == (self.value() * o.value()) % pow256(),
    {
        let mut acc = U256::zero();
        let mut cur = *self;
        let mut i: u32 = 0;
        let ghost mut h: int = 0;
        proof {
            lemma2_to64();
            assert(h * o.value() == 0);
            lemma_small_mod(0, pow256());
        }
        while i < 256
            invariant
                i <= 256,
                self.value() * pow2(i as nat) == h * pow256() + cur.value(),
                acc.value() == (h * o.value()) % (pow256() as int),
            decreases 256 - i,
        {
            let (cur2, top) = cur.shl1(false);
            let (acc2, c1) = acc.shl1(false);
            let (acc3, c2) = if top {
                acc2.overflowing_add(o)
            } else {
                (acc2, false)
            };
            proof {
                lemma_pow2_unfold((i + 1) as nat);
                let t: int = if top { 1 } else { 0 };
                let k: int = (if c1 { 1int } else { 0 }) + (if c2 { 1int } else { 0 });
                acc3.lemma_value_bound();
                if top {
                    assert(t * o.value() == o.value());
                } else {
                    assert(t * o.value() == 0);
                }
                let p = pow256() as int;
                assert(k * p == (if c1 { p } else { 0 }) + (if c2 { p } else { 0 })) by (nonlinear_arith)
                    requires
                        k == (if c1 { 1int } else { 0 }) + (if c2 { 1int } else { 0 }),
                ;
                assert(acc3.value() + k * pow256() == 2 * acc.value() + t * o.value());
                lemma_fundamental_div_mod_converse(
                    (2 * acc.value() + t * o.value()) as int,
                    pow256() as int,
                    k,
                    acc3.value() as int,
                );
                lemma_double_add_mod(h, t, o.value() as int, acc.value() as int, pow256() as int);
                assert(self.value() * pow2((i + 1) as nat) == (2 * h + t) * pow256() + cur2.value())
                    by (nonlinear_arith)
                    requires
                        self.value() * pow2(i as nat) == h * pow256() + cur.value(),
                        cur2.value() + t * pow256() == 2 * cur.value(),
                        pow2((i + 1) as nat) == 2 * pow2(i as nat),
                ;
                h = 2 * h + t;
            }
            cur = cur2;
            acc = acc3;
            i = i + 1;
        }
        proof {
            lemma_pow2_256();
            cur.lemma_value_bound();
            lemma_scaled_split(self.value() as int, h, cur.value() as int);
        }
        acc
    }

    /// How many limbs the value occupies: one more than the index of its
    /// highest nonzero limb, and zero for zero.
    pub open spec fn width(self) -> nat {
        if self.l3 != 0 {
            4
        } else if self.l2 != 0 {
            3
        } else if self.l1 != 0 {
            2
        } else if self.l0 != 0 {
            1
        } else {
            0
        }
    }

    pub fn significant_limbs(&self) -> (r: usize)
        ensures
            r == self.width(),
            r == 0 <==> self.value() == 0,
    {
        if self.l3 != 0 {
            4
        } else if self.l2 != 0 {
            3
        } else if self.l1 != 0 {
            2
        } else if self.l0 != 0 {
            1
        } else {
            0
        }
    }

    pub fn less_than(&self, o: &U256) -> (r: bool)
        ensures
            r == (self.value() < o.value()),
    {
        self.overflowing_sub(o).1
    }
}

} // verus!

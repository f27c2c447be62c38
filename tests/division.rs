use u256::U256;

fn u(limbs: [u64; 4]) -> U256 {
    U256::from_limbs(limbs)
}

/// `q * b + r` under 256-bit wrapping arithmetic.
fn reconstruct(q: &U256, b: &U256, r: &U256) -> U256 {
    q.wrapping_mul(b).overflowing_add(r).0
}

#[test]
fn test_invmod256() {
    let a = u([0xf80aa815a36a7e47, 0x090be90cfa96712a, 0xf52ec0a4083d2c14, 0x05405dfd1d1c1a97]);
    let e = u([0xf0a9a0091b3bcb77, 0x42d3eba6084ca0de, 0x60d848b6513392d7, 0xdf45026654d086d6]);
    let r = a.inv().unwrap();
    assert_eq!(r, e);
}

#[test]
fn test_invmod_small() {
    let n = u([271, 0, 0, 0]);
    let m = u([383, 0, 0, 0]);
    let i = u([106, 0, 0, 0]);
    let r = n.inv_mod(&m).unwrap();
    assert_eq!(i, r);
}

#[test]
fn test_invmod() {
    let m = u([0x0000000000000001, 0x0000000000000000, 0x0000000000000000, 0x0800000000000011]);
    let n = u([0x1717f47973471ed5, 0xe106229070982941, 0xd82120c54277c73e, 0x07717a21e77894e8]);
    let i = u([0xbda5eaad406f66d1, 0xfac4d8e66130d944, 0x97c88939cbce8317, 0x001752ce51d19c97]);
    let r = n.inv_mod(&m).unwrap();
    assert_eq!(i, r);
}

#[test]
fn div_rem_one_limb() {
    let a = U256::from_limbs([0x1717f47973471ed5, 0xe106229070982941, 0xd82120c54277c73e, 0x07717a21e77894e8]);
    let b = U256::from_limbs([0x1234567890abcdef, 0x0000000000000000, 0x0000000000000000, 0x0000000000000000]);
    let (q, r) = a.div_rem(&b).unwrap();
    assert_eq!(q, U256::from_limbs([0xa00c4b7279043c6c, 0x77c2878b69ee7381, 0x68abc57d00f12a75, 0x0000000000000000]));
    assert_eq!(r, U256::from_limbs([0x05710740f7cc3a01, 0x0000000000000000, 0x0000000000000000, 0x0000000000000000]));
    assert!(r.less_than(&b));
    assert_eq!(reconstruct(&q, &b, &r), a);
}

#[test]
fn div_rem_two_limbs() {
    let a = U256::from_limbs([0x1717f47973471ed5, 0xe106229070982941, 0xd82120c54277c73e, 0x07717a21e77894e8]);
    let b = U256::from_limbs([0x0000000000000003, 0x0000000000000001, 0x0000000000000000, 0x0000000000000000]);
    let (q, r) = a.div_rem(&b).unwrap();
    assert_eq!(q, U256::from_limbs([0x9ba00b71cc6e0fb3, 0xc1ccb25f8c0e0884, 0x07717a21e77894e8, 0x0000000000000000]));
    assert_eq!(r, U256::from_limbs([0x4437d2240dfcefbc, 0x0000000000000000, 0x0000000000000000, 0x0000000000000000]));
    assert!(r.less_than(&b));
    assert_eq!(reconstruct(&q, &b, &r), a);
}

#[test]
fn div_rem_three_limbs() {
    let a = U256::from_limbs([0x1717f47973471ed5, 0xe106229070982941, 0xd82120c54277c73e, 0x07717a21e77894e8]);
    let b = U256::from_limbs([0x0000000000000007, 0x0000000000000005, 0xfedcba9876543210, 0x0000000000000000]);
    let (q, r) = a.div_rem(&b).unwrap();
    assert_eq!(q, U256::from_limbs([0x0779fbd20e37fa25, 0x0000000000000000, 0x0000000000000000, 0x0000000000000000]));
    assert_eq!(r, U256::from_limbs([0xe2c211bb0fbf47d2, 0xbba4377629804687, 0x4f107d3a4df8eaee, 0x0000000000000000]));
    assert!(r.less_than(&b));
    assert_eq!(reconstruct(&q, &b, &r), a);
}

#[test]
fn div_rem_four_limbs() {
    let a = U256::from_limbs([0xffffffffffffffff, 0xffffffffffffffff, 0xffffffffffffffff, 0xffffffffffffffff]);
    let b = U256::from_limbs([0x0000000000000011, 0x0000000000000000, 0x0000000000000000, 0x0000000000000005]);
    let (q, r) = a.div_rem(&b).unwrap();
    assert_eq!(q, U256::from_limbs([0x3333333333333333, 0x0000000000000000, 0x0000000000000000, 0x0000000000000000]));
    assert_eq!(r, U256::from_limbs([0x999999999999999c, 0xfffffffffffffffc, 0xffffffffffffffff, 0x0000000000000000]));
    assert!(r.less_than(&b));
    assert_eq!(reconstruct(&q, &b, &r), a);
}

#[test]
fn div_rem_four_limbs_larger_than_dividend() {
    let a = U256::from_limbs([0x1717f47973471ed5, 0xe106229070982941, 0xd82120c54277c73e, 0x07717a21e77894e8]);
    let b = U256::from_limbs([0x0000000000003039, 0x0000000000000000, 0x0000000000000000, 0x8000000000000000]);
    let (q, r) = a.div_rem(&b).unwrap();
    assert_eq!(q, U256::from_limbs([0x0000000000000000, 0x0000000000000000, 0x0000000000000000, 0x0000000000000000]));
    assert_eq!(r, U256::from_limbs([0x1717f47973471ed5, 0xe106229070982941, 0xd82120c54277c73e, 0x07717a21e77894e8]));
    assert!(r.less_than(&b));
    assert_eq!(reconstruct(&q, &b, &r), a);
}

#[test]
fn div_rem_max_by_max() {
    let a = U256::from_limbs([0xffffffffffffffff, 0xffffffffffffffff, 0xffffffffffffffff, 0xffffffffffffffff]);
    let b = U256::from_limbs([0xffffffffffffffff, 0xffffffffffffffff, 0xffffffffffffffff, 0xffffffffffffffff]);
    let (q, r) = a.div_rem(&b).unwrap();
    assert_eq!(q, U256::from_limbs([0x0000000000000001, 0x0000000000000000, 0x0000000000000000, 0x0000000000000000]));
    assert_eq!(r, U256::from_limbs([0x0000000000000000, 0x0000000000000000, 0x0000000000000000, 0x0000000000000000]));
    assert!(r.less_than(&b));
    assert_eq!(reconstruct(&q, &b, &r), a);
}

#[test]
fn div_rem_max_by_one() {
    let a = U256::from_limbs([0xffffffffffffffff, 0xffffffffffffffff, 0xffffffffffffffff, 0xffffffffffffffff]);
    let b = U256::from_limbs([0x0000000000000001, 0x0000000000000000, 0x0000000000000000, 0x0000000000000000]);
    let (q, r) = a.div_rem(&b).unwrap();
    assert_eq!(q, U256::from_limbs([0xffffffffffffffff, 0xffffffffffffffff, 0xffffffffffffffff, 0xffffffffffffffff]));
    assert_eq!(r, U256::from_limbs([0x0000000000000000, 0x0000000000000000, 0x0000000000000000, 0x0000000000000000]));
    assert!(r.less_than(&b));
    assert_eq!(reconstruct(&q, &b, &r), a);
}

#[test]
fn div_rem_zero_dividend() {
    let a = U256::from_limbs([0x0000000000000000, 0x0000000000000000, 0x0000000000000000, 0x0000000000000000]);
    let b = U256::from_limbs([0x0000000000000099, 0x0000000000000000, 0x0000000000000000, 0x0000000000000000]);
    let (q, r) = a.div_rem(&b).unwrap();
    assert_eq!(q, U256::from_limbs([0x0000000000000000, 0x0000000000000000, 0x0000000000000000, 0x0000000000000000]));
    assert_eq!(r, U256::from_limbs([0x0000000000000000, 0x0000000000000000, 0x0000000000000000, 0x0000000000000000]));
    assert!(r.less_than(&b));
    assert_eq!(reconstruct(&q, &b, &r), a);
}

#[test]
fn div_rem_u64_small() {
    let a = U256::from_limbs([0x1717f47973471ed5, 0xe106229070982941, 0xd82120c54277c73e, 0x07717a21e77894e8]);
    let (q, r) = a.div_rem_u64(0x1234567890abcdef).unwrap();
    assert_eq!(q, U256::from_limbs([0xa00c4b7279043c6c, 0x77c2878b69ee7381, 0x68abc57d00f12a75, 0x0000000000000000]));
    assert_eq!(r, 0x5710740f7cc3a01);
    assert_eq!(reconstruct(&q, &U256::from_u64(0x1234567890abcdef), &U256::from_u64(r)), a);
}

#[test]
fn div_rem_u64_max() {
    let a = U256::from_limbs([0xffffffffffffffff, 0xffffffffffffffff, 0xffffffffffffffff, 0xffffffffffffffff]);
    let (q, r) = a.div_rem_u64(0x7).unwrap();
    assert_eq!(q, U256::from_limbs([0x2492492492492492, 0x9249249249249249, 0x4924924924924924, 0x2492492492492492]));
    assert_eq!(r, 0x1);
    assert_eq!(reconstruct(&q, &U256::from_u64(0x7), &U256::from_u64(r)), a);
}

#[test]
fn div_rem_u64_by_one() {
    let a = U256::from_limbs([0x1717f47973471ed5, 0xe106229070982941, 0xd82120c54277c73e, 0x07717a21e77894e8]);
    let (q, r) = a.div_rem_u64(0x1).unwrap();
    assert_eq!(q, U256::from_limbs([0x1717f47973471ed5, 0xe106229070982941, 0xd82120c54277c73e, 0x07717a21e77894e8]));
    assert_eq!(r, 0x0);
    assert_eq!(reconstruct(&q, &U256::from_u64(0x1), &U256::from_u64(r)), a);
}

#[test]
fn div_rem_u64_largest_divisor() {
    let a = U256::from_limbs([0xffffffffffffffff, 0xffffffffffffffff, 0xffffffffffffffff, 0xffffffffffffffff]);
    let (q, r) = a.div_rem_u64(0xffffffffffffffff).unwrap();
    assert_eq!(q, U256::from_limbs([0x0000000000000001, 0x0000000000000001, 0x0000000000000001, 0x0000000000000001]));
    assert_eq!(r, 0x0);
    assert_eq!(reconstruct(&q, &U256::from_u64(0xffffffffffffffff), &U256::from_u64(r)), a);
}

#[test]
fn div_rem_by_zero_is_none() {
    let a = U256::from_limbs([0x1717f47973471ed5, 0xe106229070982941, 0xd82120c54277c73e, 0x07717a21e77894e8]);
    assert!(a.div_rem_u64(0).is_none());
    assert!(a.div_rem(&U256::zero()).is_none());
    assert!(U256::zero().div_rem(&U256::zero()).is_none());
}

#[test]
fn div_and_rem_operators() {
    let a = U256::from_limbs([0x1717f47973471ed5, 0xe106229070982941, 0xd82120c54277c73e, 0x07717a21e77894e8]);
    let b = U256::from_limbs([0x0000000000000003, 0x0000000000000001, 0x0000000000000000, 0x0000000000000000]);
    assert_eq!(a.div(&b), U256::from_limbs([0x9ba00b71cc6e0fb3, 0xc1ccb25f8c0e0884, 0x07717a21e77894e8, 0x0000000000000000]));
    assert_eq!(a.rem(&b), U256::from_limbs([0x4437d2240dfcefbc, 0x0000000000000000, 0x0000000000000000, 0x0000000000000000]));
    let mut x = a;
    x.div_assign(&b);
    assert_eq!(x, U256::from_limbs([0x9ba00b71cc6e0fb3, 0xc1ccb25f8c0e0884, 0x07717a21e77894e8, 0x0000000000000000]));
    let mut y = a;
    y.rem_assign(&b);
    assert_eq!(y, U256::from_limbs([0x4437d2240dfcefbc, 0x0000000000000000, 0x0000000000000000, 0x0000000000000000]));
}

#[test]
fn inv_of_even_is_none() {
    assert!(U256::zero().inv().is_none());
    assert!(U256::from_limbs([0x2e2fe8f2e68e3daa, 0xc20c4520e1305282, 0xb042418a84ef8e7d, 0x0ee2f443cef129d1]).inv().is_none());
}

#[test]
fn inv_small_and_edge_values() {
    assert_eq!(U256::one().inv(), Some(U256::one()));
    assert_eq!(U256::from_u64(3).inv(), Some(U256::from_limbs([0xaaaaaaaaaaaaaaab, 0xaaaaaaaaaaaaaaaa, 0xaaaaaaaaaaaaaaaa, 0xaaaaaaaaaaaaaaaa])));
    let max = U256::from_limbs([0xffffffffffffffff, 0xffffffffffffffff, 0xffffffffffffffff, 0xffffffffffffffff]);
    assert_eq!(max.inv(), Some(max));
    let a = U256::from_limbs([0x1717f47973471ed5, 0xe106229070982941, 0xd82120c54277c73e, 0x07717a21e77894e8]);
    let i = a.inv().unwrap();
    assert_eq!(i, U256::from_limbs([0x2f52a60e7fdb2a7d, 0xa1004531af5e908a, 0x609c85c268a77b53, 0xe752bd8501ce540b]));
    assert_eq!(a.wrapping_mul(&i), U256::one());
}

#[test]
fn inv_mod_zero_modulus_is_none() {
    assert!(U256::from_u64(5).inv_mod(&U256::zero()).is_none());
}

#[test]
fn inv_mod_not_coprime_is_none() {
    assert!(U256::from_u64(6).inv_mod(&U256::from_u64(9)).is_none());
    assert!(U256::zero().inv_mod(&U256::from_u64(9)).is_none());
    assert!(U256::from_u64(9).inv_mod(&U256::from_u64(9)).is_none());
}

#[test]
fn inv_mod_value_above_modulus() {
    let m = U256::from_u64(383);
    let r = U256::from_u64(271 + 383 * 5).inv_mod(&m).unwrap();
    assert_eq!(r, U256::from_u64(106));
}

#[test]
fn inv_mod_even_modulus() {
    let m = U256::from_limbs([0x0000000000000000, 0x0000000000000000, 0x0000000000000000, 0x0000000000000100]);
    let a = U256::from_limbs([0x1717f47973471ed5, 0xe106229070982941, 0xd82120c54277c73e, 0x07717a21e77894e8]);
    let r = a.inv_mod(&m).unwrap();
    assert_eq!(r, U256::from_limbs([0x2f52a60e7fdb2a7d, 0xa1004531af5e908a, 0x609c85c268a77b53, 0x000000000000000b]));
}

#[test]
fn inv_mod_modulus_one() {
    assert_eq!(U256::from_u64(5).inv_mod(&U256::one()), Some(U256::zero()));
}

#[test]
fn inv_mod_large_modulus_round_trip() {
    let m = U256::from_limbs([0xffffffffffffff43, 0xffffffffffffffff, 0xffffffffffffffff, 0xffffffffffffffff]);
    let a = U256::from_limbs([0x1717f47973471ed5, 0xe106229070982941, 0xd82120c54277c73e, 0x07717a21e77894e8]);
    let r = a.inv_mod(&m).unwrap();
    assert_eq!(r, U256::from_limbs([0xbdcc1ef59630c428, 0x9c7cbdc888cff906, 0x73f28ae9b32da54f, 0x3df68d08d68d6094]));
}

#[test]
fn wrapping_mul_and_add_wrap() {
    let max = U256::from_limbs([0xffffffffffffffff, 0xffffffffffffffff, 0xffffffffffffffff, 0xffffffffffffffff]);
    assert_eq!(max.wrapping_mul(&max), U256::one());
    let (s, c) = max.overflowing_add(&U256::one());
    assert_eq!(s, U256::zero());
    assert!(c);
    let (d, b) = U256::zero().overflowing_sub(&U256::one());
    assert_eq!(d, max);
    assert!(b);
}

#[test]
fn limb_access_and_width() {
    let a = u([1, 2, 3, 0]);
    assert_eq!(a.limb(0), 1);
    assert_eq!(a.limb(2), 3);
    assert_eq!(a.limbs(), [1, 2, 3, 0]);
    assert_eq!(a.significant_limbs(), 3);
    assert_eq!(U256::zero().significant_limbs(), 0);
    assert_eq!(u([0, 0, 0, 9]).significant_limbs(), 4);
    assert_eq!(a.as_u128(), 1 + (2u128 << 64));
    assert_eq!(U256::from_u128(1 + (2u128 << 64)), u([1, 2, 0, 0]));
    assert!(a.is_odd());
    assert!(!U256::from_u64(4).is_odd());
}

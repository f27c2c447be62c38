//! Fixed-width 256-bit unsigned integers: division with remainder, inversion
//! modulo 2^256 and inversion modulo an arbitrary modulus.

mod division;
mod inverse;
mod u256;

pub use division::{lemma_div_rem_round_trip, lemma_div_rem_u64_round_trip};
pub use inverse::{gcd, lemma_gcd_divides, lemma_no_inverse};
pub use u256::{limb_base, pow256, U256};

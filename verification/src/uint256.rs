//! 256-bit unsigned integers, as four little-endian 64-bit limbs.

use vstd::prelude::*;
use vstd::std_specs::cmp::PartialEqSpecImpl;

verus! {

/// 2^256, the modulus of the arithmetic.
pub open spec fn two_to_256() -> nat {
    0x1_0000_0000_0000_0000_0000_0000_0000_0000_0000_0000_0000_0000_0000_0000_0000_0000nat
}

/// The number that four limbs stand for, least significant limb first:
/// the limbs weigh 1, 2^64, 2^128 and 2^192.
pub open spec fn limbs_value(limbs: Seq<u64>) -> nat
    recommends
        limbs.len() == 4,
{
    (limbs[0] as nat) + 0x1_0000_0000_0000_0000nat * (limbs[1] as nat)
        + 0x1_0000_0000_0000_0000_0000_0000_0000_0000nat * (limbs[2] as nat)
        + 0x1_0000_0000_0000_0000_0000_0000_0000_0000_0000_0000_0000_0000nat * (limbs[3] as nat)
}

/// A 256-bit unsigned integer. Its view is the number it stands for.
#[derive(Clone, Copy, Debug)]
pub struct Uint256(pub [u64; 4]);

impl View for Uint256 {
    type V = nat;

    open spec fn view(&self) -> nat {
        limbs_value(self.0@)
    }
}

impl PartialEq for Uint256 {
    fn eq(&self, other: &Self) -> (same: bool) {
        let same = self.0[0] == other.0[0] && self.0[1] == other.0[1] && self.0[2] == other.0[2]
            && self.0[3] == other.0[3];
        proof {
            if same {
                assert(self.0@ =~= other.0@);
            }
        }
        same
    }
}

impl Eq for Uint256 {

}

impl PartialEqSpecImpl for Uint256 {
    open spec fn obeys_eq_spec() -> bool {
        true
    }

    open spec fn eq_spec(&self, other: &Self) -> bool {
        self.0@ == other.0@
    }
}

impl Uint256 {
    /// The 256-bit integer equal to `init`.
    pub fn from_u64(init: u64) -> (x: Self)
        ensures
            x@ == init as nat,
            x.0@ == seq![init, 0u64, 0u64, 0u64],
    {
        let x = Uint256([init, 0, 0, 0]);
        assert(x.0@ =~= seq![init, 0u64, 0u64, 0u64]);
        x
    }

    /// The bitwise complement, which is 2^256 - 1 minus the number.
    pub fn complement(&self) -> (flipped: Self)
        ensures
            flipped@ == two_to_256() - 1 - self@,
    {
        let a = self.0[0];
        let b = self.0[1];
        let c = self.0[2];
        let d = self.0[3];
        assert(!a == 0xffff_ffff_ffff_ffffu64 - a) by (bit_vector);
        assert(!b == 0xffff_ffff_ffff_ffffu64 - b) by (bit_vector);
        assert(!c == 0xffff_ffff_ffff_ffffu64 - c) by (bit_vector);
        assert(!d == 0xffff_ffff_ffff_ffffu64 - d) by (bit_vector);
        let flipped = Uint256([!a, !b, !c, !d]);
        proof {
            let m: nat = 0xffff_ffff_ffff_ffff;
            let (fa, fb, fc, fd) = (
                flipped.0@[0] as nat,
                flipped.0@[1] as nat,
                flipped.0@[2] as nat,
                flipped.0@[3] as nat,
            );
            assert(fa == m - a && fb == m - b && fc == m - c && fd == m - d);
        }
        flipped
    }

}

/// `bitcoin::util::uint::Uint256`'s `+`: limb-wise wrapping addition with the
/// carries added in again, so the sum of the two numbers modulo 2^256. It
/// does not panic.
#[verifier::external_body]
pub(crate) fn uint256_add(a: Uint256, b: Uint256) -> (sum: Uint256)
    ensures
        sum@ == (a@ + b@) % two_to_256(),
{
    Uint256((bitcoin::util::uint::Uint256(a.0) + bitcoin::util::uint::Uint256(b.0)).0)
}

/// `bitcoin::util::uint::Uint256::mul_u32`: the product with a 32-bit factor;
/// what is carried out of the highest limb is dropped, so the product modulo
/// 2^256. It does not panic.
#[verifier::external_body]
pub(crate) fn uint256_mul_u32(a: Uint256, factor: u32) -> (product: Uint256)
    ensures
        product@ == (a@ * factor as nat) % two_to_256(),
{
    Uint256(bitcoin::util::uint::Uint256(a.0).mul_u32(factor).0)
}

/// `bitcoin::util::uint::Uint256`'s `/`: bitwise long division, so the
/// quotient rounded down. It panics on a zero divisor, which `requires`
/// leaves out.
#[verifier::external_body]
pub(crate) fn uint256_div(a: Uint256, divisor: Uint256) -> (quotient: Uint256)
    requires
        divisor@ > 0,
    ensures
        quotient@ == a@ / divisor@,
{
    Uint256((bitcoin::util::uint::Uint256(a.0) / bitcoin::util::uint::Uint256(divisor.0)).0)
}

} // verus!

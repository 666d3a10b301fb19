//! Proof-of-work arithmetic: the target that compact difficulty bits stand
//! for, the work of a block, and the work accumulated along a chain whose
//! difficulty is known only at the start of each retarget period.

use vstd::prelude::*;
use vstd::arithmetic::power2::{pow2, lemma_pow2_adds, lemma_pow2_unfold, lemma2_to64};
use vstd::arithmetic::div_mod::{
    lemma_fundamental_div_mod_converse,
    lemma_truncate_middle,
    lemma_small_mod,
    lemma_div_plus_one,
    lemma_div_non_zero,
    lemma_div_is_ordered_by_denominator,
    lemma_mod_bound,
};
use crate::uint256::{two_to_256, uint256_add, uint256_div, Uint256};
use crate::block::BlockHash;

verus! {

/// The work of one block at the lowest difficulty.
pub const MIN_DIFFICULTY_WORK: u64 = 4295032833;

/// The number of blocks between two retargets on the main network.
pub const MAINNET_RETARGET_INTERVAL: u32 = 2016;

/// The number of blocks between two retargets: 2016 on the main network,
/// 1 on a test network where every block may change the difficulty.
pub open spec fn retarget_interval(mainnet: bool) -> nat {
    if mainnet {
        2016
    } else {
        1
    }
}

/// The size byte of compact bits: the length of the target in bytes.
pub open spec fn compact_size(bits: u32) -> nat {
    (bits as nat) / 0x100_0000
}

/// The low three bytes of compact bits.
pub open spec fn compact_word(bits: u32) -> nat {
    (bits as nat) % 0x100_0000
}

/// The mantissa of compact bits: the low three bytes, cut down to the size
/// where that is under three bytes.
pub open spec fn compact_mantissa(bits: u32) -> nat {
    if compact_size(bits) <= 3 {
        compact_word(bits) / pow2((8 * (3 - compact_size(bits))) as nat)
    } else {
        compact_word(bits)
    }
}

/// The number of bits by which the mantissa is shifted up.
pub open spec fn compact_exponent(bits: u32) -> nat {
    if compact_size(bits) <= 3 {
        0
    } else {
        (8 * (compact_size(bits) - 3)) as nat
    }
}

/// The target that compact bits stand for: the mantissa shifted up by the
/// exponent and cut to 256 bits, or zero where the mantissa has its sign bit
/// set.
pub open spec fn target_of_bits(bits: u32) -> nat {
    if compact_mantissa(bits) > 0x7F_FFFF {
        0
    } else {
        (compact_mantissa(bits) * pow2(compact_exponent(bits))) % two_to_256()
    }
}

/// The work of a block with the given target: 2^256 divided by the target
/// plus one, cut to 256 bits (which turns the quotient 2^256 of a zero
/// target into zero).
pub open spec fn work_of_target(target: nat) -> nat {
    (two_to_256() / (target + 1)) % two_to_256()
}

/// The work of a block with the given compact bits.
pub open spec fn work_of_bits(bits: u32) -> nat {
    work_of_target(target_of_bits(bits))
}

/// `bitcoin::blockdata::block::BlockHeader::target` on a header with the
/// given bits: the low three bytes of the bits, shifted down where the size
/// byte is under three and else shifted up by eight bits for each unit of
/// the size above three, within 256 bits; zero where the mantissa is above
/// 0x7FFFFF. It does not panic.
#[verifier::external_body]
fn compact_target(bits: u32) -> (target: Uint256)
    ensures
        target@ == target_of_bits(bits),
{
    let header = bitcoin::blockdata::block::BlockHeader {
        version: 0,
        prev_blockhash: Default::default(),
        merkle_root: Default::default(),
        time: 0,
        bits,
        nonce: 0,
    };
    Uint256(header.target().0)
}

/// No compact bits stand for the largest 256-bit number: a target is either
/// below 2^23 or even.
pub proof fn lemma_target_below_max(bits: u32)
    ensures
        target_of_bits(bits) + 1 < two_to_256(),
{
    let mantissa = compact_mantissa(bits);
    let exponent = compact_exponent(bits);
    if mantissa > 0x7F_FFFF {
    } else if exponent == 0 {
        lemma2_to64();
        assert(mantissa * pow2(0) == mantissa);
        lemma_small_mod(mantissa, two_to_256());
    } else {
        let half: int = 0x8000_0000_0000_0000_0000_0000_0000_0000_0000_0000_0000_0000_0000_0000_0000_0000int;
        assert(2 * half == two_to_256());
        lemma_pow2_unfold(exponent);
        let rest = mantissa * pow2((exponent - 1) as nat);
        assert(mantissa * pow2(exponent) == 2 * rest) by (nonlinear_arith)
            requires
                pow2(exponent) == 2 * pow2((exponent - 1) as nat),
                rest == mantissa * pow2((exponent - 1) as nat),
        ;
        lemma_truncate_middle(rest as int, 2, half);
        lemma_mod_bound(rest as int, half);
    }
}

/// The work of a block is positive exactly where its target is.
pub proof fn lemma_work_positive(bits: u32)
    ensures
        work_of_bits(bits) > 0 <==> target_of_bits(bits) > 0,
        work_of_bits(bits) < two_to_256(),
{
    lemma_target_below_max(bits);
    let target = target_of_bits(bits);
    let divisor = (target + 1) as int;
    let all = two_to_256() as int;
    lemma_mod_bound(all / divisor, all);
    if target > 0 {
        lemma_div_non_zero(all, divisor);
        lemma_div_is_ordered_by_denominator(all, 2, divisor);
        lemma_small_mod((all / divisor) as nat, two_to_256());
    } else {
        assert(all / 1 == all);
    }
}

/// The bits of the lowest difficulty stand for the target 0xffff * 2^208,
/// and a block at that target has the work `MIN_DIFFICULTY_WORK`.
pub proof fn lemma_min_difficulty_work()
    ensures
        target_of_bits(0x1d00ffff) == 0xffff * pow2(208),
        work_of_bits(0x1d00ffff) == MIN_DIFFICULTY_WORK,
{
    lemma2_to64();
    lemma_pow2_adds(64, 64);
    lemma_pow2_adds(128, 64);
    lemma_pow2_adds(192, 16);
    assert(pow2(208) == 0x1_0000_0000_0000_0000_0000_0000_0000_0000_0000_0000_0000_0000_0000nat);
    assert(compact_size(0x1d00ffff) == 0x1d && compact_word(0x1d00ffff) == 0xffff);
    assert(compact_exponent(0x1d00ffff) == 208);
    let target = 0xffff * pow2(208);
    assert(target == 0xffff_0000_0000_0000_0000_0000_0000_0000_0000_0000_0000_0000_0000_0000nat);
    lemma_small_mod(target, two_to_256());
    assert(target_of_bits(0x1d00ffff) == target);
    let rest: int = 0xffff_ffff_ffff_ffff_ffff_ffff_ffff_ffff_ffff_ffff_fffe_fffe_ffffint;
    assert(two_to_256() == 4295032833 * (target + 1) + rest);
    lemma_fundamental_div_mod_converse(two_to_256() as int, (target + 1) as int, 4295032833, rest);
    lemma_small_mod(4295032833, two_to_256());
}

/// The work of a block with the given compact bits.
pub fn work_from_bits(bits: u32) -> (work: Uint256)
    ensures
        work@ == work_of_bits(bits),
{
    let target = compact_target(bits);
    let one = Uint256::from_u64(1);
    proof {
        lemma_target_below_max(bits);
        lemma_small_mod(target@ + 1, two_to_256());
    }
    let divisor = uint256_add(target, one);
    let quotient = uint256_div(target.complement(), divisor);
    proof {
        lemma_div_plus_one(two_to_256() - 1 - target@, divisor@ as int);
    }
    uint256_add(quotient, one)
}

/// The work of the first `periods` retarget periods that the spine records,
/// each taken as `interval` blocks at the difficulty of its first block.
pub open spec fn periods_work(spine: Seq<(BlockHash, u32)>, periods: nat, interval: nat) -> nat
    decreases periods,
{
    if periods == 0 {
        0
    } else {
        periods_work(spine, (periods - 1) as nat, interval) + work_of_bits(spine[periods - 1].1)
            * interval
    }
}

/// The work accumulated up to `height`, before it is cut to 256 bits.
///
/// Below the first retarget every block counts the lowest difficulty. From
/// there on the first window counts `interval` blocks of the lowest
/// difficulty, each full period since counts `interval` blocks at the
/// difficulty of its first block, and the period of `height` counts its
/// blocks up to and including `height`. Entry `i` of the spine is the block
/// at height `(i + 1) * interval`.
pub open spec fn chainwork_sum(spine: Seq<(BlockHash, u32)>, interval: nat, height: nat) -> nat {
    if height < interval {
        MIN_DIFFICULTY_WORK as nat * height
    } else {
        let period = height / interval;
        MIN_DIFFICULTY_WORK as nat * interval + periods_work(
            spine,
            (period - 1) as nat,
            interval,
        ) + work_of_bits(spine[period - 1].1) * (height % interval + 1)
    }
}

/// The work accumulated up to `height`, as a 256-bit number.
pub open spec fn chainwork_to(spine: Seq<(BlockHash, u32)>, interval: nat, height: nat) -> nat {
    chainwork_sum(spine, interval, height) % two_to_256()
}

/// The accumulated work grows with every block: where the spine reaches the
/// period of `height + 1`, every difficulty on it has a positive target,
/// and the work up to `height + 1` fits in 256 bits, that work is above the
/// work up to `height`.
pub proof fn lemma_chainwork_grows(spine: Seq<(BlockHash, u32)>, mainnet: bool, height: nat)
    requires
        spine.len() >= (height + 1) / retarget_interval(mainnet),
        forall|i: int| 0 <= i < spine.len() ==> target_of_bits(#[trigger] spine[i].1) > 0,
        chainwork_sum(spine, retarget_interval(mainnet), height + 1) < two_to_256(),
    ensures
        chainwork_sum(spine, retarget_interval(mainnet), height) < chainwork_sum(
            spine,
            retarget_interval(mainnet),
            height + 1,
        ),
        chainwork_to(spine, retarget_interval(mainnet), height) < chainwork_to(
            spine,
            retarget_interval(mainnet),
            height + 1,
        ),
{
    let interval = retarget_interval(mainnet);
    let next = height + 1;
    if next < interval {
    } else if height < interval {
        assert(next == interval);
        assert(next / interval == 1 && next % interval == 0);
        assert(periods_work(spine, 0, interval) == 0);
        let first = work_of_bits(spine[0].1);
        lemma_work_positive(spine[0].1);
        assert(first * (0 + 1) == first) by (nonlinear_arith);
    } else {
        let period = height / interval;
        let offset = height % interval;
        let here = work_of_bits(spine[period - 1].1);
        lemma_work_positive(spine[period - 1].1);
        if offset + 1 < interval {
            assert(next / interval == period && next % interval == offset + 1);
            assert(here * (offset + 2) == here * (offset + 1) + here) by (nonlinear_arith);
        } else {
            assert(next / interval == period + 1 && next % interval == 0);
            let there = work_of_bits(spine[period as int].1);
            lemma_work_positive(spine[period as int].1);
            assert(there * (0 + 1) == there) by (nonlinear_arith);
            assert(offset + 1 == interval);
            assert(periods_work(spine, period, interval) == periods_work(
                spine,
                (period - 1) as nat,
                interval,
            ) + here * interval);
        }
    }
    lemma_small_mod(chainwork_sum(spine, interval, next), two_to_256());
    lemma_small_mod(chainwork_sum(spine, interval, height), two_to_256());
}

/// A block has more accumulated work than its parent: where the block's
/// target is positive and the parent's work plus the block's fits in 256
/// bits, the sum as a 256-bit number is above the parent's work.
pub proof fn lemma_child_outweighs_parent(parent_chainwork: nat, bits: u32)
    requires
        target_of_bits(bits) > 0,
        parent_chainwork + work_of_bits(bits) < two_to_256(),
    ensures
        parent_chainwork < (parent_chainwork + work_of_bits(bits)) % two_to_256(),
{
    lemma_work_positive(bits);
    lemma_small_mod(parent_chainwork + work_of_bits(bits), two_to_256());
}

} // verus!

use bitcoin::blockdata::block::BlockHeader as OutsideHeader;
use bitcoin::util::uint::Uint256 as OutsideUint256;
use lightning_block_sync::chainwork::{work_from_bits, MAINNET_RETARGET_INTERVAL, MIN_DIFFICULTY_WORK};
use lightning_block_sync::uint256::Uint256;

fn outside_header(bits: u32) -> OutsideHeader {
    OutsideHeader {
        version: 1,
        prev_blockhash: Default::default(),
        merkle_root: Default::default(),
        time: 0,
        bits,
        nonce: 0,
    }
}

#[test]
fn lowest_difficulty_has_the_known_work() {
    assert_eq!(MIN_DIFFICULTY_WORK, 4295032833);
    assert_eq!(MAINNET_RETARGET_INTERVAL, 2016);
    assert_eq!(work_from_bits(0x1d00ffff), Uint256([4295032833, 0, 0, 0]));
    assert_eq!(work_from_bits(0x1d00ffff), Uint256::from_u64(MIN_DIFFICULTY_WORK));
}

#[test]
fn work_is_two_to_256_over_target_plus_one() {
    // Target 1: 2^256 / 2.
    assert_eq!(work_from_bits(0x01010000), Uint256([0, 0, 0, 0x8000_0000_0000_0000]));
    // Target 0xffff * 2^240, the most that sixteen bits can stand for: once.
    assert_eq!(work_from_bits(0x2100ffff), Uint256([1, 0, 0, 0]));
    // Target 0x7fffff * 2^232: twice.
    assert_eq!(work_from_bits(0x207fffff), Uint256([2, 0, 0, 0]));
    // Target 2^16: (2^16 + 1) * 0x0000ffff_0000ffff_..._0000ffff is 2^256 - 1.
    assert_eq!(
        work_from_bits(0x03010000),
        Uint256([
            0x0000_ffff_0000_ffff,
            0x0000_ffff_0000_ffff,
            0x0000_ffff_0000_ffff,
            0x0000_ffff_0000_ffff,
        ])
    );
}

#[test]
fn a_zero_target_has_no_work() {
    // A zero mantissa.
    assert_eq!(work_from_bits(0), Uint256::from_u64(0));
    assert_eq!(work_from_bits(0x1d000000), Uint256::from_u64(0));
    // A mantissa with its sign bit set.
    assert_eq!(work_from_bits(0x1d800000), Uint256::from_u64(0));
    assert_eq!(work_from_bits(0x03ffffff), Uint256::from_u64(0));
    // A mantissa cut down to nothing by a small size.
    assert_eq!(work_from_bits(0x00ffffff), Uint256::from_u64(0));
    // A mantissa shifted out of 256 bits.
    assert_eq!(work_from_bits(0xff7fffff), Uint256::from_u64(0));
    assert_eq!(work_from_bits(0x24000001), Uint256::from_u64(0));
}

#[test]
fn small_sizes_cut_the_mantissa_down() {
    // Size 2 keeps the two highest bytes of 0x012345: target 0x0123.
    let by_hand = work_from_bits(0x02012345);
    // 2^256 / 0x124 as the outside crate divides.
    let all_ones = !OutsideUint256::from_u64(0).unwrap();
    let quotient = (all_ones / OutsideUint256::from_u64(0x124).unwrap()).0;
    // 2^256 is not a multiple of 0x124, so 2^256 / 0x124 == (2^256 - 1) / 0x124.
    assert_eq!(by_hand, Uint256(quotient));
}

#[test]
fn work_agrees_with_the_outside_crate() {
    for bits in [0x1d00ffffu32, 0x1b0404cb, 0x1a05db8b, 0x170b8c8b, 0x1c0168fd, 0x207fffff, 0x1e0fffff] {
        assert_eq!(work_from_bits(bits), Uint256(outside_header(bits).work().0), "bits {:x}", bits);
    }
}

#[test]
fn the_complement_flips_every_bit() {
    assert_eq!(Uint256::from_u64(0).complement(), Uint256([u64::MAX; 4]));
    assert_eq!(
        Uint256([1, 2, 3, 4]).complement(),
        Uint256([u64::MAX - 1, u64::MAX - 2, u64::MAX - 3, u64::MAX - 4])
    );
}

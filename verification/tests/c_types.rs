use lightning_block_sync::c_types::{
    u8slice, usizeslice, C2TupleTempl, C3TupleTempl, CResultTempl, CSliceTempl, CVecTempl,
    FourBytes, PublicKey, SecretKey, Signature, SixteenBytes, Str, TenBytes, ThirtyTwoBytes,
    ThreeBytes, Transaction, TxOut,
};
use lightning_block_sync::errors::APIError;
use lightning_block_sync::chaininterface::{ChainError, ConfirmationTarget};
use lightning_block_sync::logger::Level;
use lightning_block_sync::msgs::NetAddress;

#[test]
fn empty_keys_and_signatures_are_null() {
    assert!(PublicKey::empty().is_null());
    assert_eq!(PublicKey::empty().compressed_form, [0u8; 33]);
    assert!(Signature::empty().is_null());
    assert_eq!(Signature::empty().compact_form, [0u8; 64]);
    assert_eq!(ThirtyTwoBytes::empty().data, [0u8; 32]);
}

#[test]
fn a_single_set_bit_makes_a_key_or_signature_not_null() {
    for at in [0usize, 1, 16, 32] {
        let mut key = PublicKey::empty();
        key.compressed_form[at] = 0x80;
        assert!(!key.is_null());
    }
    for at in [0usize, 31, 32, 63] {
        let mut sig = Signature::empty();
        sig.compact_form[at] = 1;
        assert!(!sig.is_null());
    }
}

#[test]
fn a_buffer_hands_its_items_back_in_order() {
    let buffer = CVecTempl::from(vec![3u8, 1, 4, 1, 5]);
    assert_eq!(buffer.data, vec![3, 1, 4, 1, 5]);
    assert_eq!(buffer.into_rust(), vec![3, 1, 4, 1, 5]);
    let empty: CVecTempl<u64> = CVecTempl::from(Vec::new());
    assert!(empty.into_rust().is_empty());
    let out = TxOut { script_pubkey: CVecTempl::from(vec![0x6a, 0x00]), value: 546 };
    assert_eq!(out.value, 546);
    assert_eq!(out.script_pubkey.into_rust(), vec![0x6a, 0x00]);
}

#[test]
fn plain_containers_hold_what_they_are_given() {
    let secret = SecretKey { bytes: [7u8; 32] };
    assert_eq!(secret.bytes[31], 7);
    let colour = ThreeBytes { data: [1, 2, 3] };
    assert_eq!(colour.data, [1, 2, 3]);
    let v4 = NetAddress::IPv4 { addr: FourBytes { data: [127, 0, 0, 1] }, port: 9735 };
    let v6 = NetAddress::IPv6 { addr: SixteenBytes { data: [0u8; 16] }, port: 9735 };
    let onion2 = NetAddress::OnionV2 { addr: TenBytes { data: [9u8; 10] }, port: 1 };
    let onion3 = NetAddress::OnionV3 { ed25519_pubkey: ThirtyTwoBytes::empty(), checksum: 2, version: 3, port: 4 };
    match v4.clone() {
        NetAddress::IPv4 { addr, port } => {
            assert_eq!(addr.data, [127, 0, 0, 1]);
            assert_eq!(port, 9735);
        },
        _ => panic!("an IPv4 address stays one"),
    }
    assert!(matches!(v6, NetAddress::IPv6 { port: 9735, .. }));
    assert!(matches!(onion2, NetAddress::OnionV2 { port: 1, .. }));
    assert!(matches!(onion3, NetAddress::OnionV3 { checksum: 2, version: 3, port: 4, .. }));
}

#[test]
fn the_vocabulary_tells_its_words_apart() {
    assert_eq!(ChainError::NotSupported, ChainError::NotSupported);
    assert_ne!(ChainError::NotWatched, ChainError::UnknownTx);
    assert_ne!(ConfirmationTarget::Background, ConfirmationTarget::HighPriority);
    assert_eq!(ConfirmationTarget::Normal.clone(), ConfirmationTarget::Normal);
    let levels = [Level::Off, Level::Error, Level::Warn, Level::Info, Level::Debug, Level::Trace];
    for (i, a) in levels.iter().enumerate() {
        for (j, b) in levels.iter().enumerate() {
            assert_eq!(a == b, i == j);
        }
    }
}

#[test]
fn borrowed_slices_are_the_slices_they_borrow() {
    let bytes = [1u8, 2, 3];
    assert_eq!(u8slice::from_slice(&bytes).to_slice(), &bytes[..]);
    assert_eq!(u8slice::from_slice(&bytes[..0]).to_slice().len(), 0);
    let sizes = [7usize, 0, usize::MAX];
    assert_eq!(usizeslice::from_slice(&sizes).to_slice(), &sizes[..]);
    assert_eq!(Transaction::from_slice(&bytes).data, &bytes[..]);
    assert_eq!(Str::from("no route").into_str(), "no route");
    assert_eq!(Str { chars: "" }.into_str(), "");
}

#[test]
fn tuples_and_outcomes_hand_back_what_went_in() {
    assert_eq!(C2TupleTempl::from((5u32, "five")).to_rust(), (5u32, "five"));
    assert_eq!(C3TupleTempl::from((1u8, 2u16, vec![3u32])).to_rust(), (1u8, 2u16, vec![3u32]));
    let good: CResultTempl<u8, &str> = CResultTempl::good(9);
    assert_eq!(good.contents, Ok(9));
    let bad: CResultTempl<u8, &str> = CResultTempl::err("full");
    assert_eq!(bad.contents, Err("full"));
    let run = CSliceTempl { data: vec![1u8, 2] };
    assert_eq!(run.data, vec![1, 2]);
}

#[test]
fn api_errors_carry_their_reasons() {
    let too_high = APIError::FeeRateTooHigh { err: CVecTempl::from(b"fee".to_vec()), feerate: 253 };
    match too_high {
        APIError::FeeRateTooHigh { err, feerate } => {
            assert_eq!(err.into_rust(), b"fee".to_vec());
            assert_eq!(feerate, 253);
        },
        _ => panic!("a fee rate error stays one"),
    }
    assert!(matches!(APIError::RouteError { err: Str::from("loop") }, APIError::RouteError { err } if err.into_str() == "loop"));
    assert!(matches!(APIError::APIMisuseError { err: CVecTempl::from(Vec::new()) }, APIError::APIMisuseError { .. }));
    assert!(matches!(APIError::ChannelUnavailable { err: CVecTempl::from(vec![1]) }, APIError::ChannelUnavailable { .. }));
    assert!(matches!(APIError::MonitorUpdateFailed, APIError::MonitorUpdateFailed));
}

use bitcoin::util::hash::BitcoinHash;
use lightning_block_sync::block::{BlockHeader, BlockSourceRespErr};
use lightning_block_sync::dns_headers::DNSHeadersClient;

fn genesis_addrs() -> Vec<[u8; 16]> {
    vec![
        [0x20, 0x01, 0x00, 0x00, 0x10, 0x00, 0, 0, 0, 0, 0, 0, 0, 0, 0, 0],
        [0x20, 0x01, 0x10, 0x00, 0, 0, 0, 0, 0, 0, 0, 0, 0, 0, 0, 0],
        [0x20, 0x01, 0x20, 0x00, 0, 0, 0, 0, 0, 0, 0, 0, 0x03, 0xba, 0x3e, 0xdf],
        [0x20, 0x01, 0x3d, 0x7a, 0x7b, 0x12, 0xb2, 0x7a, 0xc7, 0x2c, 0x3e, 0x67, 0x76, 0x8f, 0x61, 0x7f],
        [0x20, 0x01, 0x4c, 0x81, 0xbc, 0x38, 0x88, 0xa5, 0x13, 0x23, 0xa9, 0xfb, 0x8a, 0xa4, 0xb1, 0xe5],
        [0x20, 0x01, 0x5e, 0x4a, 0x29, 0xab, 0x5f, 0x49, 0xff, 0xff, 0x00, 0x1d, 0x1d, 0xac, 0x2b, 0x7c],
    ]
}

#[test]
fn names_hold_the_height_and_its_zone() {
    let client = DNSHeadersClient::new("bitcoinheaders.net".to_string());
    assert_eq!(client.name_for_height(0), "0.0.bitcoinheaders.net");
    assert_eq!(client.name_for_height(9999), "9999.0.bitcoinheaders.net");
    assert_eq!(client.name_for_height(10000), "10000.1.bitcoinheaders.net");
    assert_eq!(client.name_for_height(623456), "623456.62.bitcoinheaders.net");
    assert_eq!(client.name_for_height(u32::MAX), "4294967295.429496.bitcoinheaders.net");
    let other = DNSHeadersClient::new("example.org.".to_string());
    assert_eq!(other.name_for_height(100007), "100007.10.example.org.");
}

#[test]
fn the_genesis_addresses_spell_out_the_genesis_header() {
    let mut ips = genesis_addrs();
    ips.rotate_left(2);
    let client = DNSHeadersClient::new("bitcoinheaders.net".to_string());
    let header = client.get_header(&mut ips).unwrap();
    assert_eq!(ips, genesis_addrs());
    let mut merkle_root = [
        0x4a, 0x5e, 0x1e, 0x4b, 0xaa, 0xb8, 0x9f, 0x3a, 0x32, 0x51, 0x8a, 0x88, 0xc3, 0x1b, 0xc8, 0x7f,
        0x61, 0x8f, 0x76, 0x67, 0x3e, 0x2c, 0xc7, 0x7a, 0xb2, 0x12, 0x7b, 0x7a, 0xfd, 0xed, 0xa3, 0x3b,
    ];
    merkle_root.reverse();
    assert_eq!(header.version, 1);
    assert_eq!(header.prev_blockhash.bytes, [0u8; 32]);
    assert_eq!(header.merkle_root, merkle_root);
    assert_eq!(header.time, 1231006505);
    assert_eq!(header.bits, 0x1d00ffff);
    assert_eq!(header.nonce, 2083236893);
    // The same header as the outside crate's genesis block has.
    let outside = bitcoin::blockdata::constants::genesis_block(bitcoin::network::constants::Network::Bitcoin).header;
    assert_eq!(outside.version, header.version);
    assert_eq!(outside.time, header.time);
    assert_eq!(outside.bits, header.bits);
    assert_eq!(outside.nonce, header.nonce);
    assert_eq!(bitcoin::hashes::Hash::into_inner(outside.merkle_root), header.merkle_root);
    assert_eq!(
        format!("{}", outside.bitcoin_hash()),
        "000000000019d6689c085ae165831e934ff763ae46a2a6c172b3f1b60a8ce26f"
    );
}

#[test]
fn numbers_are_read_least_significant_byte_first() {
    let mut bytes = [0u8; 80];
    for (i, byte) in bytes.iter_mut().enumerate() {
        *byte = i as u8 + 1;
    }
    let header = BlockHeader::from_bytes(&bytes).unwrap();
    assert_eq!(header.version, 0x04030201);
    assert_eq!(&header.prev_blockhash.bytes[..], &bytes[4..36]);
    assert_eq!(&header.merkle_root[..], &bytes[36..68]);
    assert_eq!(header.time, 0x48474645);
    assert_eq!(header.bits, 0x4c4b4a49);
    assert_eq!(header.nonce, 0x504f4e4d);
}

#[test]
fn unusable_answers_are_no_response() {
    let client = DNSHeadersClient::new("bitcoinheaders.net".to_string());
    // Too few addresses.
    let mut ips = genesis_addrs();
    ips.pop();
    let before = ips.clone();
    assert_eq!(client.get_header(&mut ips), Err(BlockSourceRespErr::NoResponse));
    assert_eq!(ips, before);
    // Too many.
    let mut ips = genesis_addrs();
    ips.push([0u8; 16]);
    assert_eq!(client.get_header(&mut ips), Err(BlockSourceRespErr::NoResponse));
    // A version that is not zero.
    let mut ips = genesis_addrs();
    ips[0][3] = 0x20;
    assert_eq!(client.get_header(&mut ips), Err(BlockSourceRespErr::NoResponse));
}

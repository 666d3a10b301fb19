use lightning_block_sync::codec::{header_to_addrs, map_addrs_to_header, sort_addrs, DecodeError};

/// Reads an IPv6 address in its usual text form, with at most one `::`.
fn ip(text: &str) -> [u8; 16] {
    let (head, tail) = match text.find("::") {
        Some(at) => (&text[..at], &text[at + 2..]),
        None => (text, ""),
    };
    let groups = |part: &str| -> Vec<u16> {
        part.split(':').filter(|g| !g.is_empty()).map(|g| u16::from_str_radix(g, 16).unwrap()).collect()
    };
    let front = groups(head);
    let back = groups(tail);
    assert!(front.len() + back.len() <= 8);
    let mut words = [0u16; 8];
    for (i, w) in front.iter().enumerate() {
        words[i] = *w;
    }
    for (i, w) in back.iter().enumerate() {
        words[8 - back.len() + i] = *w;
    }
    let mut octets = [0u8; 16];
    for i in 0..8 {
        octets[2 * i] = (words[i] >> 8) as u8;
        octets[2 * i + 1] = (words[i] & 0xff) as u8;
    }
    octets
}

const GENESIS: [u8; 80] = [
    0x1, 0x0, 0x0, 0x0, 0x0, 0x0, 0x0, 0x0, 0x0, 0x0, 0x0, 0x0, 0x0, 0x0, 0x0, 0x0, 0x0, 0x0, 0x0,
    0x0, 0x0, 0x0, 0x0, 0x0, 0x0, 0x0, 0x0, 0x0, 0x0, 0x0, 0x0, 0x0, 0x0, 0x0, 0x0, 0x0, 0x3b,
    0xa3, 0xed, 0xfd, 0x7a, 0x7b, 0x12, 0xb2, 0x7a, 0xc7, 0x2c, 0x3e, 0x67, 0x76, 0x8f, 0x61, 0x7f,
    0xc8, 0x1b, 0xc3, 0x88, 0x8a, 0x51, 0x32, 0x3a, 0x9f, 0xb8, 0xaa, 0x4b, 0x1e, 0x5e, 0x4a, 0x29,
    0xab, 0x5f, 0x49, 0xff, 0xff, 0x0, 0x1d, 0x1d, 0xac, 0x2b, 0x7c,
];

const BLOCK_100000: [u8; 80] = [
    0x01, 0x00, 0x00, 0x00, 0x50, 0x12, 0x01, 0x19, 0x17, 0x2a, 0x61, 0x04, 0x21, 0xa6, 0xc3, 0x01,
    0x1d, 0xd3, 0x30, 0xd9, 0xdf, 0x07, 0xb6, 0x36, 0x16, 0xc2, 0xcc, 0x1f, 0x1c, 0xd0, 0x02, 0x00,
    0x00, 0x00, 0x00, 0x00, 0x66, 0x57, 0xa9, 0x25, 0x2a, 0xac, 0xd5, 0xc0, 0xb2, 0x94, 0x09, 0x96,
    0xec, 0xff, 0x95, 0x22, 0x28, 0xc3, 0x06, 0x7c, 0xc3, 0x8d, 0x48, 0x85, 0xef, 0xb5, 0xa4, 0xac,
    0x42, 0x47, 0xe9, 0xf3, 0x37, 0x22, 0x1b, 0x4d, 0x4c, 0x86, 0x04, 0x1b, 0x0f, 0x2b, 0x57, 0x10,
];

fn genesis_addrs() -> Vec<[u8; 16]> {
    vec![
        ip("2001:0000:1000:0000:0000:0000:0000:0000"),
        ip("2001:1000:0000:0000:0000:0000:0000:0000"),
        ip("2001:2000:0000:0000:0000:0000:03ba:3edf"),
        ip("2001:3d7a:7b12:b27a:c72c:3e67:768f:617f"),
        ip("2001:4c81:bc38:88a5:1323:a9fb:8aa4:b1e5"),
        ip("2001:5e4a:29ab:5f49:ffff:001d:1dac:2b7c"),
    ]
}

/// Writes a header as six addresses: the inverse of the decoding.
fn encode(header: &[u8; 80], prefix: [u8; 2]) -> Vec<[u8; 16]> {
    let mut nibbles = Vec::new();
    for byte in header.iter() {
        nibbles.push(byte >> 4);
        nibbles.push(byte & 0x0f);
    }
    let mut addrs = Vec::new();
    let mut next = 0;
    for tag in 0..6u8 {
        let mut halves = vec![prefix[0] >> 4, prefix[0] & 0x0f, prefix[1] >> 4, prefix[1] & 0x0f, tag];
        if tag == 0 {
            halves.push(0);
            halves.push(0);
        }
        while halves.len() < 32 {
            halves.push(nibbles[next]);
            next += 1;
        }
        let mut addr = [0u8; 16];
        for i in 0..16 {
            addr[i] = (halves[2 * i] << 4) | halves[2 * i + 1];
        }
        addrs.push(addr);
    }
    assert_eq!(next, 160);
    addrs
}

#[test]
fn test_map_addrs() {
    let mut ips = Vec::new();
    // The genesis header:
    ips.push(ip("2001:0000:1000:0000:0000:0000:0000:0000"));
    ips.push(ip("2001:1000:0000:0000:0000:0000:0000:0000"));
    ips.push(ip("2001:2000:0000:0000:0000:0000:03ba:3edf"));
    ips.push(ip("2001:3d7a:7b12:b27a:c72c:3e67:768f:617f"));
    ips.push(ip("2001:4c81:bc38:88a5:1323:a9fb:8aa4:b1e5"));
    ips.push(ip("2001:5e4a:29ab:5f49:ffff:001d:1dac:2b7c"));

    assert_eq!(&map_addrs_to_header(&mut ips).unwrap()[..], &GENESIS[..]);

    // Block 100,000
    ips.clear();
    ips.push(ip("2001:2cc1:f1cd:20::665:7a92"));
    ips.push(ip("2001:352a:acd5:c0b2:9409:96ec:ff95:2228"));
    ips.push(ip("2001:4c30:67cc:38d4:885e:fb5a:4ac4:247e"));
    ips.push(ip("2001:0:1000:5:120:1191:72a6:1042"));
    ips.push(ip("2001:11a6:c301:1dd3:30d9:df07:b636:16c2"));
    ips.push(ip("2001:59f3:3722:1b4d:4c86:41b:f2b:5710"));

    assert_eq!(&map_addrs_to_header(&mut ips).unwrap()[..], &BLOCK_100000[..]);
}

#[test]
fn ip_text_is_read_as_octets() {
    assert_eq!(
        ip("2001:2cc1:f1cd:20::665:7a92"),
        [0x20, 0x01, 0x2c, 0xc1, 0xf1, 0xcd, 0x00, 0x20, 0, 0, 0, 0, 0x06, 0x65, 0x7a, 0x92]
    );
}

#[test]
fn decoding_sorts_the_addresses_in_place() {
    let mut ips = genesis_addrs();
    ips.reverse();
    assert_eq!(&map_addrs_to_header(&mut ips).unwrap()[..], &GENESIS[..]);
    assert_eq!(ips, genesis_addrs());
}

#[test]
fn every_order_of_the_addresses_decodes_alike() {
    let sorted = encode(&BLOCK_100000, [0x20, 0x01]);
    // All 720 orders of six addresses.
    let mut order = [0usize, 1, 2, 3, 4, 5];
    let mut seen = 0;
    loop {
        let mut ips: Vec<[u8; 16]> = order.iter().map(|&i| sorted[i]).collect();
        assert_eq!(map_addrs_to_header(&mut ips), Ok(BLOCK_100000));
        assert_eq!(ips, sorted);
        seen += 1;
        // The next order, lexicographically.
        let mut i = 5;
        while i > 0 && order[i - 1] >= order[i] {
            i -= 1;
        }
        if i == 0 {
            break;
        }
        let mut j = 5;
        while order[j] <= order[i - 1] {
            j -= 1;
        }
        order.swap(i - 1, j);
        order[i..].reverse();
    }
    assert_eq!(seen, 720);
}

#[test]
fn encoding_then_decoding_gives_the_header_back() {
    let mut header = [0u8; 80];
    for (i, byte) in header.iter_mut().enumerate() {
        *byte = (i as u8).wrapping_mul(37).wrapping_add(11);
    }
    for prefix in [[0x20, 0x01], [0x00, 0x00], [0xff, 0xff]] {
        let mut ips = encode(&header, prefix);
        ips.swap(0, 4);
        ips.swap(1, 3);
        assert_eq!(map_addrs_to_header(&mut ips), Ok(header));
    }
    assert_eq!(encode(&GENESIS, [0x20, 0x01]), genesis_addrs());
}

#[test]
fn the_genesis_header_is_written_as_its_known_addresses() {
    assert_eq!(header_to_addrs(&GENESIS, [0x20, 0x01]).to_vec(), genesis_addrs());
    assert_eq!(header_to_addrs(&BLOCK_100000, [0x20, 0x01]).to_vec(), encode(&BLOCK_100000, [0x20, 0x01]));
    assert_eq!(
        header_to_addrs(&BLOCK_100000, [0x20, 0x01])[3],
        ip("2001:352a:acd5:c0b2:9409:96ec:ff95:2228")
    );
    let mut header = [0u8; 80];
    for (i, byte) in header.iter_mut().enumerate() {
        *byte = 255 - (i as u8).wrapping_mul(3);
    }
    let addrs = header_to_addrs(&header, [0xab, 0xcd]);
    for (tag, addr) in addrs.iter().enumerate() {
        assert_eq!(&addr[..2], &[0xab, 0xcd]);
        assert_eq!(addr[2] >> 4, tag as u8);
    }
    let mut ips = vec![addrs[5], addrs[0], addrs[3], addrs[1], addrs[4], addrs[2]];
    assert_eq!(map_addrs_to_header(&mut ips), Ok(header));
}

#[test]
fn a_version_other_than_zero_is_rejected() {
    // The low half of the third byte is the high half of the version.
    let mut ips = genesis_addrs();
    ips[0][2] |= 0x01;
    assert_eq!(map_addrs_to_header(&mut ips), Err(DecodeError::UnsupportedVersion));
    // The high half of the fourth byte is its low half.
    let mut ips = genesis_addrs();
    ips[0][3] |= 0x10;
    assert_eq!(map_addrs_to_header(&mut ips), Err(DecodeError::UnsupportedVersion));
    // Only the address that sorts first carries a version.
    let mut ips = genesis_addrs();
    ips.swap(0, 5);
    ips[5][3] = 0xf0;
    assert_eq!(map_addrs_to_header(&mut ips), Err(DecodeError::UnsupportedVersion));
}

#[test]
fn fewer_or_more_than_six_addresses_are_rejected() {
    for count in [0usize, 1, 5, 7, 12] {
        let mut ips: Vec<[u8; 16]> = genesis_addrs().into_iter().cycle().take(count).collect();
        let before = ips.clone();
        assert_eq!(map_addrs_to_header(&mut ips), Err(DecodeError::WrongAddressCount));
        assert_eq!(ips, before);
    }
}

#[test]
fn addresses_with_equal_tags_keep_their_order() {
    let mut ips = vec![[0u8; 16]; 5];
    let tags = [0x30u8, 0x10, 0x30, 0x00, 0x10];
    for (i, addr) in ips.iter_mut().enumerate() {
        addr[2] = tags[i] | 0x0f;
        addr[15] = i as u8;
    }
    sort_addrs(&mut ips);
    let order: Vec<u8> = ips.iter().map(|a| a[15]).collect();
    assert_eq!(order, vec![3, 1, 4, 0, 2]);
}

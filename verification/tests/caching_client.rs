use bitcoin::blockdata::block::BlockHeader as OutsideHeader;
use bitcoin::util::hash::BitcoinHash;
use bitcoin::util::uint::Uint256 as OutsideUint256;
use lightning_block_sync::block::{BlockHash, BlockHeader, BlockHeaderData, BlockSourceRespErr};
use lightning_block_sync::chainwork::work_from_bits;
use lightning_block_sync::dns_headers::{CachingHeadersClient, SimpleHeadersClient};
use lightning_block_sync::source::StoredHeaders;
use lightning_block_sync::uint256::Uint256;
use std::cell::RefCell;
use std::rc::Rc;

const W: u64 = 4295032833;

/// The hash of a header, as the outside crate computes it.
fn hash_of(header: &BlockHeader) -> BlockHash {
    let outside = OutsideHeader {
        version: header.version,
        prev_blockhash: bitcoin::hashes::Hash::from_inner(header.prev_blockhash.bytes),
        merkle_root: bitcoin::hashes::Hash::from_inner(header.merkle_root),
        time: header.time,
        bits: header.bits,
        nonce: header.nonce,
    };
    BlockHash { bytes: bitcoin::hashes::Hash::into_inner(outside.bitcoin_hash()) }
}

/// A chain of headers from height 1 up, each on top of the one before.
fn chain(length: u32, bits_at: &dyn Fn(u32) -> u32, salt: u32) -> Vec<BlockHeader> {
    let mut headers = Vec::new();
    let mut prev = BlockHash { bytes: [0x11; 32] };
    for height in 1..=length {
        let header = BlockHeader {
            version: 1,
            prev_blockhash: prev,
            merkle_root: [height as u8; 32],
            time: 1_231_006_505 + 600 * height,
            bits: bits_at(height),
            nonce: height ^ salt,
        };
        prev = hash_of(&header);
        headers.push(header);
    }
    headers
}

/// What a source has to say, and what it was asked.
struct Shelf {
    headers: Vec<BlockHeader>,
    bogus_at: Option<u32>,
    asked: Vec<u32>,
}

/// A source that serves the headers on a shelf and notes each height asked.
struct Served(Rc<RefCell<Shelf>>);

impl SimpleHeadersClient for Served {
    fn get_header(&self, height: u32) -> Result<BlockHeader, BlockSourceRespErr> {
        let mut shelf = self.0.borrow_mut();
        shelf.asked.push(height);
        if shelf.bogus_at == Some(height) {
            return Err(BlockSourceRespErr::BogusData);
        }
        if height == 0 || height as usize > shelf.headers.len() {
            return Err(BlockSourceRespErr::NoResponse);
        }
        Ok(shelf.headers[height as usize - 1])
    }
}

fn client_on(headers: Vec<BlockHeader>, mainnet: bool) -> (CachingHeadersClient<Served>, Rc<RefCell<Shelf>>) {
    let shelf = Rc::new(RefCell::new(Shelf { headers, bogus_at: None, asked: Vec::new() }));
    (CachingHeadersClient::new(Served(shelf.clone()), mainnet), shelf)
}

/// The sum of the terms, as the outside crate adds.
fn sum(terms: &[Uint256]) -> Uint256 {
    let mut total = OutsideUint256::from_u64(0).unwrap();
    for term in terms {
        total = total + OutsideUint256(term.0);
    }
    Uint256(total.0)
}

/// The product, as the outside crate multiplies.
fn times(number: Uint256, factor: u32) -> Uint256 {
    Uint256(OutsideUint256(number.0).mul_u32(factor).0)
}

#[test]
fn a_fresh_client_has_empty_caches() {
    let (client, shelf) = client_on(chain(3, &|_| 0x1d00ffff, 0), false);
    assert!(client.retarget_headers().is_empty());
    assert_eq!(client.highest_cached_height(), 0);
    assert_eq!(client.cached_header(&BlockHash { bytes: [0; 32] }, 1), None);
    assert!(shelf.borrow().asked.is_empty());
}

#[test]
fn cold_start_finds_the_tip_on_a_test_network() {
    let headers = chain(10, &|_| 0x1d00ffff, 0);
    let tip = hash_of(&headers[9]);
    let (mut client, shelf) = client_on(headers, false);
    assert_eq!(client.get_best_block(), Ok((tip, Some(10))));
    // Every boundary up to the first without a response, then the first
    // height above the highest cached, then the highest cached once more.
    assert_eq!(shelf.borrow().asked, vec![1, 2, 3, 4, 5, 6, 7, 8, 9, 10, 11, 11, 10]);
    assert_eq!(client.retarget_headers().len(), 10);
    assert_eq!(client.highest_cached_height(), 10);
}

#[test]
fn cold_start_finds_the_tip_on_the_main_network() {
    let headers = chain(4035, &|h| if h < 2016 { 0x1d00ffff } else if h < 4032 { 0x1c7fff80 } else { 0x1c0ffff0 }, 0);
    let tip = hash_of(&headers[4034]);
    let first = hash_of(&headers[2015]);
    let second = hash_of(&headers[4031]);
    let (mut client, shelf) = client_on(headers.clone(), true);
    assert_eq!(client.get_best_block(), Ok((tip, Some(4035))));
    // The boundaries, then upwards from the highest of them.
    assert_eq!(shelf.borrow().asked, vec![2016, 4032, 6048, 4033, 4034, 4035, 4036]);
    assert_eq!(client.retarget_headers(), &vec![(first, 0x1c7fff80), (second, 0x1c0ffff0)]);

    // The work up to the tip: the first window at the lowest difficulty, one
    // full period at the difficulty of block 2016, then blocks 4032 to 4035.
    let expected = sum(&[
        Uint256::from_u64(W * 2016),
        times(work_from_bits(0x1c7fff80), 2016),
        times(work_from_bits(0x1c0ffff0), 4),
    ]);
    let found = client.get_header(&tip, Some(4035)).unwrap();
    assert_eq!(found, BlockHeaderData { chainwork: expected, height: 4035, header: headers[4034] });
    assert_eq!(client.calculate_chainwork_to(4035), expected);
    // Asked nothing more: the tip was cached.
    assert_eq!(shelf.borrow().asked.len(), 7);
}

#[test]
fn a_known_tip_is_confirmed_and_a_longer_chain_followed() {
    let headers = chain(12, &|_| 0x1d00ffff, 0);
    let (mut client, shelf) = client_on(headers[..8].to_vec(), false);
    assert_eq!(client.get_best_block(), Ok((hash_of(&headers[7]), Some(8))));
    shelf.borrow_mut().asked.clear();
    // Nothing new: the tip is fetched once more.
    assert_eq!(client.get_best_block(), Ok((hash_of(&headers[7]), Some(8))));
    assert_eq!(shelf.borrow().asked, vec![9, 8]);
    // Four more blocks.
    shelf.borrow_mut().headers = headers.clone();
    shelf.borrow_mut().asked.clear();
    assert_eq!(client.get_best_block(), Ok((hash_of(&headers[11]), Some(12))));
    assert_eq!(shelf.borrow().asked, vec![9, 10, 11, 12, 13]);
}

#[test]
fn an_empty_source_has_no_best_block() {
    let (mut client, shelf) = client_on(Vec::new(), false);
    assert_eq!(client.get_best_block(), Err(BlockSourceRespErr::NoResponse));
    assert_eq!(shelf.borrow().asked, vec![1]);
    // On the main network a chain below the first retarget stays unseen.
    let (mut client, shelf) = client_on(chain(100, &|_| 0x1d00ffff, 0), true);
    assert_eq!(client.get_best_block(), Err(BlockSourceRespErr::NoResponse));
    assert_eq!(shelf.borrow().asked, vec![2016]);
}

#[test]
fn bogus_data_ends_the_search() {
    let (mut client, shelf) = client_on(chain(10, &|_| 0x1d00ffff, 0), false);
    shelf.borrow_mut().bogus_at = Some(4);
    assert_eq!(client.get_best_block(), Err(BlockSourceRespErr::BogusData));
    assert_eq!(shelf.borrow().asked, vec![1, 2, 3, 4]);
    // While probing upwards.
    shelf.borrow_mut().bogus_at = Some(9);
    assert_eq!(client.get_best_block(), Err(BlockSourceRespErr::BogusData));
    // In a fetch by height, as in the backfill under it.
    assert_eq!(client.fetch_header_at_height(9), Err(BlockSourceRespErr::BogusData));
    let (mut client, shelf) = client_on(chain(10, &|_| 0x1d00ffff, 0), false);
    shelf.borrow_mut().bogus_at = Some(5);
    assert_eq!(client.fetch_header_at_height(7), Err(BlockSourceRespErr::BogusData));
    assert_eq!(shelf.borrow().asked, vec![7, 1, 2, 3, 4, 5]);
    assert_eq!(client.retarget_headers().len(), 4);
}

#[test]
fn get_block_always_fails() {
    let headers = chain(3, &|_| 0x1d00ffff, 0);
    let (mut client, shelf) = client_on(headers.clone(), false);
    assert!(matches!(client.get_block(&hash_of(&headers[0])), Err(BlockSourceRespErr::NoResponse)));
    client.get_best_block().unwrap();
    let asked = shelf.borrow().asked.len();
    assert!(matches!(client.get_block(&hash_of(&headers[2])), Err(BlockSourceRespErr::NoResponse)));
    assert!(matches!(client.get_block(&BlockHash { bytes: [0; 32] }), Err(BlockSourceRespErr::NoResponse)));
    assert_eq!(shelf.borrow().asked.len(), asked);
}

#[test]
fn a_header_is_fetched_once_and_then_served_from_the_cache() {
    let headers = chain(20, &|_| 0x1d00ffff, 0);
    let wanted = hash_of(&headers[4]);
    let (mut client, shelf) = client_on(headers.clone(), false);
    let first = client.get_header(&wanted, Some(5)).unwrap();
    let asked = shelf.borrow().asked.clone();
    assert!(asked.contains(&5));
    assert_eq!(asked.iter().filter(|&&h| h == 5).count(), 1);
    let second = client.get_header(&wanted, Some(5)).unwrap();
    assert_eq!(first, second);
    assert_eq!(second.header, headers[4]);
    assert_eq!(second.height, 5);
    assert_eq!(shelf.borrow().asked, asked);
    assert_eq!(client.cached_header(&wanted, 5), Some(first));
    // The slot is found by the height modulo six, the header by its hash.
    assert_eq!(client.get_header(&wanted, Some(11)), Ok(first));
    assert_eq!(shelf.borrow().asked, asked);
}

#[test]
fn get_header_needs_a_height_and_the_right_hash() {
    let headers = chain(6, &|_| 0x1d00ffff, 0);
    let (mut client, shelf) = client_on(headers.clone(), false);
    assert_eq!(client.get_header(&hash_of(&headers[2]), None), Err(BlockSourceRespErr::NoResponse));
    assert_eq!(client.get_header(&hash_of(&headers[2]), Some(0)), Err(BlockSourceRespErr::NoResponse));
    assert!(shelf.borrow().asked.is_empty());
    // The header at height 2 has another hash.
    assert_eq!(client.get_header(&hash_of(&headers[2]), Some(2)), Err(BlockSourceRespErr::NoResponse));
    // Beyond the chain.
    assert_eq!(client.get_header(&hash_of(&headers[2]), Some(7)), Err(BlockSourceRespErr::NoResponse));
    assert_eq!(client.get_header(&hash_of(&headers[2]), Some(3)).unwrap().header, headers[2]);
}

#[test]
fn the_hash_is_that_of_the_outside_crate() {
    let headers = chain(2, &|_| 0x1d00ffff, 7);
    let (mut client, _) = client_on(headers.clone(), false);
    let (hash, data) = client.fetch_header_at_height(2).unwrap();
    assert_eq!(hash, hash_of(&headers[1]));
    assert!(hash != headers[1].prev_blockhash);
    assert_eq!(data.header.prev_blockhash, hash_of(&headers[0]));
}

#[test]
fn work_adds_up_along_cached_parents() {
    let bits = |h: u32| [0x1d00ffffu32, 0x1c7fff80, 0x1c0ffff0][(h % 3) as usize];
    let headers = chain(5, &bits, 0);
    let (mut client, _) = client_on(headers, false);
    // The first height has no parent cached and lies in the first window.
    let (_, one) = client.fetch_header_at_height(1).unwrap();
    assert_eq!(one.chainwork, Uint256::from_u64(W));
    let (_, two) = client.fetch_header_at_height(2).unwrap();
    assert_eq!(two.chainwork, sum(&[Uint256::from_u64(W), work_from_bits(bits(2))]));
    let (_, three) = client.fetch_header_at_height(3).unwrap();
    assert_eq!(three.chainwork, sum(&[two.chainwork, work_from_bits(bits(3))]));
    assert!(three.chainwork.0[0] > two.chainwork.0[0]);
}

#[test]
fn missing_boundaries_are_fetched_from_the_lowest_up() {
    let bits = |h: u32| [0x1d00ffffu32, 0x1c7fff80, 0x1c0ffff0][(h % 3) as usize];
    let headers = chain(9, &bits, 0);
    let (mut client, shelf) = client_on(headers.clone(), false);
    let (_, data) = client.fetch_header_at_height(4).unwrap();
    assert_eq!(shelf.borrow().asked, vec![4, 1, 2, 3]);
    assert_eq!(client.retarget_headers().len(), 4);
    assert_eq!(client.retarget_headers()[3], (hash_of(&headers[3]), bits(4)));
    // Height 1 counts the lowest difficulty; from there on each parent was cached.
    let expected = sum(&[
        Uint256::from_u64(W),
        work_from_bits(bits(2)),
        work_from_bits(bits(3)),
        work_from_bits(bits(4)),
    ]);
    assert_eq!(data.chainwork, expected);
}

#[test]
fn work_is_rebuilt_from_the_spine_without_a_parent() {
    let bits = |h: u32| [0x1d00ffffu32, 0x1c7fff80, 0x1c0ffff0][(h % 3) as usize];
    let headers = chain(20, &bits, 0);
    let (mut client, shelf) = client_on(headers, false);
    client.get_best_block().unwrap();
    shelf.borrow_mut().asked.clear();
    // The recent headers are those from 15 to 20: the parent of 9 is not among them.
    let (_, data) = client.fetch_header_at_height(9).unwrap();
    assert_eq!(shelf.borrow().asked, vec![9]);
    let mut terms = vec![Uint256::from_u64(W)];
    for height in 1..=9 {
        terms.push(work_from_bits(bits(height)));
    }
    assert_eq!(data.chainwork, sum(&terms));
    assert_eq!(client.calculate_chainwork_to(9), sum(&terms));
    assert_eq!(client.calculate_chainwork_to(0), Uint256::from_u64(0));
    assert_eq!(
        client.calculate_chainwork_to(2),
        sum(&[Uint256::from_u64(W), work_from_bits(bits(1)), work_from_bits(bits(2))])
    );
}

#[test]
fn work_grows_from_height_to_height() {
    let headers = chain(6100, &|h| if h < 4032 { 0x1d00ffff } else { 0x1c7fff80 }, 0);
    let (mut client, _) = client_on(headers, true);
    client.get_best_block().unwrap();
    let mut last = client.calculate_chainwork_to(0);
    for height in 1..=6100u32 {
        let here = client.calculate_chainwork_to(height);
        assert!(here.0[1] == 0 && last.0[1] == 0);
        assert!(here.0[0] > last.0[0], "height {}", height);
        last = here;
    }
    assert_eq!(client.calculate_chainwork_to(2015), Uint256::from_u64(W * 2015));
    assert_eq!(client.calculate_chainwork_to(2016), Uint256::from_u64(W * 2016 + W));
}

#[test]
fn fetching_a_boundary_again_leaves_the_spine_alone() {
    let headers = chain(5000, &|_| 0x1d00ffff, 0);
    let (mut client, _) = client_on(headers, true);
    client.fetch_header_at_height(4032).unwrap();
    let spine = client.retarget_headers().clone();
    assert_eq!(spine.len(), 2);
    let (hash, _) = client.fetch_header_at_height(2016).unwrap();
    assert_eq!(client.retarget_headers(), &spine);
    assert_eq!(spine[0], (hash, 0x1d00ffff));
    client.fetch_header_at_height(4032).unwrap();
    client.fetch_header_at_height(4032).unwrap();
    assert_eq!(client.retarget_headers(), &spine);
}

#[test]
fn another_block_at_a_boundary_cuts_the_spine_there() {
    let old = chain(6, &|_| 0x1d00ffff, 0);
    let mut new = old[..2].to_vec();
    let mut prev = hash_of(&old[1]);
    for height in 3..=6u32 {
        let header = BlockHeader { prev_blockhash: prev, nonce: 1000 + height, bits: 0x1c7fff80, ..old[height as usize - 1] };
        prev = hash_of(&header);
        new.push(header);
    }
    let (mut client, shelf) = client_on(old.clone(), false);
    client.get_best_block().unwrap();
    assert_eq!(client.retarget_headers().len(), 6);
    shelf.borrow_mut().headers = new.clone();
    let (hash, _) = client.fetch_header_at_height(3).unwrap();
    assert_eq!(hash, hash_of(&new[2]));
    assert_eq!(
        client.retarget_headers(),
        &vec![(hash_of(&old[0]), 0x1d00ffff), (hash_of(&old[1]), 0x1d00ffff), (hash, 0x1c7fff80)]
    );
}

#[test]
fn headers_held_in_memory_are_served_by_height() {
    let headers = chain(3, &|_| 0x1d00ffff, 0);
    let source = StoredHeaders { headers: headers.clone() };
    assert_eq!(source.get_header(0), Err(BlockSourceRespErr::NoResponse));
    assert_eq!(source.get_header(1), Ok(headers[0]));
    assert_eq!(source.get_header(3), Ok(headers[2]));
    assert_eq!(source.get_header(4), Err(BlockSourceRespErr::NoResponse));
    assert_eq!(source.get_header(u32::MAX), Err(BlockSourceRespErr::NoResponse));
}

#[test]
fn the_tip_of_headers_held_in_memory_is_found_and_cached() {
    for length in [1u32, 2, 5, 6, 7, 13] {
        let headers = chain(length, &|_| 0x1d00ffff, length);
        let tip = hash_of(&headers[length as usize - 1]);
        let mut client = CachingHeadersClient::new(StoredHeaders { headers: headers.clone() }, false);
        assert_eq!(client.get_best_block(), Ok((tip, Some(length))));
        let cached = client.cached_header(&tip, length).unwrap();
        assert_eq!(cached.header, headers[length as usize - 1]);
        assert_eq!(cached.height, length);
        assert_eq!(client.get_header(&tip, Some(length)), Ok(cached));
    }
    let headers = chain(2016 + 7, &|_| 0x1d00ffff, 0);
    let tip = hash_of(&headers[2022]);
    let mut client = CachingHeadersClient::new(StoredHeaders { headers }, true);
    assert_eq!(client.get_best_block(), Ok((tip, Some(2023))));
    assert_eq!(client.highest_cached_height(), 2023);
}

#[test]
fn a_tip_replaced_at_the_same_height_is_seen() {
    let headers = chain(8, &|_| 0x1d00ffff, 0);
    let (mut client, shelf) = client_on(headers.clone(), false);
    assert_eq!(client.get_best_block(), Ok((hash_of(&headers[7]), Some(8))));
    let other = BlockHeader { nonce: 4242, ..headers[7] };
    assert!(hash_of(&other) != hash_of(&headers[7]));
    shelf.borrow_mut().headers[7] = other;
    shelf.borrow_mut().asked.clear();
    // No header above: the known height is asked once more, and that answer decides.
    assert_eq!(client.get_best_block(), Ok((hash_of(&other), Some(8))));
    assert_eq!(shelf.borrow().asked, vec![9, 8]);
    assert_eq!(client.cached_header(&hash_of(&other), 8).unwrap().header, other);
    assert_eq!(client.cached_header(&hash_of(&headers[7]), 8), None);
}

#[test]
fn a_tip_that_receded_is_no_response() {
    let headers = chain(8, &|_| 0x1d00ffff, 0);
    let (mut client, shelf) = client_on(headers.clone(), false);
    assert_eq!(client.get_best_block(), Ok((hash_of(&headers[7]), Some(8))));
    shelf.borrow_mut().headers.truncate(7);
    shelf.borrow_mut().asked.clear();
    assert_eq!(client.get_best_block(), Err(BlockSourceRespErr::NoResponse));
    // Nothing below the known height is asked.
    assert_eq!(shelf.borrow().asked, vec![9, 8]);
    assert_eq!(client.highest_cached_height(), 8);
}

#[test]
fn a_failure_at_the_height_asked_changes_nothing() {
    let headers = chain(4, &|_| 0x1d00ffff, 0);
    let (mut client, shelf) = client_on(headers, false);
    // The spine is empty and height 9 would need eight boundaries first.
    assert_eq!(client.fetch_header_at_height(9), Err(BlockSourceRespErr::NoResponse));
    assert_eq!(shelf.borrow().asked, vec![9]);
    assert!(client.retarget_headers().is_empty());
    assert_eq!(client.highest_cached_height(), 0);
    shelf.borrow_mut().bogus_at = Some(9);
    assert_eq!(client.fetch_header_at_height(9), Err(BlockSourceRespErr::BogusData));
    assert_eq!(shelf.borrow().asked, vec![9, 9]);
}

#[test]
fn a_cold_start_on_the_main_network_asks_boundaries_then_heights() {
    let headers = chain(2018, &|_| 0x1d00ffff, 0);
    let (mut client, shelf) = client_on(headers.clone(), true);
    assert_eq!(client.get_best_block(), Ok((hash_of(&headers[2017]), Some(2018))));
    assert_eq!(shelf.borrow().asked, vec![2016, 4032, 2017, 2018, 2019]);
    assert_eq!(client.retarget_headers(), &vec![(hash_of(&headers[2015]), 0x1d00ffff)]);
}

#[test]
fn a_hit_is_in_the_slot_of_the_height_given() {
    let headers = chain(14, &|_| 0x1d00ffff, 0);
    let (mut client, _) = client_on(headers.clone(), false);
    client.get_best_block().unwrap();
    for hint in [2u32, 8, 14, 20, 302] {
        let found = client.get_header(&hash_of(&headers[13]), Some(hint)).unwrap();
        assert_eq!(found.height, 14);
        assert_eq!(found.height % 6, hint % 6);
    }
}

//! The wire form of a header in DNS: six IPv6 addresses, each 16 bytes.
//!
//! In every address the first two bytes are ignored and the next four bits
//! tell the address's place among the six, as resolvers may hand them out in
//! any order. The eight bits that follow in the first address are a
//! version, which must be zero. All remaining bits, taken in order, are the
//! 80 bytes of the header.

use vstd::prelude::*;
use vstd::seq_lib::{to_multiset_insert, to_multiset_remove, to_multiset_len, to_multiset_contains};

verus! {

/// The number of addresses that carry one header.
pub const ADDRESSES_PER_HEADER: usize = 6;

/// The length of a header in bytes.
pub const HEADER_LEN: usize = 80;

/// Why a set of addresses spells out no header.
#[derive(Clone, Copy, Debug, PartialEq, Eq, Structural)]
pub enum DecodeError {
    /// There are fewer or more than six addresses.
    WrongAddressCount,
    /// The first address in order carries a version other than zero.
    UnsupportedVersion,
}

/// Half-byte `j` of a byte string, the high half of each byte first.
pub open spec fn nibble(bytes: Seq<u8>, j: int) -> u8 {
    if j % 2 == 0 {
        bytes[j / 2] / 16
    } else {
        bytes[j / 2] % 16
    }
}

/// The place of an address among the six: the high half of its third byte.
pub open spec fn order_tag(addr: [u8; 16]) -> int {
    nibble(addr@, 4) as int
}

/// The version that an address carries: the eight bits behind its tag.
pub open spec fn encoded_version(addr: [u8; 16]) -> int {
    16 * nibble(addr@, 5) + nibble(addr@, 6)
}

/// Half-byte `n` of the header that six addresses in order carry. The first
/// address gives its half-bytes 7 to 31, each further one its half-bytes 5
/// to 31: 25 and five times 27, which is 160.
pub open spec fn payload_nibble(addrs: Seq<[u8; 16]>, n: int) -> u8 {
    if n < 25 {
        nibble(addrs[0]@, n + 7)
    } else {
        nibble(addrs[(n - 25) / 27 + 1]@, (n - 25) % 27 + 5)
    }
}

/// Byte `b` of the header that six addresses in order carry.
pub open spec fn payload_byte(addrs: Seq<[u8; 16]>, b: int) -> u8 {
    (16 * payload_nibble(addrs, 2 * b) + payload_nibble(addrs, 2 * b + 1)) as u8
}

/// The 80 bytes that six addresses in order carry.
pub open spec fn payload(addrs: Seq<[u8; 16]>) -> Seq<u8> {
    Seq::new(80, |b: int| payload_byte(addrs, b))
}

/// Where `addr` goes into `sorted`: behind the last entry whose tag is not
/// above its own.
pub open spec fn insertion_point(sorted: Seq<[u8; 16]>, addr: [u8; 16]) -> int
    decreases sorted.len(),
{
    if sorted.len() == 0 || order_tag(sorted.last()) <= order_tag(addr) {
        sorted.len() as int
    } else {
        insertion_point(sorted.drop_last(), addr)
    }
}

/// The addresses in the order of their tags; those with equal tags keep the
/// order in which they came.
pub open spec fn sort_by_tag(addrs: Seq<[u8; 16]>) -> Seq<[u8; 16]>
    decreases addrs.len(),
{
    if addrs.len() == 0 {
        Seq::empty()
    } else {
        let sorted = sort_by_tag(addrs.drop_last());
        sorted.insert(insertion_point(sorted, addrs.last()), addrs.last())
    }
}

/// Whether the tags never fall along the sequence.
pub open spec fn tags_ascend(addrs: Seq<[u8; 16]>) -> bool {
    forall|i: int, j: int|
        0 <= i <= j < addrs.len() ==> order_tag(#[trigger] addrs[i]) <= order_tag(
            #[trigger] addrs[j],
        )
}

/// The header that a set of addresses spells out, or why it spells out none.
pub open spec fn decode(addrs: Seq<[u8; 16]>) -> Result<Seq<u8>, DecodeError> {
    if addrs.len() != 6 {
        Err(DecodeError::WrongAddressCount)
    } else if encoded_version(sort_by_tag(addrs)[0]) != 0 {
        Err(DecodeError::UnsupportedVersion)
    } else {
        Ok(payload(sort_by_tag(addrs)))
    }
}

/// Whether six addresses, in this order, are a wire form of `header`: the
/// tags count up from zero, the version is zero, and the remaining
/// half-bytes are those of the header. The first two bytes of each address
/// are free.
pub open spec fn encodes(addrs: Seq<[u8; 16]>, header: Seq<u8>) -> bool {
    &&& addrs.len() == 6
    &&& header.len() == 80
    &&& forall|k: int| 0 <= k < 6 ==> order_tag(#[trigger] addrs[k]) == k
    &&& encoded_version(addrs[0]) == 0
    &&& forall|n: int| 0 <= n < 160 ==> #[trigger] payload_nibble(addrs, n) == nibble(header, n)
}

/// What holds of the insertion point.
pub proof fn lemma_insertion_point(sorted: Seq<[u8; 16]>, addr: [u8; 16])
    ensures
        0 <= insertion_point(sorted, addr) <= sorted.len(),
        forall|k: int|
            insertion_point(sorted, addr) <= k < sorted.len() ==> order_tag(#[trigger] sorted[k])
                > order_tag(addr),
        insertion_point(sorted, addr) > 0 ==> order_tag(sorted[insertion_point(sorted, addr) - 1])
            <= order_tag(addr),
    decreases sorted.len(),
{
    if sorted.len() == 0 || order_tag(sorted.last()) <= order_tag(addr) {
    } else {
        let front = sorted.drop_last();
        lemma_insertion_point(front, addr);
        assert forall|k: int| insertion_point(sorted, addr) <= k < sorted.len() implies order_tag(
            #[trigger] sorted[k],
        ) > order_tag(addr) by {
            if k < front.len() {
                assert(sorted[k] == front[k]);
            }
        }
    }
}

/// The insertion point is the only place of which all this holds.
pub proof fn lemma_insertion_point_unique(sorted: Seq<[u8; 16]>, addr: [u8; 16], at: int)
    requires
        0 <= at <= sorted.len(),
        forall|k: int| at <= k < sorted.len() ==> order_tag(#[trigger] sorted[k]) > order_tag(addr),
        at > 0 ==> order_tag(sorted[at - 1]) <= order_tag(addr),
    ensures
        insertion_point(sorted, addr) == at,
    decreases sorted.len(),
{
    if at < sorted.len() {
        assert(order_tag(sorted[sorted.len() - 1]) > order_tag(addr));
        lemma_insertion_point_unique(sorted.drop_last(), addr, at);
    }
}

/// Sorting keeps the addresses, each as often as it came, and puts their
/// tags in ascending order.
pub proof fn lemma_sort_by_tag(addrs: Seq<[u8; 16]>)
    ensures
        sort_by_tag(addrs).len() == addrs.len(),
        sort_by_tag(addrs).to_multiset() == addrs.to_multiset(),
        tags_ascend(sort_by_tag(addrs)),
    decreases addrs.len(),
{
    if addrs.len() == 0 {
        assert(addrs =~= Seq::empty());
    } else {
        let front = addrs.drop_last();
        let sorted = sort_by_tag(front);
        let at = insertion_point(sorted, addrs.last());
        lemma_sort_by_tag(front);
        lemma_insertion_point(sorted, addrs.last());
        to_multiset_insert(sorted, at, addrs.last());
        assert(addrs =~= front.insert(front.len() as int, addrs.last()));
        to_multiset_insert(front, front.len() as int, addrs.last());
        let result = sorted.insert(at, addrs.last());
        assert forall|i: int, j: int| 0 <= i <= j < result.len() implies order_tag(
            #[trigger] result[i],
        ) <= order_tag(#[trigger] result[j]) by {
            if i < at && j > at {
                assert(result[i] == sorted[i] && result[j] == sorted[j - 1]);
            } else if i < at && j == at {
                assert(order_tag(sorted[i]) <= order_tag(sorted[at - 1]));
            } else if i < at {
                assert(result[i] == sorted[i] && result[j] == sorted[j]);
            } else if i == at && j > at {
                assert(result[j] == sorted[j - 1]);
            } else if i > at {
                assert(result[i] == sorted[i - 1] && result[j] == sorted[j - 1]);
            }
        }
    }
}

/// Two sequences with ascending tags that hold the same addresses equally
/// often are the same sequence, provided that no two different addresses
/// among them share a tag.
pub proof fn lemma_sorted_unique(left: Seq<[u8; 16]>, right: Seq<[u8; 16]>)
    requires
        tags_ascend(left),
        tags_ascend(right),
        left.to_multiset() == right.to_multiset(),
        forall|i: int, j: int|
            0 <= i < right.len() && 0 <= j < right.len() && order_tag(#[trigger] right[i])
                == order_tag(#[trigger] right[j]) ==> right[i] == right[j],
    ensures
        left == right,
    decreases left.len(),
{
    to_multiset_len(left);
    to_multiset_len(right);
    if left.len() == 0 {
        assert(left =~= right);
    } else {
        let last = left.len() - 1;
        to_multiset_contains(right, left[last]);
        to_multiset_contains(left, left[last]);
        to_multiset_contains(left, right[last]);
        to_multiset_contains(right, right[last]);
        assert(left.contains(left[last]));
        assert(right.contains(right[last]));
        let k = choose|k: int| 0 <= k < right.len() && right[k] == left[last];
        let m = choose|m: int| 0 <= m < left.len() && left[m] == right[last];
        assert(order_tag(right[k]) <= order_tag(right[last]));
        assert(order_tag(left[m]) <= order_tag(left[last]));
        assert(right[k] == right[last]);
        to_multiset_remove(left, last);
        to_multiset_remove(right, last);
        assert(left.remove(last) =~= left.drop_last());
        assert(right.remove(last) =~= right.drop_last());
        let l = left.drop_last();
        let r = right.drop_last();
        assert forall|i: int, j: int| 0 <= i <= j < l.len() implies order_tag(#[trigger] l[i])
            <= order_tag(#[trigger] l[j]) by {
            assert(l[i] == left[i] && l[j] == left[j]);
        }
        assert forall|i: int, j: int| 0 <= i <= j < r.len() implies order_tag(#[trigger] r[i])
            <= order_tag(#[trigger] r[j]) by {
            assert(r[i] == right[i] && r[j] == right[j]);
        }
        assert forall|i: int, j: int|
            0 <= i < r.len() && 0 <= j < r.len() && order_tag(#[trigger] r[i]) == order_tag(
                #[trigger] r[j],
            ) implies r[i] == r[j] by {
            assert(r[i] == right[i] && r[j] == right[j]);
        }
        lemma_sorted_unique(l, r);
        assert(left =~= l.push(left[last]));
        assert(right =~= r.push(right[last]));
    }
}

/// Six addresses that are a wire form of a header carry that header.
pub proof fn lemma_payload_of_encoded(addrs: Seq<[u8; 16]>, header: Seq<u8>)
    requires
        encodes(addrs, header),
    ensures
        payload(addrs) == header,
{
    assert forall|b: int| 0 <= b < 80 implies payload_byte(addrs, b) == header[b] by {
        assert(payload_nibble(addrs, 2 * b) == nibble(header, 2 * b));
        assert(payload_nibble(addrs, 2 * b + 1) == nibble(header, 2 * b + 1));
        let x = header[b];
        assert(16 * (x / 16) + x % 16 == x);
    }
    assert(payload(addrs) =~= header);
}

/// Decoding undoes encoding, in whatever order the addresses arrive: where
/// `encoded` is a wire form of `header` and `shuffled` holds the same six
/// addresses in any order, `shuffled` decodes to `header`.
pub proof fn lemma_decode_encoded(header: Seq<u8>, encoded: Seq<[u8; 16]>, shuffled: Seq<[u8; 16]>)
    requires
        encodes(encoded, header),
        shuffled.to_multiset() == encoded.to_multiset(),
    ensures
        sort_by_tag(shuffled) == encoded,
        decode(shuffled) == Ok::<Seq<u8>, DecodeError>(header),
{
    to_multiset_len(shuffled);
    to_multiset_len(encoded);
    lemma_sort_by_tag(shuffled);
    assert(tags_ascend(encoded));
    lemma_sorted_unique(sort_by_tag(shuffled), encoded);
    lemma_payload_of_encoded(encoded, header);
}

/// A set with a non-zero version in the address that sorts first is
/// rejected for its version, whatever else it holds.
pub proof fn lemma_version_rejected(addrs: Seq<[u8; 16]>)
    requires
        addrs.len() == 6,
        encoded_version(sort_by_tag(addrs)[0]) != 0,
    ensures
        decode(addrs) == Err::<Seq<u8>, DecodeError>(DecodeError::UnsupportedVersion),
{
}

/// A set of fewer or more than six addresses is rejected for its count.
pub proof fn lemma_count_rejected(addrs: Seq<[u8; 16]>)
    requires
        addrs.len() != 6,
    ensures
        decode(addrs) == Err::<Seq<u8>, DecodeError>(DecodeError::WrongAddressCount),
{
}

/// Half-byte `j` of an address.
fn nibble_at(addr: &[u8; 16], j: usize) -> (half: u8)
    requires
        j < 32,
    ensures
        half == nibble(addr@, j as int),
        half < 16,
{
    let byte = addr[j / 2];
    assert(byte >> 4 == byte / 16 && byte & 0x0f == byte % 16) by (bit_vector);
    if j % 2 == 0 {
        byte >> 4
    } else {
        byte & 0x0f
    }
}

/// Sorts the addresses by their tags, in place; those with equal tags keep
/// the order in which they came.
pub fn sort_addrs(ips: &mut [[u8; 16]])
    ensures
        final(ips)@ == sort_by_tag(old(ips)@),
{
    let ghost given = ips@;
    let n = ips.len();
    let mut i: usize = 0;
    assert(ips@.take(0) =~= sort_by_tag(given.take(0)));
    while i < n
        invariant
            n == ips@.len(),
            n == given.len(),
            i <= n,
            ips@.take(i as int) == sort_by_tag(given.take(i as int)),
            ips@.skip(i as int) == given.skip(i as int),
        decreases n - i,
    {
        let ghost sorted = ips@.take(i as int);
        let ghost moving = ips@[i as int];
        let ghost rest = ips@.skip(i + 1);
        let mut j: usize = i;
        assert(ips@.take(i + 1) =~= sorted.insert(j as int, moving));
        assert(moving == given[i as int]) by {
            assert(ips@.skip(i as int)[0] == given.skip(i as int)[0]);
        }
        while j > 0 && nibble_at(&ips[j - 1], 4) > nibble_at(&ips[j], 4)
            invariant
                j <= i < n,
                n == ips@.len(),
                sorted.len() == i,
                ips@.skip(i + 1) == rest,
                ips@.take(i + 1) == sorted.insert(j as int, moving),
                forall|k: int| j <= k < i ==> order_tag(#[trigger] sorted[k]) > order_tag(moving),
            decreases j,
        {
            let ghost before = ips@;
            assert(before[j as int] == before.take(i + 1)[j as int]);
            assert(before[j - 1] == before.take(i + 1)[j - 1]);
            let lower = ips[j - 1];
            let upper = ips[j];
            ips[j - 1] = upper;
            ips[j] = lower;
            j -= 1;
            assert(ips@.skip(i + 1) =~= rest) by {
                assert forall|k: int| 0 <= k < rest.len() implies ips@.skip(i + 1)[k]
                    == rest[k] by {
                    assert(before.skip(i + 1)[k] == before[i + 1 + k]);
                }
            }
            assert(ips@.take(i + 1) =~= sorted.insert(j as int, moving)) by {
                let was = sorted.insert(j + 1, moving);
                let now = sorted.insert(j as int, moving);
                assert forall|k: int| 0 <= k <= i implies ips@.take(i + 1)[k] == now[k] by {
                    assert(before.take(i + 1)[k] == before[k]);
                    assert(was[k] == before[k]);
                }
            }
        }
        proof {
            assert(ips@[j as int] == ips@.take(i + 1)[j as int]);
            if j > 0 {
                assert(ips@[j - 1] == ips@.take(i + 1)[j - 1]);
            }
            lemma_insertion_point_unique(sorted, moving, j as int);
            assert(given.take(i + 1).drop_last() =~= given.take(i as int));
            assert(given.take(i + 1).last() == moving);
            assert(ips@.skip(i + 1) =~= given.skip(i + 1)) by {
                assert(rest =~= given.skip(i as int).skip(1));
            }
        }
        i += 1;
    }
    assert(ips@.take(n as int) =~= ips@);
    assert(given.take(n as int) =~= given);
}

/// Decodes the header that a set of addresses spells out.
///
/// A set of fewer or more than six addresses is rejected and left as it
/// was. Six addresses are sorted by their tags, in place, and give the 80
/// bytes they carry, unless the version in the first of them is not zero.
pub fn map_addrs_to_header(ips: &mut [[u8; 16]]) -> (header: Result<[u8; 80], DecodeError>)
    ensures
        old(ips)@.len() != 6 ==> final(ips)@ == old(ips)@,
        old(ips)@.len() == 6 ==> final(ips)@ == sort_by_tag(old(ips)@),
        header matches Ok(bytes) ==> decode(old(ips)@) == Ok::<Seq<u8>, DecodeError>(bytes@),
        header matches Err(e) ==> decode(old(ips)@) == Err::<Seq<u8>, DecodeError>(e),
{
    if ips.len() != ADDRESSES_PER_HEADER {
        return Err(DecodeError::WrongAddressCount);
    }
    sort_addrs(ips);
    proof {
        lemma_sort_by_tag(old(ips)@);
    }
    let version_high = nibble_at(&ips[0], 5);
    let version_low = nibble_at(&ips[0], 6);
    if version_high != 0 || version_low != 0 {
        return Err(DecodeError::UnsupportedVersion);
    }
    let mut header = [0u8; 80];
    let mut b: usize = 0;
    while b < HEADER_LEN
        invariant
            b <= 80,
            ips@.len() == 6,
            forall|k: int| 0 <= k < b ==> header@[k] == payload_byte(ips@, k),
        decreases 80 - b,
    {
        let high = payload_nibble_at(ips, 2 * b);
        let low = payload_nibble_at(ips, 2 * b + 1);
        assert((high << 4) | low == 16 * high + low) by (bit_vector)
            requires
                high < 16,
                low < 16,
        ;
        header[b] = (high << 4) | low;
        b += 1;
    }
    assert(header@ =~= payload(ips@));
    Ok(header)
}

/// Half-byte `n` of the header that six addresses in order carry.
fn payload_nibble_at(ips: &[[u8; 16]], n: usize) -> (half: u8)
    requires
        ips@.len() == 6,
        n < 160,
    ensures
        half == payload_nibble(ips@, n as int),
        half < 16,
{
    if n < 25 {
        nibble_at(&ips[0], n + 7)
    } else {
        nibble_at(&ips[(n - 25) / 27 + 1], (n - 25) % 27 + 5)
    }
}

/// Half-byte `j` of address `k` of the wire form of `header` behind the
/// two bytes `prefix`: the prefix, the tag, in the first address the zero
/// version, then the header's half-bytes in order.
pub open spec fn wire_nibble(header: Seq<u8>, prefix: Seq<u8>, k: int, j: int) -> u8 {
    if j < 4 {
        nibble(prefix, j)
    } else if j == 4 {
        k as u8
    } else if k == 0 {
        if j < 7 {
            0
        } else {
            nibble(header, j - 7)
        }
    } else {
        nibble(header, 25 + 27 * (k - 1) + (j - 5))
    }
}

/// Half-byte `j` of address `k` of the wire form of a header.
fn wire_nibble_at(header: &[u8; 80], prefix: &[u8; 2], k: usize, j: usize) -> (half: u8)
    requires
        k < 6,
        j < 32,
    ensures
        half == wire_nibble(header@, prefix@, k as int, j as int),
        half < 16,
{
    if j < 4 {
        let byte = prefix[j / 2];
        assert(byte >> 4 == byte / 16 && byte & 0x0f == byte % 16) by (bit_vector);
        if j % 2 == 0 {
            byte >> 4
        } else {
            byte & 0x0f
        }
    } else if j == 4 {
        k as u8
    } else {
        if k == 0 && j < 7 {
            return 0;
        }
        let n: usize = if k == 0 {
            j - 7
        } else {
            25 + 27 * (k - 1) + (j - 5)
        };
        let byte = header[n / 2];
        assert(byte >> 4 == byte / 16 && byte & 0x0f == byte % 16) by (bit_vector);
        if n % 2 == 0 {
            byte >> 4
        } else {
            byte & 0x0f
        }
    }
}

/// Address `k` of the wire form of a header.
fn wire_addr(header: &[u8; 80], prefix: &[u8; 2], k: usize) -> (addr: [u8; 16])
    requires
        k < 6,
    ensures
        forall|j: int|
            0 <= j < 32 ==> nibble(addr@, j) == wire_nibble(header@, prefix@, k as int, j),
        addr@[0] == prefix@[0],
        addr@[1] == prefix@[1],
{
    let mut addr = [0u8; 16];
    let mut i: usize = 0;
    while i < 16
        invariant
            i <= 16,
            k < 6,
            forall|j: int|
                0 <= j < 2 * i ==> nibble(addr@, j) == wire_nibble(header@, prefix@, k as int, j),
        decreases 16 - i,
    {
        let high = wire_nibble_at(header, prefix, k, 2 * i);
        let low = wire_nibble_at(header, prefix, k, 2 * i + 1);
        assert((high << 4) | low == 16 * high + low) by (bit_vector)
            requires
                high < 16,
                low < 16,
        ;
        let ghost before = addr@;
        addr[i] = (high << 4) | low;
        assert forall|j: int| 0 <= j < 2 * i + 2 implies nibble(addr@, j) == wire_nibble(
            header@,
            prefix@,
            k as int,
            j,
        ) by {
            if j < 2 * i {
                assert(addr@[j / 2] == before[j / 2]);
                assert(nibble(before, j) == wire_nibble(header@, prefix@, k as int, j));
            }
        }
        i += 1;
    }
    proof {
        let first = prefix@[0];
        let second = prefix@[1];
        assert(nibble(addr@, 0) == first / 16 && nibble(addr@, 1) == first % 16);
        assert(nibble(addr@, 2) == second / 16 && nibble(addr@, 3) == second % 16);
    }
    addr
}

/// Writes a header as six addresses, in the order of their tags, each
/// behind the two bytes `prefix`. Decoding them, in whatever order, gives
/// the header back.
pub fn header_to_addrs(header: &[u8; 80], prefix: [u8; 2]) -> (addrs: [[u8; 16]; 6])
    ensures
        encodes(addrs@, header@),
        forall|k: int|
            0 <= k < 6 ==> (#[trigger] addrs@[k])@[0] == prefix@[0] && addrs@[k]@[1] == prefix@[1],
        decode(addrs@) == Ok::<Seq<u8>, DecodeError>(header@),
{
    let addrs = [
        wire_addr(header, &prefix, 0),
        wire_addr(header, &prefix, 1),
        wire_addr(header, &prefix, 2),
        wire_addr(header, &prefix, 3),
        wire_addr(header, &prefix, 4),
        wire_addr(header, &prefix, 5),
    ];
    proof {
        assert forall|k: int| 0 <= k < 6 implies order_tag(#[trigger] addrs@[k]) == k by {
            assert(nibble(addrs@[k]@, 4) == wire_nibble(header@, prefix@, k, 4));
        }
        assert(encoded_version(addrs@[0]) == 0) by {
            assert(nibble(addrs@[0]@, 5) == wire_nibble(header@, prefix@, 0, 5));
            assert(nibble(addrs@[0]@, 6) == wire_nibble(header@, prefix@, 0, 6));
        }
        assert forall|n: int| 0 <= n < 160 implies #[trigger] payload_nibble(addrs@, n) == nibble(
            header@,
            n,
        ) by {
            if n < 25 {
                assert(nibble(addrs@[0]@, n + 7) == wire_nibble(header@, prefix@, 0, n + 7));
            } else {
                let k = (n - 25) / 27 + 1;
                let j = (n - 25) % 27 + 5;
                assert(nibble(addrs@[k]@, j) == wire_nibble(header@, prefix@, k, j));
            }
        }
        lemma_decode_encoded(header@, addrs@, addrs@);
    }
    addrs
}

} // verus!

//! Block headers as plain values, their hash and their 80-byte wire form.

use vstd::prelude::*;
use vstd::std_specs::cmp::PartialEqSpecImpl;
use crate::uint256::Uint256;

verus! {

/// Whether two 32-byte strings hold the same bytes.
pub fn bytes32_eq(a: &[u8; 32], b: &[u8; 32]) -> (same: bool)
    ensures
        same == (a@ == b@),
{
    let mut i: usize = 0;
    while i < 32
        invariant
            i <= 32,
            forall|j: int| 0 <= j < i ==> a@[j] == b@[j],
        decreases 32 - i,
    {
        if a[i] != b[i] {
            return false;
        }
        i += 1;
    }
    assert(a@ =~= b@);
    true
}

/// The hash that names a block: 32 bytes, in the order in which the hash
/// function emits them.
#[derive(Clone, Copy, Debug)]
pub struct BlockHash {
    pub bytes: [u8; 32],
}

impl View for BlockHash {
    type V = Seq<u8>;

    open spec fn view(&self) -> Seq<u8> {
        self.bytes@
    }
}

impl PartialEq for BlockHash {
    fn eq(&self, other: &Self) -> (same: bool) {
        bytes32_eq(&self.bytes, &other.bytes)
    }
}

impl Eq for BlockHash {

}

impl PartialEqSpecImpl for BlockHash {
    open spec fn obeys_eq_spec() -> bool {
        true
    }

    open spec fn eq_spec(&self, other: &Self) -> bool {
        self@ == other@
    }
}

/// A block header: everything of a block but its transactions.
#[derive(Clone, Copy, Debug)]
pub struct BlockHeader {
    /// The protocol version.
    pub version: u32,
    /// The hash of the block before this one.
    pub prev_blockhash: BlockHash,
    /// The root of the tree of the block's transactions.
    pub merkle_root: [u8; 32],
    /// The time of the block, as its miner claims it.
    pub time: u32,
    /// The proof-of-work target in its compact form.
    pub bits: u32,
    /// The nonce that the miner chose.
    pub nonce: u32,
}

impl PartialEq for BlockHeader {
    fn eq(&self, other: &Self) -> (same: bool) {
        self.version == other.version && self.prev_blockhash == other.prev_blockhash && bytes32_eq(
            &self.merkle_root,
            &other.merkle_root,
        ) && self.time == other.time && self.bits == other.bits && self.nonce == other.nonce
    }
}

impl Eq for BlockHeader {

}

impl PartialEqSpecImpl for BlockHeader {
    open spec fn obeys_eq_spec() -> bool {
        true
    }

    open spec fn eq_spec(&self, other: &Self) -> bool {
        same_header(*self, *other)
    }
}

/// Whether two headers agree in all six fields.
pub open spec fn same_header(a: BlockHeader, b: BlockHeader) -> bool {
    &&& a.version == b.version
    &&& a.prev_blockhash@ == b.prev_blockhash@
    &&& a.merkle_root@ == b.merkle_root@
    &&& a.time == b.time
    &&& a.bits == b.bits
    &&& a.nonce == b.nonce
}

/// A header with its place in the chain: its height and the work
/// accumulated from the first block up to it.
#[derive(Clone, Copy, Debug)]
pub struct BlockHeaderData {
    pub chainwork: Uint256,
    pub height: u32,
    pub header: BlockHeader,
}

impl PartialEq for BlockHeaderData {
    fn eq(&self, other: &Self) -> (same: bool) {
        self.chainwork == other.chainwork && self.height == other.height && self.header
            == other.header
    }
}

impl Eq for BlockHeaderData {

}

impl PartialEqSpecImpl for BlockHeaderData {
    open spec fn obeys_eq_spec() -> bool {
        true
    }

    open spec fn eq_spec(&self, other: &Self) -> bool {
        &&& self.chainwork.0@ == other.chainwork.0@
        &&& self.height == other.height
        &&& same_header(self.header, other.header)
    }
}

/// A whole block: its header and its transactions in their wire form.
pub struct Block {
    pub header: BlockHeader,
    pub txdata: Vec<Vec<u8>>,
}

/// Why a block source gave no answer.
#[derive(Clone, Copy, Debug, PartialEq, Eq, Structural)]
pub enum BlockSourceRespErr {
    /// Nothing usable came back: ask again later, or take it that the tip is reached.
    NoResponse,
    /// What came back was present but invalid: the source may be faulty or hostile.
    BogusData,
}

/// The number that four bytes stand for, least significant byte first.
pub open spec fn le_u32(bytes: Seq<u8>) -> nat
    recommends
        bytes.len() == 4,
{
    (bytes[0] as nat) + 0x100 * (bytes[1] as nat) + 0x1_0000 * (bytes[2] as nat) + 0x100_0000 * (
    bytes[3] as nat)
}

/// Whether `header` is what the 80 bytes `bytes` spell out: version,
/// previous hash, merkle root, time, bits and nonce, in that order, the
/// numbers least significant byte first.
pub open spec fn is_header_of(header: BlockHeader, bytes: Seq<u8>) -> bool {
    &&& bytes.len() == 80
    &&& header.version as nat == le_u32(bytes.subrange(0, 4))
    &&& header.prev_blockhash@ == bytes.subrange(4, 36)
    &&& header.merkle_root@ == bytes.subrange(36, 68)
    &&& header.time as nat == le_u32(bytes.subrange(68, 72))
    &&& header.bits as nat == le_u32(bytes.subrange(72, 76))
    &&& header.nonce as nat == le_u32(bytes.subrange(76, 80))
}

/// The double SHA-256 of a header's 80-byte wire form, as a function of its
/// six fields.
pub uninterp spec fn sha256d_of_header(
    version: u32,
    prev_blockhash: Seq<u8>,
    merkle_root: Seq<u8>,
    time: u32,
    bits: u32,
    nonce: u32,
) -> Seq<u8>;

impl BlockHeader {
    /// The hash that names the block of this header.
    pub open spec fn block_hash(&self) -> Seq<u8> {
        sha256d_of_header(
            self.version,
            self.prev_blockhash@,
            self.merkle_root@,
            self.time,
            self.bits,
            self.nonce,
        )
    }

    /// Reads a header from its 80-byte wire form.
    pub fn from_bytes(data: &[u8; 80]) -> (parsed: Result<BlockHeader, BlockSourceRespErr>)
        ensures
            parsed matches Ok(header) && is_header_of(header, data@),
    {
        match deserialize_header(data) {
            Some(header) => Ok(header),
            None => Err(BlockSourceRespErr::NoResponse),
        }
    }
}

/// `bitcoin::util::hash::BitcoinHash::bitcoin_hash` on a
/// `bitcoin::blockdata::block::BlockHeader` with the same six fields: the
/// double SHA-256 of the header's consensus encoding. The result depends on
/// the fields alone.
#[verifier::external_body]
pub(crate) fn header_hash(header: &BlockHeader) -> (hash: BlockHash)
    ensures
        hash@ == sha256d_of_header(
            header.version,
            header.prev_blockhash@,
            header.merkle_root@,
            header.time,
            header.bits,
            header.nonce,
        ),
{
    let outside = bitcoin::blockdata::block::BlockHeader {
        version: header.version,
        prev_blockhash: bitcoin::hashes::Hash::from_inner(header.prev_blockhash.bytes),
        merkle_root: bitcoin::hashes::Hash::from_inner(header.merkle_root),
        time: header.time,
        bits: header.bits,
        nonce: header.nonce,
    };
    let hash = bitcoin::util::hash::BitcoinHash::bitcoin_hash(&outside);
    BlockHash { bytes: bitcoin::hashes::Hash::into_inner(hash) }
}

/// `bitcoin::consensus::encode::deserialize` for a
/// `bitcoin::blockdata::block::BlockHeader`: it reads the six fields in
/// order, the numbers least significant byte first, and fails only where
/// the input ends early or is not used up, which 80 bytes never do.
#[verifier::external_body]
fn deserialize_header(data: &[u8; 80]) -> (parsed: Option<BlockHeader>)
    ensures
        parsed is Some,
        is_header_of(parsed->Some_0, data@),
{
    match bitcoin::consensus::encode::deserialize::<bitcoin::blockdata::block::BlockHeader>(&data[..]) {
        Ok(h) => Some(BlockHeader {
            version: h.version,
            prev_blockhash: BlockHash {
                bytes: bitcoin::hashes::Hash::into_inner(h.prev_blockhash),
            },
            merkle_root: bitcoin::hashes::Hash::into_inner(h.merkle_root),
            time: h.time,
            bits: h.bits,
            nonce: h.nonce,
        }),
        Err(_) => None,
    }
}

} // verus!

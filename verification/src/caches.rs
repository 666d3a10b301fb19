//! The two caches of the headers client as plain values: the recent
//! headers, six slots indexed by height modulo six, and the retarget spine,
//! one entry for the first block of each retarget period.

use vstd::prelude::*;
use crate::block::{BlockHash, BlockHeader, BlockHeaderData};
use crate::chainwork::{chainwork_to, retarget_interval, work_of_bits, MIN_DIFFICULTY_WORK};
use crate::uint256::two_to_256;

verus! {

/// One slot of the recent headers: a header's hash and the header with its
/// place in the chain.
pub type RecentHeader = Option<(BlockHash, BlockHeaderData)>;

/// Whether every slot that held a header before holds one after.
pub open spec fn no_slot_emptied(before: Seq<RecentHeader>, after: Seq<RecentHeader>) -> bool {
    forall|slot: int| 0 <= slot < 6 && before[slot] is Some ==> #[trigger] after[slot] is Some
}

/// Whether the slot of `height` holds a header at that height under the
/// hash `hash`.
pub open spec fn holds_tip(ring: Seq<RecentHeader>, hash: BlockHash, height: u32) -> bool {
    &&& ring[height as int % 6] matches Some(entry)
    &&& entry.0 == hash
    &&& entry.1.height == height
}

/// Whether no header is cached.
pub open spec fn nothing_cached(ring: Seq<RecentHeader>) -> bool {
    forall|slot: int| 0 <= slot < 6 ==> #[trigger] ring[slot] is None
}

/// Where a header was cached before and no slot was emptied, a header is
/// cached after.
pub proof fn lemma_still_cached(before: Seq<RecentHeader>, after: Seq<RecentHeader>)
    requires
        !nothing_cached(before),
        no_slot_emptied(before, after),
    ensures
        !nothing_cached(after),
{
    let slot = choose|slot: int| 0 <= slot < 6 && !(#[trigger] before[slot] is None);
    assert(after[slot] is Some);
}

/// The cached header that answers for a hash at a height, if the slot of
/// that height holds a header with that hash.
pub open spec fn cached_entry(ring: Seq<RecentHeader>, hash: Seq<u8>, height: u32) -> Option<
    BlockHeaderData,
> {
    match ring[height as int % 6] {
        Some(entry) => if entry.0@ == hash {
            Some(entry.1)
        } else {
            None
        },
        None => None,
    }
}

/// The spine once the block that opens retarget period `period` is known
/// to be `entry`. A spine that ends just before the period grows by the
/// entry. One that holds another hash at that place is cut there and goes
/// on with the entry. One that holds this hash already stays as it is.
pub open spec fn spine_after_retarget(
    spine: Seq<(BlockHash, u32)>,
    period: int,
    entry: (BlockHash, u32),
) -> Seq<(BlockHash, u32)> {
    if spine.len() == period - 1 || spine[period - 1].0@ != entry.0@ {
        spine.take(period - 1).push(entry)
    } else {
        spine
    }
}

/// Whether the spine is long enough for a fetch at `height` to go without a
/// backfill: up to just before the period that the height opens, or up to
/// the period in which it lies.
pub open spec fn spine_ready(spine: Seq<(BlockHash, u32)>, interval: nat, height: u32) -> bool {
    if height as nat % interval == 0 {
        spine.len() + 1 >= height as nat / interval
    } else {
        height as nat <= interval || spine.len() >= height as nat / interval
    }
}

/// The spine after a block has been fetched at `height` without a backfill:
/// a block that opens a retarget period is written to it, any other leaves
/// it alone.
pub open spec fn spine_after_fetch(
    spine: Seq<(BlockHash, u32)>,
    interval: nat,
    height: u32,
    hash: BlockHash,
    bits: u32,
) -> Seq<(BlockHash, u32)> {
    if height as nat % interval == 0 {
        spine_after_retarget(spine, (height as nat / interval) as int, (hash, bits))
    } else {
        spine
    }
}

/// The height of the block that opens a retarget period.
pub open spec fn boundary_height(mainnet: bool, period: nat) -> nat {
    if mainnet {
        period * 2016
    } else {
        period
    }
}

/// The number of boundaries that a fetch at `height` has to fetch first:
/// those between the end of the spine and the length that the height needs.
pub open spec fn missing_boundaries(spine_len: nat, interval: nat, height: u32) -> nat {
    let needed: int = if height as nat % interval == 0 {
        height as nat / interval - 1
    } else if height as nat > interval {
        (height as nat / interval) as int
    } else {
        0
    };
    if needed > spine_len {
        (needed - spine_len) as nat
    } else {
        0
    }
}

/// The heights of `count` boundaries in a row, from the one that opens
/// period `first`.
pub open spec fn boundaries_from(mainnet: bool, first: nat, count: nat) -> Seq<u32> {
    Seq::new(count, |i: int| boundary_height(mainnet, (first + i) as nat) as u32)
}

/// The boundaries that a fetch at `height` has to fetch first, in the order
/// in which it asks them.
pub open spec fn backfill_plan(mainnet: bool, spine_len: nat, height: u32) -> Seq<u32> {
    boundaries_from(
        mainnet,
        spine_len + 1,
        missing_boundaries(spine_len, retarget_interval(mainnet), height),
    )
}

/// The heights that a fetch at `height` asks where none fails, in their
/// order: the height itself, then the boundaries that the spine lacks.
pub open spec fn fetch_plan(mainnet: bool, spine_len: nat, height: u32) -> Seq<u32> {
    seq![height] + backfill_plan(mainnet, spine_len, height)
}

/// The boundaries that a fetch has to fetch first lie below its height.
pub proof fn lemma_backfill_below(mainnet: bool, spine_len: nat, height: u32, j: int)
    requires
        0 <= j < backfill_plan(mainnet, spine_len, height).len(),
    ensures
        backfill_plan(mainnet, spine_len, height)[j] < height,
        backfill_plan(mainnet, spine_len, height)[j] as nat == boundary_height(
            mainnet,
            (spine_len + 1 + j) as nat,
        ),
{
    if mainnet {
        let period = height as nat / 2016;
        assert(period * 2016 <= height);
        assert((spine_len + 1 + j) * 2016 <= period * 2016);
    }
}

/// What a fetch at `height` asks the source, behind what was asked before:
/// the height itself, then the boundaries that the spine lacks, from the
/// lowest up; all of them where the fetch went through, and those up to
/// the first failure where it did not.
pub open spec fn asked_by_fetch(
    before: Seq<u32>,
    after: Seq<u32>,
    mainnet: bool,
    spine_len: nat,
    height: u32,
    went_through: bool,
) -> bool {
    let missing = missing_boundaries(spine_len, retarget_interval(mainnet), height);
    if went_through {
        after == before.push(height) + boundaries_from(mainnet, spine_len + 1, missing)
    } else {
        exists|count: nat|
            count <= missing && after == before.push(height) + #[trigger] boundaries_from(
                mainnet,
                spine_len + 1,
                count,
            )
    }
}

/// A fetch asks no height above its own.
pub proof fn lemma_fetch_asks_below(
    before: Seq<u32>,
    after: Seq<u32>,
    mainnet: bool,
    spine_len: nat,
    height: u32,
    went_through: bool,
)
    requires
        asked_by_fetch(before, after, mainnet, spine_len, height, went_through),
    ensures
        forall|i: int| before.len() <= i < after.len() ==> (#[trigger] after[i]) <= height,
{
    let missing = missing_boundaries(spine_len, retarget_interval(mainnet), height);
    let count = if went_through {
        missing
    } else {
        choose|count: nat|
            count <= missing && after == before.push(height) + #[trigger] boundaries_from(
                mainnet,
                spine_len + 1,
                count,
            )
    };
    assert(after == before.push(height) + boundaries_from(mainnet, spine_len + 1, count));
    assert forall|i: int| before.len() <= i < after.len() implies (#[trigger] after[i])
        <= height by {
        if i > before.len() {
            let j = i - before.len() - 1;
            lemma_backfill_below(mainnet, spine_len, height, j);
            assert(after[i] == boundaries_from(mainnet, spine_len + 1, count)[j]);
        }
    }
}

/// What was asked before a fetch is the start of what was asked after it.
pub proof fn lemma_fetch_asks_more(
    before: Seq<u32>,
    after: Seq<u32>,
    mainnet: bool,
    spine_len: nat,
    height: u32,
    went_through: bool,
)
    requires
        asked_by_fetch(before, after, mainnet, spine_len, height, went_through),
    ensures
        before.is_prefix_of(after),
        after.len() > before.len(),
        after[before.len() as int] == height,
{
}

/// Asking more and then more again is asking more.
pub proof fn lemma_asks_add_up(first: Seq<u32>, second: Seq<u32>, third: Seq<u32>)
    requires
        first.is_prefix_of(second),
        second.is_prefix_of(third),
    ensures
        first.is_prefix_of(third),
{
}

/// Whether the spine reaches the retarget period of `height`.
pub open spec fn spine_reaches(spine: Seq<(BlockHash, u32)>, interval: nat, height: u32) -> bool {
    height as nat >= interval ==> spine.len() >= height as nat / interval
}

/// A spine that reaches the period of a height is long enough for a fetch
/// at that height.
pub proof fn lemma_reaching_is_ready(spine: Seq<(BlockHash, u32)>, mainnet: bool, height: u32)
    requires
        height >= 1,
        spine_reaches(spine, retarget_interval(mainnet), height),
    ensures
        spine_ready(spine, retarget_interval(mainnet), height),
{
    if mainnet {
        assert(height as nat % 2016 == 0 ==> height >= 2016);
    }
}

/// A spine that reaches the period of a height is long enough for a fetch
/// at the next height.
pub proof fn lemma_reaching_readies_next(spine: Seq<(BlockHash, u32)>, mainnet: bool, height: u32)
    requires
        1 <= height < u32::MAX,
        spine_reaches(spine, retarget_interval(mainnet), height),
    ensures
        spine_ready(spine, retarget_interval(mainnet), (height + 1) as u32),
{
    if mainnet {
        let next = height as nat + 1;
        if next % 2016 == 0 {
            assert(next / 2016 == height as nat / 2016 + 1);
        } else {
            assert(next / 2016 == height as nat / 2016);
        }
    }
}

/// A spine no longer than the period of a height has, once the boundaries
/// that it lacked are in and the block at the height is taken in, as many
/// entries as the period says.
pub proof fn lemma_fetched_spine_len(
    filled: Seq<(BlockHash, u32)>,
    given_len: nat,
    mainnet: bool,
    height: u32,
    hash: BlockHash,
    bits: u32,
)
    requires
        height >= 1,
        given_len <= height as nat / retarget_interval(mainnet),
        filled.len() == given_len + missing_boundaries(
            given_len,
            retarget_interval(mainnet),
            height,
        ),
    ensures
        spine_after_fetch(filled, retarget_interval(mainnet), height, hash, bits).len()
            == height as nat / retarget_interval(mainnet),
{
    if mainnet {
        assert(height as nat % 2016 == 0 ==> height as nat / 2016 >= 1);
    } else {
        assert(height as nat / 1 == height as nat);
    }
}

/// Writing the same block to the spine twice is writing it once, and a
/// write leaves every entry below its own as it was.
pub proof fn lemma_retarget_idempotent(
    spine: Seq<(BlockHash, u32)>,
    period: int,
    entry: (BlockHash, u32),
)
    requires
        1 <= period <= spine.len() + 1,
    ensures
        spine_after_retarget(spine_after_retarget(spine, period, entry), period, entry)
            == spine_after_retarget(spine, period, entry),
        spine_after_retarget(spine, period, entry).take(period - 1) == spine.take(period - 1),
        spine_after_retarget(spine, period, entry)[period - 1].0@ == entry.0@,
{
    let once = spine_after_retarget(spine, period, entry);
    assert(once.take(period - 1) =~= spine.take(period - 1));
}

/// The work up to a block as its parent gives it: where the slot of the
/// height before holds a header whose hash is the block's previous hash,
/// that header's work plus the block's own, as a 256-bit number.
pub open spec fn chainwork_from_parent(
    ring: Seq<RecentHeader>,
    height: u32,
    header: BlockHeader,
) -> Option<nat> {
    match ring[(height - 1) % 6] {
        Some(entry) => if entry.0@ == header.prev_blockhash@ {
            Some((entry.1.chainwork@ + work_of_bits(header.bits)) % two_to_256())
        } else {
            None
        },
        None => None,
    }
}

/// The work up to a block at `height`, given the recent headers before
/// the block is stored and the spine once it reaches the block's period:
/// the parent's work plus the block's own where the parent is among the
/// recent headers; else, beyond the first retarget, the work that the
/// spine gives; else the lowest difficulty times the height.
pub open spec fn chainwork_rule(
    ring: Seq<RecentHeader>,
    spine: Seq<(BlockHash, u32)>,
    interval: nat,
    height: u32,
    header: BlockHeader,
) -> nat {
    match chainwork_from_parent(ring, height, header) {
        Some(work) => work,
        None => if height as nat > interval {
            chainwork_to(spine, interval, height as nat)
        } else {
            MIN_DIFFICULTY_WORK as nat * height as nat
        },
    }
}

/// Storing a header in the slot of its own height leaves the work that its
/// parent gives as it was: the parent sits in another slot.
pub proof fn lemma_parent_in_another_slot(
    ring: Seq<RecentHeader>,
    height: u32,
    stored: (BlockHash, BlockHeaderData),
    header: BlockHeader,
)
    requires
        ring.len() == 6,
        height >= 1,
    ensures
        chainwork_from_parent(ring.update(height as int % 6, Some(stored)), height, header)
            == chainwork_from_parent(ring, height, header),
{
    assert((height - 1) % 6 != height as int % 6);
}

/// Storing a header empties no slot.
pub proof fn lemma_store_empties_nothing(
    ring: Seq<RecentHeader>,
    slot: int,
    stored: (BlockHash, BlockHeaderData),
)
    requires
        ring.len() == 6,
        0 <= slot < 6,
    ensures
        no_slot_emptied(ring, ring.update(slot, Some(stored))),
{
}

} // verus!

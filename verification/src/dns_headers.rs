//! A headers-only block source which fetches headers by AAAA DNS queries.
//!
//! `DNSHeadersClient` knows the name to look up for a height and reads the
//! header that the addresses of an answer spell out. `CachingHeadersClient`
//! turns any source of headers by height into a source of headers by hash
//! and of the best chain tip: it keeps the hash and the difficulty bits of
//! the first block of each retarget period, from which the work up to any
//! height can be summed, and the six headers fetched last.

use vstd::prelude::*;
use vstd::arithmetic::div_mod::{lemma_add_mod_noop, lemma_small_mod};
use crate::block::{
    header_hash,
    is_header_of,
    Block,
    BlockHash,
    BlockHeader,
    BlockHeaderData,
    BlockSourceRespErr,
};
use crate::caches::{
    asked_by_fetch,
    backfill_plan,
    fetch_plan,
    boundaries_from,
    boundary_height,
    cached_entry,
    chainwork_from_parent,
    chainwork_rule,
    holds_tip,
    lemma_asks_add_up,
    lemma_fetch_asks_below,
    lemma_fetch_asks_more,
    lemma_fetched_spine_len,
    lemma_parent_in_another_slot,
    lemma_reaching_is_ready,
    lemma_reaching_readies_next,
    lemma_store_empties_nothing,
    lemma_still_cached,
    missing_boundaries,
    no_slot_emptied,
    nothing_cached,
    spine_after_fetch,
    spine_after_retarget,
    spine_reaches,
    spine_ready,
    RecentHeader,
};
use crate::chainwork::{
    chainwork_to,
    periods_work,
    retarget_interval,
    work_from_bits,
    work_of_bits,
    MAINNET_RETARGET_INTERVAL,
    MIN_DIFFICULTY_WORK,
};
use crate::codec::{
    decode,
    encoded_version,
    encodes,
    lemma_decode_encoded,
    map_addrs_to_header,
    sort_by_tag,
    DecodeError,
};
use crate::search::{
    boundary_at,
    chain_search_asks,
    fetch_decided,
    lemma_chain_search_asks,
    lemma_chain_decides_probes,
    lemma_chain_decides_walk,
    lemma_next_within_reach,
    lemma_ready_lacks_nothing,
    lemma_walk_within_reach,
    tip_confirmed,
    within_reach,
    height_above,
    heights_from,
    holds_height,
    is_highest,
    probes_fit,
    search_recorded,
    start_decided,
    start_fits,
    search_starts,
    tip_search_fits,
    probes_decided,
    walk_answered,
    walk_decided,
    walk_fits,
    walk_left,
    TipSearch,
};
use crate::source::{
    answered_ok,
    answered_with,
    all_answer,
    asks_answered,
    decided_at,
    failure_of,
    never_fails_at,
    no_header_at,
    failed_up_to,
    lemma_chain_answered_within,
    lemma_chain_fails_beyond,
    lemma_chain_hash,
    lemma_all_answer_behind_first,
    lemma_chain_pins_probes,
    lemma_decided_behind_first,
    lemma_decided_through_first,
    lemma_failed_at,
    lemma_failed_below,
    lemma_steady_header,
    serves_chain_up_to,
    steady,
};
pub use crate::source::SimpleHeadersClient;
use crate::uint256::{two_to_256, uint256_add, uint256_mul_u32, Uint256};

verus! {

/// Whether `header` is an answer of the source for the block that opens
/// retarget period `index + 1`, and `entry` its hash and bits.
pub open spec fn spine_entry_from<C: SimpleHeadersClient>(
    source: C,
    interval: nat,
    index: int,
    entry: (BlockHash, u32),
    header: BlockHeader,
) -> bool {
    &&& (index + 1) * interval <= u32::MAX
    &&& source.may_answer(((index + 1) * interval) as u32, Ok(header))
    &&& entry.0@ == header.block_hash()
    &&& entry.1 == header.bits
}

/// Whether `entry` is the hash and bits of some answer of the source for the
/// block that opens retarget period `index + 1`.
pub open spec fn spine_entry_known<C: SimpleHeadersClient>(
    source: C,
    interval: nat,
    index: int,
    entry: (BlockHash, u32),
) -> bool {
    exists|header: BlockHeader| #[trigger] spine_entry_from(source, interval, index, entry, header)
}

/// Whether every entry of the spine is the hash and the bits of a header
/// that the source may give for the height of the entry.
pub open spec fn spine_from_source<C: SimpleHeadersClient>(
    source: C,
    interval: nat,
    spine: Seq<(BlockHash, u32)>,
) -> bool {
    forall|index: int|
        0 <= index < spine.len() ==> spine_entry_known(source, interval, index, #[trigger] spine[index])
}

/// Whether every recent header sits in the slot of its height, under its
/// own hash, and is a header that the source may give at its height.
pub open spec fn ring_from_source<C: SimpleHeadersClient>(
    source: C,
    ring: Seq<RecentHeader>,
) -> bool {
    forall|slot: int|
        0 <= slot < 6 ==> (#[trigger] ring[slot] matches Some(entry) ==> {
            &&& entry.1.height >= 1
            &&& entry.1.height as int % 6 == slot
            &&& entry.0@ == entry.1.header.block_hash()
            &&& source.may_answer(entry.1.height, Ok(entry.1.header))
        })
}

/// Adapts a `SimpleHeadersClient` to a block source by caching the headers
/// on difficulty adjustments and a few recent headers.
pub struct CachingHeadersClient<C: SimpleHeadersClient> {
    /// Of the headers which fall on a retarget, the hash and the compact
    /// difficulty bits: entry `i` is the block at height `(i + 1) * interval`.
    retarget_headers: Vec<(BlockHash, u32)>,
    /// The last headers fetched, the header at height `h` in slot `h % 6`.
    recent_headers: [RecentHeader; 6],
    mainnet: bool,
    inner: C,
    /// The heights that the source has been asked for, in their order.
    asked: Ghost<Seq<u32>>,
}

impl<C: SimpleHeadersClient> CachingHeadersClient<C> {
    /// The retarget spine: entry `i` is the hash and the bits of the block
    /// at height `(i + 1) * interval`.
    pub closed spec fn spine(&self) -> Seq<(BlockHash, u32)> {
        self.retarget_headers@
    }

    /// The six slots of recent headers.
    pub closed spec fn ring(&self) -> Seq<RecentHeader> {
        self.recent_headers@
    }

    /// Whether retargets happen every 2016 blocks, or every block.
    pub closed spec fn on_mainnet(&self) -> bool {
        self.mainnet
    }

    /// The source that is asked for headers.
    pub closed spec fn source(&self) -> C {
        self.inner
    }

    /// The heights that the source has been asked for since the client was
    /// made, in their order.
    pub closed spec fn asked(&self) -> Seq<u32> {
        self.asked@
    }

    /// The number of blocks between two retargets.
    pub open spec fn interval(&self) -> nat {
        retarget_interval(self.on_mainnet())
    }

    /// Everything cached came from the source: each recent header sits in
    /// the slot of its height under its own hash, and each spine entry is
    /// the hash and bits of an answer for its height.
    #[verifier::type_invariant]
    spec fn cached_from_source(&self) -> bool {
        &&& ring_from_source(self.inner, self.recent_headers@)
        &&& spine_from_source(self.inner, retarget_interval(self.mainnet), self.retarget_headers@)
    }

    /// Creates a client with empty caches around the given source.
    pub fn new(inner: C, mainnet: bool) -> (client: Self)
        ensures
            client.spine() == Seq::<(BlockHash, u32)>::empty(),
            client.ring() == Seq::new(6, |slot: int| None::<(BlockHash, BlockHeaderData)>),
            client.on_mainnet() == mainnet,
            client.source() == inner,
            client.asked() == Seq::<u32>::empty(),
    {
        let client = Self {
            retarget_headers: Vec::new(),
            recent_headers: [None, None, None, None, None, None],
            mainnet,
            inner,
            asked: Ghost(Seq::empty()),
        };
        assert(client.recent_headers@ =~= Seq::new(
            6,
            |slot: int| None::<(BlockHash, BlockHeaderData)>,
        ));
        client
    }

    /// The retarget spine as it stands: entry `i` is the hash and the bits
    /// of the block at height `(i + 1) * interval`.
    pub fn retarget_headers(&self) -> (spine: &Vec<(BlockHash, u32)>)
        ensures
            spine@ == self.spine(),
    {
        &self.retarget_headers
    }

    /// The number of blocks between two retargets.
    fn retarget_every(&self) -> (interval: u32)
        ensures
            interval as nat == self.interval(),
    {
        if self.mainnet {
            MAINNET_RETARGET_INTERVAL
        } else {
            1
        }
    }

    /// The retarget period of a height and the height's place in it.
    fn period_of(&self, height: u32) -> (place: (u32, u32))
        ensures
            place.0 as nat == height as nat / self.interval(),
            place.1 as nat == height as nat % self.interval(),
            place.0 as nat * self.interval() + place.1 == height,
            boundary_height(self.on_mainnet(), place.0 as nat) + place.1 == height,
            place.1 < self.interval(),
            height as nat >= self.interval() ==> place.0 >= 1,
            height >= 1 && place.1 == 0 ==> place.0 >= 1,
            height as nat == self.interval() ==> place.1 == 0,
            height >= 1 && place.1 == 0 ==> height as nat >= self.interval(),
    {
        if self.mainnet {
            assert(self.interval() == 2016);
            assert(MAINNET_RETARGET_INTERVAL == 2016);
            (height / MAINNET_RETARGET_INTERVAL, height % MAINNET_RETARGET_INTERVAL)
        } else {
            assert(self.interval() == 1);
            assert(height as nat / 1 == height as nat);
            (height, 0)
        }
    }

    /// The height of the block that opens a retarget period.
    fn boundary_of(&self, period: u32) -> (boundary: u32)
        requires
            boundary_height(self.on_mainnet(), period as nat) <= u32::MAX,
        ensures
            boundary as nat == boundary_height(self.on_mainnet(), period as nat),
            boundary as nat == period as nat * self.interval(),
            boundary as nat % self.interval() == 0,
            boundary as nat / self.interval() == period as nat,
    {
        if self.mainnet {
            assert(self.interval() == 2016);
            period * MAINNET_RETARGET_INTERVAL
        } else {
            assert(self.interval() == 1);
            assert(period as nat / 1 == period as nat);
            period
        }
    }

    /// The work accumulated up to `height`, from the spine alone. The spine
    /// has to reach the retarget period of the height.
    pub fn calculate_chainwork_to(&self, height: u32) -> (chainwork: Uint256)
        requires
            spine_reaches(self.spine(), self.interval(), height),
        ensures
            chainwork@ == chainwork_to(self.spine(), self.interval(), height as nat),
    {
        let interval = self.retarget_every();
        if height < interval {
            proof {
                lemma_small_mod(MIN_DIFFICULTY_WORK as nat * height as nat, two_to_256());
            }
            return Uint256::from_u64(MIN_DIFFICULTY_WORK * (height as u64));
        }
        let (period_number, offset) = self.period_of(height);
        let period: usize = period_number as usize;
        let mut chainwork = Uint256::from_u64(MIN_DIFFICULTY_WORK * (interval as u64));
        proof {
            lemma_small_mod(MIN_DIFFICULTY_WORK as nat * interval as nat, two_to_256());
        }
        let mut done: usize = 0;
        while done < period - 1
            invariant
                1 <= period <= self.retarget_headers@.len(),
                done <= period - 1,
                interval as nat == retarget_interval(self.mainnet),
                chainwork@ == (MIN_DIFFICULTY_WORK as nat * interval as nat + periods_work(
                    self.retarget_headers@,
                    done as nat,
                    interval as nat,
                )) % two_to_256(),
            decreases period - 1 - done,
        {
            let bits = self.retarget_headers[done].1;
            let work = uint256_mul_u32(work_from_bits(bits), interval);
            proof {
                lemma_add_mod_noop(
                    (MIN_DIFFICULTY_WORK as nat * interval as nat + periods_work(
                        self.retarget_headers@,
                        done as nat,
                        interval as nat,
                    )) as int,
                    (work_of_bits(bits) * interval as nat) as int,
                    two_to_256() as int,
                );
            }
            chainwork = uint256_add(chainwork, work);
            done += 1;
        }
        let bits = self.retarget_headers[period - 1].1;
        let blocks = offset + 1;
        let work = uint256_mul_u32(work_from_bits(bits), blocks);
        proof {
            lemma_add_mod_noop(
                (MIN_DIFFICULTY_WORK as nat * interval as nat + periods_work(
                    self.retarget_headers@,
                    (period - 1) as nat,
                    interval as nat,
                )) as int,
                (work_of_bits(bits) * blocks as nat) as int,
                two_to_256() as int,
            );
        }
        uint256_add(chainwork, work)
    }

    /// The cached header that answers for a hash at a height, if any. This
    /// looks at the recent headers only.
    pub fn cached_header(&self, header_hash: &BlockHash, height: u32) -> (cached: Option<
        BlockHeaderData,
    >)
        ensures
            cached == cached_entry(self.ring(), header_hash@, height),
            cached matches Some(data) ==> {
                &&& data.header.block_hash() == header_hash@
                &&& self.source().may_answer(data.height, Ok(data.header))
                &&& data.height >= 1
                &&& data.height as int % 6 == height as int % 6
            },
    {
        proof {
            use_type_invariant(self);
        }
        let slot: usize = (height % 6) as usize;
        match &self.recent_headers[slot] {
            Some(entry) => {
                if entry.0 == *header_hash {
                    Some(entry.1)
                } else {
                    None
                }
            },
            None => None,
        }
    }

    /// The greatest height among the recent headers, or 0 if there is none.
    pub fn highest_cached_height(&self) -> (highest: u32)
        ensures
            forall|slot: int|
                0 <= slot < 6 ==> (#[trigger] self.ring()[slot] matches Some(entry)
                    ==> entry.1.height <= highest),
            highest == 0 ==> nothing_cached(self.ring()),
            highest > 0 ==> (self.ring()[highest as int % 6] matches Some(entry) && entry.1.height
                == highest),
    {
        proof {
            use_type_invariant(self);
        }
        let mut highest: u32 = 0;
        let mut slot: usize = 0;
        while slot < 6
            invariant
                slot <= 6,
                forall|k: int|
                    0 <= k < slot ==> (#[trigger] self.recent_headers@[k] matches Some(entry)
                        ==> entry.1.height <= highest),
                highest == 0 ==> forall|k: int|
                    0 <= k < slot ==> #[trigger] self.recent_headers@[k] is None,
                highest > 0 ==> (self.recent_headers@[highest as int % 6] matches Some(entry)
                    && entry.1.height == highest),
                forall|k: int|
                    0 <= k < 6 ==> (#[trigger] self.recent_headers@[k] matches Some(entry) ==> {
                        &&& entry.1.height >= 1
                        &&& entry.1.height as int % 6 == k
                    }),
            decreases 6 - slot,
        {
            match &self.recent_headers[slot] {
                Some(entry) => {
                    if entry.1.height > highest {
                        highest = entry.1.height;
                    }
                },
                None => {},
            }
            slot += 1;
        }
        highest
    }

    /// The work up to a block as its parent gives it, where the parent is
    /// among the recent headers.
    fn parent_chainwork(&self, height: u32, header: &BlockHeader) -> (chainwork: Option<Uint256>)
        requires
            height >= 1,
        ensures
            match chainwork {
                Some(work) => chainwork_from_parent(self.ring(), height, *header) == Some(work@),
                None => chainwork_from_parent(self.ring(), height, *header) is None,
            },
    {
        let slot: usize = ((height - 1) % 6) as usize;
        match &self.recent_headers[slot] {
            Some(entry) => {
                if entry.0 == header.prev_blockhash {
                    Some(uint256_add(entry.1.chainwork, work_from_bits(header.bits)))
                } else {
                    None
                }
            },
            None => None,
        }
    }

    /// Asks the source for the header at a height, and notes the height.
    /// The source is asked nowhere else.
    fn ask(&mut self, height: u32) -> (answer: Result<BlockHeader, BlockSourceRespErr>)
        ensures
            final(self).on_mainnet() == old(self).on_mainnet(),
            final(self).source() == old(self).source(),
            final(self).spine() == old(self).spine(),
            final(self).ring() == old(self).ring(),
            final(self).asked() == old(self).asked().push(height),
            old(self).source().may_answer(height, answer),
    {
        proof {
            use_type_invariant(&*self);
        }
        self.asked = Ghost(self.asked@.push(height));
        self.inner.get_header(height)
    }

    /// Writes the block that opens retarget period `period` into the spine.
    fn record_retarget(&mut self, period: usize, hash: BlockHash, header: &BlockHeader)
        requires
            period >= 1,
            old(self).spine().len() >= period - 1,
            period as nat * old(self).interval() <= u32::MAX,
            old(self).source().may_answer(
                (period as nat * old(self).interval()) as u32,
                Ok(*header),
            ),
            hash@ == header.block_hash(),
        ensures
            final(self).on_mainnet() == old(self).on_mainnet(),
            final(self).source() == old(self).source(),
            final(self).asked() == old(self).asked(),
            final(self).ring() == old(self).ring(),
            final(self).spine() == spine_after_retarget(
                old(self).spine(),
                period as int,
                (hash, header.bits),
            ),
            final(self).spine().len() >= period,
            final(self).spine()[period - 1].0@ == hash@,
            steady(old(self).source()) ==> old(self).spine().is_prefix_of(final(self).spine()),
            steady(old(self).source()) && old(self).spine().len() >= period ==> final(self).spine()
                == old(self).spine(),
    {
        proof {
            use_type_invariant(&*self);
            assert(spine_entry_from(
                self.inner,
                retarget_interval(self.mainnet),
                period - 1,
                (hash, header.bits),
                *header,
            ));
        }
        let ghost before = self.retarget_headers@;
        if self.retarget_headers.len() == period - 1 || !(self.retarget_headers[period - 1].0
            == hash) {
            proof {
                if steady(self.inner) && before.len() >= period {
                    let known = choose|known: BlockHeader|
                        #[trigger] spine_entry_from(
                            self.inner,
                            retarget_interval(self.mainnet),
                            period - 1,
                            before[period - 1],
                            known,
                        );
                    lemma_steady_header(
                        self.inner,
                        (period as nat * retarget_interval(self.mainnet)) as u32,
                        known,
                        *header,
                    );
                }
            }
            // The spine is taken out while it changes, so that the client's
            // invariant holds at every step.
            let mut spine: Vec<(BlockHash, u32)> = Vec::new();
            core::mem::swap(&mut self.retarget_headers, &mut spine);
            spine.truncate(period - 1);
            spine.push((hash, header.bits));
            assert(spine@ =~= before.take(period - 1).push((hash, header.bits)));
            self.retarget_headers = spine;
        }
    }

    /// Puts a header into the slot of its height among the recent headers.
    fn store_recent(&mut self, hash: BlockHash, data: BlockHeaderData)
        requires
            data.height >= 1,
            hash@ == data.header.block_hash(),
            old(self).source().may_answer(data.height, Ok(data.header)),
        ensures
            final(self).on_mainnet() == old(self).on_mainnet(),
            final(self).source() == old(self).source(),
            final(self).asked() == old(self).asked(),
            final(self).spine() == old(self).spine(),
            final(self).ring() == old(self).ring().update(
                data.height as int % 6,
                Some((hash, data)),
            ),
    {
        proof {
            use_type_invariant(&*self);
        }
        let slot: usize = (data.height % 6) as usize;
        self.recent_headers[slot] = Some((hash, data));
    }

    /// The work up to a block that the source has just given.
    fn derive_chainwork(&self, height: u32, header: &BlockHeader) -> (chainwork: Uint256)
        requires
            height >= 1,
            spine_reaches(self.spine(), self.interval(), height),
        ensures
            chainwork@ == chainwork_rule(
                self.ring(),
                self.spine(),
                self.interval(),
                height,
                *header,
            ),
    {
        let interval = self.retarget_every();
        match self.parent_chainwork(height, header) {
            Some(work) => work,
            None => {
                if height > interval {
                    self.calculate_chainwork_to(height)
                } else {
                    Uint256::from_u64(MIN_DIFFICULTY_WORK * (height as u64))
                }
            },
        }
    }

    /// Takes in a header that the source has given for `height`, with its
    /// hash, once the spine is long enough for it: a block that opens a
    /// retarget period is written to the spine, the work up to the block is
    /// derived, and the header takes its slot among the recent headers.
    fn take_in(&mut self, height: u32, hash: BlockHash, header: &BlockHeader) -> (data:
        BlockHeaderData)
        requires
            height >= 1,
            hash@ == header.block_hash(),
            old(self).source().may_answer(height, Ok(*header)),
            spine_ready(old(self).spine(), old(self).interval(), height),
        ensures
            final(self).on_mainnet() == old(self).on_mainnet(),
            final(self).source() == old(self).source(),
            final(self).asked() == old(self).asked(),
            data.height == height,
            data.header == *header,
            final(self).spine() == spine_after_fetch(
                old(self).spine(),
                old(self).interval(),
                height,
                hash,
                header.bits,
            ),
            spine_reaches(final(self).spine(), old(self).interval(), height),
            data.chainwork@ == chainwork_rule(
                old(self).ring(),
                final(self).spine(),
                old(self).interval(),
                height,
                *header,
            ),
            final(self).ring() == old(self).ring().update(height as int % 6, Some((hash, data))),
            steady(old(self).source()) ==> old(self).spine().is_prefix_of(final(self).spine()),
            steady(old(self).source()) && spine_reaches(
                old(self).spine(),
                old(self).interval(),
                height,
            ) ==> final(self).spine() == old(self).spine(),
    {
        let (period, offset) = self.period_of(height);
        if offset == 0 {
            self.record_retarget(period as usize, hash, header);
        }
        let chainwork = self.derive_chainwork(height, header);
        let data = BlockHeaderData { chainwork, height, header: *header };
        self.store_recent(hash, data);
        data
    }

    /// Makes the spine long enough for a fetch at `height`: the boundaries
    /// that it lacks are fetched and taken in, from the lowest up.
    #[verifier::rlimit(40)]
    fn backfill_spine(&mut self, height: u32) -> (done: Result<(), BlockSourceRespErr>)
        requires
            height >= 1,
        ensures
            final(self).on_mainnet() == old(self).on_mainnet(),
            final(self).source() == old(self).source(),
            steady(old(self).source()) ==> old(self).spine().is_prefix_of(final(self).spine()),
            no_slot_emptied(old(self).ring(), final(self).ring()),
            done is Ok ==> spine_ready(final(self).spine(), old(self).interval(), height),
            done matches Err(e) ==> failed_up_to(old(self).source(), height, e),
            spine_ready(old(self).spine(), old(self).interval(), height) ==> {
                &&& done is Ok
                &&& final(self).ring() == old(self).ring()
                &&& final(self).spine() == old(self).spine()
            },
            done is Ok ==> final(self).asked() == old(self).asked() + boundaries_from(
                old(self).on_mainnet(),
                old(self).spine().len() + 1,
                missing_boundaries(old(self).spine().len(), old(self).interval(), height),
            ),
            done is Err ==> exists|count: nat|
                count <= missing_boundaries(old(self).spine().len(), old(self).interval(), height)
                    && final(self).asked() == old(self).asked() + #[trigger] boundaries_from(
                    old(self).on_mainnet(),
                    old(self).spine().len() + 1,
                    count,
                ),
            asks_answered(
                old(self).source(),
                final(self).asked(),
                old(self).asked().len() as int,
                failure_of(done),
            ),
            done is Ok ==> final(self).spine().len() == old(self).spine().len()
                + missing_boundaries(old(self).spine().len(), old(self).interval(), height),
            done is Err ==> final(self).spine().len() + 1 == old(self).spine().len()
                + final(self).asked().len() - old(self).asked().len(),
            final(self).asked().len() == old(self).asked().len() || (done is Err
                && final(self).asked().len() == old(self).asked().len() + 1) ==> {
                &&& final(self).ring() == old(self).ring()
                &&& final(self).spine() == old(self).spine()
            },
            forall|k: int| #[trigger]
                decided_at(
                    old(self).source(),
                    backfill_plan(old(self).on_mainnet(), old(self).spine().len(), height),
                    k,
                ) ==> {
                    &&& done matches Err(e)
                    &&& old(self).source().may_answer(
                        backfill_plan(old(self).on_mainnet(), old(self).spine().len(), height)[k],
                        Err(e),
                    )
                    &&& final(self).asked() == old(self).asked() + backfill_plan(
                        old(self).on_mainnet(),
                        old(self).spine().len(),
                        height,
                    ).take(k + 1)
                },
            all_answer(
                old(self).source(),
                backfill_plan(old(self).on_mainnet(), old(self).spine().len(), height),
            ) ==> done is Ok,
    {
        let (period, offset) = self.period_of(height);
        let needed: u32 = if offset == 0 {
            period - 1
        } else if height > self.retarget_every() {
            period
        } else {
            0
        };
        let ghost source = self.inner;
        let ghost given = self.retarget_headers@;
        let ghost ring = self.recent_headers@;
        let ghost mainnet = self.mainnet;
        let ghost interval = self.interval();
        let ghost asked = self.asked@;
        proof {
            assert(boundary_height(mainnet, needed as nat) <= boundary_height(
                mainnet,
                period as nat,
            ));
            if spine_ready(given, interval, height) {
                assert(needed as nat <= given.len());
            }
            assert(self.asked@ =~= asked + boundaries_from(mainnet, given.len() + 1, 0));
        }
        while self.retarget_headers.len() < needed as usize
            invariant
                height >= 1,
                asked == old(self).asked@,
                self.retarget_headers@.len() >= given.len(),
                self.retarget_headers@.len() <= needed || self.retarget_headers@.len()
                    == given.len(),
                needed as nat > given.len() ==> needed as nat - given.len() == missing_boundaries(
                    given.len(),
                    interval,
                    height,
                ),
                needed as nat <= given.len() ==> missing_boundaries(given.len(), interval, height)
                    == 0,
                self.asked@ == asked + boundaries_from(
                    mainnet,
                    given.len() + 1,
                    (self.retarget_headers@.len() - given.len()) as nat,
                ),
                spine_ready(given, interval, height) ==> needed as nat <= given.len(),
                asks_answered(source, self.asked@, asked.len() as int, None),
                forall|j: int|
                    0 <= j < self.retarget_headers@.len() - given.len() ==> answered_ok(
                        source,
                        #[trigger] backfill_plan(mainnet, given.len(), height)[j],
                    ),
                self.retarget_headers@.len() == given.len() ==> self.retarget_headers@ == given
                    && self.recent_headers@ == ring,
                self.inner == source,
                source == old(self).inner,
                self.mainnet == mainnet,
                mainnet == old(self).mainnet,
                interval == retarget_interval(mainnet),
                given == old(self).retarget_headers@,
                ring == old(self).recent_headers@,
                boundary_height(mainnet, needed as nat) <= height,
                steady(source) ==> given.is_prefix_of(self.retarget_headers@),
                no_slot_emptied(ring, self.recent_headers@),
                needed as nat <= given.len() ==> self.retarget_headers@ == given
                    && self.recent_headers@ == ring,
            decreases needed - self.retarget_headers@.len(),
        {
            let next_period: u32 = (self.retarget_headers.len() + 1) as u32;
            let ghost before = self.retarget_headers@;
            let ghost ring_before = self.recent_headers@;
            let boundary = self.boundary_of(next_period);
            let ghost asked_before = self.asked@;
            let answer = self.ask(boundary);
            proof {
                let count = (before.len() - given.len()) as nat;
                assert(self.asked@ =~= asked + boundaries_from(
                    mainnet,
                    given.len() + 1,
                    count + 1,
                )) by {
                    assert(self.asked@ == asked_before.push(boundary));
                    assert(boundary as nat == boundary_height(
                        mainnet,
                        (given.len() + 1 + count) as nat,
                    ));
                }
            }
            proof {
                assert forall|i: int| asked.len() <= i < self.asked@.len() - 1 implies answered_ok(
                    source,
                    #[trigger] self.asked@[i],
                ) by {
                    assert(self.asked@[i] == asked_before[i]);
                }
            }
            let header = match answer {
                Ok(header) => header,
                Err(e) => {
                    proof {
                        lemma_failed_at(source, boundary, e);
                        lemma_failed_below(source, boundary, height, e);
                        let count = (before.len() - given.len() + 1) as nat;
                        assert(count <= missing_boundaries(given.len(), interval, height));
                        assert(self.asked@ == asked + boundaries_from(
                            mainnet,
                            given.len() + 1,
                            count,
                        ));
                        assert(self.asked() == old(self).asked() + boundaries_from(
                            old(self).on_mainnet(),
                            old(self).spine().len() + 1,
                            count,
                        ));
                        assert(count <= missing_boundaries(
                            old(self).spine().len(),
                            old(self).interval(),
                            height,
                        ));
                        let plan = backfill_plan(mainnet, given.len(), height);
                        let at = before.len() - given.len();
                        assert(plan[at] == boundary);
                        assert forall|k: int| #[trigger] decided_at(source, plan, k) implies k
                            == at by {
                            if k < at {
                                assert(answered_ok(source, plan[k]));
                                let header = choose|header: BlockHeader| #[trigger]
                                    source.may_answer(plan[k], Ok(header));
                                assert(source.may_answer(plan[k], Ok(header)));
                            } else if k > at {
                                assert(never_fails_at(source, plan[at]));
                            }
                        }
                        assert(plan.take(at + 1) =~= boundaries_from(
                            mainnet,
                            given.len() + 1,
                            count,
                        ));
                        assert(!all_answer(source, plan)) by {
                            if all_answer(source, plan) {
                                assert(never_fails_at(source, plan[at]));
                            }
                        }
                    }
                    return Err(e);
                },
            };
            let hash = header_hash(&header);
            self.take_in(boundary, hash, &header);
            proof {
                assert(source.may_answer(boundary, Ok(header)));
                assert(answered_ok(source, self.asked@[self.asked@.len() - 1]));
                assert(backfill_plan(mainnet, given.len(), height)[before.len() - given.len()]
                    == boundary);
                assert(self.retarget_headers@ == before.take(before.len() as int).push(
                    (hash, header.bits),
                ));
                assert(no_slot_emptied(ring_before, self.recent_headers@));
                if steady(source) {
                    assert(given.is_prefix_of(self.retarget_headers@));
                }
            }
        }
        proof {
            let len = self.retarget_headers@.len();
            if offset == 0 {
                assert(len + 1 >= period);
            }
            let plan = backfill_plan(mainnet, given.len(), height);
            assert(plan.len() == len - given.len());
            assert forall|k: int| #[trigger] decided_at(source, plan, k) implies false by {
                assert(answered_ok(source, plan[k]));
                let header = choose|header: BlockHeader| #[trigger]
                    source.may_answer(plan[k], Ok(header));
                assert(source.may_answer(plan[k], Ok(header)));
            }
        }
        Ok(())
    }

    /// The work of a fetch: asks the source for the header at the height,
    /// fetches the boundaries that the spine lacks, from the lowest up, and
    /// takes the header in.
    #[verifier::rlimit(40)]
    fn fetch_core(&mut self, height: u32) -> (fetched: Result<
        (BlockHash, BlockHeaderData),
        BlockSourceRespErr,
    >)
        requires
            height >= 1,
        ensures
            final(self).on_mainnet() == old(self).on_mainnet(),
            final(self).source() == old(self).source(),
            steady(old(self).source()) ==> old(self).spine().is_prefix_of(final(self).spine()),
            no_slot_emptied(old(self).ring(), final(self).ring()),
            fetched matches Ok(found) ==> {
                &&& found.1.height == height
                &&& found.0@ == found.1.header.block_hash()
                &&& old(self).source().may_answer(height, Ok(found.1.header))
                &&& final(self).ring()[height as int % 6] == Some(found)
                &&& spine_reaches(final(self).spine(), old(self).interval(), height)
                &&& found.1.chainwork@ == chainwork_rule(
                    final(self).ring(),
                    final(self).spine(),
                    old(self).interval(),
                    height,
                    found.1.header,
                )
            },
            fetched matches Err(e) ==> failed_up_to(old(self).source(), height, e),
            spine_ready(old(self).spine(), old(self).interval(), height) ==> {
                &&& fetched matches Err(e) ==> {
                    &&& old(self).source().may_answer(height, Err(e))
                    &&& final(self).ring() == old(self).ring()
                    &&& final(self).spine() == old(self).spine()
                }
                &&& fetched matches Ok(found) ==> {
                    &&& final(self).spine() == spine_after_fetch(
                        old(self).spine(),
                        old(self).interval(),
                        height,
                        found.0,
                        found.1.header.bits,
                    )
                    &&& final(self).ring() == old(self).ring().update(
                        height as int % 6,
                        Some(found),
                    )
                    &&& found.1.chainwork@ == chainwork_rule(
                        old(self).ring(),
                        final(self).spine(),
                        old(self).interval(),
                        height,
                        found.1.header,
                    )
                }
            },
            steady(old(self).source()) && spine_reaches(
                old(self).spine(),
                old(self).interval(),
                height,
            ) ==> final(self).spine() == old(self).spine(),
            forall|tip: u32| #[trigger]
                serves_chain_up_to(old(self).source(), tip) && height <= tip ==> fetched is Ok,
            asked_by_fetch(
                old(self).asked(),
                final(self).asked(),
                old(self).on_mainnet(),
                old(self).spine().len(),
                height,
                fetched is Ok,
            ),
            old(self).asked().is_prefix_of(final(self).asked()),
            asks_answered(
                old(self).source(),
                final(self).asked(),
                old(self).asked().len() as int,
                failure_of(fetched),
            ),
            fetched is Err && final(self).asked().len() == old(self).asked().len() + 1 ==> {
                &&& final(self).asked() == old(self).asked().push(height)
                &&& final(self).ring() == old(self).ring()
                &&& final(self).spine() == old(self).spine()
            },
            fetched is Err && final(self).asked().len() > old(self).asked().len() + 1
                ==> final(self).spine().len() + 2 == old(self).spine().len()
                + final(self).asked().len() - old(self).asked().len(),
            fetched is Ok && old(self).spine().len() <= height as nat / old(self).interval()
                ==> final(self).spine().len() == height as nat / old(self).interval(),
            spine_from_source(final(self).source(), final(self).interval(), final(self).spine()),
            ring_from_source(final(self).source(), final(self).ring()),
            forall|k: int| #[trigger]
                decided_at(
                    old(self).source(),
                    fetch_plan(old(self).on_mainnet(), old(self).spine().len(), height),
                    k,
                ) ==> {
                    &&& fetched matches Err(e)
                    &&& old(self).source().may_answer(
                        fetch_plan(old(self).on_mainnet(), old(self).spine().len(), height)[k],
                        Err(e),
                    )
                    &&& final(self).asked() == old(self).asked() + fetch_plan(
                        old(self).on_mainnet(),
                        old(self).spine().len(),
                        height,
                    ).take(k + 1)
                    &&& k == 0 ==> final(self).ring() == old(self).ring() && final(self).spine()
                        == old(self).spine()
                },
            all_answer(
                old(self).source(),
                fetch_plan(old(self).on_mainnet(), old(self).spine().len(), height),
            ) ==> fetched is Ok,
            no_header_at(old(self).source(), height) ==> {
                &&& fetched matches Err(e)
                &&& old(self).source().may_answer(height, Err(e))
                &&& final(self).asked() == old(self).asked().push(height)
                &&& final(self).ring() == old(self).ring()
                &&& final(self).spine() == old(self).spine()
            },
            fetched matches Err(e) ==> old(self).source().may_answer(
                final(self).asked().last(),
                Err(e),
            ),
            forall|i: int|
                old(self).asked().len() <= i < final(self).asked().len() ==> (#[trigger] final(self).asked()[i])
                    <= height,
    {
        proof {
            if spine_reaches(self.spine(), self.interval(), height) {
                lemma_reaching_is_ready(self.spine(), self.mainnet, height);
            }
            use_type_invariant(&*self);
        }
        let ghost source = self.inner;
        let ghost asked = self.asked@;
        let ghost mainnet = self.mainnet;
        let ghost spine_len = self.retarget_headers@.len();
        let header = match self.ask(height) {
            Ok(header) => header,
            Err(e) => {
                proof {
                    lemma_failed_at(source, height, e);
                    assert forall|tip: u32| #[trigger]
                        serves_chain_up_to(source, tip) && height <= tip implies false by {
                        lemma_chain_fails_beyond(source, tip, height, e);
                    }
                    assert(self.asked@ =~= asked.push(height) + boundaries_from(
                        mainnet,
                        spine_len + 1,
                        0,
                    ));
                    lemma_fetch_asks_more(asked, self.asked@, mainnet, spine_len, height, false);
                    lemma_fetch_asks_below(asked, self.asked@, mainnet, spine_len, height, false);
                    use_type_invariant(&*self);
                    let rest = backfill_plan(mainnet, spine_len, height);
                    let plan = fetch_plan(mainnet, spine_len, height);
                    assert(plan[0] == height);
                    assert forall|k: int| #[trigger] decided_at(source, plan, k) implies k
                        == 0 by {
                        if k >= 1 {
                            lemma_decided_behind_first(source, height, rest, k);
                        }
                    }
                    assert(plan.take(1) =~= seq![height]);
                    assert(self.asked@ =~= asked + plan.take(1));
                    if all_answer(source, plan) {
                        lemma_all_answer_behind_first(source, height, rest);
                    }
                }
                return Err(e);
            },
        };
        let hash = header_hash(&header);
        let ghost asked_first = self.asked@;
        proof {
            assert(answered_ok(source, asked_first[asked.len() as int]));
            assert(source.may_answer(height, Ok(header)));
        }
        let filled = self.backfill_spine(height);
        proof {
            let rest = backfill_plan(mainnet, spine_len, height);
            assert(asked_first == asked.push(height));
            lemma_decided_through_first(
                source,
                height,
                rest,
                asked,
                self.asked@,
                failure_of(filled),
            );
            use_type_invariant(&*self);
            assert forall|i: int|
                asked.len() <= i < self.asked@.len() - (if filled is Err {
                    1int
                } else {
                    0int
                }) implies answered_ok(source, #[trigger] self.asked@[i]) by {
                if i == asked.len() {
                    assert(self.asked@[i] == asked_first[i]);
                }
            }
        }
        match filled {
            Ok(_) => {},
            Err(e) => {
                proof {
                    assert forall|tip: u32| #[trigger]
                        serves_chain_up_to(source, tip) && height <= tip implies false by {
                        lemma_chain_fails_beyond(source, tip, height, e);
                    }
                    let count = choose|count: nat|
                        count <= missing_boundaries(spine_len, retarget_interval(mainnet), height)
                            && self.asked@ == asked.push(height) + #[trigger] boundaries_from(
                            mainnet,
                            spine_len + 1,
                            count,
                        );
                    assert(self.asked@ == asked.push(height) + boundaries_from(
                        mainnet,
                        spine_len + 1,
                        count,
                    ));
                    lemma_fetch_asks_more(asked, self.asked@, mainnet, spine_len, height, false);
                    lemma_fetch_asks_below(asked, self.asked@, mainnet, spine_len, height, false);
                }
                return Err(e);
            },
        }
        let ghost ring = self.recent_headers@;
        let ghost filled_spine = self.retarget_headers@;
        let data = self.take_in(height, hash, &header);
        proof {
            lemma_parent_in_another_slot(ring, height, (hash, data), header);
            lemma_store_empties_nothing(ring, height as int % 6, (hash, data));
            lemma_fetch_asks_more(asked, self.asked@, mainnet, spine_len, height, true);
            lemma_fetch_asks_below(asked, self.asked@, mainnet, spine_len, height, true);
            use_type_invariant(&*self);
            assert(self.asked@ =~= asked + fetch_plan(mainnet, spine_len, height));
            assert(self.asked@[asked.len() as int] == height);
            if spine_len <= height as nat / retarget_interval(mainnet) {
                lemma_fetched_spine_len(filled_spine, spine_len, mainnet, height, hash, header.bits);
            }
        }
        Ok((hash, data))
    }

    /// Asks the source for the header at the given height and brings the
    /// caches up to date with it.
    ///
    /// First the source is asked for the header. Then the spine is made
    /// long enough: up to the boundary before a height that opens a
    /// retarget period, up to the boundary of its period for any other
    /// height beyond the first retarget; boundaries that it lacks are
    /// fetched, from the lowest up. Then the header is taken in: a block
    /// that opens a period is written to the spine, and the header is
    /// stored among the recent headers with the work up to it.
    ///
    /// A failure of the source, at this height or at a boundary below, is
    /// handed on as it is.
    pub fn fetch_header_at_height(&mut self, height: u32) -> (fetched: Result<
        (BlockHash, BlockHeaderData),
        BlockSourceRespErr,
    >)
        requires
            height >= 1,
        ensures
            final(self).on_mainnet() == old(self).on_mainnet(),
            final(self).source() == old(self).source(),
            steady(old(self).source()) ==> old(self).spine().is_prefix_of(final(self).spine()),
            no_slot_emptied(old(self).ring(), final(self).ring()),
            fetched matches Ok(found) ==> {
                &&& found.1.height == height
                &&& found.0@ == found.1.header.block_hash()
                &&& old(self).source().may_answer(height, Ok(found.1.header))
                &&& final(self).ring()[height as int % 6] == Some(found)
                &&& spine_reaches(final(self).spine(), old(self).interval(), height)
                &&& found.1.chainwork@ == chainwork_rule(
                    final(self).ring(),
                    final(self).spine(),
                    old(self).interval(),
                    height,
                    found.1.header,
                )
            },
            fetched matches Err(e) ==> failed_up_to(old(self).source(), height, e),
            spine_ready(old(self).spine(), old(self).interval(), height) ==> {
                &&& fetched matches Err(e) ==> {
                    &&& old(self).source().may_answer(height, Err(e))
                    &&& final(self).ring() == old(self).ring()
                    &&& final(self).spine() == old(self).spine()
                }
                &&& fetched matches Ok(found) ==> {
                    &&& final(self).spine() == spine_after_fetch(
                        old(self).spine(),
                        old(self).interval(),
                        height,
                        found.0,
                        found.1.header.bits,
                    )
                    &&& final(self).ring() == old(self).ring().update(
                        height as int % 6,
                        Some(found),
                    )
                    &&& found.1.chainwork@ == chainwork_rule(
                        old(self).ring(),
                        final(self).spine(),
                        old(self).interval(),
                        height,
                        found.1.header,
                    )
                }
            },
            steady(old(self).source()) && spine_reaches(
                old(self).spine(),
                old(self).interval(),
                height,
            ) ==> final(self).spine() == old(self).spine(),
            forall|tip: u32| #[trigger]
                serves_chain_up_to(old(self).source(), tip) && height <= tip ==> fetched is Ok,
            asked_by_fetch(
                old(self).asked(),
                final(self).asked(),
                old(self).on_mainnet(),
                old(self).spine().len(),
                height,
                fetched is Ok,
            ),
            old(self).asked().is_prefix_of(final(self).asked()),
            asks_answered(
                old(self).source(),
                final(self).asked(),
                old(self).asked().len() as int,
                failure_of(fetched),
            ),
            fetched is Err && final(self).asked().len() == old(self).asked().len() + 1 ==> {
                &&& final(self).asked() == old(self).asked().push(height)
                &&& final(self).ring() == old(self).ring()
                &&& final(self).spine() == old(self).spine()
            },
            fetched is Err && final(self).asked().len() > old(self).asked().len() + 1
                ==> final(self).spine().len() + 2 == old(self).spine().len()
                + final(self).asked().len() - old(self).asked().len(),
            fetched is Ok && old(self).spine().len() <= height as nat / old(self).interval()
                ==> final(self).spine().len() == height as nat / old(self).interval(),
            spine_from_source(final(self).source(), final(self).interval(), final(self).spine()),
            ring_from_source(final(self).source(), final(self).ring()),
            forall|k: int| #[trigger]
                decided_at(
                    old(self).source(),
                    fetch_plan(old(self).on_mainnet(), old(self).spine().len(), height),
                    k,
                ) ==> {
                    &&& fetched matches Err(e)
                    &&& old(self).source().may_answer(
                        fetch_plan(old(self).on_mainnet(), old(self).spine().len(), height)[k],
                        Err(e),
                    )
                    &&& final(self).asked() == old(self).asked() + fetch_plan(
                        old(self).on_mainnet(),
                        old(self).spine().len(),
                        height,
                    ).take(k + 1)
                    &&& k == 0 ==> final(self).ring() == old(self).ring() && final(self).spine()
                        == old(self).spine()
                },
            all_answer(
                old(self).source(),
                fetch_plan(old(self).on_mainnet(), old(self).spine().len(), height),
            ) ==> fetched is Ok,
            no_header_at(old(self).source(), height) ==> {
                &&& fetched matches Err(e)
                &&& old(self).source().may_answer(height, Err(e))
                &&& final(self).asked() == old(self).asked().push(height)
                &&& final(self).ring() == old(self).ring()
                &&& final(self).spine() == old(self).spine()
            },
            fetched matches Err(e) ==> old(self).source().may_answer(
                final(self).asked().last(),
                Err(e),
            ),
            fetch_decided(
                old(self).source(),
                old(self).on_mainnet(),
                old(self).asked(),
                old(self).ring(),
                old(self).spine(),
                final(self).asked(),
                final(self).ring(),
                final(self).spine(),
                height,
                failure_of(fetched),
            ),
            forall|i: int|
                old(self).asked().len() <= i < final(self).asked().len() ==> (#[trigger] final(self).asked()[i])
                    <= height,
    {
        let ghost asked = self.asked@;
        let ghost mainnet = self.mainnet;
        let ghost spine_len = self.retarget_headers@.len();
        let fetched = self.fetch_core(height);
        proof {
            lemma_fetch_asks_more(asked, self.asked@, mainnet, spine_len, height, fetched is Ok);
            if all_answer(self.inner, fetch_plan(mainnet, spine_len, height)) {
                assert(self.asked@ =~= asked + fetch_plan(mainnet, spine_len, height));
            }
        }
        fetched
    }

    /// Loads all available difficulty adjustment blocks, one retarget
    /// interval after another, until the source has no more.
    ///
    /// Only bogus data is a failure: that the source has no response for a
    /// boundary ends the walk.
    #[verifier::rlimit(40)]
    pub fn sync_diff_adjustments(&mut self) -> (synced: Result<(), BlockSourceRespErr>)
        ensures
            final(self).on_mainnet() == old(self).on_mainnet(),
            final(self).source() == old(self).source(),
            steady(old(self).source()) ==> old(self).spine().is_prefix_of(final(self).spine()),
            no_slot_emptied(old(self).ring(), final(self).ring()),
            synced matches Err(e) ==> e == BlockSourceRespErr::BogusData && failed_up_to(
                old(self).source(),
                u32::MAX,
                e,
            ),
            synced is Ok && nothing_cached(final(self).ring()) ==> failed_up_to(
                old(self).source(),
                old(self).interval() as u32,
                BlockSourceRespErr::NoResponse,
            ),
            forall|tip: u32| #[trigger]
                serves_chain_up_to(old(self).source(), tip) ==> synced is Ok && spine_reaches(
                    final(self).spine(),
                    old(self).interval(),
                    tip,
                ),
            forall|tip: u32| #[trigger]
                serves_chain_up_to(old(self).source(), tip) && (tip as nat) < old(self).interval()
                    ==> {
                    &&& final(self).ring() == old(self).ring()
                    &&& final(self).spine() == old(self).spine()
                },
            exists|count: nat, answered: nat| #[trigger]
                walk_fits(
                    old(self).source(),
                    old(self).on_mainnet(),
                    old(self).asked(),
                    final(self).asked(),
                    synced,
                    count,
                    answered,
                ) && walk_left(
                    old(self).on_mainnet(),
                    old(self).ring(),
                    old(self).spine(),
                    final(self).ring(),
                    final(self).spine(),
                    answered,
                ),
            old(self).asked().is_prefix_of(final(self).asked()),
            spine_from_source(final(self).source(), final(self).interval(), final(self).spine()),
            ring_from_source(final(self).source(), final(self).ring()),
            forall|k: nat| #[trigger]
                walk_decided(old(self).source(), old(self).on_mainnet(), k) ==> {
                    &&& final(self).asked() == old(self).asked() + boundaries_from(
                        old(self).on_mainnet(),
                        1,
                        k,
                    )
                    &&& synced is Ok ==> old(self).source().may_answer(
                        boundary_at(old(self).on_mainnet(), k),
                        Err(BlockSourceRespErr::NoResponse),
                    )
                    &&& synced is Err ==> old(self).source().may_answer(
                        boundary_at(old(self).on_mainnet(), k),
                        Err(BlockSourceRespErr::BogusData),
                    )
                    &&& walk_left(
                        old(self).on_mainnet(),
                        old(self).ring(),
                        old(self).spine(),
                        final(self).ring(),
                        final(self).spine(),
                        (k - 1) as nat,
                    )
                },
            synced matches Err(e) ==> old(self).source().may_answer(
                final(self).asked().last(),
                Err(e),
            ),
            synced is Ok ==> old(self).source().may_answer(
                final(self).asked().last(),
                Err(BlockSourceRespErr::NoResponse),
            ) || (answered_ok(old(self).source(), final(self).asked().last())
                && final(self).asked().last() + old(self).interval() > u32::MAX),
            final(self).asked().len() > old(self).asked().len(),
            forall|i: int|
                old(self).asked().len() <= i < final(self).asked().len() - 1 ==> answered_ok(
                    old(self).source(),
                    #[trigger] final(self).asked()[i],
                ),
    {
        let interval = self.retarget_every();
        let ghost asked = self.asked@;
        let ghost mut done: nat = 0;
        proof {
            assert(self.asked@ =~= asked + boundaries_from(self.mainnet, 1, 0));
        }
        let ghost source = self.inner;
        let ghost given = self.retarget_headers@;
        let ghost mut last: Option<BlockHash> = None;
        let mut height = interval;
        loop
            invariant
                1 <= interval <= height,
                interval as nat == old(self).interval(),
                interval as nat == retarget_interval(self.mainnet),
                height as nat % interval as nat == 0,
                asked == old(self).asked@,
                height as nat == boundary_height(self.mainnet, done + 1),
                self.asked@ == asked + boundaries_from(self.mainnet, 1, done),
                (done == 0) == (height == interval),
                asks_answered(source, self.asked@, asked.len() as int, None),
                walk_answered(source, self.mainnet, done),
                done >= 1 ==> {
                    &&& self.retarget_headers@.len() >= done
                    &&& given.len() <= 1 ==> self.retarget_headers@.len() == done
                    &&& holds_height(self.recent_headers@, (height - interval) as u32)
                    &&& nothing_cached(old(self).recent_headers@) ==> is_highest(
                        self.recent_headers@,
                        (height - interval) as u32,
                    )
                },
                height == interval ==> self.recent_headers@ == old(self).recent_headers@
                    && self.retarget_headers@ == old(self).retarget_headers@,
                height > interval ==> last is Some && answered_with(
                    source,
                    (height - interval) as u32,
                    last->Some_0,
                ) && spine_reaches(
                    self.retarget_headers@,
                    interval as nat,
                    (height - interval) as u32,
                ),
                self.inner == source,
                self.mainnet == old(self).mainnet,
                source == old(self).inner,
                given == old(self).retarget_headers@,
                steady(source) ==> given.is_prefix_of(self.retarget_headers@),
                no_slot_emptied(old(self).recent_headers@, self.recent_headers@),
                height > interval ==> !nothing_cached(self.recent_headers@),
            decreases u32::MAX - height,
        {
            let ghost before = self.recent_headers@;
            let ghost spine_before = self.retarget_headers@;
            proof {
                if self.mainnet {
                    assert(height as nat / 2016 >= 1);
                    assert(height > interval ==> (height - interval) as nat / 2016 == height as nat
                        / 2016 - 1);
                }
                assert(spine_ready(spine_before, interval as nat, height));
            }
            let ghost asked_before = self.asked@;
            let fetched = self.fetch_header_at_height(height);
            proof {
                assert(missing_boundaries(spine_before.len(), interval as nat, height) == 0);
                assert(self.asked@ =~= asked_before.push(height));
                assert(self.asked@ =~= asked + boundaries_from(self.mainnet, 1, done + 1));
                assert(asked.is_prefix_of(self.asked@));
                assert forall|i: int| asked.len() <= i < self.asked@.len() - 1 implies answered_ok(
                    source,
                    #[trigger] self.asked@[i],
                ) by {
                    assert(self.asked@[i] == asked_before[i]);
                }
                assert(boundary_height(self.mainnet, done + 1) <= u32::MAX);
                if self.mainnet {
                    assert(height as nat / 2016 == done + 1);
                } else {
                    assert(height as nat / 1 == done + 1);
                }
            }
            match fetched {
                Ok((hash, data)) => {
                    assert(self.recent_headers@[height as int % 6] is Some);
                    assert(source.may_answer(height, Ok(data.header)));
                    proof {
                        last = Some(hash);
                        done = done + 1;
                        assert(self.recent_headers@ == before.update(
                            height as int % 6,
                            Some((hash, data)),
                        ));
                        assert(holds_height(self.recent_headers@, height));
                        if nothing_cached(old(self).recent_headers@) {
                            assert(is_highest(self.recent_headers@, height));
                        }
                        assert(boundary_at(self.mainnet, done) == height);
                        assert(answered_ok(source, height));
                        assert forall|j: nat| 1 <= j <= done implies answered_ok(
                            source,
                            #[trigger] boundary_at(self.mainnet, j),
                        ) by {
                            if j < done {
                                assert(walk_answered(source, self.mainnet, (done - 1) as nat));
                            }
                        }
                    }
                    match height.checked_add(interval) {
                        Some(next) => {
                            height = next;
                        },
                        None => {
                            proof {
                                assert forall|tip: u32| #[trigger]
                                    serves_chain_up_to(source, tip) implies spine_reaches(
                                    self.retarget_headers@,
                                    interval as nat,
                                    tip,
                                ) by {
                                    lemma_chain_answered_within(source, tip, height, last->Some_0);
                                    if self.mainnet {
                                        assert(tip as nat / 2016 == height as nat / 2016);
                                    }
                                }
                                assert forall|tip: u32| #[trigger]
                                    serves_chain_up_to(source, tip) && (tip as nat)
                                        < interval as nat implies false by {
                                    lemma_chain_answered_within(source, tip, height, last->Some_0);
                                }
                                assert(boundary_height(self.mainnet, done + 1) > u32::MAX);
                                assert(walk_fits(
                                    old(self).source(),
                                    old(self).on_mainnet(),
                                    old(self).asked(),
                                    self.asked(),
                                    Ok::<(), BlockSourceRespErr>(()),
                                    done,
                                    done,
                                ));
                                assert(walk_left(
                                    old(self).on_mainnet(),
                                    old(self).ring(),
                                    old(self).spine(),
                                    self.ring(),
                                    self.spine(),
                                    done,
                                ));
                                assert forall|k: nat| #[trigger] walk_decided(source, self.mainnet, k) implies false by {
                                    if k <= done {
                                        assert(answered_ok(source, boundary_at(self.mainnet, k)));
                                        let header = choose|header: BlockHeader| #[trigger]
                                            source.may_answer(boundary_at(self.mainnet, k), Ok(header));
                                        assert(source.may_answer(boundary_at(self.mainnet, k), Ok(header)));
                                    } else {
                                        assert(boundary_height(self.mainnet, k) >= boundary_height(self.mainnet, done + 1));
                                    }
                                }
                            }
                            return Ok(());
                        },
                    }
                },
                Err(BlockSourceRespErr::NoResponse) => {
                    proof {
                        if height > interval {
                            lemma_still_cached(before, self.recent_headers@);
                        }
                        assert forall|tip: u32| #[trigger]
                            serves_chain_up_to(source, tip) implies spine_reaches(
                            self.retarget_headers@,
                            interval as nat,
                            tip,
                        ) by {
                            lemma_chain_fails_beyond(
                                source,
                                tip,
                                height,
                                BlockSourceRespErr::NoResponse,
                            );
                            if height > interval {
                                lemma_chain_answered_within(
                                    source,
                                    tip,
                                    (height - interval) as u32,
                                    last->Some_0,
                                );
                                if self.mainnet {
                                    assert(tip as nat / 2016 == (height - interval) as nat / 2016);
                                }
                            }
                        }
                        assert forall|tip: u32| #[trigger]
                            serves_chain_up_to(source, tip) && (tip as nat)
                                < interval as nat implies height == interval by {
                            if height > interval {
                                lemma_chain_answered_within(
                                    source,
                                    tip,
                                    (height - interval) as u32,
                                    last->Some_0,
                                );
                            }
                        }
                        assert(walk_fits(
                            old(self).source(),
                            old(self).on_mainnet(),
                            old(self).asked(),
                            self.asked(),
                            Ok::<(), BlockSourceRespErr>(()),
                            done + 1,
                            done,
                        ));
                        assert(walk_left(
                            old(self).on_mainnet(),
                            old(self).ring(),
                            old(self).spine(),
                            self.ring(),
                            self.spine(),
                            done,
                        ));
                        assert forall|k: nat| #[trigger] walk_decided(source, self.mainnet, k) implies k
                            == done + 1 by {
                            if k <= done {
                                assert(answered_ok(source, boundary_at(self.mainnet, k)));
                                let header = choose|header: BlockHeader| #[trigger]
                                    source.may_answer(boundary_at(self.mainnet, k), Ok(header));
                                assert(source.may_answer(boundary_at(self.mainnet, k), Ok(header)));
                            } else if k > done + 1 {
                                assert(never_fails_at(source, boundary_at(self.mainnet, done + 1)));
                                assert(boundary_at(self.mainnet, done + 1) == height);
                            }
                        }
                        assert(boundary_at(self.mainnet, done + 1) == height);
                    }
                    return Ok(());
                },
                Err(BlockSourceRespErr::BogusData) => {
                    proof {
                        lemma_failed_below(source, height, u32::MAX, BlockSourceRespErr::BogusData);
                        assert forall|tip: u32| #[trigger]
                            serves_chain_up_to(source, tip) implies false by {
                            lemma_chain_fails_beyond(
                                source,
                                tip,
                                height,
                                BlockSourceRespErr::BogusData,
                            );
                        }
                        assert(walk_fits(
                            old(self).source(),
                            old(self).on_mainnet(),
                            old(self).asked(),
                            self.asked(),
                            Err::<(), BlockSourceRespErr>(BlockSourceRespErr::BogusData),
                            done + 1,
                            done,
                        ));
                        assert(walk_left(
                            old(self).on_mainnet(),
                            old(self).ring(),
                            old(self).spine(),
                            self.ring(),
                            self.spine(),
                            done,
                        ));
                        assert forall|k: nat| #[trigger] walk_decided(source, self.mainnet, k) implies k
                            == done + 1 by {
                            if k <= done {
                                assert(answered_ok(source, boundary_at(self.mainnet, k)));
                                let header = choose|header: BlockHeader| #[trigger]
                                    source.may_answer(boundary_at(self.mainnet, k), Ok(header));
                                assert(source.may_answer(boundary_at(self.mainnet, k), Ok(header)));
                            } else if k > done + 1 {
                                assert(never_fails_at(source, boundary_at(self.mainnet, done + 1)));
                                assert(boundary_at(self.mainnet, done + 1) == height);
                            }
                        }
                        assert(boundary_at(self.mainnet, done + 1) == height);
                    }
                    return Err(BlockSourceRespErr::BogusData);
                },
            }
        }
    }

    /// Gets the header with the given hash at the given height.
    ///
    /// Without a height there is no response: this source cannot search by
    /// hash. A header among the recent ones is returned as it is cached,
    /// without asking the source. Else the header at that height is
    /// fetched, and is the answer if it has the given hash.
    pub fn get_header(&mut self, header_hash: &BlockHash, height_hint: Option<u32>) -> (found:
        Result<BlockHeaderData, BlockSourceRespErr>)
        ensures
            final(self).on_mainnet() == old(self).on_mainnet(),
            final(self).source() == old(self).source(),
            steady(old(self).source()) ==> old(self).spine().is_prefix_of(final(self).spine()),
            no_slot_emptied(old(self).ring(), final(self).ring()),
            height_hint is None ==> found == Err::<BlockHeaderData, BlockSourceRespErr>(
                BlockSourceRespErr::NoResponse,
            ),
            height_hint matches Some(height) ==> (cached_entry(
                old(self).ring(),
                header_hash@,
                height,
            ) matches Some(data) ==> found == Ok::<BlockHeaderData, BlockSourceRespErr>(data)),
            height_hint matches Some(height) ==> (cached_entry(
                old(self).ring(),
                header_hash@,
                height,
            ) is None && height == 0 ==> found == Err::<BlockHeaderData, BlockSourceRespErr>(
                BlockSourceRespErr::NoResponse,
            )),
            height_hint is None || (height_hint matches Some(height) && (height == 0
                || cached_entry(old(self).ring(), header_hash@, height) is Some)) ==> {
                &&& final(self).ring() == old(self).ring()
                &&& final(self).spine() == old(self).spine()
                &&& final(self).asked() == old(self).asked()
            },
            height_hint matches Some(height) ==> (height >= 1 && cached_entry(
                old(self).ring(),
                header_hash@,
                height,
            ) is None ==> asked_by_fetch(
                old(self).asked(),
                final(self).asked(),
                old(self).on_mainnet(),
                old(self).spine().len(),
                height,
                found is Ok,
            )),
            found matches Ok(data) ==> {
                &&& height_hint matches Some(height)
                &&& data.height >= 1
                &&& data.height as int % 6 == height as int % 6
                &&& data.header.block_hash() == header_hash@
                &&& old(self).source().may_answer(data.height, Ok(data.header))
                &&& cached_entry(final(self).ring(), header_hash@, height) == Some(data)
                &&& cached_entry(old(self).ring(), header_hash@, height) is None ==> {
                    &&& data.height == height
                    &&& spine_reaches(final(self).spine(), old(self).interval(), height)
                    &&& data.chainwork@ == chainwork_rule(
                        final(self).ring(),
                        final(self).spine(),
                        old(self).interval(),
                        height,
                        data.header,
                    )
                }
            },
            forall|tip: u32| #[trigger]
                serves_chain_up_to(old(self).source(), tip) && (height_hint matches Some(height)
                    && 1 <= height <= tip && answered_with(
                    old(self).source(),
                    height,
                    *header_hash,
                )) ==> found is Ok,
            found matches Err(e) ==> ({
                ||| height_hint is None && e == BlockSourceRespErr::NoResponse
                ||| height_hint == Some(0u32) && e == BlockSourceRespErr::NoResponse
                ||| height_hint matches Some(height) && height >= 1 && failed_up_to(
                    old(self).source(),
                    height,
                    e,
                ) && asks_answered(
                    old(self).source(),
                    final(self).asked(),
                    old(self).asked().len() as int,
                    Some(e),
                ) && (final(self).asked().len() == old(self).asked().len() + 1 ==> {
                    &&& final(self).ring() == old(self).ring()
                    &&& final(self).spine() == old(self).spine()
                })
                ||| height_hint matches Some(height) && height >= 1 && e
                    == BlockSourceRespErr::NoResponse && asks_answered(
                    old(self).source(),
                    final(self).asked(),
                    old(self).asked().len() as int,
                    None,
                ) && asked_by_fetch(
                    old(self).asked(),
                    final(self).asked(),
                    old(self).on_mainnet(),
                    old(self).spine().len(),
                    height,
                    true,
                ) && (final(self).ring()[height as int % 6] matches Some(entry) && entry.1.height
                    == height && entry.0@ != header_hash@)
            }),
            found is Ok ==> asks_answered(
                old(self).source(),
                final(self).asked(),
                old(self).asked().len() as int,
                None,
            ),
            spine_from_source(final(self).source(), final(self).interval(), final(self).spine()),
            ring_from_source(final(self).source(), final(self).ring()),
            height_hint matches Some(height) ==> (height >= 1 && cached_entry(
                old(self).ring(),
                header_hash@,
                height,
            ) is None ==> {
                &&& no_header_at(old(self).source(), height) ==> {
                    &&& found matches Err(e)
                    &&& old(self).source().may_answer(height, Err(e))
                    &&& final(self).asked() == old(self).asked().push(height)
                    &&& final(self).ring() == old(self).ring()
                    &&& final(self).spine() == old(self).spine()
                }
                &&& forall|k: int| #[trigger]
                    decided_at(
                        old(self).source(),
                        fetch_plan(old(self).on_mainnet(), old(self).spine().len(), height),
                        k,
                    ) ==> {
                        &&& found matches Err(e)
                        &&& old(self).source().may_answer(
                            fetch_plan(old(self).on_mainnet(), old(self).spine().len(), height)[k],
                            Err(e),
                        )
                        &&& final(self).asked() == old(self).asked() + fetch_plan(
                            old(self).on_mainnet(),
                            old(self).spine().len(),
                            height,
                        ).take(k + 1)
                    }
                &&& all_answer(
                    old(self).source(),
                    fetch_plan(old(self).on_mainnet(), old(self).spine().len(), height),
                ) ==> {
                    &&& final(self).asked() == old(self).asked() + fetch_plan(
                        old(self).on_mainnet(),
                        old(self).spine().len(),
                        height,
                    )
                    &&& final(self).ring()[height as int % 6] matches Some(entry)
                    &&& entry.1.height == height
                    &&& old(self).source().may_answer(height, Ok(entry.1.header))
                    &&& entry.0@ == entry.1.header.block_hash()
                    &&& entry.0@ == header_hash@ ==> found == Ok::<
                        BlockHeaderData,
                        BlockSourceRespErr,
                    >(entry.1)
                    &&& entry.0@ != header_hash@ ==> found == Err::<
                        BlockHeaderData,
                        BlockSourceRespErr,
                    >(BlockSourceRespErr::NoResponse)
                }
            }),
    {
        proof {
            use_type_invariant(&*self);
        }
        let height = match height_hint {
            Some(height) => height,
            None => {
                return Err(BlockSourceRespErr::NoResponse);
            },
        };
        match self.cached_header(header_hash, height) {
            Some(data) => {
                return Ok(data);
            },
            None => {},
        }
        if height == 0 {
            return Err(BlockSourceRespErr::NoResponse);
        }
        let ghost source = self.inner;
        let ghost asked = self.asked@;
        let ghost mainnet = self.mainnet;
        let ghost spine_len = self.retarget_headers@.len();
        match self.fetch_header_at_height(height) {
            Ok((hash, data)) => {
                if hash == *header_hash {
                    Ok(data)
                } else {
                    proof {
                        assert forall|tip: u32| #[trigger]
                            serves_chain_up_to(source, tip) && answered_with(
                                source,
                                height,
                                *header_hash,
                            ) implies false by {
                            lemma_chain_hash(source, tip, height, *header_hash, data.header);
                        }
                        assert(self.asked@ == asked.push(height) + boundaries_from(
                            mainnet,
                            spine_len + 1,
                            missing_boundaries(spine_len, retarget_interval(mainnet), height),
                        ));
                    }
                    Err(BlockSourceRespErr::NoResponse)
                }
            },
            Err(e) => Err(e),
        }
    }

    /// Gets the block with the given hash: never, as this source has
    /// headers only.
    pub fn get_block(&mut self, _header_hash: &BlockHash) -> (block: Result<
        Block,
        BlockSourceRespErr,
    >)
        ensures
            block matches Err(e) && e == BlockSourceRespErr::NoResponse,
            final(self).on_mainnet() == old(self).on_mainnet(),
            final(self).source() == old(self).source(),
            final(self).asked() == old(self).asked(),
            final(self).spine() == old(self).spine(),
            final(self).ring() == old(self).ring(),
    {
        Err(BlockSourceRespErr::NoResponse)
    }

    /// Probes upwards from `start`: the source is asked for one height
    /// after the other, from `start + 1`, until it fails or the heights run
    /// out. Gives the highest height that gave a header, or `start`; the
    /// header found there, if any; and the failure that ended the probes.
    #[verifier::rlimit(40)]
    fn probe_upwards(&mut self, start: u32) -> (probed: (
        u32,
        Option<(BlockHash, Option<u32>)>,
        Option<BlockSourceRespErr>,
        Ghost<Seq<u32>>,
        Ghost<nat>,
    ))
        requires
            start >= 1,
        ensures
            final(self).on_mainnet() == old(self).on_mainnet(),
            final(self).source() == old(self).source(),
            steady(old(self).source()) ==> old(self).spine().is_prefix_of(final(self).spine()),
            no_slot_emptied(old(self).ring(), final(self).ring()),
            old(self).asked().is_prefix_of(final(self).asked()),
            probes_fit(
                old(self).source(),
                old(self).on_mainnet(),
                old(self).asked(),
                old(self).spine().len(),
                start,
                probed.3@,
                probed.4@,
                probed.0,
                probed.2,
                final(self).asked(),
            ),
            probed.0 == start ==> probed.1 is None && final(self).spine().len() == probed.4@,
            probed.0 > start ==> (probed.1 matches Some(last) && last.1 == Some(probed.0)
                && answered_with(old(self).source(), probed.0, last.0) && holds_tip(
                final(self).ring(),
                last.0,
                probed.0,
            )),
            probed.2 matches Some(e) ==> probed.0 < u32::MAX && failed_up_to(
                old(self).source(),
                (probed.0 + 1) as u32,
                e,
            ),
            probed.2 is None ==> probed.0 == u32::MAX,
            probed.0 > start ==> spine_reaches(
                final(self).spine(),
                old(self).interval(),
                probed.0,
            ),
            probed.0 > start ==> exists|i: int|
                old(self).asked().len() <= i < final(self).asked().len()
                    && (#[trigger] final(self).asked()[i]) == probed.0,
            forall|i: int|
                old(self).asked().len() <= i < final(self).asked().len()
                    ==> (#[trigger] final(self).asked()[i]) <= probed.0 + 1,
            start < u32::MAX && no_header_at(old(self).source(), (start + 1) as u32) ==> {
                &&& probed.0 == start
                &&& probed.2 matches Some(e)
                &&& old(self).source().may_answer((start + 1) as u32, Err(e))
                &&& final(self).asked() == old(self).asked().push((start + 1) as u32)
                &&& final(self).ring() == old(self).ring()
                &&& final(self).spine() == old(self).spine()
            },
            forall|m: nat| #[trigger]
                probes_decided(old(self).source(), start, m) && missing_boundaries(
                    old(self).spine().len(),
                    old(self).interval(),
                    (start + 1) as u32,
                ) == 0 ==> {
                    &&& probed.0 == start + m - 1
                    &&& probed.2 matches Some(e)
                    &&& old(self).source().may_answer(height_above(start, m), Err(e))
                    &&& final(self).asked() == old(self).asked() + heights_from(start + 1, m)
                    &&& m == 1 ==> final(self).ring() == old(self).ring() && final(self).spine()
                        == old(self).spine()
                },
    {
        let ghost source = self.inner;
        let ghost mainnet = self.mainnet;
        let ghost asked = self.asked@;
        let ghost spine = self.retarget_headers@;
        let ghost ring = self.recent_headers@;
        let ghost ready = missing_boundaries(
            spine.len(),
            retarget_interval(mainnet),
            (start + 1) as u32,
        ) == 0;
        if start == u32::MAX {
            return (start, None, None, Ghost(asked), Ghost(spine.len()));
        }
        let first = self.fetch_header_at_height(start + 1);
        let ghost after_first = self.asked@;
        let ghost first_spine = self.retarget_headers@.len();
        proof {
            lemma_fetch_asks_more(
                asked,
                after_first,
                mainnet,
                spine.len(),
                (start + 1) as u32,
                first is Ok,
            );
        }
        let mut reached: u32 = start + 1;
        let mut found: (BlockHash, Option<u32>) = match first {
            Ok((hash, data)) => {
                assert(source.may_answer(reached, Ok(data.header)));
                (hash, Some(reached))
            },
            Err(e) => {
                proof {
                    lemma_failed_below(source, (start + 1) as u32, (start + 1) as u32, e);
                    if ready {
                        assert(after_first =~= asked.push((start + 1) as u32));
                        assert(after_first =~= asked + heights_from(start + 1, 1));
                        assert forall|m: nat| #[trigger] probes_decided(source, start, m) implies m
                            == 1 by {
                            if m > 1 {
                                assert(never_fails_at(source, height_above(start, 1)));
                            }
                        }
                    }
                }
                return (start, None, Some(e), Ghost(after_first), Ghost(first_spine));
            },
        };
        proof {
            assert(self.asked@ =~= after_first + heights_from(start + 2, 0));
            assert(answered_ok(source, (start + 1) as u32));
            assert(after_first[asked.len() as int] == start + 1);
            if ready {
                assert(after_first =~= asked.push((start + 1) as u32));
            }
        }
        loop
            invariant
                1 <= start < reached,
                ready == (missing_boundaries(
                    spine.len(),
                    retarget_interval(mainnet),
                    (start + 1) as u32,
                ) == 0),
                ready ==> after_first == asked.push((start + 1) as u32),
                answered_ok(source, (start + 1) as u32),
                after_first.len() > asked.len(),
                after_first[asked.len() as int] == start + 1,
                forall|i: int|
                    asked.len() <= i < after_first.len() ==> (#[trigger] after_first[i]) <= start
                        + 1,
                self.inner == source,
                source == old(self).inner,
                self.mainnet == mainnet,
                mainnet == old(self).mainnet,
                asked == old(self).asked@,
                spine == old(self).retarget_headers@,
                ring == old(self).recent_headers@,
                steady(source) ==> spine.is_prefix_of(self.retarget_headers@),
                no_slot_emptied(ring, self.recent_headers@),
                asked.is_prefix_of(after_first),
                asked_by_fetch(asked, after_first, mainnet, spine.len(), (start + 1) as u32, true),
                asks_answered(source, after_first, asked.len() as int, None),
                self.asked@ == after_first + heights_from(
                    start + 2,
                    (reached - start - 1) as nat,
                ),
                forall|height: u32|
                    start + 2 <= height <= reached ==> #[trigger] answered_ok(source, height),
                found.1 == Some(reached),
                answered_with(source, reached, found.0),
                holds_tip(self.recent_headers@, found.0, reached),
                spine_reaches(self.retarget_headers@, retarget_interval(mainnet), reached),
            decreases u32::MAX - reached,
        {
            let next = match reached.checked_add(1) {
                Some(next) => next,
                None => {
                    proof {
                        lemma_asks_add_up(asked, after_first, self.asked@);
                        assert(probes_fit(
                            source,
                            mainnet,
                            asked,
                            spine.len(),
                            start,
                            after_first,
                            first_spine,
                            reached,
                            None,
                            self.asked@,
                        ));
                        if no_header_at(source, (start + 1) as u32) {
                            let header = choose|header: BlockHeader| #[trigger]
                                source.may_answer((start + 1) as u32, Ok(header));
                            assert(source.may_answer((start + 1) as u32, Ok(header)));
                        }
                        assert forall|m: nat| #[trigger]
                            probes_decided(source, start, m) implies false by {
                            let at = height_above(start, m);
                            assert(answered_ok(source, at));
                            let header = choose|header: BlockHeader| #[trigger]
                                source.may_answer(at, Ok(header));
                            assert(source.may_answer(at, Ok(header)));
                        }
                        let place = if reached == start + 1 {
                            asked.len() as int
                        } else {
                            self.asked@.len() - 1
                        };
                        assert(self.asked@[place] == reached);
                        assert(old(self).asked().len() <= place < self.asked().len()
                            && self.asked()[place] == reached);
                        assert forall|i: int| asked.len() <= i < self.asked@.len() implies (
                        #[trigger] self.asked@[i]) <= reached + 1 by {
                            if i < after_first.len() {
                                assert(self.asked@[i] == after_first[i]);
                            }
                        }
                    }
                    return (reached, Some(found), None, Ghost(after_first), Ghost(first_spine));
                },
            };
            proof {
                lemma_reaching_readies_next(self.retarget_headers@, self.mainnet, reached);
            }
            let ghost asked_so_far = self.asked@;
            let ghost spine_so_far = self.retarget_headers@;
            let fetched = self.fetch_header_at_height(next);
            proof {
                assert(missing_boundaries(
                    spine_so_far.len(),
                    retarget_interval(mainnet),
                    next,
                ) == 0);
                assert(self.asked@ =~= asked_so_far.push(next));
                assert(self.asked@ =~= after_first + heights_from(
                    start + 2,
                    (reached - start) as nat,
                ));
                lemma_asks_add_up(asked, after_first, self.asked@);
            }
            match fetched {
                Ok((hash, data)) => {
                    proof {
                        assert(source.may_answer(next, Ok(data.header)));
                        assert(answered_ok(source, next));
                    }
                    reached = next;
                    found = (hash, Some(reached));
                },
                Err(e) => {
                    proof {
                        lemma_failed_at(source, next, e);
                        assert(probes_fit(
                            source,
                            mainnet,
                            asked,
                            spine.len(),
                            start,
                            after_first,
                            first_spine,
                            reached,
                            Some(e),
                            self.asked@,
                        ));
                        assert(source.may_answer(next, Err(e)));
                        if no_header_at(source, (start + 1) as u32) {
                            let header = choose|header: BlockHeader| #[trigger]
                                source.may_answer((start + 1) as u32, Ok(header));
                            assert(source.may_answer((start + 1) as u32, Ok(header)));
                        }
                        assert forall|m: nat| #[trigger]
                            probes_decided(source, start, m) implies start + m == next by {
                            let at = height_above(start, m);
                            if at <= reached {
                                assert(answered_ok(source, at));
                                let header = choose|header: BlockHeader| #[trigger]
                                    source.may_answer(at, Ok(header));
                                assert(source.may_answer(at, Ok(header)));
                            } else if at > next {
                                assert(never_fails_at(
                                    source,
                                    height_above(start, (next - start) as nat),
                                ));
                            }
                        }
                        if ready {
                            assert(self.asked@ =~= asked + heights_from(
                                start + 1,
                                (next - start) as nat,
                            ));
                        }
                        let place = if reached == start + 1 {
                            asked.len() as int
                        } else {
                            self.asked@.len() - 2
                        };
                        assert(self.asked@[place] == reached);
                        assert(old(self).asked().len() <= place < self.asked().len()
                            && self.asked()[place] == reached);
                        assert forall|i: int| asked.len() <= i < self.asked@.len() implies (
                        #[trigger] self.asked@[i]) <= reached + 1 by {
                            if i < after_first.len() {
                                assert(self.asked@[i] == after_first[i]);
                            }
                        }
                    }
                    return (reached, Some(found), Some(e), Ghost(after_first), Ghost(first_spine));
                },
            }
        }
    }

    /// Settles on the tip once the probes are over: the header that the
    /// last probe found, or, where none found one, the header at `highest`
    /// fetched once more.
    fn confirm_tip(&mut self, highest: u32, found: Option<(BlockHash, Option<u32>)>) -> (best:
        Result<(BlockHash, Option<u32>), BlockSourceRespErr>)
        requires
            highest >= 1,
            found matches Some(last) ==> {
                &&& last.1 == Some(highest)
                &&& answered_with(old(self).source(), highest, last.0)
                &&& holds_tip(old(self).ring(), last.0, highest)
            },
        ensures
            final(self).on_mainnet() == old(self).on_mainnet(),
            final(self).source() == old(self).source(),
            steady(old(self).source()) ==> old(self).spine().is_prefix_of(final(self).spine()),
            no_slot_emptied(old(self).ring(), final(self).ring()),
            best matches Ok(tip) ==> {
                &&& tip.1 == Some(highest)
                &&& answered_with(old(self).source(), highest, tip.0)
                &&& holds_tip(final(self).ring(), tip.0, highest)
            },
            best matches Err(e) ==> failed_up_to(old(self).source(), highest, e),
            found is Some ==> best is Ok && final(self).asked() == old(self).asked(),
            found is None ==> asked_by_fetch(
                old(self).asked(),
                final(self).asked(),
                old(self).on_mainnet(),
                old(self).spine().len(),
                highest,
                best is Ok,
            ) && asks_answered(
                old(self).source(),
                final(self).asked(),
                old(self).asked().len() as int,
                failure_of(best),
            ),
            old(self).asked().is_prefix_of(final(self).asked()),
            forall|tip: u32| #[trigger]
                serves_chain_up_to(old(self).source(), tip) && highest <= tip ==> best is Ok,
            found is None ==> fetch_decided(
                old(self).source(),
                old(self).on_mainnet(),
                old(self).asked(),
                old(self).ring(),
                old(self).spine(),
                final(self).asked(),
                final(self).ring(),
                final(self).spine(),
                highest,
                failure_of(best),
            ),
            found is None ==> forall|i: int|
                old(self).asked().len() <= i < final(self).asked().len()
                    ==> (#[trigger] final(self).asked()[i]) <= highest,
            found is Some ==> final(self).ring() == old(self).ring() && final(self).spine()
                == old(self).spine(),
    {
        match found {
            Some(last) => Ok(last),
            None => match self.fetch_header_at_height(highest) {
                Ok((hash, data)) => {
                    assert(self.inner.may_answer(highest, Ok(data.header)));
                    Ok((hash, Some(highest)))
                },
                Err(e) => Err(e),
            },
        }
    }

    /// Finds the height from which a search probes upwards: the highest
    /// height cached, after a walk along the retarget boundaries where
    /// nothing is cached. Gives also, for the record, how many boundaries
    /// the walk asked and how many of them gave a header.
    fn start_search(&mut self) -> (started: (
        Result<u32, BlockSourceRespErr>,
        Ghost<nat>,
        Ghost<nat>,
    ))
        ensures
            final(self).on_mainnet() == old(self).on_mainnet(),
            final(self).source() == old(self).source(),
            steady(old(self).source()) ==> old(self).spine().is_prefix_of(final(self).spine()),
            no_slot_emptied(old(self).ring(), final(self).ring()),
            old(self).asked().is_prefix_of(final(self).asked()),
            start_fits(
                old(self).source(),
                old(self).on_mainnet(),
                old(self).asked(),
                old(self).ring(),
                old(self).spine(),
                final(self).asked(),
                final(self).ring(),
                final(self).spine(),
                started.0,
                started.1@,
                started.2@,
            ),
            started.0 matches Ok(start) ==> {
                &&& start >= 1
                &&& holds_height(final(self).ring(), start)
                &&& answered_ok(old(self).source(), start)
                &&& forall|slot: int|
                    0 <= slot < 6 ==> (#[trigger] old(self).ring()[slot] matches Some(entry)
                        ==> entry.1.height <= start)
            },
            started.0 matches Err(e) ==> failed_up_to(old(self).source(), u32::MAX, e),
            forall|k: nat| #[trigger]
                walk_decided(old(self).source(), old(self).on_mainnet(), k) && nothing_cached(
                    old(self).ring(),
                ) ==> start_decided(
                    old(self).source(),
                    old(self).on_mainnet(),
                    old(self).asked(),
                    old(self).ring(),
                    old(self).spine(),
                    final(self).asked(),
                    final(self).ring(),
                    final(self).spine(),
                    started.0,
                    k,
                ),
            forall|tip: u32| #[trigger]
                serves_chain_up_to(old(self).source(), tip) && nothing_cached(old(self).ring())
                    ==> {
                    &&& tip as nat >= old(self).interval() ==> started.0 is Ok
                    &&& (tip as nat) < old(self).interval() ==> {
                        &&& started.0 matches Err(e)
                        &&& e == BlockSourceRespErr::NoResponse
                    }
                },
            forall|i: int|
                old(self).asked().len() <= i < final(self).asked().len() ==> within_reach(
                    old(self).source(),
                    old(self).on_mainnet(),
                    #[trigger] final(self).asked()[i],
                ),
    {
        let ghost source = self.inner;
        let ghost mainnet = self.mainnet;
        let ghost interval = self.interval();
        let ghost asked = self.asked@;
        let ghost ring = self.recent_headers@;
        let ghost spine = self.retarget_headers@;
        let cached = self.highest_cached_height();
        if cached > 0 {
            proof {
                use_type_invariant(&*self);
                let entry = ring[cached as int % 6]->Some_0;
                assert(source.may_answer(cached, Ok(entry.1.header)));
                assert(is_highest(ring, cached));
            }
            return (Ok(cached), Ghost(0), Ghost(0));
        }
        let synced = self.sync_diff_adjustments();
        let ghost (walked, answered) = choose|count: nat, gave: nat| #[trigger]
            walk_fits(source, mainnet, asked, self.asked@, synced, count, gave) && walk_left(
                mainnet,
                ring,
                spine,
                self.recent_headers@,
                self.retarget_headers@,
                gave,
            );
        proof {
            assert forall|i: int| asked.len() <= i < self.asked@.len() implies within_reach(
                source,
                mainnet,
                #[trigger] self.asked@[i],
            ) by {
                lemma_walk_within_reach(
                    source,
                    mainnet,
                    asked,
                    self.asked@,
                    synced,
                    walked,
                    answered,
                    i,
                );
            }
        }
        match synced {
            Ok(_) => {},
            Err(e) => {
                proof {
                    assert forall|tip: u32| #[trigger]
                        serves_chain_up_to(source, tip) implies false by {
                        lemma_chain_fails_beyond(source, tip, u32::MAX, e);
                    }
                }
                return (Err(e), Ghost(walked), Ghost(answered));
            },
        }
        let highest = self.highest_cached_height();
        if highest == 0 {
            proof {
                assert(answered == 0);
                lemma_failed_below(
                    source,
                    interval as u32,
                    u32::MAX,
                    BlockSourceRespErr::NoResponse,
                );
                assert forall|tip: u32| #[trigger]
                    serves_chain_up_to(source, tip) && tip as nat >= interval implies false by {
                    lemma_chain_fails_beyond(
                        source,
                        tip,
                        interval as u32,
                        BlockSourceRespErr::NoResponse,
                    );
                }
                assert forall|k: nat| #[trigger] walk_decided(source, mainnet, k) implies k
                    == 1 by {
                    if k >= 2 {
                        assert(holds_height(
                            self.recent_headers@,
                            boundary_height(mainnet, (k - 1) as nat) as u32,
                        ));
                    }
                }
            }
            return (Err(BlockSourceRespErr::NoResponse), Ghost(walked), Ghost(answered));
        }
        proof {
            use_type_invariant(&*self);
            assert(answered >= 1);
            assert(is_highest(self.recent_headers@, highest));
            assert(highest as nat == boundary_height(mainnet, answered));
            let entry = self.recent_headers@[highest as int % 6]->Some_0;
            assert(source.may_answer(highest, Ok(entry.1.header)));
            assert forall|k: nat| #[trigger] walk_decided(source, mainnet, k) implies k >= 2
                && highest == boundary_at(mainnet, (k - 1) as nat) by {
                if k >= 2 {
                    assert(is_highest(
                        self.recent_headers@,
                        boundary_height(mainnet, (k - 1) as nat) as u32,
                    ));
                }
            }
            assert forall|tip: u32| #[trigger]
                serves_chain_up_to(source, tip) && (tip as nat) < interval implies false by {
                assert(holds_height(self.recent_headers@, highest));
            }
        }
        (Ok(highest), Ghost(walked), Ghost(answered))
    }

    /// Finds the best block: the hash and the height of the highest header
    /// that the source has.
    ///
    /// With no header cached yet the retarget boundaries are loaded first;
    /// if that leaves nothing cached there is no response. From the highest
    /// cached height the source is asked for one height after the other
    /// until it has no response. The last header found is the tip. Where
    /// the first height asked already has no response, the header at the
    /// highest cached height is fetched once more and is the tip; a chain
    /// that has since become shorter is not looked for.
    ///
    /// Against a source that holds one chain up to a tip at or above the
    /// first retarget boundary the answer is that tip.
    #[verifier::rlimit(100)]
    pub fn get_best_block(&mut self) -> (best: Result<
        (BlockHash, Option<u32>),
        BlockSourceRespErr,
    >)
        ensures
            final(self).on_mainnet() == old(self).on_mainnet(),
            final(self).source() == old(self).source(),
            steady(old(self).source()) ==> old(self).spine().is_prefix_of(final(self).spine()),
            no_slot_emptied(old(self).ring(), final(self).ring()),
            old(self).asked().is_prefix_of(final(self).asked()),
            search_recorded(
                old(self).source(),
                old(self).on_mainnet(),
                old(self).asked(),
                old(self).ring(),
                old(self).spine(),
                final(self).asked(),
                final(self).ring(),
                final(self).spine(),
                best,
            ),
            best matches Ok(found) ==> (found.1 matches Some(height) && height >= 1
                && answered_with(old(self).source(), height, found.0) && holds_tip(
                final(self).ring(),
                found.0,
                height,
            )),
            best matches Ok(found) ==> (found.1 matches Some(height) && (height == u32::MAX
                || failed_up_to(
                old(self).source(),
                (height + 1) as u32,
                BlockSourceRespErr::NoResponse,
            ))),
            best matches Ok(found) ==> (found.1 matches Some(height) && forall|slot: int|
                0 <= slot < 6 ==> (#[trigger] old(self).ring()[slot] matches Some(entry)
                    ==> entry.1.height <= height)),
            best matches Err(e) ==> failed_up_to(old(self).source(), u32::MAX, e),
            forall|tip: u32| #[trigger]
                serves_chain_up_to(old(self).source(), tip) && (tip as nat >= old(self).interval()
                    || !nothing_cached(old(self).ring())) ==> (best matches Ok(found) && found.1
                    == Some(tip)),
            forall|tip: u32| #[trigger]
                serves_chain_up_to(old(self).source(), tip) && (tip as nat) < old(self).interval()
                    && nothing_cached(old(self).ring()) ==> (best matches Err(e) && e
                    == BlockSourceRespErr::NoResponse),
            spine_from_source(final(self).source(), final(self).interval(), final(self).spine()),
            ring_from_source(final(self).source(), final(self).ring()),
            best matches Ok(found) ==> exists|i: int|
                old(self).asked().len() <= i < final(self).asked().len()
                    && Some(#[trigger] final(self).asked()[i]) == found.1,
            forall|i: int|
                old(self).asked().len() <= i < final(self).asked().len() ==> within_reach(
                    old(self).source(),
                    old(self).on_mainnet(),
                    #[trigger] final(self).asked()[i],
                ),
            nothing_cached(old(self).ring()) && no_header_at(
                old(self).source(),
                old(self).interval() as u32,
            ) ==> {
                &&& best matches Err(e)
                &&& old(self).source().may_answer(old(self).interval() as u32, Err(e))
                &&& final(self).asked() == old(self).asked().push(old(self).interval() as u32)
                &&& final(self).ring() == old(self).ring()
                &&& final(self).spine() == old(self).spine()
            },
            forall|start: u32| #[trigger]
                is_highest(old(self).ring(), start) && start < u32::MAX && no_header_at(
                    old(self).source(),
                    (start + 1) as u32,
                ) ==> tip_confirmed(
                    old(self).source(),
                    old(self).on_mainnet(),
                    old(self).asked(),
                    old(self).ring(),
                    old(self).spine(),
                    final(self).asked(),
                    final(self).ring(),
                    final(self).spine(),
                    best,
                    start,
                ),
            forall|tip: u32| #[trigger]
                serves_chain_up_to(old(self).source(), tip) && nothing_cached(old(self).ring())
                    && tip as nat >= old(self).interval() && tip < u32::MAX && boundary_height(
                    old(self).on_mainnet(),
                    tip as nat / old(self).interval() + 1,
                ) <= u32::MAX ==> final(self).asked() == old(self).asked() + chain_search_asks(
                    old(self).on_mainnet(),
                    tip,
                ),
    {
        let ghost source = self.inner;
        let ghost mainnet = self.mainnet;
        let ghost interval = self.interval();
        let ghost asked = self.asked@;
        let ghost ring = self.recent_headers@;
        let ghost spine = self.retarget_headers@;
        let (started, Ghost(walked), Ghost(answered)) = self.start_search();
        let ghost after_walk = self.asked@;
        let ghost walk_spine = self.retarget_headers@;
        let ghost walk_ring = self.recent_headers@;
        proof {
            use_type_invariant(&*self);
            if nothing_cached(ring) && no_header_at(source, interval as u32) {
                assert(boundary_at(mainnet, 1) == interval as u32);
                assert(walk_decided(source, mainnet, 1));
                assert(after_walk =~= asked.push(interval as u32));
            }
        }
        let highest = match started {
            Ok(highest) => highest,
            Err(e) => {
                proof {
                    assert forall|start: u32| #[trigger] is_highest(ring, start) implies false by {
                        assert(ring[start as int % 6] is Some);
                    }
                    assert forall|tip: u32| #[trigger]
                        serves_chain_up_to(source, tip) && tip as nat >= interval && tip
                            < u32::MAX && boundary_height(mainnet, tip as nat / interval + 1)
                            <= u32::MAX implies false by {
                        lemma_chain_decides_walk(source, mainnet, tip);
                    }
                }
                return Err(e);
            },
        };
        let (reached, found, stopped, Ghost(after_first), Ghost(first_spine)) = self.probe_upwards(
            highest,
        );
        let ghost after_probes = self.asked@;
        let ghost probe_ring = self.recent_headers@;
        let ghost probe_spine = self.retarget_headers@;
        let ghost t = TipSearch {
            walked,
            answered,
            after_walk,
            walk_spine: walk_spine.len(),
            start: highest,
            after_first,
            first_spine,
            reached,
            stopped,
            after_probes,
        };
        proof {
            use_type_invariant(&*self);
            lemma_asks_add_up(asked, after_walk, after_probes);
            assert(search_starts(source, mainnet, asked, ring, spine.len(), t));
            if reached > highest {
                assert(answered_ok(source, reached));
            }
            assert forall|i: int| asked.len() <= i < after_probes.len() implies within_reach(
                source,
                mainnet,
                #[trigger] after_probes[i],
            ) by {
                if i < after_walk.len() {
                    assert(after_probes[i] == after_walk[i]);
                } else {
                    lemma_next_within_reach(source, mainnet, reached, after_probes[i]);
                }
            }
            assert forall|start: u32| #[trigger]
                is_highest(ring, start) && start < u32::MAX && no_header_at(
                    source,
                    (start + 1) as u32,
                ) implies start == highest && reached == start && stopped is Some
                && source.may_answer((start + 1) as u32, Err(stopped->Some_0)) && after_probes
                == asked.push((start + 1) as u32) && probe_ring == ring && probe_spine
                == spine by {
                assert(ring[start as int % 6] is Some);
            }
        }
        match stopped {
            Some(BlockSourceRespErr::BogusData) => {
                proof {
                    lemma_failed_below(
                        source,
                        (reached + 1) as u32,
                        u32::MAX,
                        BlockSourceRespErr::BogusData,
                    );
                    assert(tip_search_fits(
                        source,
                        mainnet,
                        asked,
                        ring,
                        spine.len(),
                        self.asked@,
                        Err::<(BlockHash, Option<u32>), BlockSourceRespErr>(
                            BlockSourceRespErr::BogusData,
                        ),
                        t,
                    ));
                    assert forall|tip: u32| #[trigger]
                        serves_chain_up_to(source, tip) implies false by {
                        lemma_chain_pins_probes(source, tip, reached, stopped);
                    }
                    if nothing_cached(ring) && no_header_at(source, interval as u32) {
                        assert(false);
                    }
                }
                return Err(BlockSourceRespErr::BogusData);
            },
            _ => {},
        }
        let best = self.confirm_tip(reached, found);
        proof {
            use_type_invariant(&*self);
            lemma_asks_add_up(asked, after_probes, self.asked@);
            assert(tip_search_fits(source, mainnet, asked, ring, spine.len(), self.asked@, best, t));
            if best is Err {
                lemma_failed_below(source, reached, u32::MAX, best->Err_0);
            }
            assert forall|tip: u32| #[trigger]
                serves_chain_up_to(source, tip) implies (best matches Ok(tip_found)
                && tip_found.1 == Some(tip)) by {
                lemma_chain_pins_probes(source, tip, reached, stopped);
            }
            if nothing_cached(ring) && no_header_at(source, interval as u32) {
                assert(false);
            }
            assert forall|i: int| asked.len() <= i < self.asked@.len() implies within_reach(
                source,
                mainnet,
                #[trigger] self.asked@[i],
            ) by {
                if i < after_probes.len() {
                    assert(self.asked@[i] == after_probes[i]);
                } else {
                    lemma_next_within_reach(source, mainnet, reached, self.asked@[i]);
                }
            }
            if best is Ok {
                if found is Some {
                    let place = choose|i: int|
                        after_walk.len() <= i < after_probes.len() && (
                        #[trigger] after_probes[i]) == reached;
                    assert(self.asked@[place] == reached);
                    assert(asked.len() <= place < self.asked().len() && Some(self.asked()[place])
                        == best->Ok_0.1);
                } else {
                    let place = after_probes.len() as int;
                    assert(self.asked@[place] == reached);
                    assert(asked.len() <= place < self.asked().len() && Some(self.asked()[place])
                        == best->Ok_0.1);
                }
            }
            assert forall|tip: u32| #[trigger]
                serves_chain_up_to(source, tip) && nothing_cached(ring) && tip as nat >= interval
                    && tip < u32::MAX && boundary_height(mainnet, tip as nat / interval + 1)
                    <= u32::MAX implies self.asked@ == asked + chain_search_asks(
                mainnet,
                tip,
            ) by {
                lemma_chain_decides_walk(source, mainnet, tip);
                lemma_chain_pins_probes(source, tip, reached, stopped);
                lemma_chain_decides_probes(source, highest, tip);
                lemma_reaching_readies_next(walk_spine, mainnet, highest);
                lemma_ready_lacks_nothing(walk_spine, mainnet, (highest + 1) as u32);
                if tip == highest {
                    lemma_reaching_is_ready(walk_spine, mainnet, highest);
                    lemma_ready_lacks_nothing(walk_spine, mainnet, highest);
                    assert(fetch_plan(mainnet, walk_spine.len(), highest) =~= seq![highest]);
                    assert(never_fails_at(source, highest)) by {
                        reveal(serves_chain_up_to);
                    }
                    assert(all_answer(source, fetch_plan(mainnet, walk_spine.len(), highest)));
                    assert(self.asked@ =~= after_probes.push(tip));
                }
                lemma_chain_search_asks(
                    mainnet,
                    tip,
                    asked,
                    after_walk,
                    after_probes,
                    self.asked@,
                );
            }
        }
        best

    }
}

/// The digit that stands for a number below ten.
pub open spec fn digit_char(digit: nat) -> char {
    (0x30 + digit) as u8 as char
}

/// A number written in decimal, without leading zeros.
pub open spec fn decimal(number: nat) -> Seq<char>
    decreases number,
{
    if number < 10 {
        seq![digit_char(number)]
    } else {
        decimal(number / 10).push(digit_char(number % 10))
    }
}

/// The name under which the header at `height` is published below
/// `domain`: the height, then the height divided by 10,000, which keeps
/// zones at a manageable size, then the domain.
pub open spec fn name_of_height(height: u32, domain: Seq<char>) -> Seq<char> {
    decimal(height as nat) + seq!['.'] + decimal(height as nat / 10000) + seq!['.'] + domain
}

/// `format!` with two numbers and a string, each under `{}` and with a dot
/// between them: the numbers come out in decimal without leading zeros,
/// the string as it is.
#[verifier::external_body]
fn format_name(height: u32, zone: u32, domain: &str) -> (name: String)
    ensures
        name@ == decimal(height as nat) + seq!['.'] + decimal(zone as nat) + seq!['.'] + domain@,
{
    format!("{}.{}.{}", height, zone, domain)
}

/// A client which fetches headers over DNS from a specific provider. It
/// knows the names to ask for and reads the addresses that come back; the
/// lookup itself is the caller's.
pub struct DNSHeadersClient {
    domain_str: String,
}

impl DNSHeadersClient {
    /// The domain below which the headers are published.
    pub closed spec fn domain(&self) -> Seq<char> {
        self.domain_str@
    }

    /// Creates a client which fetches headers by AAAA queries for names
    /// below `domain_str`.
    pub fn new(domain_str: String) -> (client: Self)
        ensures
            client.domain() == domain_str@,
    {
        Self { domain_str }
    }

    /// The name to look up for the header at a height.
    pub fn name_for_height(&self, height: u32) -> (name: String)
        ensures
            name@ == name_of_height(height, self.domain()),
    {
        format_name(height, height / 10000, self.domain_str.as_str())
    }

    /// Gets the header out of the addresses that the lookup of its name
    /// gave.
    ///
    /// Anything but six addresses that carry version zero is no response.
    /// Six addresses are left sorted by their tags. Six addresses that are
    /// a wire form of a header, in whatever order, give that header.
    pub fn get_header(&self, ips: &mut [[u8; 16]]) -> (header: Result<
        BlockHeader,
        BlockSourceRespErr,
    >)
        ensures
            old(ips)@.len() != 6 ==> final(ips)@ == old(ips)@,
            old(ips)@.len() == 6 ==> final(ips)@ == sort_by_tag(old(ips)@),
            match decode(old(ips)@) {
                Ok(bytes) => header matches Ok(parsed) && is_header_of(parsed, bytes),
                Err(_) => header == Err::<BlockHeader, BlockSourceRespErr>(
                    BlockSourceRespErr::NoResponse,
                ),
            },
            old(ips)@.len() != 6 ==> header == Err::<BlockHeader, BlockSourceRespErr>(
                BlockSourceRespErr::NoResponse,
            ),
            old(ips)@.len() == 6 && encoded_version(sort_by_tag(old(ips)@)[0]) != 0 ==> header
                == Err::<BlockHeader, BlockSourceRespErr>(BlockSourceRespErr::NoResponse),
            forall|wire: Seq<[u8; 16]>, bytes: Seq<u8>| #[trigger]
                encodes(wire, bytes) && old(ips)@.to_multiset() == wire.to_multiset() ==> (
                header matches Ok(parsed) && is_header_of(parsed, bytes)),
    {
        proof {
            assert forall|wire: Seq<[u8; 16]>, bytes: Seq<u8>| #[trigger]
                encodes(wire, bytes) && ips@.to_multiset() == wire.to_multiset() implies decode(
                ips@,
            ) == Ok::<Seq<u8>, DecodeError>(bytes) by {
                lemma_decode_encoded(bytes, wire, ips@);
            }
        }
        match map_addrs_to_header(ips) {
            Ok(bytes) => BlockHeader::from_bytes(&bytes),
            Err(_) => Err(BlockSourceRespErr::NoResponse),
        }
    }
}

} // verus!

//! What a search for the best block asks its source and how the answers
//! decide it, as plain values: the walk along the retarget boundaries where
//! nothing is cached, the probes upwards from the highest height cached,
//! and the fetch of that height once more where no probe finds a header.

use vstd::prelude::*;
use crate::block::{BlockHash, BlockSourceRespErr};
use crate::caches::{
    asked_by_fetch,
    boundaries_from,
    boundary_height,
    missing_boundaries,
    nothing_cached,
    RecentHeader,
};
use crate::chainwork::retarget_interval;
use crate::caches::{fetch_plan, spine_ready};
use crate::source::{
    all_answer,
    answered_ok,
    asks_answered,
    decided_at,
    failure_of,
    never_fails_at,
    no_header_at,
    serves_chain_up_to,
    SimpleHeadersClient,
};

verus! {

/// Whether a slot holds a header at `height`.
pub open spec fn holds_height(ring: Seq<RecentHeader>, height: u32) -> bool {
    ring[height as int % 6] matches Some(entry) && entry.1.height == height
}

/// Whether `height` is the greatest height among the recent headers.
pub open spec fn is_highest(ring: Seq<RecentHeader>, height: u32) -> bool {
    &&& holds_height(ring, height)
    &&& forall|slot: int|
        0 <= slot < 6 ==> (#[trigger] ring[slot] matches Some(entry) ==> entry.1.height <= height)
}

/// `count` heights in a row, from `first` up.
pub open spec fn heights_from(first: int, count: nat) -> Seq<u32> {
    Seq::new(count, |i: int| (first + i) as u32)
}

/// How a walk along the retarget boundaries went: it asked the first
/// `count` boundaries, of which the first `answered` gave a header. Either
/// all but the last did, and the last failed: with no response, which ends
/// the walk well, or with bogus data, which fails it. Or all did, and there
/// is no further boundary among the heights.
pub open spec fn walk_fits<C: SimpleHeadersClient>(
    source: C,
    mainnet: bool,
    before: Seq<u32>,
    after: Seq<u32>,
    walked: Result<(), BlockSourceRespErr>,
    count: nat,
    answered: nat,
) -> bool {
    &&& count >= 1
    &&& boundary_height(mainnet, count) <= u32::MAX
    &&& after == before + boundaries_from(mainnet, 1, count)
    &&& answered == count || answered + 1 == count
    &&& answered + 1 == count ==> asks_answered(
        source,
        after,
        before.len() as int,
        Some(
            match walked {
                Ok(_) => BlockSourceRespErr::NoResponse,
                Err(e) => e,
            },
        ),
    )
    &&& answered == count ==> asks_answered(source, after, before.len() as int, None)
        && boundary_height(mainnet, count + 1) > u32::MAX
    &&& walked matches Err(e) ==> e == BlockSourceRespErr::BogusData && answered + 1 == count
}

/// The height `steps` above `start`.
pub open spec fn height_above(start: u32, steps: nat) -> u32 {
    (start + steps) as u32
}

/// The height of the block that opens retarget period `period`, as a
/// height.
pub open spec fn boundary_at(mainnet: bool, period: nat) -> u32 {
    boundary_height(mainnet, period) as u32
}

/// Whether boundary `k` is the first at which a walk fails: it is one of
/// the heights, the source has no header there, and never fails at the
/// boundaries before.
pub open spec fn walk_decided<C: SimpleHeadersClient>(source: C, mainnet: bool, k: nat) -> bool {
    &&& k >= 1
    &&& boundary_height(mainnet, k) <= u32::MAX
    &&& no_header_at(source, boundary_at(mainnet, k))
    &&& forall|j: nat| 1 <= j < k ==> never_fails_at(source, #[trigger] boundary_at(mainnet, j))
}

/// Whether the height `m` above `start` is the first at which probes
/// fail: it is one of the heights, the source has no header there, and
/// never fails at the heights between.
pub open spec fn probes_decided<C: SimpleHeadersClient>(source: C, start: u32, m: nat) -> bool {
    &&& m >= 1
    &&& start + m <= u32::MAX
    &&& no_header_at(source, height_above(start, m))
    &&& forall|j: nat| 1 <= j < m ==> never_fails_at(source, #[trigger] height_above(start, j))
}

/// Whether each of the first `count` boundaries gave a header.
pub open spec fn walk_answered<C: SimpleHeadersClient>(
    source: C,
    mainnet: bool,
    count: nat,
) -> bool {
    forall|j: nat| 1 <= j <= count ==> answered_ok(source, #[trigger] boundary_at(mainnet, j))
}

/// What a walk leaves in the caches once `answered` boundaries gave a
/// header: nothing new where none did; else a spine of at least that many
/// entries, of just that many where it had at most one before, and the
/// last of those boundaries among the recent headers, as the highest of
/// them where none was cached before.
pub open spec fn walk_left(
    mainnet: bool,
    ring_before: Seq<RecentHeader>,
    spine_before: Seq<(BlockHash, u32)>,
    ring_after: Seq<RecentHeader>,
    spine_after: Seq<(BlockHash, u32)>,
    answered: nat,
) -> bool {
    &&& answered == 0 ==> ring_after == ring_before && spine_after == spine_before
    &&& answered >= 1 ==> {
        &&& spine_after.len() >= answered
        &&& spine_before.len() <= 1 ==> spine_after.len() == answered
        &&& holds_height(ring_after, boundary_height(mainnet, answered) as u32)
        &&& nothing_cached(ring_before) ==> is_highest(
            ring_after,
            boundary_height(mainnet, answered) as u32,
        )
    }
}

/// The course of a search for the best block, phase by phase.
pub struct TipSearch {
    /// The boundaries that the walk asked; none where a header was cached.
    pub walked: nat,
    /// Those of them that gave a header.
    pub answered: nat,
    /// What had been asked when the walk was over.
    pub after_walk: Seq<u32>,
    /// The length of the spine then.
    pub walk_spine: nat,
    /// The highest height cached then, from which the probes go up.
    pub start: u32,
    /// What had been asked when the probe at `start + 1` was over.
    pub after_first: Seq<u32>,
    /// The length of the spine then.
    pub first_spine: nat,
    /// The highest height at which a probe found a header, or `start`.
    pub reached: u32,
    /// The error that ended the probes; none where the heights ran out.
    pub stopped: Option<BlockSourceRespErr>,
    /// What had been asked when the probes were over.
    pub after_probes: Seq<u32>,
}

/// How a search starts. With a header cached it starts at the highest
/// height cached and asks nothing first. With none it walks along the
/// boundaries until one has no response, and starts at the last boundary
/// that gave a header, which the spine then reaches.
pub open spec fn search_starts<C: SimpleHeadersClient>(
    source: C,
    mainnet: bool,
    asked_before: Seq<u32>,
    ring_before: Seq<RecentHeader>,
    spine_before: nat,
    t: TipSearch,
) -> bool {
    if nothing_cached(ring_before) {
        &&& walk_fits(
            source,
            mainnet,
            asked_before,
            t.after_walk,
            Ok::<(), BlockSourceRespErr>(()),
            t.walked,
            t.answered,
        )
        &&& t.answered >= 1
        &&& t.start as nat == boundary_height(mainnet, t.answered)
        &&& t.walk_spine >= t.answered
    } else {
        &&& t.walked == 0
        &&& t.answered == 0
        &&& t.after_walk == asked_before
        &&& t.walk_spine == spine_before
        &&& is_highest(ring_before, t.start)
    }
}

/// How the probes go: a fetch at `start + 1`, with the boundaries that the
/// spine lacks; where that finds a header, one height after the other, each
/// asked alone, up to `reached`, and then the height above it, whose
/// failure ends the probes. At the greatest height there is none to ask.
pub open spec fn probes_fit<C: SimpleHeadersClient>(
    source: C,
    mainnet: bool,
    after_walk: Seq<u32>,
    walk_spine: nat,
    start: u32,
    after_first: Seq<u32>,
    first_spine: nat,
    reached: u32,
    stopped: Option<BlockSourceRespErr>,
    after_probes: Seq<u32>,
) -> bool {
    &&& 1 <= start <= reached
    &&& if start == u32::MAX {
        &&& after_first == after_walk
        &&& after_probes == after_walk
        &&& first_spine == walk_spine
        &&& stopped is None
    } else if reached == start {
        &&& stopped is Some
        &&& asked_by_fetch(after_walk, after_first, mainnet, walk_spine, (start + 1) as u32, false)
        &&& asks_answered(source, after_first, after_walk.len() as int, stopped)
        &&& after_probes == after_first
        &&& after_first.len() > after_walk.len()
        &&& after_first.len() == after_walk.len() + 1 ==> first_spine == walk_spine
        &&& after_first.len() > after_walk.len() + 1 ==> first_spine + 2 == walk_spine
            + after_first.len() - after_walk.len()
    } else {
        &&& asked_by_fetch(after_walk, after_first, mainnet, walk_spine, (start + 1) as u32, true)
        &&& asks_answered(source, after_first, after_walk.len() as int, None)
        &&& after_probes == after_first + heights_from(
            start + 2,
            (reached - start - 1 + if stopped is Some {
                1int
            } else {
                0int
            }) as nat,
        )
        &&& forall|height: u32| start + 2 <= height <= reached ==> #[trigger] answered_ok(source, height)
        &&& stopped matches Some(e) ==> reached < u32::MAX && source.may_answer(
            (reached + 1) as u32,
            Err(e),
        )
        &&& stopped is None ==> reached == u32::MAX
    }
}

/// How a search ends. Bogus data ends it as it is. Else the highest height
/// at which a probe found a header is the tip. Where no probe found one,
/// the height from which they started is fetched once more, and that
/// answer decides.
pub open spec fn search_ends<C: SimpleHeadersClient>(
    source: C,
    mainnet: bool,
    t: TipSearch,
    asked_after: Seq<u32>,
    best: Result<(BlockHash, Option<u32>), BlockSourceRespErr>,
) -> bool {
    if t.stopped == Some(BlockSourceRespErr::BogusData) {
        &&& best matches Err(e)
        &&& e == BlockSourceRespErr::BogusData
        &&& asked_after == t.after_probes
    } else if t.reached > t.start {
        &&& best matches Ok(found)
        &&& found.1 == Some(t.reached)
        &&& asked_after == t.after_probes
    } else {
        &&& asked_by_fetch(t.after_probes, asked_after, mainnet, t.first_spine, t.start, best is Ok)
        &&& asks_answered(source, asked_after, t.after_probes.len() as int, failure_of(best))
        &&& best matches Ok(found) ==> found.1 == Some(t.start)
    }
}

/// Whether `t` is the course of a search with the given result.
pub open spec fn tip_search_fits<C: SimpleHeadersClient>(
    source: C,
    mainnet: bool,
    asked_before: Seq<u32>,
    ring_before: Seq<RecentHeader>,
    spine_before: nat,
    asked_after: Seq<u32>,
    best: Result<(BlockHash, Option<u32>), BlockSourceRespErr>,
    t: TipSearch,
) -> bool {
    &&& search_starts(source, mainnet, asked_before, ring_before, spine_before, t)
    &&& probes_fit(
        source,
        mainnet,
        t.after_walk,
        t.walk_spine,
        t.start,
        t.after_first,
        t.first_spine,
        t.reached,
        t.stopped,
        t.after_probes,
    )
    &&& search_ends(source, mainnet, t, asked_after, best)
}

/// What a search for the best block asks and how it ends. With nothing
/// cached, bogus data at a boundary fails it there, and a first boundary
/// without a response ends it with no response and the caches as they
/// were. In every other case it takes the course of some `TipSearch`.
pub open spec fn search_recorded<C: SimpleHeadersClient>(
    source: C,
    mainnet: bool,
    asked_before: Seq<u32>,
    ring_before: Seq<RecentHeader>,
    spine_before: Seq<(BlockHash, u32)>,
    asked_after: Seq<u32>,
    ring_after: Seq<RecentHeader>,
    spine_after: Seq<(BlockHash, u32)>,
    best: Result<(BlockHash, Option<u32>), BlockSourceRespErr>,
) -> bool {
    ||| {
        &&& nothing_cached(ring_before)
        &&& best matches Err(e)
        &&& e == BlockSourceRespErr::BogusData
        &&& exists|count: nat, answered: nat| #[trigger]
            walk_fits(
                source,
                mainnet,
                asked_before,
                asked_after,
                Err::<(), BlockSourceRespErr>(BlockSourceRespErr::BogusData),
                count,
                answered,
            )
    }
    ||| {
        &&& nothing_cached(ring_before)
        &&& best matches Err(e)
        &&& e == BlockSourceRespErr::NoResponse
        &&& walk_fits(
            source,
            mainnet,
            asked_before,
            asked_after,
            Ok::<(), BlockSourceRespErr>(()),
            1,
            0,
        )
        &&& ring_after == ring_before
        &&& spine_after == spine_before
    }
    ||| exists|t: TipSearch| #[trigger]
        tip_search_fits(
            source,
            mainnet,
            asked_before,
            ring_before,
            spine_before.len(),
            asked_after,
            best,
            t,
        )
}

/// Whether a height lies within reach of what the source has: it is the
/// first boundary, or at most one retarget interval above a height at which
/// the source may give a header.
pub open spec fn within_reach<C: SimpleHeadersClient>(source: C, mainnet: bool, height: u32) -> bool {
    ||| height as nat == retarget_interval(mainnet)
    ||| exists|below: u32| #[trigger]
        answered_ok(source, below) && height <= below + retarget_interval(mainnet)
}

/// What a search with nothing cached asks a source that holds one chain up
/// to `tip`: the boundaries up to the first above the tip, then every
/// height from the last boundary up to the first above the tip, then,
/// where the tip is that boundary, the tip once more.
pub open spec fn chain_search_asks(mainnet: bool, tip: u32) -> Seq<u32> {
    let periods = tip as nat / retarget_interval(mainnet);
    let last = boundary_height(mainnet, periods);
    boundaries_from(mainnet, 1, periods + 1) + heights_from(
        (last + 1) as int,
        (tip - last + 1) as nat,
    ) + (
    if tip as nat == last {
        seq![tip]
    } else {
        Seq::<u32>::empty()
    })
}

/// Each boundary that a walk asks lies within reach.
pub proof fn lemma_walk_within_reach<C: SimpleHeadersClient>(
    source: C,
    mainnet: bool,
    before: Seq<u32>,
    after: Seq<u32>,
    walked: Result<(), BlockSourceRespErr>,
    count: nat,
    answered: nat,
    i: int,
)
    requires
        walk_fits(source, mainnet, before, after, walked, count, answered),
        before.len() <= i < after.len(),
    ensures
        within_reach(source, mainnet, after[i]),
{
    let place = i - before.len();
    assert(after[i] == boundaries_from(mainnet, 1, count)[place]);
    if place >= 1 {
        assert(after[i - 1] == boundaries_from(mainnet, 1, count)[place - 1]);
        assert(answered_ok(source, after[i - 1]));
    }
}

/// A height at most one above a height that gave a header lies within
/// reach.
pub proof fn lemma_next_within_reach<C: SimpleHeadersClient>(
    source: C,
    mainnet: bool,
    below: u32,
    height: u32,
)
    requires
        answered_ok(source, below),
        height <= below + 1,
    ensures
        within_reach(source, mainnet, height),
{
}

/// Against a source that holds a chain up to `tip`, a walk fails first at
/// the first boundary above the tip.
pub proof fn lemma_chain_decides_walk<C: SimpleHeadersClient>(source: C, mainnet: bool, tip: u32)
    requires
        serves_chain_up_to(source, tip),
        boundary_height(mainnet, tip as nat / retarget_interval(mainnet) + 1) <= u32::MAX,
    ensures
        walk_decided(source, mainnet, tip as nat / retarget_interval(mainnet) + 1),
{
    reveal(serves_chain_up_to);
    let k = tip as nat / retarget_interval(mainnet) + 1;
    assert(boundary_height(mainnet, k) > tip);
    assert forall|j: nat| 1 <= j < k implies never_fails_at(
        source,
        #[trigger] boundary_at(mainnet, j),
    ) by {
        assert(1 <= boundary_height(mainnet, j) <= tip) by {
            if mainnet {
                assert(j * 2016 <= (tip as nat / 2016) * 2016);
            }
        }
    }
}

/// Against a source that holds a chain up to `tip`, probes from a height
/// up to the tip fail first right above the tip, with no response.
pub proof fn lemma_chain_decides_probes<C: SimpleHeadersClient>(source: C, start: u32, tip: u32)
    requires
        serves_chain_up_to(source, tip),
        start <= tip < u32::MAX,
    ensures
        probes_decided(source, start, (tip - start + 1) as nat),
        !source.may_answer(
            height_above(start, (tip - start + 1) as nat),
            Err(BlockSourceRespErr::BogusData),
        ),
{
    reveal(serves_chain_up_to);
}

/// A spine is long enough for a fetch at a height just where it lacks no
/// boundary for it.
pub proof fn lemma_ready_lacks_nothing(spine: Seq<(BlockHash, u32)>, mainnet: bool, height: u32)
    requires
        height >= 1,
    ensures
        spine_ready(spine, retarget_interval(mainnet), height) <==> missing_boundaries(
            spine.len(),
            retarget_interval(mainnet),
            height,
        ) == 0,
{
    if mainnet {
        assert(height as nat % 2016 == 0 ==> height as nat / 2016 >= 1);
    }
}

/// How a fetch at `height` goes by the answers of the source, from the
/// caches as they were before: where the source has no header at the
/// height, it fails with an error of the source there, asking nothing else
/// and changing nothing; where a boundary that it needs is the first to
/// fail, it fails with an error of the source there, having asked up to
/// that boundary; where none fails, it goes through, having asked them all.
pub open spec fn fetch_decided<C: SimpleHeadersClient>(
    source: C,
    mainnet: bool,
    asked_before: Seq<u32>,
    ring_before: Seq<RecentHeader>,
    spine_before: Seq<(BlockHash, u32)>,
    asked_after: Seq<u32>,
    ring_after: Seq<RecentHeader>,
    spine_after: Seq<(BlockHash, u32)>,
    height: u32,
    failure: Option<BlockSourceRespErr>,
) -> bool {
    let plan = fetch_plan(mainnet, spine_before.len(), height);
    &&& no_header_at(source, height) ==> {
        &&& failure matches Some(e)
        &&& source.may_answer(height, Err(e))
        &&& asked_after == asked_before.push(height)
        &&& ring_after == ring_before
        &&& spine_after == spine_before
    }
    &&& forall|k: int| #[trigger]
        decided_at(source, plan, k) ==> {
            &&& failure matches Some(e)
            &&& source.may_answer(plan[k], Err(e))
            &&& asked_after == asked_before + plan.take(k + 1)
        }
    &&& all_answer(source, plan) ==> failure is None && asked_after == asked_before + plan
    &&& asked_after.len() > asked_before.len()
    &&& asked_after[asked_before.len() as int] == height
    &&& asks_answered(source, asked_after, asked_before.len() as int, failure)
    &&& asked_by_fetch(
        asked_before,
        asked_after,
        mainnet,
        spine_before.len(),
        height,
        failure is None,
    )
}

/// How a search goes from a highest cached height `start` above which
/// the source has no header: the probe at `start + 1` fails at once. Bogus
/// data there fails the search; no response there has the header at
/// `start` fetched once more, and that fetch decides: its header is the
/// tip, or its failure is the failure of the search.
pub open spec fn tip_confirmed<C: SimpleHeadersClient>(
    source: C,
    mainnet: bool,
    asked_before: Seq<u32>,
    ring_before: Seq<RecentHeader>,
    spine_before: Seq<(BlockHash, u32)>,
    asked_after: Seq<u32>,
    ring_after: Seq<RecentHeader>,
    spine_after: Seq<(BlockHash, u32)>,
    best: Result<(BlockHash, Option<u32>), BlockSourceRespErr>,
    start: u32,
) -> bool {
    ||| {
        &&& source.may_answer((start + 1) as u32, Err(BlockSourceRespErr::BogusData))
        &&& best matches Err(e)
        &&& e == BlockSourceRespErr::BogusData
        &&& asked_after == asked_before.push((start + 1) as u32)
        &&& ring_after == ring_before
        &&& spine_after == spine_before
    }
    ||| {
        &&& source.may_answer((start + 1) as u32, Err(BlockSourceRespErr::NoResponse))
        &&& fetch_decided(
            source,
            mainnet,
            asked_before.push((start + 1) as u32),
            ring_before,
            spine_before,
            asked_after,
            ring_after,
            spine_after,
            start,
            failure_of(best),
        )
        &&& best matches Ok(found) ==> found.1 == Some(start)
    }
}

/// How a search starts from the caches as they were: with a header cached,
/// at the highest height cached, having asked nothing; with none, after a
/// walk along the boundaries, at the last boundary that gave a header, or
/// not at all where the walk met bogus data or found nothing.
pub open spec fn start_fits<C: SimpleHeadersClient>(
    source: C,
    mainnet: bool,
    asked_before: Seq<u32>,
    ring_before: Seq<RecentHeader>,
    spine_before: Seq<(BlockHash, u32)>,
    asked_after: Seq<u32>,
    ring_after: Seq<RecentHeader>,
    spine_after: Seq<(BlockHash, u32)>,
    started: Result<u32, BlockSourceRespErr>,
    walked: nat,
    answered: nat,
) -> bool {
    if nothing_cached(ring_before) {
        &&& walk_fits(
            source,
            mainnet,
            asked_before,
            asked_after,
            if started == Err::<u32, BlockSourceRespErr>(BlockSourceRespErr::BogusData) {
                Err::<(), BlockSourceRespErr>(BlockSourceRespErr::BogusData)
            } else {
                Ok::<(), BlockSourceRespErr>(())
            },
            walked,
            answered,
        )
        &&& walk_left(mainnet, ring_before, spine_before, ring_after, spine_after, answered)
        &&& match started {
            Ok(start) => answered >= 1 && start as nat == boundary_height(mainnet, answered)
                && is_highest(ring_after, start) && spine_after.len() >= answered,
            Err(e) => e == BlockSourceRespErr::BogusData || (walked == 1 && answered == 0),
        }
    } else {
        &&& walked == 0
        &&& answered == 0
        &&& asked_after == asked_before
        &&& ring_after == ring_before
        &&& spine_after == spine_before
        &&& started matches Ok(start)
        &&& is_highest(ring_before, start)
    }
}

/// What the first failing boundary decides of the start of a search with
/// nothing cached: the walk asks up to that boundary and the error there is
/// an error of the source; it is the error of the search where it is bogus
/// data or where no boundary before gave a header; else the search starts
/// at the boundary before.
pub open spec fn start_decided<C: SimpleHeadersClient>(
    source: C,
    mainnet: bool,
    asked_before: Seq<u32>,
    ring_before: Seq<RecentHeader>,
    spine_before: Seq<(BlockHash, u32)>,
    asked_after: Seq<u32>,
    ring_after: Seq<RecentHeader>,
    spine_after: Seq<(BlockHash, u32)>,
    started: Result<u32, BlockSourceRespErr>,
    k: nat,
) -> bool {
    &&& asked_after == asked_before + boundaries_from(mainnet, 1, k)
    &&& walk_left(mainnet, ring_before, spine_before, ring_after, spine_after, (k - 1) as nat)
    &&& started matches Err(e) ==> source.may_answer(boundary_at(mainnet, k), Err(e)) && (e
        == BlockSourceRespErr::NoResponse ==> k == 1)
    &&& started matches Ok(start) ==> k >= 2 && start == boundary_at(mainnet, (k - 1) as nat)
        && source.may_answer(boundary_at(mainnet, k), Err(BlockSourceRespErr::NoResponse))
}

/// The asks of a search against a chain, put together from its phases.
pub proof fn lemma_chain_search_asks(
    mainnet: bool,
    tip: u32,
    before: Seq<u32>,
    after_walk: Seq<u32>,
    after_probes: Seq<u32>,
    after: Seq<u32>,
)
    requires
        tip as nat >= retarget_interval(mainnet),
        tip < u32::MAX,
        after_walk == before + boundaries_from(
            mainnet,
            1,
            tip as nat / retarget_interval(mainnet) + 1,
        ),
        after_probes == after_walk + heights_from(
            (boundary_height(mainnet, tip as nat / retarget_interval(mainnet)) + 1) as int,
            (tip - boundary_height(mainnet, tip as nat / retarget_interval(mainnet)) + 1) as nat,
        ),
        tip as nat == boundary_height(mainnet, tip as nat / retarget_interval(mainnet))
            ==> after == after_probes.push(tip),
        tip as nat != boundary_height(mainnet, tip as nat / retarget_interval(mainnet))
            ==> after == after_probes,
    ensures
        after == before + chain_search_asks(mainnet, tip),
{
    let last = boundary_height(mainnet, tip as nat / retarget_interval(mainnet));
    assert(last <= tip);
    assert(after =~= before + chain_search_asks(mainnet, tip));
}

} // verus!

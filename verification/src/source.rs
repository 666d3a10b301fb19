//! Sources of headers by height, and what can be said of their answers.

use vstd::prelude::*;
use crate::block::{BlockHash, BlockHeader, BlockSourceRespErr};

verus! {

/// A barebones block source which only answers queries from height to
/// header, such as headers over DNS.
pub trait SimpleHeadersClient {
    /// Whether this source may give `answer` when asked for the header at
    /// `height`. As it stands here it says nothing: any answer may come. A
    /// source whose answers are known says so in its own definition.
    open spec fn may_answer(
        &self,
        height: u32,
        answer: Result<BlockHeader, BlockSourceRespErr>,
    ) -> bool {
        true
    }

    /// Gets the header at a given height.
    fn get_header(&self, height: u32) -> (answer: Result<BlockHeader, BlockSourceRespErr>)
        ensures
            self.may_answer(height, answer),
    ;
}

/// Whether the source gives one answer only at every height.
#[verifier::opaque]
pub open spec fn steady<C: SimpleHeadersClient>(source: C) -> bool {
    forall|
        height: u32,
        one: Result<BlockHeader, BlockSourceRespErr>,
        other: Result<BlockHeader, BlockSourceRespErr>,
    |
        #[trigger] source.may_answer(height, one) && #[trigger] source.may_answer(height, other)
            ==> one == other
}

/// Whether the source may fail with `e` at a height from 1 to `height`.
#[verifier::opaque]
pub open spec fn failed_up_to<C: SimpleHeadersClient>(
    source: C,
    height: u32,
    e: BlockSourceRespErr,
) -> bool {
    exists|below: u32| 1 <= below <= height && #[trigger] source.may_answer(below, Err(e))
}

/// Whether the source holds one chain of headers from height 1 up to `tip`
/// and nothing beyond: it is steady, never fails up to `tip`, and reports
/// no response above it.
#[verifier::opaque]
pub open spec fn serves_chain_up_to<C: SimpleHeadersClient>(source: C, tip: u32) -> bool {
    &&& steady(source)
    &&& forall|height: u32, e: BlockSourceRespErr|
        1 <= height <= tip ==> !#[trigger] source.may_answer(height, Err(e))
    &&& forall|height: u32, answer: Result<BlockHeader, BlockSourceRespErr>|
        height > tip && #[trigger] source.may_answer(height, answer) ==> answer == Err::<
            BlockHeader,
            BlockSourceRespErr,
        >(BlockSourceRespErr::NoResponse)
}

/// A failure at a height is a failure up to that height.
pub proof fn lemma_failed_at<C: SimpleHeadersClient>(source: C, height: u32, e: BlockSourceRespErr)
    requires
        height >= 1,
        source.may_answer(height, Err(e)),
    ensures
        failed_up_to(source, height, e),
{
    reveal(failed_up_to);
}

/// A failure up to a height is a failure up to every greater height.
pub proof fn lemma_failed_below<C: SimpleHeadersClient>(
    source: C,
    below: u32,
    height: u32,
    e: BlockSourceRespErr,
)
    requires
        below <= height,
        failed_up_to(source, below, e),
    ensures
        failed_up_to(source, height, e),
{
    reveal(failed_up_to);
    let at = choose|at: u32| 1 <= at <= below && #[trigger] source.may_answer(at, Err(e));
    assert(1 <= at <= height && source.may_answer(at, Err(e)));
}

/// A steady source gives one header only at a height.
pub proof fn lemma_steady_header<C: SimpleHeadersClient>(
    source: C,
    height: u32,
    one: BlockHeader,
    other: BlockHeader,
)
    requires
        steady(source),
        source.may_answer(height, Ok(one)),
        source.may_answer(height, Ok(other)),
    ensures
        one == other,
{
    reveal(steady);
    assert(Ok::<BlockHeader, BlockSourceRespErr>(one) == Ok::<BlockHeader, BlockSourceRespErr>(
        other,
    ));
}

/// A source that holds a chain up to `tip` gives headers up to `tip` only.
pub proof fn lemma_chain_answers_within<C: SimpleHeadersClient>(
    source: C,
    tip: u32,
    height: u32,
    header: BlockHeader,
)
    requires
        serves_chain_up_to(source, tip),
        source.may_answer(height, Ok(header)),
    ensures
        height <= tip,
{
    reveal(serves_chain_up_to);
}

/// A source that holds a chain up to `tip` fails only above `tip`, and
/// then with no response.
pub proof fn lemma_chain_fails_beyond<C: SimpleHeadersClient>(
    source: C,
    tip: u32,
    height: u32,
    e: BlockSourceRespErr,
)
    requires
        serves_chain_up_to(source, tip),
        failed_up_to(source, height, e),
    ensures
        height > tip,
        e == BlockSourceRespErr::NoResponse,
{
    reveal(serves_chain_up_to);
    reveal(failed_up_to);
    let at = choose|at: u32| 1 <= at <= height && #[trigger] source.may_answer(at, Err(e));
    assert(source.may_answer(at, Err(e)));
}

/// Whether the source may give a header at `height`.
pub open spec fn answered_ok<C: SimpleHeadersClient>(source: C, height: u32) -> bool {
    exists|header: BlockHeader| #[trigger] source.may_answer(height, Ok(header))
}

/// Whether the source has no header to give at `height`.
pub open spec fn no_header_at<C: SimpleHeadersClient>(source: C, height: u32) -> bool {
    forall|header: BlockHeader| !#[trigger] source.may_answer(height, Ok(header))
}

/// Whether the source never fails at `height`.
pub open spec fn never_fails_at<C: SimpleHeadersClient>(source: C, height: u32) -> bool {
    forall|e: BlockSourceRespErr| !#[trigger] source.may_answer(height, Err(e))
}

/// Whether, of the heights of `plan` asked in their order, the one at
/// place `k` is the first to fail: the source has no header there, and
/// never fails at the places before.
pub open spec fn decided_at<C: SimpleHeadersClient>(source: C, plan: Seq<u32>, k: int) -> bool {
    &&& 0 <= k < plan.len()
    &&& no_header_at(source, plan[k])
    &&& forall|j: int| 0 <= j < k ==> never_fails_at(source, #[trigger] plan[j])
}

/// Whether the source never fails at any height of `plan`.
pub open spec fn all_answer<C: SimpleHeadersClient>(source: C, plan: Seq<u32>) -> bool {
    forall|j: int| 0 <= j < plan.len() ==> never_fails_at(source, #[trigger] plan[j])
}

/// Where the first failure of a plan lies behind its first height, the
/// source never fails at that height, and the rest of the plan has its
/// first failure one place earlier.
pub proof fn lemma_decided_behind_first<C: SimpleHeadersClient>(
    source: C,
    first: u32,
    rest: Seq<u32>,
    k: int,
)
    requires
        decided_at(source, seq![first] + rest, k),
        k >= 1,
    ensures
        never_fails_at(source, first),
        decided_at(source, rest, k - 1),
{
    let plan = seq![first] + rest;
    assert(plan[0] == first);
    assert(plan[k] == rest[k - 1]);
    assert forall|j: int| 0 <= j < k - 1 implies never_fails_at(source, #[trigger] rest[j]) by {
        assert(plan[j + 1] == rest[j]);
    }
}

/// A plan at none of whose heights the source fails has a rest of which
/// the same holds.
pub proof fn lemma_all_answer_behind_first<C: SimpleHeadersClient>(
    source: C,
    first: u32,
    rest: Seq<u32>,
)
    requires
        all_answer(source, seq![first] + rest),
    ensures
        never_fails_at(source, first),
        all_answer(source, rest),
{
    let plan = seq![first] + rest;
    assert(plan[0] == first);
    assert forall|j: int| 0 <= j < rest.len() implies never_fails_at(source, #[trigger] rest[j]) by {
        assert(plan[j + 1] == rest[j]);
    }
}

/// What the first failure among the heights behind a first height decides
/// it decides for the whole plan, where the first height gave a header.
pub proof fn lemma_decided_through_first<C: SimpleHeadersClient>(
    source: C,
    first: u32,
    rest: Seq<u32>,
    before: Seq<u32>,
    after: Seq<u32>,
    failure: Option<BlockSourceRespErr>,
)
    requires
        answered_ok(source, first),
        forall|k: int| #[trigger]
            decided_at(source, rest, k) ==> {
                &&& failure matches Some(e)
                &&& source.may_answer(rest[k], Err(e))
                &&& after == before.push(first) + rest.take(k + 1)
            },
        all_answer(source, rest) ==> failure is None,
    ensures
        forall|k: int| #[trigger]
            decided_at(source, seq![first] + rest, k) ==> {
                &&& k != 0
                &&& failure matches Some(e)
                &&& source.may_answer((seq![first] + rest)[k], Err(e))
                &&& after == before + (seq![first] + rest).take(k + 1)
            },
        all_answer(source, seq![first] + rest) ==> failure is None,
{
    let plan = seq![first] + rest;
    assert(plan[0] == first);
    let header = choose|header: BlockHeader| #[trigger] source.may_answer(first, Ok(header));
    assert forall|k: int| #[trigger] decided_at(source, plan, k) implies {
        &&& k != 0
        &&& failure matches Some(e)
        &&& source.may_answer(plan[k], Err(e))
        &&& after == before + plan.take(k + 1)
    } by {
        if k == 0 {
            assert(source.may_answer(first, Ok(header)));
        } else {
            lemma_decided_behind_first(source, first, rest, k);
            assert(plan[k] == rest[k - 1]);
            assert(before.push(first) + rest.take(k) =~= before + plan.take(k + 1));
        }
    }
    if all_answer(source, plan) {
        lemma_all_answer_behind_first(source, first, rest);
    }
}

/// The error of an outcome, if it is one.
pub open spec fn failure_of<T>(outcome: Result<T, BlockSourceRespErr>) -> Option<
    BlockSourceRespErr,
> {
    match outcome {
        Ok(_) => None,
        Err(e) => Some(e),
    }
}

/// Whether the heights asked from place `from` on were answered as fetches
/// go: each with a header, but the last one with the error `failure` where
/// there is one.
pub open spec fn asks_answered<C: SimpleHeadersClient>(
    source: C,
    asked: Seq<u32>,
    from: int,
    failure: Option<BlockSourceRespErr>,
) -> bool {
    &&& forall|i: int|
        from <= i < asked.len() - (if failure is Some {
            1int
        } else {
            0int
        }) ==> answered_ok(source, #[trigger] asked[i])
    &&& failure matches Some(e) ==> asked.len() > from && source.may_answer(asked.last(), Err(e))
}

/// Whether `hash` is the hash of a header that the source may give at
/// `height`.
pub open spec fn answered_with<C: SimpleHeadersClient>(
    source: C,
    height: u32,
    hash: BlockHash,
) -> bool {
    exists|header: BlockHeader| #[trigger]
        source.may_answer(height, Ok(header)) && hash@ == header.block_hash()
}

/// A source that holds a chain up to `tip` has no header with such a hash
/// above `tip`.
pub proof fn lemma_chain_answered_within<C: SimpleHeadersClient>(
    source: C,
    tip: u32,
    height: u32,
    hash: BlockHash,
)
    requires
        serves_chain_up_to(source, tip),
        answered_with(source, height, hash),
    ensures
        height <= tip,
{
    let header = choose|header: BlockHeader| #[trigger]
        source.may_answer(height, Ok(header)) && hash@ == header.block_hash();
    lemma_chain_answers_within(source, tip, height, header);
}

/// A source that holds a chain has one hash only at a height: a hash that
/// the source may answer with at `height` is the hash of every header that
/// it may give there.
pub proof fn lemma_chain_hash<C: SimpleHeadersClient>(
    source: C,
    tip: u32,
    height: u32,
    hash: BlockHash,
    header: BlockHeader,
)
    requires
        serves_chain_up_to(source, tip),
        answered_with(source, height, hash),
        source.may_answer(height, Ok(header)),
    ensures
        hash@ == header.block_hash(),
{
    reveal(serves_chain_up_to);
    let other = choose|other: BlockHeader| #[trigger]
        source.may_answer(height, Ok(other)) && hash@ == other.block_hash();
    lemma_steady_header(source, height, other, header);
}

/// Against a source that holds a chain up to `tip`, probes end at the tip:
/// a height that gave a header, with a failure right above it or no height
/// above it at all, is the tip, and the failure is no response.
pub proof fn lemma_chain_pins_probes<C: SimpleHeadersClient>(
    source: C,
    tip: u32,
    reached: u32,
    stopped: Option<BlockSourceRespErr>,
)
    requires
        serves_chain_up_to(source, tip),
        answered_ok(source, reached),
        stopped matches Some(e) ==> reached < u32::MAX && failed_up_to(
            source,
            (reached + 1) as u32,
            e,
        ),
        stopped is None ==> reached == u32::MAX,
    ensures
        reached == tip,
        stopped != Some(BlockSourceRespErr::BogusData),
{
    let header = choose|header: BlockHeader| #[trigger] source.may_answer(reached, Ok(header));
    lemma_chain_answers_within(source, tip, reached, header);
    if stopped is Some {
        lemma_chain_fails_beyond(source, tip, (reached + 1) as u32, stopped->Some_0);
    }
}

/// A source that serves headers held in memory: the header at height `h`
/// is entry `h - 1`, and there is no response at any other height.
pub struct StoredHeaders {
    pub headers: Vec<BlockHeader>,
}

impl SimpleHeadersClient for StoredHeaders {
    open spec fn may_answer(
        &self,
        height: u32,
        answer: Result<BlockHeader, BlockSourceRespErr>,
    ) -> bool {
        answer == if 1 <= height <= self.headers@.len() {
            Ok::<BlockHeader, BlockSourceRespErr>(self.headers@[height - 1])
        } else {
            Err::<BlockHeader, BlockSourceRespErr>(BlockSourceRespErr::NoResponse)
        }
    }

    fn get_header(&self, height: u32) -> (answer: Result<BlockHeader, BlockSourceRespErr>) {
        if height >= 1 && height as usize <= self.headers.len() {
            Ok(self.headers[height as usize - 1])
        } else {
            Err(BlockSourceRespErr::NoResponse)
        }
    }
}

/// Headers held in memory are one chain up to their number.
pub proof fn lemma_stored_headers_serve_chain(source: StoredHeaders)
    requires
        source.headers@.len() <= u32::MAX,
    ensures
        serves_chain_up_to(source, source.headers@.len() as u32),
{
    reveal(serves_chain_up_to);
    reveal(steady);
}

} // verus!

use vstd::prelude::*;

use crate::ids::{is_v4_uuid_text, new_uuid_string};
use crate::metrics::{books_balance, books_step, bump, BooksStep, Metrics};
use crate::models::{Player, QueueRequest, QueueResponse, BASE_WINDOW};
use crate::pool::PlayerPool;

verus! {

/// Highest rating a player may queue with.
pub const MAX_MMR: u32 = 10_000;

/// Why a request to join the queue was refused.
#[derive(Debug, Clone, PartialEq, Eq, Structural)]
pub enum QueueError {
    /// The rating is zero or above `MAX_MMR`; carries the rating given.
    MmrOutOfRange(u32),
    /// The region is the empty string.
    EmptyRegion,
    /// No id could be drawn: the operating system's random source failed.
    RandomSourceFailed,
}

/// The verdict on a request: the rating is checked first, then the region.
pub open spec fn request_verdict(mmr: u32, region: Seq<char>) -> Result<(), QueueError> {
    if mmr == 0 || mmr > MAX_MMR {
        Err(QueueError::MmrOutOfRange(mmr))
    } else if region.len() == 0 {
        Err(QueueError::EmptyRegion)
    } else {
        Ok(())
    }
}

/// Checks a request to join the queue.
pub fn check_request(req: &QueueRequest) -> (r: Result<(), QueueError>)
    ensures
        r == request_verdict(req.mmr, req.region@),
{
    if req.mmr == 0 || req.mmr > MAX_MMR {
        return Err(QueueError::MmrOutOfRange(req.mmr));
    }
    if req.region.as_str().is_empty() {
        return Err(QueueError::EmptyRegion);
    }
    Ok(())
}

/// Admits a player who joins at `now_ms`: checks the request, gives the
/// player a fresh random id, queues it behind every waiting player of the same
/// or lower rating and ahead of every player of higher rating, and answers
/// with the id, the number of waiting players and the window a new player
/// starts with. A refused request, or a failure to draw an id, leaves the pool
/// unchanged.
pub fn admit_player(pool: &mut PlayerPool, req: QueueRequest, now_ms: u64) -> (r: Result<
    QueueResponse,
    QueueError,
>)
    requires
        old(pool).wf(),
        old(pool)@.len() < usize::MAX,
    ensures
        final(pool).wf(),
        match request_verdict(req.mmr, req.region@) {
            Err(e) => r == Err::<QueueResponse, QueueError>(e) && final(pool)@ == old(pool)@,
            Ok(_) => match r {
                Err(e) => e == QueueError::RandomSourceFailed && final(pool)@ == old(pool)@,
                Ok(resp) => is_v4_uuid_text(resp.player_id@) && resp.queue_position
                    == final(pool)@.len() && final(pool)@.len() == old(pool)@.len() + 1
                    && resp.estimated_window == BASE_WINDOW && exists|n: int, p: Player|
                    #![trigger old(pool)@.insert(n, p)]
                    0 <= n <= old(pool)@.len() && final(pool)@ == old(pool)@.insert(n, p)
                        && p.id@ == resp.player_id@ && p.mmr == req.mmr && p.region@
                        == req.region@ && p.joined_at_ms == now_ms && (forall|i: int|
                        0 <= i < n ==> #[trigger] old(pool)@[i].mmr <= req.mmr) && (forall|
                        i: int,
                    |
                        n <= i < old(pool)@.len() ==> #[trigger] old(pool)@[i].mmr > req.mmr),
            },
        },
{
    match check_request(&req) {
        Err(e) => {
            return Err(e);
        },
        Ok(()) => {},
    }
    let player_id = match new_uuid_string() {
        Some(id) => id,
        None => {
            return Err(QueueError::RandomSourceFailed);
        },
    };
    let ghost id = player_id@;
    let r = admit_player_with_id(pool, req, now_ms, player_id);
    proof {
        assert(r matches Ok(resp) && resp.player_id@ == id);
    }
    r
}

/// Admits a player who joins at `now_ms` under the id `player_id`: checks the
/// request and, when it passes, queues the player behind every waiting player
/// of the same or lower rating and ahead of every player of higher rating,
/// whatever players are waiting, and answers with the id, the number of
/// waiting players and the window a new player starts with. A refused request
/// leaves the pool unchanged.
pub fn admit_player_with_id(pool: &mut PlayerPool, req: QueueRequest, now_ms: u64, player_id: String) -> (r: Result<
    QueueResponse,
    QueueError,
>)
    requires
        old(pool).wf(),
        old(pool)@.len() < usize::MAX,
    ensures
        final(pool).wf(),
        match request_verdict(req.mmr, req.region@) {
            Err(e) => r == Err::<QueueResponse, QueueError>(e) && final(pool)@ == old(pool)@,
            Ok(_) => match r {
                Err(_) => false,
                Ok(resp) => resp.player_id@ == player_id@ && resp.queue_position
                    == final(pool)@.len() && final(pool)@.len() == old(pool)@.len() + 1
                    && resp.estimated_window == BASE_WINDOW && exists|n: int, p: Player|
                    #![trigger old(pool)@.insert(n, p)]
                    0 <= n <= old(pool)@.len() && final(pool)@ == old(pool)@.insert(n, p)
                        && p.id@ == player_id@ && p.mmr == req.mmr && p.region@
                        == req.region@ && p.joined_at_ms == now_ms && (forall|i: int|
                        0 <= i < n ==> #[trigger] old(pool)@[i].mmr <= req.mmr) && (forall|
                        i: int,
                    |
                        n <= i < old(pool)@.len() ==> #[trigger] old(pool)@[i].mmr > req.mmr),
            },
        },
{
    match check_request(&req) {
        Err(e) => {
            return Err(e);
        },
        Ok(()) => {},
    }
    let player = Player::joined_at(player_id.clone(), req.mmr, req.region, now_ms);
    let ghost p = player;
    pool.add(player);
    let queue_position = pool.size();
    proof {
        let n = choose|n: int|
            0 <= n <= old(pool)@.len() && pool@ == old(pool)@.insert(n, p) && (forall|i: int|
                0 <= i < n ==> #[trigger] old(pool)@[i].mmr <= p.mmr) && (forall|i: int|
                n <= i < old(pool)@.len() ==> #[trigger] old(pool)@[i].mmr > p.mmr);
        assert(pool@ == old(pool)@.insert(n, p));
    }
    Ok(QueueResponse { player_id, queue_position, estimated_window: BASE_WINDOW })
}

/// Admits a player who joins at `now_ms`, as `admit_player` does, and counts
/// the join when the player was admitted. The books stay balanced: the pool
/// and the count of players queued grow together.
pub fn admit_and_count(
    pool: &mut PlayerPool,
    metrics: &mut Metrics,
    req: QueueRequest,
    now_ms: u64,
) -> (r: Result<QueueResponse, QueueError>)
    requires
        old(pool).wf(),
        old(pool)@.len() < usize::MAX,
    ensures
        final(pool).wf(),
        match request_verdict(req.mmr, req.region@) {
            Err(e) => r == Err::<QueueResponse, QueueError>(e) && final(pool)@ == old(pool)@,
            Ok(_) => match r {
                Err(e) => e == QueueError::RandomSourceFailed && final(pool)@ == old(pool)@,
                Ok(resp) => is_v4_uuid_text(resp.player_id@) && resp.queue_position
                    == final(pool)@.len() && final(pool)@.len() == old(pool)@.len() + 1
                    && resp.estimated_window == BASE_WINDOW && exists|n: int, p: Player|
                    #![trigger old(pool)@.insert(n, p)]
                    0 <= n <= old(pool)@.len() && final(pool)@ == old(pool)@.insert(n, p)
                        && p.id@ == resp.player_id@ && p.mmr == req.mmr && p.region@
                        == req.region@ && p.joined_at_ms == now_ms && (forall|i: int|
                        0 <= i < n ==> #[trigger] old(pool)@[i].mmr <= req.mmr) && (forall|
                        i: int,
                    |
                        n <= i < old(pool)@.len() ==> #[trigger] old(pool)@[i].mmr > req.mmr),
            },
        },
        r is Ok ==> final(metrics).total_queued == bump(old(metrics).total_queued, 1),
        r is Err ==> *final(metrics) == *old(metrics),
        final(metrics).total_matched == old(metrics).total_matched,
        final(metrics).matches_made == old(metrics).matches_made,
        final(metrics).mmr_diff_sum == old(metrics).mmr_diff_sum,
        final(metrics).diff_count == old(metrics).diff_count,
        r is Ok ==> forall|in_flight: int|
            #[trigger] books_step(
                (old(pool)@.len() as int, in_flight, *old(metrics)),
                (final(pool)@.len() as int, in_flight, *final(metrics)),
                BooksStep::Admitted,
            ),
        r is Err ==> forall|in_flight: int|
            #[trigger] books_step(
                (old(pool)@.len() as int, in_flight, *old(metrics)),
                (final(pool)@.len() as int, in_flight, *final(metrics)),
                BooksStep::Idle,
            ),
        forall|in_flight: int|
            #![trigger books_balance(old(pool)@.len() as int, in_flight, *old(metrics))]
            books_balance(old(pool)@.len() as int, in_flight, *old(metrics))
                && old(metrics).total_queued < u64::MAX ==> books_balance(
                final(pool)@.len() as int,
                in_flight,
                *final(metrics),
            ),
{
    let r = admit_player(pool, req, now_ms);
    if r.is_ok() {
        metrics.player_joined();
    }
    r
}

} // verus!

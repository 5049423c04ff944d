use vstd::prelude::*;

use crate::balance::{balance_teams, balanced_match};
use crate::clock::now_unix_ms;
use crate::ids::is_v4_uuid_text;
use crate::metrics::{books_balance, books_step, bump, BooksStep, Metrics};
use crate::models::{spec_wait_secs, spec_window, MatchRecord, Player, MATCH_SIZE, TEAM_SIZE};
use crate::pool::{anchored_group, is_anchor, PlayerPool};

verus! {

/// Milliseconds a worker pauses when no group can be formed.
pub const WORKER_SLEEP_MS: u64 = 10;
/// Number of finished matches kept in the history.
pub const RECENT_MATCHES_CAP: usize = 1000;
/// Number of finished matches that the history listing shows.
pub const RECENT_MATCHES_SHOWN: usize = 20;

/// Index of the longest-waiting player.
pub open spec fn anchor_index(s: Seq<Player>) -> int {
    choose|i: int| is_anchor(s, i)
}

/// There is at most one longest-waiting player.
pub proof fn lemma_anchor_unique(s: Seq<Player>, i: int, j: int)
    requires
        is_anchor(s, i),
        is_anchor(s, j),
    ensures
        i == j,
{
    if i < j {
        assert(s[i].joined_at_ms > s[j].joined_at_ms);
    } else if j < i {
        assert(s[j].joined_at_ms > s[i].joined_at_ms);
    }
}

/// The group a worker picks at time `now_ms`: the longest-waiting player
/// first, then the first `MATCH_SIZE - 1` other players in queue order within
/// that player's window around that player's rating; nothing when the pool is
/// empty or fewer than `MATCH_SIZE` players can be gathered.
pub open spec fn group_at(s: Seq<Player>, now_ms: u64) -> Option<Seq<Player>> {
    if s.len() == 0 {
        None
    } else {
        let a = anchor_index(s);
        let w = spec_window(spec_wait_secs(s[a].joined_at_ms, now_ms));
        let g = anchored_group(s, a, w as u32);
        if g.len() < MATCH_SIZE {
            None
        } else {
            Some(g)
        }
    }
}

/// The ids of the group a worker picks at time `now_ms`; `None` when no group
/// of `MATCH_SIZE` players can be formed. A group always holds the
/// longest-waiting player, first.
pub fn sample_group_at(pool: &PlayerPool, now_ms: u64) -> (r: Option<Vec<String>>)
    requires
        pool.wf(),
    ensures
        match group_at(pool@, now_ms) {
            None => r is None,
            Some(g) => r matches Some(ids) && ids@.len() == g.len() && (forall|j: int|
                0 <= j < g.len() ==> #[trigger] ids@[j]@ == g[j].id@) && is_anchor(
                pool@,
                anchor_index(pool@),
            ) && g[0] == pool@[anchor_index(pool@)] && ids@[0]@ == pool@[anchor_index(
                pool@,
            )].id@,
        },
{
    let group = pool.anchored_group_at(now_ms);
    let ids = match group {
        None => {
            return None;
        },
        Some(ids) => ids,
    };
    proof {
        let a = choose|a: int|
            #![trigger is_anchor(pool@, a)]
            is_anchor(pool@, a) && ids@.len() == anchored_group(
                pool@,
                a,
                spec_window(spec_wait_secs(pool@[a].joined_at_ms, now_ms)) as u32,
            ).len() && forall|j: int|
                0 <= j < ids@.len() ==> #[trigger] ids@[j]@ == anchored_group(
                    pool@,
                    a,
                    spec_window(spec_wait_secs(pool@[a].joined_at_ms, now_ms)) as u32,
                )[j].id@;
        lemma_anchor_unique(pool@, a, anchor_index(pool@));
    }
    if ids.len() < MATCH_SIZE {
        None
    } else {
        Some(ids)
    }
}

/// The ids of the group a worker picks now; `None` when no group of
/// `MATCH_SIZE` players can be formed.
pub fn sample_group(pool: &PlayerPool) -> (r: Option<Vec<String>>)
    requires
        pool.wf(),
    ensures
        exists|now: u64|
            #![trigger group_at(pool@, now)]
            match group_at(pool@, now) {
                None => r is None,
                Some(g) => r matches Some(ids) && ids@.len() == g.len() && (forall|j: int|
                    0 <= j < g.len() ==> #[trigger] ids@[j]@ == g[j].id@) && is_anchor(
                    pool@,
                    anchor_index(pool@),
                ) && g[0] == pool@[anchor_index(pool@)] && ids@[0]@ == pool@[anchor_index(
                    pool@,
                )].id@,
            },
{
    let now = now_unix_ms();
    sample_group_at(pool, now)
}

/// What a matching worker does next.
#[derive(Debug)]
pub enum WorkerAction {
    /// Sample a group from the pool.
    Sample,
    /// Pause for the given number of milliseconds.
    Sleep(u64),
    /// Evict the players with these ids, all or none.
    Evict(Vec<String>),
    /// Balance these players into a match, count it and record it.
    Publish(Vec<Player>),
    /// Put these players back into the pool.
    Requeue(Vec<Player>),
}

/// What a worker's last action produced.
#[derive(Debug)]
pub enum WorkerEvent {
    /// The pause is over.
    Slept,
    /// A sample gave these ids, or no group.
    Sampled(Option<Vec<String>>),
    /// An eviction gave these players, or nothing (another worker took some).
    Evicted(Option<Vec<Player>>),
    /// A match was recorded.
    Published,
    /// No match could be recorded (no id could be drawn); these players are
    /// handed back.
    PublishFailed(Vec<Player>),
    /// The handed-back players are in the pool again.
    Requeued,
}

/// The worker's decision after each event: pause when no group can be
/// formed, evict a sampled group, retry at once after an eviction conflict,
/// publish evicted players, sample again straight after a pause or a
/// published match, put players back when publishing failed, and pause after
/// putting them back.
pub fn next_action(event: WorkerEvent) -> (a: WorkerAction)
    ensures
        match event {
            WorkerEvent::Slept => a is Sample,
            WorkerEvent::Sampled(None) => a == WorkerAction::Sleep(WORKER_SLEEP_MS),
            WorkerEvent::Sampled(Some(ids)) => a == WorkerAction::Evict(ids),
            WorkerEvent::Evicted(None) => a is Sample,
            WorkerEvent::Evicted(Some(players)) => a == WorkerAction::Publish(players),
            WorkerEvent::Published => a is Sample,
            WorkerEvent::PublishFailed(players) => a == WorkerAction::Requeue(players),
            WorkerEvent::Requeued => a == WorkerAction::Sleep(WORKER_SLEEP_MS),
        },
{
    match event {
        WorkerEvent::Slept => WorkerAction::Sample,
        WorkerEvent::Sampled(None) => WorkerAction::Sleep(WORKER_SLEEP_MS),
        WorkerEvent::Sampled(Some(ids)) => WorkerAction::Evict(ids),
        WorkerEvent::Evicted(None) => WorkerAction::Sample,
        WorkerEvent::Evicted(Some(players)) => WorkerAction::Publish(players),
        WorkerEvent::Published => WorkerAction::Sample,
        WorkerEvent::PublishFailed(players) => WorkerAction::Requeue(players),
        WorkerEvent::Requeued => WorkerAction::Sleep(WORKER_SLEEP_MS),
    }
}

/// Publishes an evicted group: balances the ten players into a match, counts
/// the match and records it in the history. When no match id can be drawn,
/// hands the players back and changes nothing. A published match moves its
/// ten players from in flight to matched, so the books stay balanced.
pub fn publish_match(players: Vec<Player>, metrics: &mut Metrics, recent: &mut Vec<MatchRecord>) -> (r:
    Result<(), Vec<Player>>)
    requires
        players@.len() == 2 * TEAM_SIZE,
    ensures
        match r {
            Ok(()) => exists|rec: MatchRecord|
                #![trigger balanced_match(rec, players@)]
                balanced_match(rec, players@) && is_v4_uuid_text(rec.match_id@) && final(recent)@
                    == history_after(old(recent)@, rec) && final(metrics).total_queued == old(
                    metrics,
                ).total_queued && final(metrics).matches_made == bump(
                    old(metrics).matches_made,
                    1,
                ) && final(metrics).total_matched == bump(
                    old(metrics).total_matched,
                    MATCH_SIZE as u64,
                ) && final(metrics).mmr_diff_sum == bump(
                    old(metrics).mmr_diff_sum,
                    rec.mmr_diff as u64,
                ) && final(metrics).diff_count == bump(old(metrics).diff_count, 1),
            Err(back) => back@ == players@ && *final(metrics) == *old(metrics) && final(recent)@
                == old(recent)@,
        },
        r is Ok ==> forall|waiting: int, in_flight: int, after: int|
            after == in_flight - MATCH_SIZE ==> #[trigger] books_step(
                (waiting, in_flight, *old(metrics)),
                (waiting, after, *final(metrics)),
                BooksStep::Published,
            ),
        r is Err ==> forall|waiting: int, in_flight: int|
            #[trigger] books_step(
                (waiting, in_flight, *old(metrics)),
                (waiting, in_flight, *final(metrics)),
                BooksStep::Idle,
            ),
        forall|waiting: int, in_flight: int|
            #![trigger books_balance(waiting, in_flight, *old(metrics))]
            books_balance(waiting, in_flight, *old(metrics)) && old(metrics).total_matched
                + MATCH_SIZE <= u64::MAX ==> books_balance(
                waiting,
                if r is Ok {
                    in_flight - MATCH_SIZE
                } else {
                    in_flight
                },
                *final(metrics),
            ),
{
    match balance_teams(players) {
        Ok(record) => {
            let ghost rec = record;
            metrics.match_made(record.mmr_diff);
            record_match(recent, record);
            proof {
                assert(balanced_match(rec, players@));
                assert forall|waiting: int, in_flight: int|
                    #![trigger books_balance(waiting, in_flight, *old(metrics))]
                    books_balance(waiting, in_flight, *old(metrics)) && old(metrics).total_matched
                        + MATCH_SIZE <= u64::MAX implies books_balance(
                    waiting,
                    in_flight - MATCH_SIZE,
                    *metrics,
                ) by {
                    let mm = old(metrics).matches_made as int;
                    assert(old(metrics).total_matched == 10 * mm);
                    assert(mm + 1 <= u64::MAX);
                    assert(metrics.matches_made == mm + 1);
                    assert(metrics.total_matched == 10 * mm + 10);
                }
            }
            Ok(())
        },
        Err(back) => Err(back),
    }
}

/// Puts players back into the pool, each where `add` puts it: the pool then
/// holds exactly its players and these.
pub fn requeue(pool: &mut PlayerPool, players: Vec<Player>)
    requires
        old(pool).wf(),
        old(pool)@.len() + players@.len() < usize::MAX,
    ensures
        final(pool).wf(),
        final(pool)@.len() == old(pool)@.len() + players@.len(),
        final(pool)@.to_multiset() == old(pool)@.to_multiset().add(players@.to_multiset()),
        forall|in_flight: int, after: int, m: Metrics|
            after == in_flight - players@.len() ==> #[trigger] books_step(
                (old(pool)@.len() as int, in_flight, m),
                (final(pool)@.len() as int, after, m),
                BooksStep::Requeued(players@.len() as usize),
            ),
{
    broadcast use vstd::seq_lib::group_to_multiset_ensures;

    let mut rest = players;
    while rest.len() > 0
        invariant
            pool.wf(),
            pool@.len() + rest@.len() == old(pool)@.len() + players@.len(),
            old(pool)@.len() + players@.len() < usize::MAX,
            pool@.to_multiset().add(rest@.to_multiset()) == old(pool)@.to_multiset().add(
                players@.to_multiset(),
            ),
        decreases rest@.len(),
    {
        let ghost before_rest = rest@;
        let ghost before_pool = pool@;
        let last = rest.len() - 1;
        let p = rest.remove(last);
        proof {
            assert(before_rest =~= rest@.push(p));
        }
        pool.add(p);
        proof {
            let n = choose|n: int|
                0 <= n <= before_pool.len() && pool@ == before_pool.insert(n, p) && (forall|i: int|
                    0 <= i < n ==> #[trigger] before_pool[i].mmr <= p.mmr) && (forall|i: int|
                    n <= i < before_pool.len() ==> #[trigger] before_pool[i].mmr > p.mmr);
            assert(pool@ == before_pool.insert(n, p));
            vstd::seq_lib::to_multiset_insert(before_pool, n, p);
            vstd::seq_lib::to_multiset_build(rest@, p);
            assert(before_rest.to_multiset() == rest@.to_multiset().insert(p));
            assert(pool@.to_multiset().add(rest@.to_multiset()) =~= before_pool.to_multiset().add(
                before_rest.to_multiset(),
            ));
        }
    }
    proof {
        assert(pool@.to_multiset().add(rest@.to_multiset()) =~= pool@.to_multiset());
    }
}

/// The history after adding a match: the newest `RECENT_MATCHES_CAP` matches,
/// oldest first.
pub open spec fn history_after(old: Seq<MatchRecord>, record: MatchRecord) -> Seq<MatchRecord> {
    let all = old.push(record);
    if all.len() > RECENT_MATCHES_CAP {
        all.skip(all.len() - RECENT_MATCHES_CAP)
    } else {
        all
    }
}

/// Appends a finished match to the history and drops the oldest matches
/// beyond `RECENT_MATCHES_CAP`.
pub fn record_match(recent: &mut Vec<MatchRecord>, record: MatchRecord)
    ensures
        final(recent)@ == history_after(old(recent)@, record),
{
    let ghost all = old(recent)@.push(record);
    recent.push(record);
    if recent.len() > RECENT_MATCHES_CAP {
        let overflow = recent.len() - RECENT_MATCHES_CAP;
        let mut k: usize = 0;
        while k < overflow
            invariant
                all.len() > RECENT_MATCHES_CAP,
                overflow == all.len() - RECENT_MATCHES_CAP,
                k <= overflow,
                recent@ == all.skip(k as int),
            decreases overflow - k,
        {
            recent.remove(0);
            assert(recent@ =~= all.skip(k + 1));
            k = k + 1;
        }
    }
}

/// Positions of the newest `limit` entries of a history of `total` entries,
/// newest first.
pub fn latest_first(total: usize, limit: usize) -> (idx: Vec<usize>)
    ensures
        idx@.len() == if total < limit {
            total
        } else {
            limit
        },
        forall|i: int| 0 <= i < idx@.len() ==> #[trigger] idx@[i] == total - 1 - i,
{
    let mut idx: Vec<usize> = Vec::new();
    let mut i: usize = 0;
    while i < total && i < limit
        invariant
            i <= total,
            i <= limit,
            idx@.len() == i,
            forall|j: int| 0 <= j < i ==> #[trigger] idx@[j] == total - 1 - j,
        decreases total - i,
    {
        idx.push(total - 1 - i);
        i = i + 1;
    }
    idx
}

} // verus!

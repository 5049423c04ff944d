use vstd::prelude::*;

use crate::clock::now_unix_ms;

verus! {

/// Rating window of a player who has just joined.
pub const BASE_WINDOW: u32 = 150;
/// Seconds of waiting after which the window widens by one step.
pub const RELAXATION_TICK_SECS: u64 = 30;
/// Amount by which the window widens at every tick.
pub const WINDOW_EXPANSION_PER_TICK: u32 = 50;
/// Number of players in one match.
pub const MATCH_SIZE: usize = 10;
/// Number of players in one team.
pub const TEAM_SIZE: usize = 5;

/// A player waiting in the queue. `joined_at_ms` is the time of joining in
/// milliseconds, read from one clock that every later reading for this player
/// comes from: `new`, `wait_secs` and `current_window` read the wall clock
/// (milliseconds since the Unix epoch); the forms ending in `_at`, and
/// `admit_player`, take the reading from the caller, who may use a clock that
/// never goes back.
#[derive(Debug, Clone)]
pub struct Player {
    pub id: String,
    pub mmr: u32,
    pub region: String,
    pub joined_at_ms: u64,
}

/// Whole seconds elapsed between `joined_at_ms` and `now_ms` (zero when the
/// clock reads earlier than the join time).
pub open spec fn spec_wait_secs(joined_at_ms: u64, now_ms: u64) -> int {
    if now_ms >= joined_at_ms {
        (now_ms - joined_at_ms) / 1000
    } else {
        0
    }
}

/// Number of completed relaxation ticks after `wait_secs` seconds of waiting.
pub open spec fn spec_ticks(wait_secs: int) -> int {
    wait_secs / (RELAXATION_TICK_SECS as int)
}

/// The rating window after `wait_secs` seconds, computed in 32-bit arithmetic
/// that wraps: the tick count is truncated to 32 bits, multiplied by the step
/// and added to the base window, each modulo 2^32.
pub open spec fn spec_window(wait_secs: int) -> int {
    let ticks32 = spec_ticks(wait_secs) % 0x1_0000_0000;
    (BASE_WINDOW + (ticks32 * WINDOW_EXPANSION_PER_TICK) % 0x1_0000_0000) % 0x1_0000_0000
}

/// The rating window after `wait_secs` seconds as plain arithmetic.
pub open spec fn spec_window_exact(wait_secs: int) -> int {
    BASE_WINDOW + spec_ticks(wait_secs) * WINDOW_EXPANSION_PER_TICK
}

/// Largest tick count for which the window still fits in 32 bits.
pub open spec fn max_fitting_ticks() -> int {
    (u32::MAX - BASE_WINDOW) / (WINDOW_EXPANSION_PER_TICK as int)
}

/// The window schedule: a new player starts at `BASE_WINDOW`, every further
/// `RELAXATION_TICK_SECS` seconds of waiting widen it by
/// `WINDOW_EXPANSION_PER_TICK`, and a longer wait never gives a narrower
/// window (as long as the window fits in 32 bits).
pub proof fn lemma_window_schedule(w1: u64, w2: u64)
    requires
        w1 <= w2,
        spec_ticks(w2 as int) <= max_fitting_ticks(),
    ensures
        spec_window(0) == BASE_WINDOW,
        spec_window_exact(w1 + RELAXATION_TICK_SECS) == spec_window_exact(w1 as int)
            + WINDOW_EXPANSION_PER_TICK,
        spec_window(w1 as int) == spec_window_exact(w1 as int),
        spec_window(w2 as int) == spec_window_exact(w2 as int),
        BASE_WINDOW <= spec_window(w1 as int) <= spec_window(w2 as int),
        spec_window(w1 as int) % (WINDOW_EXPANSION_PER_TICK as int) == 0,
{
    let t1 = spec_ticks(w1 as int);
    let t2 = spec_ticks(w2 as int);
    assert(t1 <= t2) by (nonlinear_arith)
        requires
            w1 <= w2,
            t1 == w1 / 30,
            t2 == w2 / 30,
    ;
    assert(spec_ticks(w1 + 30) == t1 + 1) by (nonlinear_arith)
        requires
            t1 == w1 / 30,
            w1 >= 0,
    ;
    assert(t1 % 0x1_0000_0000 == t1);
    assert(t2 % 0x1_0000_0000 == t2);
    assert((t1 * 50) % 0x1_0000_0000 == t1 * 50);
    assert((t2 * 50) % 0x1_0000_0000 == t2 * 50);
}

/// A player's window never narrows as time goes on: for clock readings
/// `now1 <= now2` (and while the window fits in 32 bits), the window at
/// `now2` is at least the window at `now1`, and both are `BASE_WINDOW` plus a
/// whole number of steps.
pub proof fn lemma_window_grows_with_time(joined_at_ms: u64, now1: u64, now2: u64)
    requires
        now1 <= now2,
        spec_ticks(spec_wait_secs(joined_at_ms, now2)) <= max_fitting_ticks(),
    ensures
        BASE_WINDOW <= spec_window(spec_wait_secs(joined_at_ms, now1)) <= spec_window(
            spec_wait_secs(joined_at_ms, now2),
        ),
        spec_window(spec_wait_secs(joined_at_ms, now1)) % (WINDOW_EXPANSION_PER_TICK as int) == 0,
        spec_window(spec_wait_secs(joined_at_ms, now2)) % (WINDOW_EXPANSION_PER_TICK as int) == 0,
{
    let w1 = spec_wait_secs(joined_at_ms, now1);
    let w2 = spec_wait_secs(joined_at_ms, now2);
    if now1 >= joined_at_ms {
        assert(w1 <= w2) by (nonlinear_arith)
            requires
                w1 == (now1 - joined_at_ms) / 1000,
                w2 == (now2 - joined_at_ms) / 1000,
                now1 <= now2,
                now1 >= joined_at_ms,
        ;
    }
    assert(0 <= w1 <= w2 <= u64::MAX);
    lemma_window_schedule(w1 as u64, w2 as u64);
    lemma_window_schedule(w2 as u64, w2 as u64);
}

/// Two counts of whole seconds that both fit the same number of
/// milliseconds are equal.
proof fn lemma_whole_seconds_unique(ms: int, a: int, b: int)
    requires
        1000 * a <= ms < 1000 * a + 1000,
        1000 * b <= ms < 1000 * b + 1000,
    ensures
        a == b,
{
}

/// The wait is the number of whole seconds elapsed since joining, with no
/// upper limit: `t` seconds plus any part of a second after joining give a
/// wait of exactly `t`, and a reading earlier than the join time gives zero.
pub proof fn lemma_wait_counts_whole_seconds(joined_at_ms: u64, now_ms: u64)
    ensures
        now_ms >= joined_at_ms ==> 1000 * spec_wait_secs(joined_at_ms, now_ms) <= now_ms
            - joined_at_ms < 1000 * spec_wait_secs(joined_at_ms, now_ms) + 1000,
        now_ms < joined_at_ms ==> spec_wait_secs(joined_at_ms, now_ms) == 0,
{
}

/// Every further 1000 ms of waiting adds exactly one second to the wait.
pub proof fn lemma_wait_grows_one_second_per_1000_ms(joined_at_ms: u64, now_ms: u64)
    requires
        joined_at_ms <= now_ms,
        now_ms + 1000 <= u64::MAX,
    ensures
        spec_wait_secs(joined_at_ms, (now_ms + 1000) as u64) == spec_wait_secs(joined_at_ms, now_ms)
            + 1,
{
    lemma_wait_counts_whole_seconds(joined_at_ms, now_ms);
    lemma_wait_counts_whole_seconds(joined_at_ms, (now_ms + 1000) as u64);
    lemma_whole_seconds_unique(
        now_ms + 1000 - joined_at_ms,
        spec_wait_secs(joined_at_ms, (now_ms + 1000) as u64),
        spec_wait_secs(joined_at_ms, now_ms) + 1,
    );
}

/// A player who has waited `t` seconds (plus `r` ms, less than a second) has
/// the window `150 + 50 * (t / 30)`, for every `t` whose window fits in 32
/// bits: five minutes give `650`.
pub proof fn lemma_window_after_wait(joined_at_ms: u64, t: int, r: int)
    requires
        t >= 0,
        0 <= r < 1000,
        joined_at_ms + 1000 * t + r <= u64::MAX,
        t / (RELAXATION_TICK_SECS as int) <= max_fitting_ticks(),
    ensures
        spec_wait_secs(joined_at_ms, (joined_at_ms + 1000 * t + r) as u64) == t,
        spec_window(spec_wait_secs(joined_at_ms, (joined_at_ms + 1000 * t + r) as u64))
            == BASE_WINDOW + WINDOW_EXPANSION_PER_TICK * (t / (RELAXATION_TICK_SECS as int)),
{
    let now = (joined_at_ms + 1000 * t + r) as u64;
    lemma_wait_counts_whole_seconds(joined_at_ms, now);
    lemma_whole_seconds_unique(now - joined_at_ms, spec_wait_secs(joined_at_ms, now), t);
    assert(0 <= t <= u64::MAX) by (nonlinear_arith)
        requires
            t >= 0,
            joined_at_ms + 1000 * t + r <= u64::MAX,
            joined_at_ms >= 0,
            r >= 0,
    ;
    lemma_window_schedule(t as u64, t as u64);
}

/// The window that belongs to a wait of `wait_secs` seconds: `150` widened by
/// `50` for every full 30 seconds, wrapping as 32-bit arithmetic does.
pub fn window_for_wait(wait_secs: u64) -> (w: u32)
    ensures
        w == spec_window(wait_secs as int),
        spec_ticks(wait_secs as int) <= max_fitting_ticks() ==> w == spec_window_exact(
            wait_secs as int,
        ),
{
    let ticks = wait_secs / RELAXATION_TICK_SECS;
    let ticks32: u32 = ticks as u32;
    assert(ticks32 == ticks % 0x1_0000_0000) by (bit_vector)
        requires
            ticks32 == ticks as u32,
    ;
    let grown = ticks32.wrapping_mul(WINDOW_EXPANSION_PER_TICK);
    let w = BASE_WINDOW.wrapping_add(grown);
    proof {
        if spec_ticks(wait_secs as int) <= max_fitting_ticks() {
            assert(ticks32 == ticks);
            assert(ticks32 * 50 <= u32::MAX - 150) by (nonlinear_arith)
                requires
                    ticks32 <= (u32::MAX - 150) / 50,
            ;
        }
    }
    w
}

/// One player's entry in a finished match.
#[derive(Debug, Clone)]
pub struct TeamMember {
    pub player_id: String,
    pub mmr: u32,
}

/// A finished match: two teams and their average ratings.
#[derive(Debug, Clone)]
pub struct MatchRecord {
    pub match_id: String,
    pub team_a: Vec<TeamMember>,
    pub team_b: Vec<TeamMember>,
    pub avg_mmr_a: u32,
    pub avg_mmr_b: u32,
    pub mmr_diff: u32,
    pub created_at_ms: u64,
}

impl<'a> From<&'a Player> for TeamMember {
    fn from(p: &'a Player) -> (t: TeamMember) {
        TeamMember { player_id: p.id.clone(), mmr: p.mmr }
    }
}

impl<'a> vstd::std_specs::convert::FromSpecImpl<&'a Player> for TeamMember {
    open spec fn obeys_from_spec() -> bool {
        true
    }

    open spec fn from_spec(p: &'a Player) -> TeamMember {
        TeamMember { player_id: p.id, mmr: p.mmr }
    }
}

/// A request to join the queue.
#[derive(Debug, Clone)]
pub struct QueueRequest {
    pub mmr: u32,
    pub region: String,
}

/// The answer to an accepted request to join the queue.
#[derive(Debug, Clone)]
pub struct QueueResponse {
    pub player_id: String,
    pub queue_position: usize,
    pub estimated_window: u32,
}

impl Player {
    /// A player with the given id, rating and region who joins now.
    pub fn new(id: String, mmr: u32, region: String) -> (p: Player)
        ensures
            p.id@ == id@,
            p.mmr == mmr,
            p.region@ == region@,
    {
        Player::joined_at(id, mmr, region, now_unix_ms())
    }

    /// A player with the given id, rating and region who joined at `joined_at_ms`.
    pub fn joined_at(id: String, mmr: u32, region: String, joined_at_ms: u64) -> (p: Player)
        ensures
            p.id@ == id@,
            p.mmr == mmr,
            p.region@ == region@,
            p.joined_at_ms == joined_at_ms,
    {
        Player { id, mmr, region, joined_at_ms }
    }

    /// Whole seconds this player has waited at time `now_ms`: the number of
    /// full 1000 ms spans since joining, with no upper limit; zero when the
    /// clock reads earlier than the join time.
    pub fn wait_secs_at(&self, now_ms: u64) -> (s: u64)
        ensures
            s == spec_wait_secs(self.joined_at_ms, now_ms),
            now_ms >= self.joined_at_ms ==> 1000 * s <= now_ms - self.joined_at_ms < 1000 * s
                + 1000,
            now_ms < self.joined_at_ms ==> s == 0,
    {
        now_ms.saturating_sub(self.joined_at_ms) / 1000
    }

    /// Whole seconds this player has waited so far.
    pub fn wait_secs(&self) -> (s: u64)
        ensures
            exists|now: u64| s == spec_wait_secs(self.joined_at_ms, now),
    {
        let now = now_unix_ms();
        self.wait_secs_at(now)
    }

    /// The player's rating window at time `now_ms`: `150`, widened by `50`
    /// for every full 30 seconds waited.
    pub fn window_at(&self, now_ms: u64) -> (w: u32)
        ensures
            w == spec_window(spec_wait_secs(self.joined_at_ms, now_ms)),
            forall|t: int|
                #![trigger t / (RELAXATION_TICK_SECS as int)]
                now_ms >= self.joined_at_ms && 1000 * t <= now_ms - self.joined_at_ms < 1000 * t
                    + 1000 && t / (RELAXATION_TICK_SECS as int) <= max_fitting_ticks() ==> w
                    == BASE_WINDOW + WINDOW_EXPANSION_PER_TICK * (t / (
                RELAXATION_TICK_SECS as int)),
    {
        let s = self.wait_secs_at(now_ms);
        proof {
            lemma_wait_counts_whole_seconds(self.joined_at_ms, now_ms);
            assert forall|t: int|
                #![trigger t / (RELAXATION_TICK_SECS as int)]
                now_ms >= self.joined_at_ms && 1000 * t <= now_ms - self.joined_at_ms < 1000 * t
                    + 1000 && t / (RELAXATION_TICK_SECS as int)
                    <= max_fitting_ticks() implies spec_window(s as int) == BASE_WINDOW
                + WINDOW_EXPANSION_PER_TICK * (t / (RELAXATION_TICK_SECS as int)) by {
                lemma_whole_seconds_unique(now_ms - self.joined_at_ms, s as int, t);
                lemma_window_schedule(s, s);
            }
        }
        window_for_wait(s)
    }

    /// The player's rating window now: it widens the longer the player waits.
    pub fn current_window(&self) -> (w: u32)
        ensures
            exists|now: u64| w == spec_window(spec_wait_secs(self.joined_at_ms, now)),
    {
        let now = now_unix_ms();
        self.window_at(now)
    }
}

} // verus!

use vstd::prelude::*;

use crate::models::MATCH_SIZE;

verus! {

/// `x` advanced by `by`, wrapping at 2^64 as the counters do.
pub open spec fn bump(x: u64, by: u64) -> int {
    (x + by) % 0x1_0000_0000_0000_0000
}

/// Running counters of the engine. Every counter wraps around at 2^64.
/// `mmr_diff_sum` and `diff_count` together give the average rating
/// difference of the matches made.
#[derive(Debug, Clone)]
pub struct Metrics {
    pub total_queued: u64,
    pub total_matched: u64,
    pub matches_made: u64,
    pub mmr_diff_sum: u64,
    pub diff_count: u64,
}

impl Metrics {
    /// The counters agree with one another: ten players per match (modulo
    /// 2^64), and one rating difference recorded per match.
    pub open spec fn consistent(&self) -> bool {
        &&& self.total_matched == (MATCH_SIZE * self.matches_made) % 0x1_0000_0000_0000_0000
        &&& self.diff_count == self.matches_made
    }

    /// All counters at zero.
    pub fn new() -> (m: Metrics)
        ensures
            m.total_queued == 0,
            m.total_matched == 0,
            m.matches_made == 0,
            m.mmr_diff_sum == 0,
            m.diff_count == 0,
            m.consistent(),
    {
        Metrics { total_queued: 0, total_matched: 0, matches_made: 0, mmr_diff_sum: 0, diff_count: 0 }
    }

    /// Counts one player joining the queue.
    pub fn player_joined(&mut self)
        ensures
            final(self).total_queued == bump(old(self).total_queued, 1),
            final(self).total_matched == old(self).total_matched,
            final(self).matches_made == old(self).matches_made,
            final(self).mmr_diff_sum == old(self).mmr_diff_sum,
            final(self).diff_count == old(self).diff_count,
            old(self).consistent() ==> final(self).consistent(),
    {
        self.total_queued = self.total_queued.wrapping_add(1);
    }

    /// Counts one match of ten players whose teams differ by `mmr_diff`.
    pub fn match_made(&mut self, mmr_diff: u32)
        ensures
            final(self).total_queued == old(self).total_queued,
            final(self).matches_made == bump(old(self).matches_made, 1),
            final(self).total_matched == bump(old(self).total_matched, MATCH_SIZE as u64),
            final(self).mmr_diff_sum == bump(old(self).mmr_diff_sum, mmr_diff as u64),
            final(self).diff_count == bump(old(self).diff_count, 1),
            old(self).consistent() ==> final(self).consistent(),
    {
        proof {
            lemma_ten_per_match(self.matches_made);
        }
        self.matches_made = self.matches_made.wrapping_add(1);
        self.total_matched = self.total_matched.wrapping_add(10);
        self.mmr_diff_sum = self.mmr_diff_sum.wrapping_add(mmr_diff as u64);
        self.diff_count = self.diff_count.wrapping_add(1);
    }
}

/// The books balance: every player ever queued is waiting in the pool, in
/// flight (evicted into a group not yet recorded), or matched, and ten
/// players were matched per match.
pub open spec fn books_balance(waiting: int, in_flight: int, m: Metrics) -> bool {
    &&& m.total_queued == waiting + in_flight + m.total_matched
    &&& m.total_matched == MATCH_SIZE * m.matches_made
}

/// An empty pool with nothing in flight balances against fresh counters.
pub proof fn lemma_books_balance_start(m: Metrics)
    requires
        m.total_queued == 0,
        m.total_matched == 0,
        m.matches_made == 0,
    ensures
        books_balance(0, 0, m),
{
}

/// Evicting `n` players from the pool puts them in flight: the books stay
/// balanced.
pub proof fn lemma_books_after_eviction(waiting: int, in_flight: int, n: int, m: Metrics)
    requires
        books_balance(waiting, in_flight, m),
    ensures
        books_balance(waiting - n, in_flight + n, m),
{
}

/// One step of the engine as far as the books go: a request was admitted and
/// counted, nothing changed (a refused request, or a group that could not be
/// published), an eviction took the given number of players into flight, an
/// evicted group was published as a match, or the given number of players in
/// flight went back into the pool.
#[derive(Debug, Clone, Copy, PartialEq, Eq, Structural)]
pub enum BooksStep {
    Admitted,
    Idle,
    Evicted(usize),
    Published,
    Requeued(usize),
}

/// What one step does to the number of waiting players, the number in
/// flight and the counters, as `admit_and_count`, `remove_if_all_present`,
/// `publish_match` and `requeue` state it.
pub open spec fn books_step(before: (int, int, Metrics), after: (int, int, Metrics), step: BooksStep) -> bool {
    let (w0, f0, m0) = before;
    let (w1, f1, m1) = after;
    match step {
        BooksStep::Admitted => w1 == w0 + 1 && f1 == f0 && m1.total_queued == bump(
            m0.total_queued,
            1,
        ) && m1.total_matched == m0.total_matched && m1.matches_made == m0.matches_made,
        BooksStep::Idle => w1 == w0 && f1 == f0 && m1 == m0,
        BooksStep::Evicted(n) => w1 == w0 - n && f1 == f0 + n && m1 == m0,
        BooksStep::Published => w1 == w0 && f1 == f0 - MATCH_SIZE && m1.total_queued
            == m0.total_queued && m1.matches_made == bump(m0.matches_made, 1) && m1.total_matched
            == bump(m0.total_matched, MATCH_SIZE as u64),
        BooksStep::Requeued(n) => w1 == w0 + n && f1 == f0 - n && m1 == m0,
    }
}

/// Number of admissions in a run of steps.
pub open spec fn admissions_in(steps: Seq<BooksStep>) -> int
    decreases steps.len(),
{
    if steps.len() == 0 {
        0
    } else {
        admissions_in(steps.drop_last()) + if steps.last() is Admitted {
            1int
        } else {
            0int
        }
    }
}

/// Number of published matches in a run of steps.
pub open spec fn publications_in(steps: Seq<BooksStep>) -> int
    decreases steps.len(),
{
    if steps.len() == 0 {
        0
    } else {
        publications_in(steps.drop_last()) + if steps.last() is Published {
            1int
        } else {
            0int
        }
    }
}

/// Players are neither lost nor duplicated: starting from an empty pool,
/// nothing in flight and fresh counters, after any run of steps in which no
/// counter wraps, every player ever queued is waiting, in flight or matched,
/// and ten players were matched per match. When nothing is in flight, the
/// players queued are exactly those waiting plus those matched.
pub proof fn lemma_books_over_run(states: Seq<(int, int, Metrics)>, steps: Seq<BooksStep>)
    requires
        states.len() == steps.len() + 1,
        states[0].0 == 0 && states[0].1 == 0,
        states[0].2.total_queued == 0 && states[0].2.total_matched == 0
            && states[0].2.matches_made == 0,
        forall|i: int| 0 <= i < steps.len() ==> books_step(states[i], states[i + 1], #[trigger] steps[i]),
        admissions_in(steps) <= u64::MAX,
        MATCH_SIZE * publications_in(steps) <= u64::MAX,
    ensures
        books_balance(states.last().0, states.last().1, states.last().2),
        states.last().2.total_queued == admissions_in(steps),
        states.last().2.matches_made == publications_in(steps),
        states.last().1 == 0 ==> states.last().2.total_queued == states.last().0
            + states.last().2.total_matched,
    decreases steps.len(),
{
    if steps.len() > 0 {
        let k = steps.len() - 1;
        lemma_steps_counts_grow(steps);
        lemma_books_over_run(states.drop_last(), steps.drop_last());
        assert(books_step(states[k], states[k + 1], steps[k]));
    }
}

proof fn lemma_steps_counts_grow(steps: Seq<BooksStep>)
    requires
        steps.len() > 0,
    ensures
        0 <= admissions_in(steps.drop_last()) <= admissions_in(steps),
        0 <= publications_in(steps.drop_last()) <= publications_in(steps),
    decreases steps.len(),
{
    if steps.len() > 1 {
        lemma_steps_counts_grow(steps.drop_last());
    }
}

/// One counting call: a player joined, or a match with the given rating
/// difference was made.
#[derive(Debug, Clone, Copy, PartialEq, Eq, Structural)]
pub enum MetricsCall {
    Joined,
    Matched(u32),
}

/// Number of joins in a run of calls.
pub open spec fn joins_in(calls: Seq<MetricsCall>) -> int
    decreases calls.len(),
{
    if calls.len() == 0 {
        0
    } else {
        joins_in(calls.drop_last()) + if calls.last() is Joined {
            1int
        } else {
            0int
        }
    }
}

/// Number of matches in a run of calls.
pub open spec fn matches_in(calls: Seq<MetricsCall>) -> int
    decreases calls.len(),
{
    if calls.len() == 0 {
        0
    } else {
        matches_in(calls.drop_last()) + if calls.last() is Matched {
            1int
        } else {
            0int
        }
    }
}

/// Sum of the rating differences of the matches in a run of calls.
pub open spec fn diffs_in(calls: Seq<MetricsCall>) -> int
    decreases calls.len(),
{
    if calls.len() == 0 {
        0
    } else {
        diffs_in(calls.drop_last()) + match calls.last() {
            MetricsCall::Joined => 0int,
            MetricsCall::Matched(d) => d as int,
        }
    }
}

/// What one call does to the counters, as `player_joined` and `match_made`
/// state it.
pub open spec fn metrics_step(before: Metrics, after: Metrics, call: MetricsCall) -> bool {
    match call {
        MetricsCall::Joined => after.total_queued == bump(before.total_queued, 1)
            && after.total_matched == before.total_matched && after.matches_made
            == before.matches_made && after.mmr_diff_sum == before.mmr_diff_sum
            && after.diff_count == before.diff_count,
        MetricsCall::Matched(d) => after.total_queued == before.total_queued && after.matches_made
            == bump(before.matches_made, 1) && after.total_matched == bump(
            before.total_matched,
            MATCH_SIZE as u64,
        ) && after.mmr_diff_sum == bump(before.mmr_diff_sum, d as u64) && after.diff_count
            == bump(before.diff_count, 1),
    }
}

/// Over a run of calls on fresh counters, as long as no counter wraps, the
/// counters hold the number of joins, the number of matches, ten players per
/// match, and the sum of the matches' rating differences.
pub proof fn lemma_counters_over_run(ms: Seq<Metrics>, calls: Seq<MetricsCall>)
    requires
        ms.len() == calls.len() + 1,
        ms[0].total_queued == 0 && ms[0].total_matched == 0 && ms[0].matches_made == 0
            && ms[0].mmr_diff_sum == 0 && ms[0].diff_count == 0,
        forall|i: int| 0 <= i < calls.len() ==> metrics_step(ms[i], ms[i + 1], #[trigger] calls[i]),
        joins_in(calls) <= u64::MAX,
        MATCH_SIZE * matches_in(calls) <= u64::MAX,
        diffs_in(calls) <= u64::MAX,
    ensures
        ms.last().total_queued == joins_in(calls),
        ms.last().matches_made == matches_in(calls),
        ms.last().total_matched == MATCH_SIZE * matches_in(calls),
        ms.last().diff_count == matches_in(calls),
        ms.last().mmr_diff_sum == diffs_in(calls),
    decreases calls.len(),
{
    if calls.len() > 0 {
        let k = calls.len() - 1;
        let c = calls.drop_last();
        lemma_run_counts_grow(calls);
        lemma_counters_over_run(ms.drop_last(), c);
        assert(metrics_step(ms[k], ms[k + 1], calls[k]));
    }
}

proof fn lemma_run_counts_grow(calls: Seq<MetricsCall>)
    requires
        calls.len() > 0,
    ensures
        0 <= joins_in(calls.drop_last()) <= joins_in(calls),
        0 <= matches_in(calls.drop_last()) <= matches_in(calls),
        0 <= diffs_in(calls.drop_last()) <= diffs_in(calls),
    decreases calls.len(),
{
    if calls.len() > 1 {
        lemma_run_counts_grow(calls.drop_last());
    }
}

/// Ten players per match survive one more match under wrapping counters.
proof fn lemma_ten_per_match(matches: u64)
    ensures
        (MATCH_SIZE * bump(matches, 1)) % 0x1_0000_0000_0000_0000 == bump(
            ((MATCH_SIZE * matches) % 0x1_0000_0000_0000_0000) as u64,
            MATCH_SIZE as u64,
        ),
{
    let m = matches as int;
    let r = 0x1_0000_0000_0000_0000int;
    vstd::arithmetic::div_mod::lemma_mul_mod_noop_right(10, m + 1, r);
    vstd::arithmetic::div_mod::lemma_add_mod_noop(10 * m, 10, r);
    vstd::arithmetic::div_mod::lemma_mod_twice(10, r);
    vstd::arithmetic::div_mod::lemma_small_mod(10, r as nat);
    assert(10 * (m + 1) == 10 * m + 10) by (nonlinear_arith);
}

} // verus!

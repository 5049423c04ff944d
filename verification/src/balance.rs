use vstd::prelude::*;

use vstd::multiset::Multiset;

use crate::clock::now_unix_ms;
use crate::ids::{is_v4_uuid_text, new_uuid_string};
use crate::models::{MatchRecord, Player, TeamMember, TEAM_SIZE};
use crate::pool::{anchored_group, lemma_anchored_group_within, range_high, range_low};

verus! {

broadcast use vstd::seq_lib::group_to_multiset_ensures;

/// Sum of the players' ratings.
pub open spec fn mmr_total(s: Seq<Player>) -> int
    decreases s.len(),
{
    if s.len() == 0 {
        0
    } else {
        mmr_total(s.drop_last()) + s.last().mmr
    }
}

/// Average rating, rounded down; zero for no players.
pub open spec fn spec_avg(s: Seq<Player>) -> int {
    if s.len() == 0 {
        0
    } else {
        mmr_total(s) / (s.len() as int)
    }
}

/// Players ordered by non-increasing rating.
pub open spec fn sorted_desc(s: Seq<Player>) -> bool {
    forall|i: int, j: int| 0 <= i <= j < s.len() ==> s[i].mmr >= s[j].mmr
}

/// The players at even positions: first, third, fifth, ...
pub open spec fn evens(s: Seq<Player>) -> Seq<Player> {
    Seq::new(((s.len() + 1) / 2) as nat, |i: int| s[2 * i])
}

/// The players at odd positions: second, fourth, ...
pub open spec fn odds(s: Seq<Player>) -> Seq<Player> {
    Seq::new((s.len() / 2) as nat, |i: int| s[2 * i + 1])
}

/// The team lists the players' ids and ratings, in order.
pub open spec fn members_of(team: Seq<TeamMember>, ps: Seq<Player>) -> bool {
    &&& team.len() == ps.len()
    &&& forall|i: int|
        0 <= i < team.len() ==> #[trigger] team[i].player_id@ == ps[i].id@ && team[i].mmr
            == ps[i].mmr
}

/// `r` splits the rating-ordered players `s` by alternating assignment: the
/// players at even positions form team A and those at odd positions team B,
/// with the teams' average ratings and their distance.
pub open spec fn split_alternately(r: MatchRecord, s: Seq<Player>) -> bool {
    &&& members_of(r.team_a@, evens(s))
    &&& members_of(r.team_b@, odds(s))
    &&& r.avg_mmr_a == spec_avg(evens(s))
    &&& r.avg_mmr_b == spec_avg(odds(s))
    &&& r.mmr_diff == (if r.avg_mmr_a >= r.avg_mmr_b {
        r.avg_mmr_a - r.avg_mmr_b
    } else {
        r.avg_mmr_b - r.avg_mmr_a
    })
}

/// The record that balancing `players` may produce: for some ordering of the
/// players by non-increasing rating (ties in any order), the teams alternate
/// over it.
pub open spec fn balanced_match(r: MatchRecord, players: Seq<Player>) -> bool {
    exists|s: Seq<Player>|
        #![trigger split_alternately(r, s)]
        s.len() == players.len() && s.to_multiset() == players.to_multiset() && sorted_desc(s)
            && split_alternately(r, s)
}

/// A sum of ratings is at most the count times the largest rating.
pub proof fn lemma_total_bound(s: Seq<Player>)
    ensures
        0 <= mmr_total(s) <= s.len() * (u32::MAX as int),
    decreases s.len(),
{
    if s.len() > 0 {
        lemma_total_bound(s.drop_last());
    }
}

/// A prefix sum is at most the whole sum.
pub proof fn lemma_total_prefix(s: Seq<Player>, i: int)
    requires
        0 <= i <= s.len(),
    ensures
        0 <= mmr_total(s.take(i)) <= mmr_total(s),
    decreases s.len() - i,
{
    if i < s.len() {
        lemma_total_prefix(s, i + 1);
        assert(s.take(i + 1).drop_last() =~= s.take(i));
        lemma_total_bound(s.take(i));
    } else {
        assert(s.take(i) =~= s);
        lemma_total_bound(s);
    }
}

/// Dealing rating-ordered players alternately to two teams puts every player
/// in exactly one team, and team A's rating total is at least team B's and
/// exceeds it by no more than the spread between the highest and the lowest
/// rating.
pub proof fn lemma_alternating_split(s: Seq<Player>)
    requires
        sorted_desc(s),
        s.len() >= 2,
        s.len() % 2 == 0,
    ensures
        (evens(s) + odds(s)).to_multiset() == s.to_multiset(),
        0 <= mmr_total(evens(s)) - mmr_total(odds(s)) <= s[0].mmr - s[s.len() - 1].mmr,
    decreases s.len(),
{
    lemma_split_partition(s);
    let n = s.len() as int;
    let t = s.take(n - 2);
    assert(evens(s) =~= evens(t).push(s[n - 2]));
    assert(odds(s) =~= odds(t).push(s[n - 1]));
    assert(evens(s).drop_last() =~= evens(t));
    assert(odds(s).drop_last() =~= odds(t));
    if n == 2 {
        assert(evens(t) =~= Seq::<Player>::empty());
        assert(odds(t) =~= Seq::<Player>::empty());
    } else {
        assert(sorted_desc(t));
        lemma_alternating_split(t);
        assert(s[n - 3].mmr >= s[n - 2].mmr);
    }
}

/// Every player lands in exactly one of the two alternating halves.
pub proof fn lemma_split_partition(s: Seq<Player>)
    ensures
        (evens(s) + odds(s)).to_multiset() == s.to_multiset(),
    decreases s.len(),
{
    broadcast use vstd::seq_lib::lemma_multiset_commutative;

    if s.len() == 0 {
        assert(evens(s) + odds(s) =~= s);
    } else {
        let d = s.drop_last();
        lemma_split_partition(d);
        assert(s =~= d.push(s.last()));
        if s.len() % 2 == 0 {
            assert(evens(s) =~= evens(d));
            assert(odds(s) =~= odds(d).push(s.last()));
            assert(evens(s) + odds(s) =~= (evens(d) + odds(d)).push(s.last()));
        } else {
            assert(evens(s) =~= evens(d).push(s.last()));
            assert(odds(s) =~= odds(d));
            assert((evens(s) + odds(s)).to_multiset() == evens(s).to_multiset().add(
                odds(s).to_multiset(),
            ));
            assert((evens(d) + odds(d)).to_multiset() == evens(d).to_multiset().add(
                odds(d).to_multiset(),
            ));
            assert((evens(s) + odds(s)).to_multiset() =~= (evens(d) + odds(d)).to_multiset().insert(
                s.last(),
            ));
        }
    }
}

/// In a balanced match team A is never the weaker team on average, and the
/// recorded difference is A's average minus B's.
pub proof fn lemma_team_a_not_weaker(r: MatchRecord, players: Seq<Player>)
    requires
        balanced_match(r, players),
        players.len() == 2 * TEAM_SIZE,
    ensures
        r.avg_mmr_a >= r.avg_mmr_b,
        r.mmr_diff == r.avg_mmr_a - r.avg_mmr_b,
{
    let s = choose|s: Seq<Player>|
        #![trigger split_alternately(r, s)]
        s.len() == players.len() && s.to_multiset() == players.to_multiset() && sorted_desc(s)
            && split_alternately(r, s);
    lemma_alternating_split(s);
    let a = mmr_total(evens(s));
    let b = mmr_total(odds(s));
    assert(a / 5 >= b / 5) by (nonlinear_arith)
        requires
            a >= b,
    ;
}

/// Balancing a group formed around an anchor keeps the teams close: their
/// rating totals differ by at most the width of the anchor's rating range.
pub proof fn lemma_scanned_group_imbalance(
    r: MatchRecord,
    players: Seq<Player>,
    pool: Seq<Player>,
    a: int,
    window: u32,
)
    requires
        0 <= a < pool.len(),
        players.len() == 2 * TEAM_SIZE,
        players.to_multiset() == anchored_group(pool, a, window).to_multiset(),
        balanced_match(r, players),
    ensures
        exists|s: Seq<Player>|
            #![trigger split_alternately(r, s)]
            split_alternately(r, s) && 0 <= mmr_total(evens(s)) - mmr_total(odds(s)) <= range_high(
                pool[a].mmr,
                window,
            ) - range_low(pool[a].mmr, window),
{
    let center = pool[a].mmr;
    let s = choose|s: Seq<Player>|
        #![trigger split_alternately(r, s)]
        s.len() == players.len() && s.to_multiset() == players.to_multiset() && sorted_desc(s)
            && split_alternately(r, s);
    let g = anchored_group(pool, a, window);
    lemma_alternating_split(s);
    lemma_anchored_group_within(pool, a, window);
    assert(s.contains(s[0]));
    assert(s.contains(s[9]));
    assert(s.to_multiset().count(s[0]) > 0);
    assert(s.to_multiset().count(s[9]) > 0);
    assert(g.to_multiset().count(s[0]) > 0);
    assert(g.to_multiset().count(s[9]) > 0);
    assert(g.contains(s[0]));
    assert(g.contains(s[9]));
    let i = choose|i: int| 0 <= i < g.len() && g[i] == s[0];
    let j = choose|j: int| 0 <= j < g.len() && g[j] == s[9];
    assert(g[i].mmr <= range_high(center, window));
    assert(g[j].mmr >= range_low(center, window));
}

/// The average rating of the players, rounded down; zero for no players.
pub fn avg_mmr(team: &[Player]) -> (avg: u32)
    requires
        mmr_total(team@) <= u64::MAX,
    ensures
        avg == spec_avg(team@),
{
    if team.len() == 0 {
        return 0;
    }
    let mut total: u64 = 0;
    let mut i: usize = 0;
    while i < team.len()
        invariant
            i <= team@.len(),
            total == mmr_total(team@.take(i as int)),
            mmr_total(team@) <= u64::MAX,
        decreases team@.len() - i,
    {
        proof {
            assert(team@.take(i + 1).drop_last() =~= team@.take(i as int));
            lemma_total_prefix(team@, i + 1);
        }
        total = total + team[i].mmr as u64;
        i = i + 1;
    }
    proof {
        assert(team@.take(i as int) =~= team@);
        lemma_total_bound(team@);
        let n = team@.len() as int;
        assert(mmr_total(team@) / n <= u32::MAX) by (nonlinear_arith)
            requires
                0 <= mmr_total(team@) <= n * (u32::MAX as int),
                n > 0,
        ;
    }
    let n = team.len() as u64;
    (total / n) as u32
}

/// The players reordered by non-increasing rating.
fn sort_by_mmr_desc(players: Vec<Player>) -> (sorted: Vec<Player>)
    ensures
        sorted@.len() == players@.len(),
        sorted@.to_multiset() == players@.to_multiset(),
        sorted_desc(sorted@),
{
    let mut rest = players;
    let mut sorted: Vec<Player> = Vec::new();
    while rest.len() > 0
        invariant
            sorted@.to_multiset().add(rest@.to_multiset()) == players@.to_multiset(),
            sorted@.len() + rest@.len() == players@.len(),
            sorted_desc(sorted@),
        decreases rest@.len(),
    {
        let ghost before = rest@;
        let last = rest.len() - 1;
        let p = rest.remove(last);
        proof {
            assert(before =~= rest@.push(p));
        }
        let mut pos: usize = 0;
        while pos < sorted.len() && sorted[pos].mmr >= p.mmr
            invariant
                pos <= sorted@.len(),
                forall|i: int| 0 <= i < pos ==> #[trigger] sorted@[i].mmr >= p.mmr,
            decreases sorted@.len() - pos,
        {
            pos = pos + 1;
        }
        let ghost old_sorted = sorted@;
        proof {
            if pos < old_sorted.len() {
                assert(old_sorted[pos as int].mmr < p.mmr);
            }
        }
        sorted.insert(pos, p);
        proof {
            assert(sorted@ == old_sorted.insert(pos as int, p));
            assert forall|i: int, j: int| 0 <= i <= j < sorted@.len() implies sorted@[i].mmr
                >= sorted@[j].mmr by {
                if i < pos && j < pos {
                    assert(sorted@[i] == old_sorted[i] && sorted@[j] == old_sorted[j]);
                } else if i < pos && j == pos {
                    assert(sorted@[i] == old_sorted[i]);
                } else if i < pos {
                    assert(sorted@[i] == old_sorted[i] && sorted@[j] == old_sorted[j - 1]);
                } else if i == pos && j > pos {
                    assert(sorted@[j] == old_sorted[j - 1]);
                    assert(old_sorted[pos as int].mmr >= old_sorted[j - 1].mmr);
                } else if i > pos {
                    assert(sorted@[i] == old_sorted[i - 1] && sorted@[j] == old_sorted[j - 1]);
                }
            }
            assert(sorted@.to_multiset() == old_sorted.to_multiset().insert(p));
            assert(before.to_multiset() == rest@.to_multiset().insert(p));
            assert(sorted@.to_multiset().add(rest@.to_multiset()) =~= old_sorted.to_multiset().add(
                before.to_multiset(),
            ));
        }
    }
    proof {
        assert(rest@.to_multiset() =~= Multiset::empty());
        assert(sorted@.to_multiset().add(rest@.to_multiset()) =~= sorted@.to_multiset());
    }
    sorted
}

/// Splits ten players into two teams of five: ordered by rating from highest
/// to lowest, the players are dealt alternately to team A and team B. The
/// record carries the given id and time.
pub fn balance_teams_with(players: Vec<Player>, match_id: String, created_at_ms: u64) -> (r:
    MatchRecord)
    requires
        players@.len() == 2 * TEAM_SIZE,
    ensures
        balanced_match(r, players@),
        r.match_id@ == match_id@,
        r.created_at_ms == created_at_ms,
        r.team_a@.len() == TEAM_SIZE,
        r.team_b@.len() == TEAM_SIZE,
{
    let mut sorted = sort_by_mmr_desc(players);
    let ghost s = sorted@;
    let mut team_a: Vec<Player> = Vec::new();
    let mut team_b: Vec<Player> = Vec::new();
    let mut i: usize = 0;
    while sorted.len() > 0
        invariant
            s.len() == 2 * TEAM_SIZE,
            i + sorted@.len() == s.len(),
            sorted@ == s.skip(i as int),
            team_a@ == evens(s.take(i as int)),
            team_b@ == odds(s.take(i as int)),
        decreases sorted@.len(),
    {
        let p = sorted.remove(0);
        proof {
            assert(p == s[i as int]);
        }
        if i % 2 == 0 {
            team_a.push(p);
        } else {
            team_b.push(p);
        }
        proof {
            let t = s.take(i + 1);
            assert(sorted@ =~= s.skip(i + 1));
            if i % 2 == 0 {
                assert(team_a@ =~= evens(t));
                assert(team_b@ =~= odds(t));
            } else {
                assert(team_a@ =~= evens(t));
                assert(team_b@ =~= odds(t));
            }
        }
        i = i + 1;
    }
    proof {
        assert(s.take(i as int) =~= s);
        lemma_total_bound(team_a@);
        lemma_total_bound(team_b@);
    }
    let avg_a = avg_mmr(team_a.as_slice());
    let avg_b = avg_mmr(team_b.as_slice());
    let diff = if avg_a >= avg_b {
        avg_a - avg_b
    } else {
        avg_b - avg_a
    };
    let mut members_a: Vec<TeamMember> = Vec::new();
    let mut members_b: Vec<TeamMember> = Vec::new();
    let mut j: usize = 0;
    while j < team_a.len()
        invariant
            j <= team_a@.len(),
            members_of(members_a@, team_a@.take(j as int)),
        decreases team_a@.len() - j,
    {
        members_a.push(TeamMember::from(&team_a[j]));
        j = j + 1;
    }
    j = 0;
    while j < team_b.len()
        invariant
            j <= team_b@.len(),
            members_of(members_b@, team_b@.take(j as int)),
        decreases team_b@.len() - j,
    {
        members_b.push(TeamMember::from(&team_b[j]));
        j = j + 1;
    }
    proof {
        assert(team_a@.take(team_a@.len() as int) =~= team_a@);
        assert(team_b@.take(team_b@.len() as int) =~= team_b@);
    }
    let r = MatchRecord {
        match_id,
        team_a: members_a,
        team_b: members_b,
        avg_mmr_a: avg_a,
        avg_mmr_b: avg_b,
        mmr_diff: diff,
        created_at_ms,
    };
    assert(split_alternately(r, s));
    r
}

/// Splits ten players into two teams of five by alternating over the players
/// ordered by rating, under a fresh random id and the current time. When no
/// id can be drawn (the operating system's random source failed), hands the
/// players back unchanged.
pub fn balance_teams(players: Vec<Player>) -> (r: Result<MatchRecord, Vec<Player>>)
    requires
        players@.len() == 2 * TEAM_SIZE,
    ensures
        match r {
            Ok(rec) => balanced_match(rec, players@) && is_v4_uuid_text(rec.match_id@)
                && rec.team_a@.len() == TEAM_SIZE && rec.team_b@.len() == TEAM_SIZE,
            Err(back) => back@ == players@,
        },
{
    let match_id = match new_uuid_string() {
        Some(id) => id,
        None => {
            return Err(players);
        },
    };
    let created_at_ms = now_unix_ms();
    Ok(balance_teams_with(players, match_id, created_at_ms))
}

} // verus!

use vstd::prelude::*;

use std::collections::{BTreeMap, VecDeque};
use vstd::std_specs::btree::{increasing_seq, spec_btree_map_iter};
use vstd::std_specs::iter::IteratorSpec;
use vstd::std_specs::cmp::OrdSpec;

use crate::clock::now_unix_ms;
use crate::models::{spec_wait_secs, spec_window, Player, MATCH_SIZE};

verus! {

/// One past the largest rating.
pub open spec fn rating_end() -> int {
    0x1_0000_0000
}

/// The players queued at rating `k`, oldest first.
pub open spec fn bucket_of(m: Map<u32, VecDeque<Player>>, k: int) -> Seq<Player> {
    if 0 <= k < rating_end() && m.contains_key(k as u32) {
        m[k as u32]@
    } else {
        Seq::empty()
    }
}

/// All players queued at ratings in `[lo, hi)`, by ascending rating and,
/// within one rating, in order of arrival.
pub open spec fn players_between(m: Map<u32, VecDeque<Player>>, lo: int, hi: int) -> Seq<Player>
    decreases hi - lo,
{
    if hi <= lo {
        Seq::empty()
    } else {
        players_between(m, lo, hi - 1) + bucket_of(m, hi - 1)
    }
}

/// Splitting a rating range splits the queue.
pub proof fn lemma_between_split(m: Map<u32, VecDeque<Player>>, lo: int, mid: int, hi: int)
    requires
        lo <= mid <= hi,
    ensures
        players_between(m, lo, hi) == players_between(m, lo, mid) + players_between(m, mid, hi),
    decreases hi - mid,
{
    if hi == mid {
        assert(players_between(m, mid, hi) =~= Seq::<Player>::empty());
        assert(players_between(m, lo, mid) + players_between(m, mid, hi) =~= players_between(
            m,
            lo,
            mid,
        ));
    } else {
        lemma_between_split(m, lo, mid, hi - 1);
        assert(players_between(m, lo, hi) =~= players_between(m, lo, mid) + players_between(
            m,
            mid,
            hi,
        ));
    }
}

/// A range of one rating holds that rating's bucket.
pub proof fn lemma_between_single(m: Map<u32, VecDeque<Player>>, k: int)
    ensures
        players_between(m, k, k + 1) == bucket_of(m, k),
{
    assert(players_between(m, k, k) =~= Seq::<Player>::empty());
    assert(players_between(m, k, k + 1) =~= bucket_of(m, k));
}

/// A rating range that holds no key of the map holds no player.
pub proof fn lemma_between_no_keys(m: Map<u32, VecDeque<Player>>, lo: int, hi: int)
    requires
        forall|k: u32| lo <= k < hi ==> !#[trigger] m.contains_key(k),
    ensures
        players_between(m, lo, hi) == Seq::<Player>::empty(),
    decreases hi - lo,
{
    if hi > lo {
        lemma_between_no_keys(m, lo, hi - 1);
        assert(bucket_of(m, hi - 1) =~= Seq::<Player>::empty());
        assert(players_between(m, lo, hi) =~= Seq::<Player>::empty());
    }
}


/// Every player in a bucket has that bucket's rating.
pub open spec fn buckets_ok(m: Map<u32, VecDeque<Player>>) -> bool {
    forall|k: u32, i: int|
        m.contains_key(k) && 0 <= i < m[k]@.len() ==> (#[trigger] m[k]@[i]).mmr == k
}

/// A sequence of players ordered by non-decreasing rating.
pub open spec fn sorted_by_rating(s: Seq<Player>) -> bool {
    forall|i: int, j: int| 0 <= i <= j < s.len() ==> s[i].mmr <= s[j].mmr
}

/// The queue over a rating range depends only on the buckets in that range.
pub proof fn lemma_between_congruent(
    m1: Map<u32, VecDeque<Player>>,
    m2: Map<u32, VecDeque<Player>>,
    lo: int,
    hi: int,
)
    requires
        forall|k: int| lo <= k < hi ==> bucket_of(m1, k) == bucket_of(m2, k),
    ensures
        players_between(m1, lo, hi) == players_between(m2, lo, hi),
    decreases hi - lo,
{
    if hi > lo {
        lemma_between_congruent(m1, m2, lo, hi - 1);
        assert(bucket_of(m1, hi - 1) == bucket_of(m2, hi - 1));
    }
}

/// The players queued over `[lo, hi)` have ratings in `[lo, hi)` and come in
/// non-decreasing rating order.
pub proof fn lemma_between_ratings(m: Map<u32, VecDeque<Player>>, lo: int, hi: int)
    requires
        buckets_ok(m),
    ensures
        forall|i: int|
            0 <= i < players_between(m, lo, hi).len() ==> lo <= #[trigger] players_between(
                m,
                lo,
                hi,
            )[i].mmr < hi,
        sorted_by_rating(players_between(m, lo, hi)),
    decreases hi - lo,
{
    if hi > lo {
        lemma_between_ratings(m, lo, hi - 1);
        let a = players_between(m, lo, hi - 1);
        let b = bucket_of(m, hi - 1);
        let s = players_between(m, lo, hi);
        assert(s == a + b);
        assert forall|i: int| 0 <= i < b.len() implies #[trigger] b[i].mmr == hi - 1 by {
            let k = (hi - 1) as u32;
            assert(m[k]@[i].mmr == k);
        }
        assert forall|i: int| 0 <= i < s.len() implies lo <= #[trigger] s[i].mmr < hi by {
            if i < a.len() {
                assert(s[i] == a[i]);
            } else {
                assert(s[i] == b[i - a.len()]);
            }
        }
        assert forall|i: int, j: int| 0 <= i <= j < s.len() implies s[i].mmr <= s[j].mmr by {
            if j < a.len() {
                assert(s[i] == a[i] && s[j] == a[j]);
            } else if i >= a.len() {
                assert(s[i] == b[i - a.len()] && s[j] == b[j - a.len()]);
            } else {
                assert(s[i] == a[i] && s[j] == b[j - a.len()]);
            }
        }
    }
}


/// The smallest rating in `lo..=hi` that has a bucket in `map`, or `None`
/// when no rating in that range has one.
///
/// Calls `BTreeMap::range` on `lo..=hi`, which yields the entries with keys in
/// that range in ascending key order, and takes the key of the first entry.
/// `range` panics when the start of the range lies above its end, which the
/// `requires` rules out.
#[verifier::external_body]
fn first_bucket_in(map: &BTreeMap<u32, VecDeque<Player>>, lo: u32, hi: u32) -> (r: Option<u32>)
    requires
        lo <= hi,
    ensures
        match r {
            Some(k) => lo <= k <= hi && map@.contains_key(k) && forall|j: u32|
                lo <= j < k ==> !#[trigger] map@.contains_key(j),
            None => forall|j: u32| lo <= j <= hi ==> !#[trigger] map@.contains_key(j),
        },
{
    map.range(lo..=hi).next().map(|(k, _)| *k)
}

/// Ratings, the keys of the buckets, are ordered as integers are.
proof fn lemma_rating_keys_ordered()
    ensures
        vstd::laws_cmp::obeys_cmp::<u32>(),
{
}

/// Filtering keeps a sequence whose elements all pass.
pub proof fn lemma_filter_keeps_all(s: Seq<Player>, pred: spec_fn(Player) -> bool)
    requires
        forall|i: int| 0 <= i < s.len() ==> pred(#[trigger] s[i]),
    ensures
        s.filter(pred) == s,
    decreases s.len(),
{
    reveal(Seq::filter);
    if s.len() == 0 {
        assert(s.filter(pred) =~= s);
    } else {
        let d = s.drop_last();
        assert forall|i: int| 0 <= i < d.len() implies pred(#[trigger] d[i]) by {
            assert(d[i] == s[i]);
        }
        lemma_filter_keeps_all(d, pred);
        assert(pred(s[s.len() - 1]));
        assert(d.push(s.last()) =~= s);
    }
}

/// Filtering empties a sequence whose elements all fail.
pub proof fn lemma_filter_drops_all(s: Seq<Player>, pred: spec_fn(Player) -> bool)
    requires
        forall|i: int| 0 <= i < s.len() ==> !pred(#[trigger] s[i]),
    ensures
        s.filter(pred) == Seq::<Player>::empty(),
    decreases s.len(),
{
    reveal(Seq::filter);
    if s.len() == 0 {
        assert(s.filter(pred) =~= Seq::<Player>::empty());
    } else {
        let d = s.drop_last();
        assert forall|i: int| 0 <= i < d.len() implies !pred(#[trigger] d[i]) by {
            assert(d[i] == s[i]);
        }
        lemma_filter_drops_all(d, pred);
        assert(!pred(s[s.len() - 1]));
    }
}

/// The waiting players rated within `[lo, hi]` are exactly the buckets from
/// `lo` to `hi`, in order.
pub proof fn lemma_scan_range(m: Map<u32, VecDeque<Player>>, lo: int, hi: int)
    requires
        buckets_ok(m),
        0 <= lo <= hi < rating_end(),
    ensures
        players_between(m, 0, rating_end()).filter(rated_within(lo, hi)) == players_between(
            m,
            lo,
            hi + 1,
        ),
{
    let e = rating_end();
    let pred = rated_within(lo, hi);
    lemma_between_split(m, 0, lo, e);
    lemma_between_split(m, lo, hi + 1, e);
    let a = players_between(m, 0, lo);
    let b = players_between(m, lo, hi + 1);
    let c = players_between(m, hi + 1, e);
    lemma_between_ratings(m, 0, lo);
    lemma_between_ratings(m, lo, hi + 1);
    lemma_between_ratings(m, hi + 1, e);
    lemma_filter_drops_all(a, pred);
    lemma_filter_keeps_all(b, pred);
    lemma_filter_drops_all(c, pred);
    Seq::filter_distributes_over_add(a, b + c, pred);
    Seq::filter_distributes_over_add(b, c, pred);
    assert(players_between(m, 0, e) == a + (b + c));
    assert(b.filter(pred) + Seq::<Player>::empty() =~= b);
    assert(Seq::<Player>::empty() + b =~= b);
}

/// The candidates of a scan are the first `MATCH_SIZE` players of the
/// players rated within the range, or all of them.
proof fn lemma_candidates_take(s: Seq<Player>, center: u32, window: u32, sel: Seq<Player>)
    requires
        s.filter(rated_within(range_low(center, window), range_high(center, window))) == sel,
    ensures
        candidates_spec(s, center, window) == (if sel.len() <= MATCH_SIZE {
            sel
        } else {
            sel.take(MATCH_SIZE as int)
        }),
{
}

/// Whether the player at index `i` is the one who has waited longest: no
/// player joined earlier, and every player ahead of it in the queue joined later.
pub open spec fn is_anchor(s: Seq<Player>, i: int) -> bool {
    &&& 0 <= i < s.len()
    &&& forall|j: int| 0 <= j < s.len() ==> s[i].joined_at_ms <= #[trigger] s[j].joined_at_ms
    &&& forall|j: int| 0 <= j < i ==> #[trigger] s[j].joined_at_ms > s[i].joined_at_ms
}

/// Lower end of the rating range `center ± window`, clamped at zero.
pub open spec fn range_low(center: u32, window: u32) -> int {
    if center >= window {
        center - window
    } else {
        0
    }
}

/// Upper end of the rating range `center ± window`, clamped at `u32::MAX`.
pub open spec fn range_high(center: u32, window: u32) -> int {
    if center + window > u32::MAX {
        u32::MAX as int
    } else {
        center + window
    }
}

/// Whether a player's rating lies in `[lo, hi]`.
pub open spec fn rated_within(lo: int, hi: int) -> spec_fn(Player) -> bool {
    |p: Player| lo <= p.mmr <= hi
}

/// The players that a scan of `center ± window` picks: the first
/// `MATCH_SIZE` players in queue order whose rating lies in the range, or all
/// of them if there are fewer.
pub open spec fn candidates_spec(s: Seq<Player>, center: u32, window: u32) -> Seq<Player> {
    let sel = s.filter(rated_within(range_low(center, window), range_high(center, window)));
    if sel.len() <= MATCH_SIZE {
        sel
    } else {
        sel.take(MATCH_SIZE as int)
    }
}

/// The group formed around the player at position `a` with window `window`:
/// that player first, then the first `MATCH_SIZE - 1` other players in queue
/// order whose rating lies within `window` of that player's rating (fewer
/// when fewer are there).
pub open spec fn anchored_group(s: Seq<Player>, a: int, window: u32) -> Seq<Player> {
    let center = s[a].mmr;
    let others = s.remove(a).filter(rated_within(range_low(center, window), range_high(center, window)));
    seq![s[a]] + if others.len() <= MATCH_SIZE - 1 {
        others
    } else {
        others.take(MATCH_SIZE - 1)
    }
}

/// Whether some player in `s` has the id `id`.
pub open spec fn has_id(s: Seq<Player>, id: Seq<char>) -> bool {
    exists|i: int| 0 <= i < s.len() && #[trigger] s[i].id@ == id
}

/// Whether index `i` holds the first player in `s` with the id `id`.
pub open spec fn is_first_with_id(s: Seq<Player>, id: Seq<char>, i: int) -> bool {
    &&& 0 <= i < s.len()
    &&& s[i].id@ == id
    &&& forall|j: int| 0 <= j < i ==> #[trigger] s[j].id@ != id
}

/// Index of the first player in `s` with the id `id`.
pub open spec fn first_index_with_id(s: Seq<Player>, id: Seq<char>) -> int {
    choose|i: int| is_first_with_id(s, id, i)
}

/// Whether every id in `ids` belongs to some player in `s`.
pub open spec fn all_ids_present(s: Seq<Player>, ids: Seq<String>) -> bool {
    forall|t: int| 0 <= t < ids.len() ==> has_id(s, #[trigger] ids[t]@)
}

/// Removing, one after another, the first player with each of the first `t`
/// ids of `ids`: the players taken, in that order, and the players left; `None`
/// when some id is missing at its turn.
pub open spec fn removal_run(s: Seq<Player>, ids: Seq<String>, t: int) -> Option<
    (Seq<Player>, Seq<Player>),
>
    decreases t,
{
    if t <= 0 {
        Some((Seq::empty(), s))
    } else {
        match removal_run(s, ids, t - 1) {
            None => None,
            Some((taken, rest)) => {
                if has_id(rest, ids[t - 1]@) {
                    let i = first_index_with_id(rest, ids[t - 1]@);
                    Some((taken.push(rest[i]), rest.remove(i)))
                } else {
                    None
                }
            },
        }
    }
}

/// A present id has a first occurrence.
pub proof fn lemma_first_with_id(s: Seq<Player>, id: Seq<char>)
    requires
        has_id(s, id),
    ensures
        is_first_with_id(s, id, first_index_with_id(s, id)),
{
    let w = choose|i: int| 0 <= i < s.len() && #[trigger] s[i].id@ == id;
    lemma_first_below(s, id, w);
}

proof fn lemma_first_below(s: Seq<Player>, id: Seq<char>, n: int)
    requires
        0 <= n < s.len(),
        s[n].id@ == id,
    ensures
        exists|i: int| is_first_with_id(s, id, i),
    decreases n,
{
    if forall|j: int| 0 <= j < n ==> #[trigger] s[j].id@ != id {
        assert(is_first_with_id(s, id, n));
    } else {
        let j = choose|j: int| 0 <= j < n && #[trigger] s[j].id@ == id;
        lemma_first_below(s, id, j);
    }
}

/// A run that succeeds for `n` ids succeeded for every shorter prefix.
pub proof fn lemma_removal_run_prefix(s: Seq<Player>, ids: Seq<String>, t: int, n: int)
    requires
        0 <= t <= n,
        removal_run(s, ids, n) is Some,
    ensures
        removal_run(s, ids, t) is Some,
        t > 0 ==> (removal_run(s, ids, t - 1) matches Some((taken, rest)) && has_id(
            rest,
            ids[t - 1]@,
        )),
    decreases n - t,
{
    if t < n {
        lemma_removal_run_prefix(s, ids, t + 1, n);
    }
}

/// Eviction neither loses nor invents players: the players taken carry the
/// requested ids in order, and together with the players left they are
/// exactly the players there were.
pub proof fn lemma_eviction_conserves(s: Seq<Player>, ids: Seq<String>, n: int)
    requires
        0 <= n <= ids.len(),
        removal_run(s, ids, n) is Some,
    ensures
        removal_run(s, ids, n) matches Some((taken, rest)) && taken.len() == n && rest.len()
            + n == s.len() && (forall|t: int| 0 <= t < n ==> #[trigger] taken[t].id@ == ids[t]@)
            && taken.to_multiset().add(rest.to_multiset()) == s.to_multiset(),
    decreases n,
{
    broadcast use vstd::seq_lib::group_to_multiset_ensures;

    if n == 0 {
        assert(Seq::<Player>::empty().to_multiset() =~= vstd::multiset::Multiset::empty());
        assert(Seq::<Player>::empty().to_multiset().add(s.to_multiset()) =~= s.to_multiset());
    } else {
        lemma_removal_run_prefix(s, ids, n - 1, n);
        lemma_eviction_conserves(s, ids, n - 1);
        let (taken0, rest0) = removal_run(s, ids, n - 1)->Some_0;
        lemma_first_with_id(rest0, ids[n - 1]@);
        let i = first_index_with_id(rest0, ids[n - 1]@);
        let taken = taken0.push(rest0[i]);
        let rest = rest0.remove(i);
        assert(taken.to_multiset() == taken0.to_multiset().insert(rest0[i]));
        assert(rest.to_multiset() == rest0.to_multiset().remove(rest0[i]));
        assert(rest0.to_multiset().count(rest0[i]) > 0);
        assert(taken.to_multiset().add(rest.to_multiset()) =~= taken0.to_multiset().add(
            rest0.to_multiset(),
        ));
    }
}

/// Queueing a player whose id no waiting player has, and then evicting that
/// id, gives back that player and leaves the queue as it was.
pub proof fn lemma_add_then_evict(s: Seq<Player>, s2: Seq<Player>, p: Player)
    requires
        !has_id(s, p.id@),
        exists|n: int|
            0 <= n <= s.len() && s2 == s.insert(n, p) && (forall|i: int|
                0 <= i < n ==> #[trigger] s[i].mmr <= p.mmr) && (forall|i: int|
                n <= i < s.len() ==> #[trigger] s[i].mmr > p.mmr),
    ensures
        all_ids_present(s2, seq![p.id]),
        removal_run(s2, seq![p.id], 1) == Some((seq![p], s)),
{
    let n = choose|n: int|
        0 <= n <= s.len() && s2 == s.insert(n, p) && (forall|i: int|
            0 <= i < n ==> #[trigger] s[i].mmr <= p.mmr) && (forall|i: int|
            n <= i < s.len() ==> #[trigger] s[i].mmr > p.mmr);
    let ids = seq![p.id];
    assert(s2[n] == p);
    assert(has_id(s2, ids[0]@));
    assert(is_first_with_id(s2, p.id@, n)) by {
        assert forall|j: int| 0 <= j < n implies #[trigger] s2[j].id@ != p.id@ by {
            assert(s2[j] == s[j]);
        }
    }
    lemma_first_with_id(s2, p.id@);
    let f = first_index_with_id(s2, p.id@);
    assert(f == n) by {
        if f < n {
        } else if f > n {
        }
    }
    assert(removal_run(s2, ids, 0) == Some((Seq::<Player>::empty(), s2)));
    assert(s2.remove(n) =~= s);
    assert(Seq::<Player>::empty().push(p) =~= seq![p]);
}

/// A scan returns at most `MATCH_SIZE` players, each waiting in the pool and
/// rated within the scanned range.
pub proof fn lemma_candidates_within(s: Seq<Player>, center: u32, window: u32)
    ensures
        candidates_spec(s, center, window).len() <= MATCH_SIZE,
        forall|j: int|
            0 <= j < candidates_spec(s, center, window).len() ==> range_low(center, window)
                <= #[trigger] candidates_spec(s, center, window)[j].mmr <= range_high(
                center,
                window,
            ) && s.contains(candidates_spec(s, center, window)[j]),
{
    let pred = rated_within(range_low(center, window), range_high(center, window));
    let sel = s.filter(pred);
    let c = candidates_spec(s, center, window);
    assert forall|j: int| 0 <= j < c.len() implies range_low(center, window) <= #[trigger] c[j].mmr
        <= range_high(center, window) && s.contains(c[j]) by {
        assert(c[j] == sel[j]);
        s.lemma_filter_pred(pred, j);
        assert(sel.contains(sel[j]));
        s.lemma_filter_contains_rev(pred, sel[j]);
        s.lemma_filter_len(pred);
    }
}

/// A group formed around an anchor has at most `MATCH_SIZE` players, starts
/// with the anchor, and every member waits in the pool with a rating within
/// the window around the anchor's rating.
pub proof fn lemma_anchored_group_within(s: Seq<Player>, a: int, window: u32)
    requires
        0 <= a < s.len(),
    ensures
        anchored_group(s, a, window).len() <= MATCH_SIZE,
        anchored_group(s, a, window)[0] == s[a],
        forall|j: int|
            0 <= j < anchored_group(s, a, window).len() ==> range_low(s[a].mmr, window)
                <= #[trigger] anchored_group(s, a, window)[j].mmr <= range_high(s[a].mmr, window)
                && s.contains(anchored_group(s, a, window)[j]),
{
    let center = s[a].mmr;
    let rest = s.remove(a);
    let pred = rated_within(range_low(center, window), range_high(center, window));
    let sel = rest.filter(pred);
    let g = anchored_group(s, a, window);
    rest.lemma_filter_len(pred);
    assert forall|j: int| 0 <= j < g.len() implies range_low(center, window) <= #[trigger] g[j].mmr
        <= range_high(center, window) && s.contains(g[j]) by {
        if j == 0 {
            assert(g[0] == s[a]);
        } else {
            assert(g[j] == sel[j - 1]);
            rest.lemma_filter_pred(pred, j - 1);
            assert(sel.contains(sel[j - 1]));
            rest.lemma_filter_contains_rev(pred, sel[j - 1]);
            let k = choose|k: int| 0 <= k < rest.len() && rest[k] == sel[j - 1];
            if k < a {
                assert(s[k] == rest[k]);
            } else {
                assert(s[k + 1] == rest[k]);
            }
        }
    }
}

/// A removal run that succeeds only asked for ids that were present.
pub proof fn lemma_run_implies_present(s: Seq<Player>, ids: Seq<String>)
    requires
        removal_run(s, ids, ids.len() as int) is Some,
    ensures
        all_ids_present(s, ids),
{
    broadcast use vstd::seq_lib::group_to_multiset_ensures;

    lemma_eviction_conserves(s, ids, ids.len() as int);
    let (taken, rest) = removal_run(s, ids, ids.len() as int)->Some_0;
    assert forall|t: int| 0 <= t < ids.len() implies has_id(s, #[trigger] ids[t]@) by {
        assert(taken.contains(taken[t]));
        assert(taken.to_multiset().count(taken[t]) > 0);
        assert(s.to_multiset().count(taken[t]) > 0);
        assert(s.contains(taken[t]));
        let i = choose|i: int| 0 <= i < s.len() && s[i] == taken[t];
        assert(s[i].id@ == ids[t]@);
    }
}

/// No two players in `s` share an id.
pub open spec fn ids_unique(s: Seq<Player>) -> bool {
    forall|i: int, j: int| 0 <= i < s.len() && 0 <= j < s.len() && i != j ==> s[i].id@ != s[j].id@
}

/// In a pool where no two players share an id, two evictions one after the
/// other never take the same player: no id is taken twice.
pub proof fn lemma_evictions_disjoint(s: Seq<Player>, ids1: Seq<String>, ids2: Seq<String>)
    requires
        ids_unique(s),
        removal_run(s, ids1, ids1.len() as int) is Some,
        removal_run(removal_run(s, ids1, ids1.len() as int)->Some_0.1, ids2, ids2.len() as int) is Some,
    ensures
        ({
            let (t1, r1) = removal_run(s, ids1, ids1.len() as int)->Some_0;
            let (t2, r2) = removal_run(r1, ids2, ids2.len() as int)->Some_0;
            forall|i: int, j: int|
                0 <= i < t1.len() && 0 <= j < t2.len() ==> #[trigger] t1[i].id@ != #[trigger] t2[j].id@
        }),
{
    broadcast use vstd::seq_lib::group_to_multiset_ensures;

    let (t1, r1) = removal_run(s, ids1, ids1.len() as int)->Some_0;
    let (t2, r2) = removal_run(r1, ids2, ids2.len() as int)->Some_0;
    lemma_eviction_conserves(s, ids1, ids1.len() as int);
    lemma_eviction_conserves(r1, ids2, ids2.len() as int);
    assert(s.no_duplicates()) by {
        assert forall|i: int, j: int| 0 <= i < s.len() && 0 <= j < s.len() && i != j implies s[i]
            != s[j] by {
            assert(s[i].id@ != s[j].id@);
        }
    }
    s.lemma_multiset_has_no_duplicates();
    assert forall|i: int, j: int| 0 <= i < t1.len() && 0 <= j < t2.len() implies #[trigger] t1[i].id@
        != #[trigger] t2[j].id@ by {
        let x = t1[i];
        let y = t2[j];
        assert(t1.contains(x));
        assert(t2.contains(y));
        assert(t1.to_multiset().count(x) > 0);
        assert(t2.to_multiset().count(y) > 0);
        assert(r1.to_multiset().count(y) > 0);
        assert(s.to_multiset().count(x) > 0);
        assert(s.to_multiset().count(y) > 0);
        if x.id@ == y.id@ {
            assert(s.contains(x));
            assert(s.contains(y));
            let p = choose|p: int| 0 <= p < s.len() && s[p] == x;
            let q = choose|q: int| 0 <= q < s.len() && s[q] == y;
            assert(p == q);
            assert(s.to_multiset().count(x) >= t1.to_multiset().count(x) + r1.to_multiset().count(x));
            assert(s.to_multiset().count(x) == 1);
        }
    }
}

/// One call on a pool, as far as its size goes: an `add`, or an eviction
/// that took the given number of players (zero when it returned `None`).
#[derive(Debug, Clone, Copy, PartialEq, Eq, Structural)]
pub enum PoolCall {
    Add,
    Evict(usize),
}

/// Number of `add` calls in a run.
pub open spec fn adds_in(calls: Seq<PoolCall>) -> int
    decreases calls.len(),
{
    if calls.len() == 0 {
        0
    } else {
        adds_in(calls.drop_last()) + if calls.last() is Add {
            1int
        } else {
            0int
        }
    }
}

/// Number of players the evictions of a run took.
pub open spec fn evicted_in(calls: Seq<PoolCall>) -> int
    decreases calls.len(),
{
    if calls.len() == 0 {
        0
    } else {
        evicted_in(calls.drop_last()) + match calls.last() {
            PoolCall::Add => 0int,
            PoolCall::Evict(n) => n as int,
        }
    }
}

/// What one call does to the number of waiting players, as `add` and
/// `remove_if_all_present` state it.
pub open spec fn size_step(before: Seq<Player>, after: Seq<Player>, call: PoolCall) -> bool {
    match call {
        PoolCall::Add => after.len() == before.len() + 1,
        PoolCall::Evict(n) => after.len() == before.len() - n,
    }
}

/// Over a run of calls on a new pool, the pool holds as many players as were
/// added, minus the players the evictions took.
pub proof fn lemma_size_over_run(views: Seq<Seq<Player>>, calls: Seq<PoolCall>)
    requires
        views.len() == calls.len() + 1,
        views[0].len() == 0,
        forall|i: int| 0 <= i < calls.len() ==> size_step(views[i], views[i + 1], #[trigger] calls[i]),
    ensures
        views.last().len() == adds_in(calls) - evicted_in(calls),
    decreases calls.len(),
{
    if calls.len() > 0 {
        let k = calls.len() - 1;
        lemma_size_over_run(views.drop_last(), calls.drop_last());
        assert(size_step(views[k], views[k + 1], calls[k]));
    }
}

/// Filtering a prefix one element longer adds that element when it passes.
pub proof fn lemma_filter_take_step(s: Seq<Player>, pred: spec_fn(Player) -> bool, i: int)
    requires
        0 <= i < s.len(),
    ensures
        s.take(i + 1).filter(pred) == (if pred(s[i]) {
            s.take(i).filter(pred).push(s[i])
        } else {
            s.take(i).filter(pred)
        }),
{
    reveal(Seq::filter);
    assert(s.take(i + 1).drop_last() =~= s.take(i));
    assert(s.take(i + 1).last() == s[i]);
}

/// The filtered prefix is a prefix of the filtered sequence.
pub proof fn lemma_filter_take_prefix(s: Seq<Player>, pred: spec_fn(Player) -> bool, n: int)
    requires
        0 <= n <= s.len(),
    ensures
        s.filter(pred).len() >= s.take(n).filter(pred).len(),
        forall|j: int|
            0 <= j < s.take(n).filter(pred).len() ==> #[trigger] s.filter(pred)[j] == s.take(
                n,
            ).filter(pred)[j],
{
    assert(s == s.take(n) + s.skip(n));
    Seq::filter_distributes_over_add(s.take(n), s.skip(n), pred);
}

/// A player at queue position `gi` sits in the bucket of its rating: the queue
/// is the players below that rating, the bucket, and the players above, with
/// `gi` inside the bucket's part.
proof fn lemma_locate(m: Map<u32, VecDeque<Player>>, gi: int)
    requires
        buckets_ok(m),
        0 <= gi < players_between(m, 0, rating_end()).len(),
    ensures
        ({
            let s = players_between(m, 0, rating_end());
            let k = s[gi].mmr as int;
            let a = players_between(m, 0, k);
            let b = bucket_of(m, k);
            let c = players_between(m, k + 1, rating_end());
            s == a + b + c && a.len() <= gi < a.len() + b.len()
        }),
{
    let e = rating_end();
    let s = players_between(m, 0, e);
    let k = s[gi].mmr as int;
    let a = players_between(m, 0, k);
    let b = bucket_of(m, k);
    let c = players_between(m, k + 1, e);
    lemma_between_split(m, 0, k, e);
    lemma_between_split(m, k, k + 1, e);
    lemma_between_single(m, k);
    assert(s == a + b + c);
    lemma_between_ratings(m, 0, k);
    lemma_between_ratings(m, k + 1, e);
    if gi < a.len() {
        assert(s[gi] == a[gi]);
    }
    if gi >= a.len() + b.len() {
        assert(s[gi] == c[gi - a.len() - b.len()]);
    }
}

/// Removing one player from one bucket (and dropping the bucket when it
/// empties) removes that player from the queue and keeps every bucket
/// holding only its rating.
proof fn lemma_bucket_removal(m: Map<u32, VecDeque<Player>>, m2: Map<u32, VecDeque<Player>>, k: u32, bj: int)
    requires
        buckets_ok(m),
        m.contains_key(k),
        0 <= bj < m[k]@.len(),
        forall|x: u32| x != k ==> (#[trigger] m2.contains_key(x) == m.contains_key(x)),
        forall|x: u32| x != k && m.contains_key(x) ==> #[trigger] m2[x] == m[x],
        m2.contains_key(k) ==> m2[k]@ == m[k]@.remove(bj),
        !m2.contains_key(k) ==> m[k]@.len() == 1,
    ensures
        buckets_ok(m2),
        players_between(m2, 0, rating_end()) == players_between(m, 0, rating_end()).remove(
            players_between(m, 0, k as int).len() + bj,
        ),
{
    let e = rating_end();
    let a = players_between(m, 0, k as int);
    let b = bucket_of(m, k as int);
    let c = players_between(m, k + 1, e);
    let b2 = b.remove(bj);
    assert(bucket_of(m2, k as int) =~= b2);
    lemma_between_split(m, 0, k as int, e);
    lemma_between_split(m, k as int, k + 1, e);
    lemma_between_single(m, k as int);
    lemma_between_split(m2, 0, k as int, e);
    lemma_between_split(m2, k as int, k + 1, e);
    lemma_between_single(m2, k as int);
    assert forall|x: int| 0 <= x < k implies bucket_of(m, x) == bucket_of(m2, x) by {
        assert(m2.contains_key(x as u32) == m.contains_key(x as u32));
    }
    assert forall|x: int| k + 1 <= x < e implies bucket_of(m, x) == bucket_of(m2, x) by {
        assert(m2.contains_key(x as u32) == m.contains_key(x as u32));
    }
    lemma_between_congruent(m, m2, 0, k as int);
    lemma_between_congruent(m, m2, k + 1, e);
    assert(players_between(m2, 0, e) == a + b2 + c);
    assert(players_between(m2, 0, e) =~= (a + b + c).remove(a.len() + bj));
    assert forall|x: u32, y: int|
        m2.contains_key(x) && 0 <= y < m2[x]@.len() implies (#[trigger] m2[x]@[y]).mmr == x by {
        if x != k {
            assert(m2[x] == m[x]);
        } else if y < bj {
            assert(m2[x]@[y] == m[k]@[y]);
        } else {
            assert(m2[x]@[y] == m[k]@[y + 1]);
        }
    }
}

/// Whether a player has rating `k`.
pub open spec fn rated(k: u32) -> spec_fn(Player) -> bool {
    |p: Player| p.mmr == k
}

/// Filtering keeps everything when every element passes, nothing when none does.
proof fn lemma_filter_all_or_none(s: Seq<Player>, pred: spec_fn(Player) -> bool)
    ensures
        (forall|i: int| 0 <= i < s.len() ==> pred(#[trigger] s[i])) ==> s.filter(pred) == s,
        (forall|i: int| 0 <= i < s.len() ==> !pred(#[trigger] s[i])) ==> s.filter(pred) == Seq::<
            Player,
        >::empty(),
    decreases s.len(),
{
    reveal(Seq::filter);
    if s.len() > 0 {
        lemma_filter_all_or_none(s.drop_last(), pred);
        if forall|i: int| 0 <= i < s.len() ==> pred(#[trigger] s[i]) {
            assert(forall|i: int| 0 <= i < s.drop_last().len() ==> pred(#[trigger] s.drop_last()[i]));
            assert(s.drop_last().push(s.last()) =~= s);
        }
        if forall|i: int| 0 <= i < s.len() ==> !pred(#[trigger] s[i]) {
            assert(forall|i: int| 0 <= i < s.drop_last().len() ==> !pred(#[trigger] s.drop_last()[i]));
        }
    }
}

/// The players of one rating, taken from the queue over a range, are that
/// rating's bucket (or nobody, outside the range).
proof fn lemma_between_rated(m: Map<u32, VecDeque<Player>>, lo: int, hi: int, k: u32)
    requires
        buckets_ok(m),
        0 <= lo,
    ensures
        players_between(m, lo, hi).filter(rated(k)) == if lo <= k < hi {
            bucket_of(m, k as int)
        } else {
            Seq::<Player>::empty()
        },
    decreases hi - lo,
{
    if hi <= lo {
        lemma_filter_all_or_none(players_between(m, lo, hi), rated(k));
    } else {
        lemma_between_rated(m, lo, hi - 1, k);
        let b = bucket_of(m, hi - 1);
        Seq::filter_distributes_over_add(players_between(m, lo, hi - 1), b, rated(k));
        assert forall|i: int| 0 <= i < b.len() implies #[trigger] b[i].mmr == hi - 1 by {
            let j = (hi - 1) as u32;
            assert(m[j]@[i].mmr == j);
        }
        lemma_filter_all_or_none(b, rated(k));
        if hi - 1 == k {
            assert(players_between(m, lo, hi - 1).filter(rated(k)) + b.filter(rated(k)) =~= b);
        } else {
            assert(forall|i: int| 0 <= i < b.len() ==> !rated(k)(#[trigger] b[i]));
        }
    }
}

/// What iterating a rating map yields: every bucket once, by ascending rating.
pub open spec fn iter_in_order(
    s: Seq<(&u32, &VecDeque<Player>)>,
    m: Map<u32, VecDeque<Player>>,
) -> bool {
    &&& forall|i: int| 0 <= i < s.len() ==> #[trigger] m.contains_key(*s[i].0) && m[*s[i].0] == *s[i].1
    &&& forall|k: u32| #[trigger] m.contains_key(k) ==> exists|i: int| 0 <= i < s.len() && *s[i].0 == k
    &&& forall|i: int, j: int| 0 <= i < j < s.len() ==> *s[i].0 < *s[j].0
}

proof fn lemma_increasing_ratings(ks: Seq<u32>, i: int, j: int)
    requires
        increasing_seq(ks),
        0 <= i < j < ks.len(),
    ensures
        ks[i] < ks[j],
{
    assert(vstd::laws_cmp::obeys_cmp::<u32>());
    assert(ks[i].cmp_spec(&ks[j]) is Less);
}

proof fn lemma_iter_in_order(m: &BTreeMap<u32, VecDeque<Player>>, s: Seq<(&u32, &VecDeque<Player>)>)
    requires
        s == spec_btree_map_iter(m).remaining(),
        increasing_seq(s.map_values(|kv: (&u32, &VecDeque<Player>)| *kv.0)),
    ensures
        iter_in_order(s, m@),
{
    assert(vstd::laws_cmp::obeys_cmp::<u32>());
    assert forall|k: u32| #[trigger] m@.contains_key(k) implies exists|i: int| 0 <= i < s.len() && *s[i].0 == k by {
        assert(s.contains((&k, &m@[k])));
        let i = choose|i: int| 0 <= i < s.len() && s[i] == (&k, &m@[k]);
        assert(*s[i].0 == k);
    }
    assert forall|i: int, j: int| 0 <= i < j < s.len() implies *s[i].0 < *s[j].0 by {
        let ks = s.map_values(|kv: (&u32, &VecDeque<Player>)| *kv.0);
        assert(ks[i] == *s[i].0);
        assert(ks[j] == *s[j].0);
        lemma_increasing_ratings(ks, i, j);
    }
}

/// The queue of waiting players, kept in rating buckets.
pub struct PlayerPool {
    inner: BTreeMap<u32, VecDeque<Player>>,
    total: usize,
}

impl View for PlayerPool {
    type V = Seq<Player>;

    /// The waiting players by ascending rating and, within one rating, in order
    /// of arrival.
    closed spec fn view(&self) -> Seq<Player> {
        players_between(self.inner@, 0, rating_end())
    }
}

impl PlayerPool {
    /// The internal invariant: no bucket is empty, each bucket holds only
    /// players of its rating, and `total` counts the players.
    pub closed spec fn wf(&self) -> bool {
        &&& forall|k: u32| #[trigger]
            self.inner@.contains_key(k) ==> self.inner@[k]@.len() > 0
        &&& buckets_ok(self.inner@)
        &&& self.total == self@.len()
    }

    /// An empty pool.
    pub fn new() -> (pool: PlayerPool)
        ensures
            pool.wf(),
            pool@ == Seq::<Player>::empty(),
    {
        let pool = PlayerPool { inner: BTreeMap::new(), total: 0 };
        proof {
            lemma_between_no_keys(pool.inner@, 0, rating_end());
        }
        pool
    }

    /// The waiting players are ordered by rating.
    pub proof fn lemma_sorted(&self)
        requires
            self.wf(),
        ensures
            sorted_by_rating(self@),
    {
        lemma_between_ratings(self.inner@, 0, rating_end());
    }

    /// Queues a player behind every waiting player of the same or lower rating
    /// and ahead of every player of higher rating.
    pub fn add(&mut self, player: Player)
        requires
            old(self).wf(),
            old(self)@.len() < usize::MAX,
        ensures
            final(self).wf(),
            final(self)@.len() == old(self)@.len() + 1,
            exists|n: int|
                0 <= n <= old(self)@.len() && final(self)@ == old(self)@.insert(n, player) && (
                forall|i: int| 0 <= i < n ==> #[trigger] old(self)@[i].mmr <= player.mmr) && (
                forall|i: int| n <= i < old(self)@.len() ==> #[trigger] old(self)@[i].mmr
                    > player.mmr),
    {
        let k = player.mmr;
        let ghost m = self.inner@;
        let ghost p = player;
        let mut bucket = match self.inner.remove(&k) {
            Some(b) => b,
            None => VecDeque::new(),
        };
        assert(bucket@ == bucket_of(m, k as int));
        bucket.push_back(player);
        self.inner.insert(k, bucket);
        self.total = self.total + 1;
        proof {
            let m2 = self.inner@;
            assert(m2 == m.insert(k, bucket));
            let e = rating_end();
            lemma_between_split(m, 0, k as int, e);
            lemma_between_split(m, k as int, k + 1, e);
            lemma_between_split(m2, 0, k as int, e);
            lemma_between_split(m2, k as int, k + 1, e);
            lemma_between_congruent(m, m2, 0, k as int);
            lemma_between_congruent(m, m2, k + 1, e);
            lemma_between_single(m, k as int);
            lemma_between_single(m2, k as int);
            assert(bucket_of(m2, k as int) == bucket_of(m, k as int).push(p));
            let a = players_between(m, 0, k as int);
            let b = bucket_of(m, k as int);
            let c = players_between(m, k + 1, e);
            let n: int = (a.len() + b.len()) as int;
            assert(old(self)@ == a + b + c);
            assert(self@ == a + b.push(p) + c);
            assert(self@ =~= old(self)@.insert(n, p));
            lemma_between_ratings(m, 0, k as int);
            lemma_between_ratings(m, k + 1, e);
            assert forall|i: int| 0 <= i < n implies #[trigger] old(self)@[i].mmr <= p.mmr by {
                if i < a.len() {
                    assert(old(self)@[i] == a[i]);
                } else {
                    assert(old(self)@[i] == b[i - a.len()]);
                    assert(m[k]@[i - a.len()].mmr == k);
                }
            }
            assert forall|i: int| n <= i < old(self)@.len() implies #[trigger] old(self)@[i].mmr
                > p.mmr by {
                assert(old(self)@[i] == c[i - n]);
            }
            assert(buckets_ok(m2)) by {
                assert forall|j: u32, i: int|
                    m2.contains_key(j) && 0 <= i < m2[j]@.len() implies (#[trigger] m2[j]@[i]).mmr
                    == j by {
                    if j != k {
                        assert(m2[j] == m[j]);
                    } else if i < b.len() {
                        assert(m2[j]@[i] == m[k]@[i]);
                    }
                }
            }
        }
    }

    /// References to the waiting players, in queue order.
    fn ordered_refs(&self) -> (out: Vec<&Player>)
        requires
            self.wf(),
        ensures
            out@.len() == self@.len(),
            forall|i: int| 0 <= i < out@.len() ==> *out@[i] == self@[i],
    {
        let ghost m = self.inner@;
        let iter = self.inner.iter();
        let ghost s = iter.remaining();
        proof {
            lemma_iter_in_order(&self.inner, s);
        }
        let mut out: Vec<&Player> = Vec::new();
        let ghost mut hi: int = 0;
        for (k, bucket) in it: iter
            invariant
                m == self.inner@,
                it.seq() == s,
                iter_in_order(s, m),
                0 <= hi <= rating_end(),
                hi == (if it.index() == 0 {
                    0
                } else {
                    *s[it.index() - 1].0 + 1
                }),
                out@.len() == players_between(m, 0, hi).len(),
                forall|i: int| 0 <= i < out@.len() ==> *out@[i] == players_between(m, 0, hi)[i],
        {
            let ghost idx = it.index();
            let ghost prev = out@;
            assert(*k == *s[idx].0);
            assert(bucket@ == bucket_of(m, *k as int));
            let mut j: usize = 0;
            while j < bucket.len()
                invariant
                    j <= bucket@.len(),
                    out@.len() == prev.len() + j,
                    forall|i: int| 0 <= i < prev.len() ==> out@[i] == prev[i],
                    forall|i: int| 0 <= i < j ==> *out@[prev.len() + i] == bucket@[i],
                decreases bucket@.len() - j,
            {
                out.push(&bucket[j]);
                j = j + 1;
            }
            proof {
                let kk = *k as int;
                assert forall|key: u32| hi <= key < kk implies !#[trigger] m.contains_key(key) by {
                    if m.contains_key(key) {
                        let i2 = choose|i2: int| 0 <= i2 < s.len() && *s[i2].0 == key;
                        if i2 < idx {
                            if i2 < idx - 1 {
                                assert(*s[i2].0 < *s[idx - 1].0);
                            }
                        } else if i2 > idx {
                            assert(*s[idx].0 < *s[i2].0);
                        }
                    }
                }
                lemma_between_no_keys(m, hi, kk);
                lemma_between_split(m, 0, hi, kk);
                lemma_between_split(m, 0, kk, kk + 1);
                lemma_between_single(m, kk);
                let before = players_between(m, 0, hi);
                let after = players_between(m, 0, kk + 1);
                assert(after == before + bucket@);
                assert forall|i: int| 0 <= i < out@.len() implies *out@[i] == after[i] by {
                    if i < prev.len() {
                        assert(out@[i] == prev[i]);
                    } else {
                        assert(*out@[prev.len() + (i - prev.len())] == bucket@[i - prev.len()]);
                    }
                }
                hi = kk + 1;
            }
        }
        proof {
            let e = rating_end();
            assert forall|key: u32| hi <= key < e implies !#[trigger] m.contains_key(key) by {
                if m.contains_key(key) {
                    let i2 = choose|i2: int| 0 <= i2 < s.len() && *s[i2].0 == key;
                    if i2 < s.len() - 1 {
                        assert(*s[i2].0 < *s[s.len() - 1].0);
                    }
                }
            }
            lemma_between_no_keys(m, hi, e);
            lemma_between_split(m, 0, hi, e);
            assert(players_between(m, 0, e) =~= players_between(m, 0, hi));
        }
        out
    }

    /// The longest-waiting player's rating and, at time `now_ms`, window; `None`
    /// when the pool is empty. Among players who joined at the same moment the
    /// one first in queue order is taken.
    pub fn find_anchor_at(&self, now_ms: u64) -> (r: Option<(u32, u32)>)
        requires
            self.wf(),
        ensures
            r is None <==> self@.len() == 0,
            r matches Some((mmr, w)) ==> exists|i: int|
                #![trigger self@[i]]
                is_anchor(self@, i) && mmr == self@[i].mmr && w == spec_window(
                    spec_wait_secs(self@[i].joined_at_ms, now_ms),
                ),
    {
        let refs = self.ordered_refs();
        if refs.len() == 0 {
            return None;
        }
        let best = self.anchor_position(&refs);
        let anchor = refs[best];
        Some((anchor.mmr, anchor.window_at(now_ms)))
    }

    /// Position of the longest-waiting player in queue order, first among ties.
    fn anchor_position(&self, refs: &Vec<&Player>) -> (best: usize)
        requires
            refs@.len() == self@.len(),
            refs@.len() > 0,
            forall|j: int| 0 <= j < refs@.len() ==> *refs@[j] == self@[j],
        ensures
            is_anchor(self@, best as int),
    {
        let mut best: usize = 0;
        let mut i: usize = 1;
        while i < refs.len()
            invariant
                refs@.len() == self@.len(),
                forall|j: int| 0 <= j < refs@.len() ==> *refs@[j] == self@[j],
                1 <= i <= refs@.len(),
                best < i,
                forall|j: int| 0 <= j < i ==> self@[best as int].joined_at_ms <= #[trigger] self@[j].joined_at_ms,
                forall|j: int| 0 <= j < best ==> #[trigger] self@[j].joined_at_ms > self@[best as int].joined_at_ms,
            decreases refs@.len() - i,
        {
            if refs[i].joined_at_ms < refs[best].joined_at_ms {
                best = i;
            }
            i = i + 1;
        }
        best
    }

    /// The ids of the group formed around the longest-waiting player at time
    /// `now_ms`: that player first, then the first `MATCH_SIZE - 1` other
    /// players in queue order whose rating lies within the anchor's window
    /// around the anchor's rating; `None` when the pool is empty.
    pub fn anchored_group_at(&self, now_ms: u64) -> (r: Option<Vec<String>>)
        requires
            self.wf(),
        ensures
            r is None <==> self@.len() == 0,
            r matches Some(ids) ==> exists|a: int|
                #![trigger is_anchor(self@, a)]
                is_anchor(self@, a) && ids@.len() == anchored_group(
                    self@,
                    a,
                    spec_window(spec_wait_secs(self@[a].joined_at_ms, now_ms)) as u32,
                ).len() && forall|j: int|
                    0 <= j < ids@.len() ==> #[trigger] ids@[j]@ == anchored_group(
                        self@,
                        a,
                        spec_window(spec_wait_secs(self@[a].joined_at_ms, now_ms)) as u32,
                    )[j].id@,
    {
        let refs = self.ordered_refs();
        if refs.len() == 0 {
            return None;
        }
        let best = self.anchor_position(&refs);
        let anchor = refs[best];
        let window = anchor.window_at(now_ms);
        let center = anchor.mmr;
        let lo = center.saturating_sub(window);
        let hi = center.saturating_add(window);
        let ghost a = best as int;
        let ghost rest = self@.remove(a);
        assert(window as int == spec_window(spec_wait_secs(self@[a].joined_at_ms, now_ms)));
        assert(spec_window(spec_wait_secs(self@[a].joined_at_ms, now_ms)) as u32 == window);
        let ghost pred = rated_within(lo as int, hi as int);
        assert(pred == rated_within(range_low(center, window), range_high(center, window)));
        assert(center == self@[a].mmr);
        assert(anchored_group(self@, a, window) == seq![self@[a]] + (if rest.filter(pred).len()
            <= MATCH_SIZE - 1 {
            rest.filter(pred)
        } else {
            rest.filter(pred).take(MATCH_SIZE - 1)
        }));
        let mut ids: Vec<String> = Vec::new();
        ids.push(anchor.id.clone());
        let n = refs.len() - 1;
        let mut k: usize = 0;
        while k < n
            invariant
                refs@.len() == self@.len(),
                forall|j: int| 0 <= j < refs@.len() ==> *refs@[j] == self@[j],
                n == rest.len(),
                rest == self@.remove(a),
                0 <= a < self@.len(),
                is_anchor(self@, a),
                spec_window(spec_wait_secs(self@[a].joined_at_ms, now_ms)) as u32 == window,
                best == a,
                k <= n,
                pred == rated_within(lo as int, hi as int),
                anchored_group(self@, a, window) == seq![self@[a]] + (if rest.filter(pred).len()
                    <= MATCH_SIZE - 1 {
                    rest.filter(pred)
                } else {
                    rest.filter(pred).take(MATCH_SIZE - 1)
                }),
                ids@.len() == 1 + rest.take(k as int).filter(pred).len(),
                ids@.len() < MATCH_SIZE,
                ids@[0]@ == self@[a].id@,
                forall|j: int|
                    0 <= j < ids@.len() - 1 ==> #[trigger] ids@[j + 1]@ == rest.take(k as int).filter(
                        pred,
                    )[j].id@,
            decreases n - k,
        {
            let idx = if k < best {
                k
            } else {
                k + 1
            };
            let p = refs[idx];
            assert(*p == rest[k as int]);
            proof {
                lemma_filter_take_step(rest, pred, k as int);
            }
            if lo <= p.mmr && p.mmr <= hi {
                ids.push(p.id.clone());
                if ids.len() == MATCH_SIZE {
                    proof {
                        lemma_filter_take_prefix(rest, pred, k + 1);
                        let sel = rest.filter(pred);
                        let g = anchored_group(self@, a, window);
                        assert(sel.len() >= MATCH_SIZE - 1);
                        assert(g.len() == MATCH_SIZE);
                        assert forall|j: int| 0 <= j < ids@.len() implies #[trigger] ids@[j]@ == g[j].id@ by {
                            if j > 0 {
                                assert(g[j] == sel[j - 1]);
                                assert(sel[j - 1] == rest.take(k + 1).filter(pred)[j - 1]);
                                assert(ids@[(j - 1) + 1]@ == rest.take(k + 1).filter(pred)[j - 1].id@);
                            } else {
                                assert(g[0] == self@[a]);
                            }
                        }
                        assert(is_anchor(self@, a));
                    }
                    return Some(ids);
                }
            }
            k = k + 1;
        }
        proof {
            assert(rest.take(k as int) =~= rest);
            let g = anchored_group(self@, a, window);
            let sel = rest.filter(pred);
            assert(g.len() == ids@.len());
            assert forall|j: int| 0 <= j < ids@.len() implies #[trigger] ids@[j]@ == g[j].id@ by {
                if j > 0 {
                    assert(g[j] == sel[j - 1]);
                    assert(ids@[(j - 1) + 1]@ == rest.take(k as int).filter(pred)[j - 1].id@);
                } else {
                    assert(g[0] == self@[a]);
                }
            }
            assert(is_anchor(self@, a));
        }
        Some(ids)
    }

    /// The longest-waiting player's rating and current window; `None` when the
    /// pool is empty.
    pub fn find_anchor(&self) -> (r: Option<(u32, u32)>)
        requires
            self.wf(),
        ensures
            r is None <==> self@.len() == 0,
            r matches Some((mmr, w)) ==> exists|i: int, now: u64|
                #![trigger self@[i], spec_wait_secs(self@[i].joined_at_ms, now)]
                is_anchor(self@, i) && mmr == self@[i].mmr && w == spec_window(
                    spec_wait_secs(self@[i].joined_at_ms, now),
                ),
    {
        let now = now_unix_ms();
        self.find_anchor_at(now)
    }

    /// Ids of the first `MATCH_SIZE` waiting players, in queue order, whose
    /// rating lies in `center ± window` (clamped to the `u32` range); fewer when
    /// fewer are there. Only the buckets inside the range are visited, one
    /// ordered lookup each, and the scan stops at `MATCH_SIZE` players.
    pub fn candidates_in_range(&self, center: u32, window: u32) -> (ids: Vec<String>)
        requires
            self.wf(),
        ensures
            ids@.len() == candidates_spec(self@, center, window).len(),
            forall|j: int| 0 <= j < ids@.len() ==> #[trigger] ids@[j]@ == candidates_spec(self@, center, window)[j].id@,
    {
        let lo = center.saturating_sub(window);
        let hi = center.saturating_add(window);
        let ghost m = self.inner@;
        let ghost pred = rated_within(lo as int, hi as int);
        assert(pred == rated_within(range_low(center, window), range_high(center, window)));
        let ghost sel = players_between(m, lo as int, hi + 1);
        proof {
            lemma_scan_range(m, lo as int, hi as int);
            assert(self@.filter(pred) == sel);
        }
        let mut ids: Vec<String> = Vec::new();
        let mut cur: u32 = lo;
        let mut done = false;
        let ghost mut upto: int = lo as int;
        while !done
            invariant
                self.wf(),
                m == self.inner@,
                sel == players_between(m, lo as int, hi + 1),
                self@.filter(rated_within(range_low(center, window), range_high(center, window))) == sel,
                lo <= hi,
                lo <= cur <= hi,
                lo <= upto <= hi + 1,
                !done ==> upto == cur,
                done ==> upto == hi + 1,
                ids@.len() == players_between(m, lo as int, upto).len(),
                ids@.len() < MATCH_SIZE,
                forall|j: int| 0 <= j < ids@.len() ==> #[trigger] ids@[j]@ == players_between(m, lo as int, upto)[j].id@,
            decreases (if done { 0 } else { hi + 1 - cur }),
        {
            match first_bucket_in(&self.inner, cur, hi) {
                None => {
                    proof {
                        lemma_between_no_keys(m, cur as int, hi + 1);
                        lemma_between_split(m, lo as int, cur as int, hi + 1);
                        assert(players_between(m, lo as int, hi + 1) =~= players_between(m, lo as int, cur as int));
                        upto = hi + 1;
                    }
                    done = true;
                },
                Some(k) => {
                    proof {
                        lemma_rating_keys_ordered();
                        lemma_between_no_keys(m, cur as int, k as int);
                        lemma_between_split(m, lo as int, cur as int, k as int);
                        lemma_between_split(m, lo as int, k as int, k + 1);
                        lemma_between_single(m, k as int);
                        assert(players_between(m, lo as int, k as int) =~= players_between(m, lo as int, cur as int));
                    }
                    let bucket = match self.inner.get(&k) {
                        Some(b) => b,
                        None => {
                            proof {
                                assert(false);
                            }
                            return ids;
                        },
                    };
                    let ghost base = players_between(m, lo as int, cur as int);
                    assert(bucket@ == bucket_of(m, k as int));
                    assert(players_between(m, lo as int, k + 1) == base + bucket@);
                    let mut j: usize = 0;
                    while j < bucket.len()
                        invariant
                            bucket@ == bucket_of(m, k as int),
                            base == players_between(m, lo as int, cur as int),
                            players_between(m, lo as int, k + 1) == base + bucket@,
                            sel == players_between(m, lo as int, hi + 1),
                            self@.filter(rated_within(range_low(center, window), range_high(center, window))) == sel,
                            lo <= cur <= k <= hi,
                            j <= bucket@.len(),
                            ids@.len() == base.len() + j,
                            ids@.len() < MATCH_SIZE,
                            forall|t: int| 0 <= t < ids@.len() ==> #[trigger] ids@[t]@ == (base + bucket@)[t].id@,
                        decreases bucket@.len() - j,
                    {
                        ids.push(bucket[j].id.clone());
                        proof {
                            assert((base + bucket@)[base.len() + j] == bucket@[j as int]);
                        }
                        if ids.len() == MATCH_SIZE {
                            proof {
                                lemma_between_split(m, lo as int, k + 1, hi + 1);
                                lemma_candidates_take(self@, center, window, sel);
                                assert forall|t: int| 0 <= t < ids@.len() implies #[trigger] ids@[t]@
                                    == candidates_spec(self@, center, window)[t].id@ by {
                                    assert(sel[t] == (base + bucket@)[t]);
                                }
                            }
                            return ids;
                        }
                        j = j + 1;
                    }
                    proof {
                        assert(base + bucket@ == players_between(m, lo as int, k + 1));
                    }
                    if k == hi {
                        proof {
                            upto = hi + 1;
                        }
                        done = true;
                    } else {
                        cur = k + 1;
                        proof {
                            upto = cur as int;
                        }
                    }
                },
            }
        }
        proof {
            lemma_candidates_take(self@, center, window, sel);
        }
        ids
    }

    /// Whether some waiting player has the id `id`.
    fn id_exists(&self, id: &String) -> (b: bool)
        requires
            self.wf(),
        ensures
            b == has_id(self@, id@),
    {
        let refs = self.ordered_refs();
        let mut i: usize = 0;
        while i < refs.len()
            invariant
                refs@.len() == self@.len(),
                forall|j: int| 0 <= j < refs@.len() ==> *refs@[j] == self@[j],
                i <= refs@.len(),
                forall|j: int| 0 <= j < i ==> #[trigger] self@[j].id@ != id@,
            decreases refs@.len() - i,
        {
            if refs[i].id == *id {
                assert(self@[i as int].id@ == id@);
                return true;
            }
            i = i + 1;
        }
        false
    }

    /// Removes the first waiting player with the id `id` and returns it;
    /// `None`, with the pool unchanged, when no player has that id.
    pub fn remove_by_id(&mut self, id: &String) -> (r: Option<Player>)
        requires
            old(self).wf(),
        ensures
            final(self).wf(),
            r is Some ==> final(self)@.len() == old(self)@.len() - 1,
            match r {
                None => !has_id(old(self)@, id@) && final(self)@ == old(self)@,
                Some(p) => is_first_with_id(old(self)@, id@, first_index_with_id(old(self)@, id@))
                    && p == old(self)@[first_index_with_id(old(self)@, id@)] && final(self)@
                    == old(self)@.remove(first_index_with_id(old(self)@, id@)),
            },
    {
        let ghost m = self.inner@;
        let ghost s = self@;
        let refs = self.ordered_refs();
        let mut i: usize = 0;
        while i < refs.len() && !(refs[i].id == *id)
            invariant
                refs@.len() == s.len(),
                forall|j: int| 0 <= j < refs@.len() ==> *refs@[j] == s[j],
                i <= refs@.len(),
                forall|j: int| 0 <= j < i ==> #[trigger] s[j].id@ != id@,
            decreases refs@.len() - i,
        {
            i = i + 1;
        }
        if i == refs.len() {
            return None;
        }
        let k = refs[i].mmr;
        let ghost gi = i as int;
        proof {
            assert(is_first_with_id(s, id@, gi));
            lemma_first_with_id(s, id@);
            let f = first_index_with_id(s, id@);
            assert(f == gi) by {
                if f < gi {
                } else if f > gi {
                }
            }
        }
        let ghost e = rating_end();
        let ghost a = players_between(m, 0, k as int);
        let ghost b = bucket_of(m, k as int);
        let ghost c = players_between(m, k + 1, e);
        proof {
            lemma_locate(m, gi);
        }
        let mut bucket = match self.inner.remove(&k) {
            Some(bk) => bk,
            None => VecDeque::new(),
        };
        assert(bucket@ == b);
        let ghost bj = gi - a.len();
        let mut j: usize = 0;
        while j < bucket.len() && !(bucket[j].id == *id)
            invariant
                bucket@ == b,
                s == a + b + c,
                0 <= bj < b.len(),
                b[bj] == s[gi],
                is_first_with_id(s, id@, gi),
                bj == gi - a.len(),
                j <= bj,
            decreases bucket@.len() - j,
        {
            assert(b[j as int] == s[a.len() + j]);
            j = j + 1;
        }
        proof {
            assert(b[j as int] == s[a.len() + j]);
            if j < bj {
                assert(s[a.len() + j].id@ != id@);
            }
        }
        assert(j == bj);
        let player = match bucket.remove(j) {
            Some(pl) => pl,
            None => {
                proof {
                    assert(false);
                }
                return None;
            },
        };
        if bucket.len() > 0 {
            self.inner.insert(k, bucket);
        }
        self.total = self.total - 1;
        proof {
            lemma_bucket_removal(m, self.inner@, k, bj);
        }
        Some(player)
    }

    /// Removes the players with the given ids, all or none: for each id in
    /// turn removes the first waiting player with it, and returns the players
    /// in the order of `ids`. When some id finds no player at its turn (it is
    /// missing, or repeated more often than players carry it), returns `None`
    /// and leaves the pool as it was.
    pub fn remove_if_all_present(&mut self, ids: &[String]) -> (r: Option<Vec<Player>>)
        requires
            old(self).wf(),
        ensures
            final(self).wf(),
            match removal_run(old(self)@, ids@, ids@.len() as int) {
                None => r is None && final(self)@ == old(self)@,
                Some((taken, rest)) => r matches Some(players) && players@ == taken
                    && final(self)@ == rest,
            },
            !all_ids_present(old(self)@, ids@) ==> r is None && final(self)@ == old(self)@,
            r matches Some(players) ==> players@.len() == ids@.len() && final(self)@.len()
                == old(self)@.len() - ids@.len(),
    {
        let ghost s0 = self@;
        proof {
            if removal_run(s0, ids@, ids@.len() as int) is Some {
                lemma_run_implies_present(s0, ids@);
            }
        }
        if !self.removal_succeeds(ids) {
            return None;
        }
        proof {
            lemma_eviction_conserves(s0, ids@, ids@.len() as int);
        }
        let mut players: Vec<Player> = Vec::new();
        let mut t: usize = 0;
        while t < ids.len()
            invariant
                self.wf(),
                t <= ids@.len(),
                removal_run(s0, ids@, ids@.len() as int) is Some,
                removal_run(s0, ids@, t as int) == Some((players@, self@)),
            decreases ids@.len() - t,
        {
            proof {
                lemma_removal_run_prefix(s0, ids@, t as int + 1, ids@.len() as int);
            }
            match self.remove_by_id(&ids[t]) {
                Some(p) => {
                    players.push(p);
                },
                None => {
                    proof {
                        assert(false);
                    }
                    return None;
                },
            }
            t = t + 1;
        }
        Some(players)
    }

    /// Whether removing, for each id in turn, the first player with it
    /// succeeds for every id.
    fn removal_succeeds(&self, ids: &[String]) -> (b: bool)
        requires
            self.wf(),
        ensures
            b == removal_run(self@, ids@, ids@.len() as int) is Some,
    {
        let ghost s = self@;
        let refs = self.ordered_refs();
        let mut rest: Vec<String> = Vec::new();
        let mut i: usize = 0;
        while i < refs.len()
            invariant
                refs@.len() == s.len(),
                forall|j: int| 0 <= j < refs@.len() ==> *refs@[j] == s[j],
                i <= refs@.len(),
                rest@.len() == i,
                forall|j: int| 0 <= j < i ==> #[trigger] rest@[j]@ == s[j].id@,
            decreases refs@.len() - i,
        {
            rest.push(refs[i].id.clone());
            i = i + 1;
        }
        let mut t: usize = 0;
        while t < ids.len()
            invariant
                t <= ids@.len(),
                self@ == s,
                removal_run(s, ids@, t as int) matches Some((taken, r)) && rest@.len() == r.len() && (
                forall|j: int| 0 <= j < r.len() ==> #[trigger] rest@[j]@ == r[j].id@),
            decreases ids@.len() - t,
        {
            let ghost r = removal_run(s, ids@, t as int)->Some_0.1;
            let mut j: usize = 0;
            while j < rest.len() && !(rest[j] == ids[t])
                invariant
                    t < ids@.len(),
                    j <= rest@.len(),
                    rest@.len() == r.len(),
                    forall|x: int| 0 <= x < r.len() ==> #[trigger] rest@[x]@ == r[x].id@,
                    forall|x: int| 0 <= x < j ==> #[trigger] r[x].id@ != ids@[t as int]@,
                decreases rest@.len() - j,
            {
                j = j + 1;
            }
            if j == rest.len() {
                proof {
                    assert(!has_id(r, ids@[t as int]@));
                    if removal_run(s, ids@, ids@.len() as int) is Some {
                        lemma_removal_run_prefix(s, ids@, t + 1, ids@.len() as int);
                    }
                }
                return false;
            }
            proof {
                assert(is_first_with_id(r, ids@[t as int]@, j as int));
                lemma_first_with_id(r, ids@[t as int]@);
                let f = first_index_with_id(r, ids@[t as int]@);
                assert(f == j) by {
                    if f < j {
                    } else if f > j {
                    }
                }
            }
            let ghost before = rest@;
            rest.remove(j);
            proof {
                let r2 = r.remove(j as int);
                assert forall|x: int| 0 <= x < r2.len() implies #[trigger] rest@[x]@ == r2[x].id@ by {
                    if x < j {
                        assert(rest@[x] == before[x]);
                    } else {
                        assert(rest@[x] == before[x + 1]);
                    }
                }
            }
            t = t + 1;
        }
        true
    }

    /// The count of waiting players that the pool keeps alongside its buckets.
    pub closed spec fn recorded_size(&self) -> int {
        self.total as int
    }

    /// The pool's rating buckets: for each rating that has waiting players,
    /// those players, oldest first.
    pub closed spec fn buckets(&self) -> Map<u32, Seq<Player>> {
        Map::new(|k: u32| self.inner@.contains_key(k), |k: u32| self.inner@[k]@)
    }

    /// What well-formedness means: a bucket exists exactly for the ratings
    /// that have waiting players, each bucket holds exactly the waiting players
    /// of its rating in queue order (so no bucket is empty and every player
    /// sits in the bucket of its own rating), and `size` counts the players.
    pub proof fn lemma_wf_shape(&self)
        requires
            self.wf(),
        ensures
            forall|k: u32| #[trigger]
                self.buckets().contains_key(k) ==> self.buckets()[k] == self@.filter(rated(k))
                    && self.buckets()[k].len() > 0,
            forall|k: u32|
                !#[trigger] self.buckets().contains_key(k) ==> self@.filter(rated(k)) == Seq::<
                    Player,
                >::empty(),
            self.recorded_size() == self@.len(),
    {
        assert forall|k: u32| #[trigger] self.buckets().contains_key(k) implies self.buckets()[k]
            == self@.filter(rated(k)) && self.buckets()[k].len() > 0 by {
            lemma_between_rated(self.inner@, 0, rating_end(), k);
        }
        assert forall|k: u32| !#[trigger] self.buckets().contains_key(k) implies self@.filter(
            rated(k),
        ) == Seq::<Player>::empty() by {
            lemma_between_rated(self.inner@, 0, rating_end(), k);
        }
    }

    /// Number of waiting players.
    pub fn size(&self) -> (n: usize)
        requires
            self.wf(),
        ensures
            n == self@.len(),
    {
        self.total
    }
}

} // verus!

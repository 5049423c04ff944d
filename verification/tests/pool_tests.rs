use matchmaking::models::Player;
use matchmaking::pool::PlayerPool;

fn player(id: &str, mmr: u32, joined: u64) -> Player {
    Player::joined_at(id.to_string(), mmr, "eu".to_string(), joined)
}

fn ids(v: &[&str]) -> Vec<String> {
    v.iter().map(|s| s.to_string()).collect()
}

#[test]
fn new_pool_is_empty() {
    let pool = PlayerPool::new();
    assert_eq!(pool.size(), 0);
    assert_eq!(pool.find_anchor_at(0), None);
    assert!(pool.candidates_in_range(1000, 100).is_empty());
}

#[test]
fn add_counts_players() {
    let mut pool = PlayerPool::new();
    pool.add(player("a", 1000, 0));
    pool.add(player("b", 1000, 1));
    pool.add(player("c", 900, 2));
    assert_eq!(pool.size(), 3);
}

#[test]
fn candidates_come_by_rating_then_arrival() {
    let mut pool = PlayerPool::new();
    pool.add(player("late-1000", 1000, 5));
    pool.add(player("first-1100", 1100, 1));
    pool.add(player("early-900", 900, 2));
    pool.add(player("next-1000", 1000, 6));
    let c = pool.candidates_in_range(1000, 200);
    assert_eq!(c, ids(&["early-900", "late-1000", "next-1000", "first-1100"]));
}

#[test]
fn candidates_respect_the_window() {
    let mut pool = PlayerPool::new();
    pool.add(player("low", 800, 0));
    pool.add(player("edge-low", 850, 0));
    pool.add(player("mid", 1000, 0));
    pool.add(player("edge-high", 1150, 0));
    pool.add(player("high", 1151, 0));
    let c = pool.candidates_in_range(1000, 150);
    assert_eq!(c, ids(&["edge-low", "mid", "edge-high"]));
}

#[test]
fn candidates_clamp_at_the_rating_bounds() {
    let mut pool = PlayerPool::new();
    pool.add(player("zero", 0, 0));
    pool.add(player("top", u32::MAX, 0));
    assert_eq!(pool.candidates_in_range(10, 100), ids(&["zero"]));
    assert_eq!(pool.candidates_in_range(u32::MAX - 5, 100), ids(&["top"]));
}

#[test]
fn candidates_stop_at_ten() {
    let mut pool = PlayerPool::new();
    for i in 0..15u32 {
        pool.add(player(&format!("p{:02}", i), 1000 + i, i as u64));
    }
    let c = pool.candidates_in_range(1000, 1000);
    assert_eq!(c.len(), 10);
    let expected: Vec<String> = (0..10).map(|i| format!("p{:02}", i)).collect();
    assert_eq!(c, expected);
}

#[test]
fn anchor_is_the_longest_waiting_player() {
    let mut pool = PlayerPool::new();
    pool.add(player("new", 1500, 60_000));
    pool.add(player("old", 2000, 10_000));
    pool.add(player("mid", 1000, 30_000));
    // "old" has waited 90 seconds at time 100_000: window 150 + 3 * 50.
    assert_eq!(pool.find_anchor_at(100_000), Some((2000, 300)));
    assert!(pool.find_anchor().is_some());
}

#[test]
fn anchor_ties_go_to_the_first_in_queue_order() {
    let mut pool = PlayerPool::new();
    pool.add(player("b", 1300, 0));
    pool.add(player("a", 1200, 0));
    assert_eq!(pool.find_anchor_at(0), Some((1200, 150)));
}

#[test]
fn eviction_removes_all_listed_players() {
    let mut pool = PlayerPool::new();
    pool.add(player("a", 1000, 0));
    pool.add(player("b", 1100, 0));
    pool.add(player("c", 1200, 0));
    let taken = pool.remove_if_all_present(&ids(&["c", "a"])).unwrap();
    assert_eq!(taken.len(), 2);
    assert_eq!(taken[0].id, "c");
    assert_eq!(taken[1].id, "a");
    assert_eq!(pool.size(), 1);
    assert_eq!(pool.candidates_in_range(1100, 1000), ids(&["b"]));
}

#[test]
fn eviction_is_all_or_nothing() {
    let mut pool = PlayerPool::new();
    pool.add(player("a", 1000, 0));
    pool.add(player("b", 1100, 0));
    assert!(pool.remove_if_all_present(&ids(&["a", "missing"])).is_none());
    assert_eq!(pool.size(), 2);
    assert_eq!(pool.candidates_in_range(1000, 500), ids(&["a", "b"]));
}

#[test]
fn eviction_of_nothing_returns_nothing() {
    let mut pool = PlayerPool::new();
    pool.add(player("a", 1000, 0));
    let taken = pool.remove_if_all_present(&[]).unwrap();
    assert!(taken.is_empty());
    assert_eq!(pool.size(), 1);
}

#[test]
fn eviction_takes_the_first_player_with_a_shared_id() {
    let mut pool = PlayerPool::new();
    pool.add(player("dup", 1200, 7));
    pool.add(player("dup", 1000, 8));
    let taken = pool.remove_if_all_present(&ids(&["dup"])).unwrap();
    assert_eq!(taken[0].mmr, 1000);
    assert_eq!(pool.size(), 1);
    assert_eq!(pool.find_anchor_at(0), Some((1200, 150)));
}

#[test]
fn repeated_ids_need_as_many_players() {
    let mut pool = PlayerPool::new();
    pool.add(player("x", 1000, 0));
    pool.add(player("y", 1000, 0));
    // "x" is queued once but asked for twice: nothing is taken.
    assert!(pool.remove_if_all_present(&ids(&["x", "x"])).is_none());
    assert_eq!(pool.size(), 2);
    assert_eq!(pool.candidates_in_range(1000, 0), ids(&["x", "y"]));
    pool.add(player("x", 900, 0));
    let taken = pool.remove_if_all_present(&ids(&["x", "x"])).unwrap();
    assert_eq!(taken[0].mmr, 900);
    assert_eq!(taken[1].mmr, 1000);
    assert_eq!(pool.size(), 1);
}

#[test]
fn remove_by_id_takes_the_first_match() {
    let mut pool = PlayerPool::new();
    pool.add(player("a", 1200, 0));
    pool.add(player("a", 1100, 0));
    pool.add(player("b", 1000, 0));
    let p = pool.remove_by_id(&"a".to_string()).unwrap();
    assert_eq!(p.mmr, 1100);
    assert_eq!(pool.size(), 2);
    assert!(pool.remove_by_id(&"zzz".to_string()).is_none());
    assert_eq!(pool.size(), 2);
    let p = pool.remove_by_id(&"a".to_string()).unwrap();
    assert_eq!(p.mmr, 1200);
    assert_eq!(pool.candidates_in_range(1000, 1000), ids(&["b"]));
}

#[test]
fn anchored_group_starts_with_the_longest_waiting_player() {
    let mut pool = PlayerPool::new();
    // The veteran joined first, at a rating above ten fresher players.
    pool.add(player("veteran", 1100, 0));
    for i in 0..10u32 {
        pool.add(player(&format!("fresh{}", i), 1000, 1000 + i as u64));
    }
    let g = pool.anchored_group_at(0).unwrap();
    assert_eq!(g.len(), 10);
    assert_eq!(g[0], "veteran");
    let expected: Vec<String> = std::iter::once("veteran".to_string())
        .chain((0..9).map(|i| format!("fresh{}", i)))
        .collect();
    assert_eq!(g, expected);
    // The plain range scan from the bottom of the range would leave it out.
    assert!(!pool.candidates_in_range(1100, 150).contains(&"veteran".to_string()));
}

#[test]
fn anchored_group_of_an_empty_pool_is_none() {
    let pool = PlayerPool::new();
    assert_eq!(pool.anchored_group_at(0), None);
    let mut pool = PlayerPool::new();
    pool.add(player("solo", 1000, 0));
    assert_eq!(pool.anchored_group_at(0), Some(ids(&["solo"])));
}

#[test]
fn adding_then_evicting_a_new_id_restores_the_pool() {
    let mut pool = PlayerPool::new();
    pool.add(player("a", 1000, 0));
    pool.add(player("b", 1300, 0));
    let before = pool.candidates_in_range(1000, 10_000);
    pool.add(player("new", 1100, 0));
    let taken = pool.remove_if_all_present(&ids(&["new"])).unwrap();
    assert_eq!(taken.len(), 1);
    assert_eq!(taken[0].id, "new");
    assert_eq!(taken[0].mmr, 1100);
    assert_eq!(pool.candidates_in_range(1000, 10_000), before);
    assert_eq!(pool.size(), 2);
}

#[test]
fn candidates_skip_buckets_outside_the_range() {
    let mut pool = PlayerPool::new();
    pool.add(player("low", 100, 0));
    pool.add(player("mid", 500, 1));
    pool.add(player("mid2", 520, 2));
    pool.add(player("high", 900, 3));
    assert_eq!(pool.candidates_in_range(500, 100), ids(&["mid", "mid2"]));
    assert_eq!(pool.candidates_in_range(300, 100), Vec::<String>::new());
    assert_eq!(pool.candidates_in_range(900, 0), ids(&["high"]));
    assert_eq!(pool.candidates_in_range(0, 100), ids(&["low"]));
}

use matchmaking::metrics::Metrics;
use matchmaking::models::{MatchRecord, Player, QueueRequest};
use matchmaking::pool::PlayerPool;
use matchmaking::queue::{admit_and_count, admit_player, check_request, QueueError, MAX_MMR};
use matchmaking::worker::{
    latest_first, next_action, publish_match, record_match, requeue, sample_group, sample_group_at,
    WorkerAction,
    WorkerEvent, RECENT_MATCHES_CAP, RECENT_MATCHES_SHOWN, WORKER_SLEEP_MS,
};

fn req(mmr: u32, region: &str) -> QueueRequest {
    QueueRequest { mmr, region: region.to_string() }
}

fn record(id: usize) -> MatchRecord {
    MatchRecord {
        match_id: format!("m{}", id),
        team_a: vec![],
        team_b: vec![],
        avg_mmr_a: 0,
        avg_mmr_b: 0,
        mmr_diff: 0,
        created_at_ms: id as u64,
    }
}

#[test]
fn metrics_start_at_zero() {
    let m = Metrics::new();
    assert_eq!(m.total_queued, 0);
    assert_eq!(m.total_matched, 0);
    assert_eq!(m.matches_made, 0);
    assert_eq!(m.mmr_diff_sum, 0);
    assert_eq!(m.diff_count, 0);
}

#[test]
fn metrics_count_players_and_matches() {
    let mut m = Metrics::new();
    m.player_joined();
    m.player_joined();
    m.match_made(100);
    m.match_made(40);
    assert_eq!(m.total_queued, 2);
    assert_eq!(m.matches_made, 2);
    assert_eq!(m.total_matched, 20);
    assert_eq!(m.mmr_diff_sum, 140);
    assert_eq!(m.diff_count, 2);
}

#[test]
fn metrics_counters_wrap() {
    let mut m = Metrics::new();
    m.total_queued = u64::MAX;
    m.total_matched = u64::MAX - 5;
    m.player_joined();
    m.match_made(0);
    assert_eq!(m.total_queued, 0);
    assert_eq!(m.total_matched, 4);
}

#[test]
fn requests_are_checked_rating_first() {
    assert_eq!(check_request(&req(0, "eu")), Err(QueueError::MmrOutOfRange(0)));
    assert_eq!(check_request(&req(10_001, "")), Err(QueueError::MmrOutOfRange(10_001)));
    assert_eq!(check_request(&req(1200, "")), Err(QueueError::EmptyRegion));
    assert_eq!(check_request(&req(1, "eu")), Ok(()));
    assert_eq!(check_request(&req(MAX_MMR, "eu")), Ok(()));
}

#[test]
fn admitted_player_joins_the_pool() {
    let mut pool = PlayerPool::new();
    let r1 = admit_player(&mut pool, req(1200, "us-east"), 7).unwrap();
    assert_eq!(r1.queue_position, 1);
    assert_eq!(r1.estimated_window, 150);
    assert_eq!(r1.player_id.len(), 36);
    let r2 = admit_player(&mut pool, req(1300, "us-east"), 9).unwrap();
    assert_eq!(r2.queue_position, 2);
    assert_ne!(r1.player_id, r2.player_id);
    assert_eq!(pool.candidates_in_range(1200, 150), vec![r1.player_id.clone(), r2.player_id]);
}

#[test]
fn refused_request_leaves_the_pool_alone() {
    let mut pool = PlayerPool::new();
    assert_eq!(admit_player(&mut pool, req(20_000, "eu"), 0).unwrap_err(), QueueError::MmrOutOfRange(20_000));
    assert_eq!(admit_player(&mut pool, req(1000, ""), 0).unwrap_err(), QueueError::EmptyRegion);
    assert_eq!(pool.size(), 0);
}

#[test]
fn worker_waits_for_ten_players_around_the_anchor() {
    let mut pool = PlayerPool::new();
    assert_eq!(sample_group_at(&pool, 0), None);
    for i in 0..9u32 {
        pool.add(Player::joined_at(format!("p{}", i), 1000 + i, "eu".to_string(), 0));
    }
    assert_eq!(sample_group_at(&pool, 0), None);
    // Far outside the anchor's window: does not help.
    pool.add(Player::joined_at("far".to_string(), 5000, "eu".to_string(), 10));
    assert_eq!(sample_group_at(&pool, 0), None);
    pool.add(Player::joined_at("p9".to_string(), 1100, "eu".to_string(), 5));
    let ids = sample_group_at(&pool, 0).unwrap();
    let expected: Vec<String> = (0..10).map(|i| format!("p{}", i)).collect();
    assert_eq!(ids, expected);
    assert_eq!(sample_group(&pool).map(|v| v.len()), Some(10));
}

#[test]
fn worker_window_grows_with_the_anchors_wait() {
    let mut pool = PlayerPool::new();
    pool.add(Player::joined_at("anchor".to_string(), 1000, "eu".to_string(), 0));
    for i in 0..9u32 {
        pool.add(Player::joined_at(format!("q{}", i), 1240, "eu".to_string(), 1000));
    }
    // At first the window is 150: the others at 1240 are out of reach.
    assert_eq!(sample_group_at(&pool, 0), None);
    // After 60 seconds the window is 250.
    assert_eq!(sample_group_at(&pool, 60_000).map(|v| v.len()), Some(10));
}

#[test]
fn history_keeps_the_newest_matches() {
    let mut recent: Vec<MatchRecord> = Vec::new();
    for i in 0..(RECENT_MATCHES_CAP + 5) {
        record_match(&mut recent, record(i));
    }
    assert_eq!(recent.len(), RECENT_MATCHES_CAP);
    assert_eq!(recent[0].match_id, "m5");
    assert_eq!(recent[RECENT_MATCHES_CAP - 1].match_id, format!("m{}", RECENT_MATCHES_CAP + 4));
}

#[test]
fn listing_shows_newest_first() {
    assert_eq!(RECENT_MATCHES_SHOWN, 20);
    assert_eq!(WORKER_SLEEP_MS, 10);
    assert_eq!(latest_first(3, 20), vec![2, 1, 0]);
    assert_eq!(latest_first(25, 20), (5..25).rev().collect::<Vec<usize>>());
    assert!(latest_first(0, 20).is_empty());
}

#[test]
fn worker_group_never_skips_the_veteran() {
    let mut pool = PlayerPool::new();
    pool.add(Player::joined_at("veteran".to_string(), 1100, "eu".to_string(), 0));
    for i in 0..10u32 {
        pool.add(Player::joined_at(format!("f{}", i), 1000, "eu".to_string(), 5_000));
    }
    let ids = sample_group_at(&pool, 10_000).unwrap();
    assert_eq!(ids.len(), 10);
    assert_eq!(ids[0], "veteran");
    let mut pool2 = PlayerPool::new();
    pool2.add(Player::joined_at("veteran".to_string(), 1100, "eu".to_string(), 0));
    for i in 0..10u32 {
        pool2.add(Player::joined_at(format!("f{}", i), 1000, "eu".to_string(), 5_000));
    }
    let taken = pool2.remove_if_all_present(&ids).unwrap();
    assert_eq!(taken[0].id, "veteran");
    assert_eq!(pool2.size(), 1);
}

#[test]
fn worker_decisions_follow_each_event() {
    assert!(matches!(next_action(WorkerEvent::Slept), WorkerAction::Sample));
    assert!(matches!(next_action(WorkerEvent::Sampled(None)), WorkerAction::Sleep(ms) if ms == WORKER_SLEEP_MS));
    match next_action(WorkerEvent::Sampled(Some(vec!["a".to_string()]))) {
        WorkerAction::Evict(ids) => assert_eq!(ids, vec!["a".to_string()]),
        other => panic!("unexpected {:?}", other),
    }
    assert!(matches!(next_action(WorkerEvent::Evicted(None)), WorkerAction::Sample));
    let p = Player::joined_at("p".to_string(), 1, "eu".to_string(), 0);
    match next_action(WorkerEvent::Evicted(Some(vec![p]))) {
        WorkerAction::Publish(ps) => assert_eq!(ps[0].id, "p"),
        other => panic!("unexpected {:?}", other),
    }
    assert!(matches!(next_action(WorkerEvent::Published), WorkerAction::Sample));
    let q = Player::joined_at("q".to_string(), 2, "eu".to_string(), 0);
    match next_action(WorkerEvent::PublishFailed(vec![q])) {
        WorkerAction::Requeue(ps) => assert_eq!(ps[0].id, "q"),
        other => panic!("unexpected {:?}", other),
    }
    assert!(matches!(next_action(WorkerEvent::Requeued), WorkerAction::Sleep(ms) if ms == WORKER_SLEEP_MS));
}

fn ten_players() -> Vec<Player> {
    (0..10u32)
        .map(|i| Player::joined_at(format!("p{}", i), 1000 + 100 * i, "eu".to_string(), 0))
        .collect()
}

#[test]
fn admitted_player_keeps_the_given_join_time() {
    let mut pool = PlayerPool::new();
    let r = admit_player(&mut pool, req(1200, "eu"), 1234).unwrap();
    let taken = pool.remove_if_all_present(&[r.player_id.clone()]).unwrap();
    assert_eq!(taken[0].joined_at_ms, 1234);
    assert_eq!(taken[0].mmr, 1200);
    assert_eq!(taken[0].region, "eu");
}

#[test]
fn admission_counts_only_admitted_players() {
    let mut pool = PlayerPool::new();
    let mut m = Metrics::new();
    admit_and_count(&mut pool, &mut m, req(1200, "eu"), 0).unwrap();
    admit_and_count(&mut pool, &mut m, req(1300, "eu"), 0).unwrap();
    assert_eq!(admit_and_count(&mut pool, &mut m, req(0, "eu"), 0).unwrap_err(), QueueError::MmrOutOfRange(0));
    assert_eq!(admit_and_count(&mut pool, &mut m, req(1300, ""), 0).unwrap_err(), QueueError::EmptyRegion);
    assert_eq!(m.total_queued, 2);
    assert_eq!(pool.size(), 2);
    // Books balance: every queued player is waiting or matched.
    assert_eq!(m.total_queued, pool.size() as u64 + m.total_matched);
}

#[test]
fn publishing_counts_and_records_the_match() {
    let mut m = Metrics::new();
    let mut recent: Vec<MatchRecord> = Vec::new();
    for _ in 0..10 {
        m.player_joined();
    }
    publish_match(ten_players(), &mut m, &mut recent).unwrap();
    assert_eq!(m.matches_made, 1);
    assert_eq!(m.total_matched, 10);
    assert_eq!(m.total_queued, m.total_matched);
    assert_eq!(recent.len(), 1);
    assert_eq!(recent[0].team_a.len(), 5);
    assert_eq!(recent[0].team_b.len(), 5);
    assert_eq!(m.mmr_diff_sum, recent[0].mmr_diff as u64);
    assert_eq!(m.diff_count, 1);
    assert_eq!(recent[0].match_id.len(), 36);
}

#[test]
fn requeued_players_are_waiting_again() {
    let mut pool = PlayerPool::new();
    pool.add(Player::joined_at("x".to_string(), 1450, "eu".to_string(), 0));
    requeue(&mut pool, ten_players());
    assert_eq!(pool.size(), 11);
    // In rating order: x (1450) stands between p4 (1400) and p5 (1500).
    assert_eq!(
        pool.candidates_in_range(1450, 50),
        vec!["p4".to_string(), "x".to_string(), "p5".to_string()]
    );
    let mut ids: Vec<String> = (0..10).map(|i| format!("p{}", i)).collect();
    ids.push("x".to_string());
    let taken = pool.remove_if_all_present(&ids).unwrap();
    assert_eq!(taken.len(), 11);
    assert_eq!(pool.size(), 0);
}

#[test]
fn books_balance_after_a_run_of_steps() {
    let mut pool = PlayerPool::new();
    let mut m = Metrics::new();
    let mut recent: Vec<MatchRecord> = Vec::new();
    for i in 0..11u32 {
        admit_and_count(&mut pool, &mut m, req(1000 + 10 * i, "eu"), 0).unwrap();
    }
    admit_and_count(&mut pool, &mut m, req(0, "eu"), 0).unwrap_err();
    let ids = sample_group_at(&pool, 0).unwrap();
    let players = pool.remove_if_all_present(&ids).unwrap();
    // Ten players in flight: queued = waiting + in flight + matched.
    assert_eq!(m.total_queued, pool.size() as u64 + players.len() as u64 + m.total_matched);
    publish_match(players, &mut m, &mut recent).unwrap();
    assert_eq!(m.total_queued, 11);
    assert_eq!(m.total_queued, pool.size() as u64 + m.total_matched);
    assert_eq!(m.total_matched, 10 * m.matches_made);
}

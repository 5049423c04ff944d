use matchmaking::models::{
    window_for_wait, MatchRecord, Player, QueueRequest, TeamMember, BASE_WINDOW, MATCH_SIZE,
    RELAXATION_TICK_SECS, TEAM_SIZE, WINDOW_EXPANSION_PER_TICK,
};

#[test]
fn constants_match_the_documented_schedule() {
    assert_eq!(BASE_WINDOW, 150);
    assert_eq!(RELAXATION_TICK_SECS, 30);
    assert_eq!(WINDOW_EXPANSION_PER_TICK, 50);
    assert_eq!(MATCH_SIZE, 10);
    assert_eq!(TEAM_SIZE, 5);
}

#[test]
fn window_widens_every_thirty_seconds() {
    assert_eq!(window_for_wait(0), 150);
    assert_eq!(window_for_wait(29), 150);
    assert_eq!(window_for_wait(30), 200);
    assert_eq!(window_for_wait(59), 200);
    assert_eq!(window_for_wait(60), 250);
    assert_eq!(window_for_wait(300), 650);
}

#[test]
fn window_is_monotone_over_a_range_of_waits() {
    let mut prev = window_for_wait(0);
    for w in 1..2000u64 {
        let cur = window_for_wait(w);
        assert!(cur >= prev);
        prev = cur;
    }
}

#[test]
fn window_wraps_like_32_bit_arithmetic_for_absurd_waits() {
    // 2^32 ticks truncate to zero ticks in 32 bits.
    let wait = RELAXATION_TICK_SECS * (1u64 << 32);
    assert_eq!(window_for_wait(wait), 150);
    // The largest tick count that still fits.
    let max_ticks = (u32::MAX as u64 - 150) / 50;
    assert_eq!(
        window_for_wait(max_ticks * 30),
        150 + (max_ticks as u32) * 50
    );
}

#[test]
fn wait_and_window_at_a_given_time() {
    let p = Player::joined_at("p1".to_string(), 1200, "eu".to_string(), 1_000_000);
    assert_eq!(p.wait_secs_at(1_000_000), 0);
    assert_eq!(p.wait_secs_at(1_000_999), 0);
    assert_eq!(p.wait_secs_at(1_001_000), 1);
    assert_eq!(p.wait_secs_at(1_090_500), 90);
    // A clock reading before the join time counts as no wait.
    assert_eq!(p.wait_secs_at(5), 0);
    assert_eq!(p.window_at(1_000_000), 150);
    assert_eq!(p.window_at(1_030_000), 200);
    assert_eq!(p.window_at(1_090_500), 300);
}

#[test]
fn new_player_starts_with_base_window() {
    let p = Player::new("abc".to_string(), 1500, "us-east".to_string());
    assert_eq!(p.id, "abc");
    assert_eq!(p.mmr, 1500);
    assert_eq!(p.region, "us-east");
    assert!(p.wait_secs() < 5);
    assert_eq!(p.current_window(), 150);
}

#[test]
fn team_member_from_player_keeps_id_and_rating() {
    let p = Player::joined_at("xyz".to_string(), 1777, "ap".to_string(), 0);
    let t = TeamMember::from(&p);
    assert_eq!(t.player_id, "xyz");
    assert_eq!(t.mmr, 1777);
}

#[test]
fn request_and_record_shapes() {
    let req = QueueRequest { mmr: 1200, region: "us-east".to_string() };
    assert_eq!(req.mmr, 1200);
    let rec = MatchRecord {
        match_id: "m".to_string(),
        team_a: vec![],
        team_b: vec![],
        avg_mmr_a: 1,
        avg_mmr_b: 2,
        mmr_diff: 1,
        created_at_ms: 3,
    };
    assert_eq!(rec.clone().mmr_diff, 1);
}

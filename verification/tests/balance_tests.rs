use matchmaking::balance::{avg_mmr, balance_teams, balance_teams_with};
use matchmaking::ids::new_uuid_string;
use matchmaking::models::Player;

fn players(mmrs: &[u32]) -> Vec<Player> {
    mmrs.iter()
        .enumerate()
        .map(|(i, m)| Player::joined_at(format!("p{}", i), *m, "eu".to_string(), 0))
        .collect()
}

#[test]
fn documented_example_alternates_by_rating() {
    // Given in shuffled order; sorted they are 2000, 1900, ..., 1100.
    let ps = players(&[1500, 2000, 1100, 1800, 1300, 1900, 1600, 1200, 1700, 1400]);
    let r = balance_teams_with(ps, "m-1".to_string(), 42);
    let a: Vec<u32> = r.team_a.iter().map(|m| m.mmr).collect();
    let b: Vec<u32> = r.team_b.iter().map(|m| m.mmr).collect();
    assert_eq!(a, vec![2000, 1800, 1600, 1400, 1200]);
    assert_eq!(b, vec![1900, 1700, 1500, 1300, 1100]);
    // Totals 8000 and 7500: averages 1600 and 1500, one hundred apart.
    assert_eq!(r.avg_mmr_a, 1600);
    assert_eq!(r.avg_mmr_b, 1500);
    assert_eq!(r.mmr_diff, 100);
    assert_eq!(r.match_id, "m-1");
    assert_eq!(r.created_at_ms, 42);
}

#[test]
fn members_keep_their_ids() {
    let ps = players(&[1000, 1001, 1002, 1003, 1004, 1005, 1006, 1007, 1008, 1009]);
    let r = balance_teams_with(ps, "m".to_string(), 0);
    let a: Vec<&str> = r.team_a.iter().map(|m| m.player_id.as_str()).collect();
    let b: Vec<&str> = r.team_b.iter().map(|m| m.player_id.as_str()).collect();
    assert_eq!(a, vec!["p9", "p7", "p5", "p3", "p1"]);
    assert_eq!(b, vec!["p8", "p6", "p4", "p2", "p0"]);
}

#[test]
fn averages_round_down() {
    let ps = players(&[1001, 1000, 1000, 1000, 1000, 1000, 1000, 1000, 1000, 1003]);
    let r = balance_teams_with(ps, "m".to_string(), 0);
    // Team A: 1003, 1000, 1000, 1000, 1000 -> 5003 / 5 = 1000.
    // Team B: 1001, 1000, 1000, 1000, 1000 -> 5001 / 5 = 1000.
    assert_eq!(r.avg_mmr_a, 1000);
    assert_eq!(r.avg_mmr_b, 1000);
    assert_eq!(r.mmr_diff, 0);
}

#[test]
fn team_a_is_never_weaker_and_within_the_spread() {
    let sets: [[u32; 10]; 3] = [
        [1, 2, 3, 4, 5, 6, 7, 8, 9, 10],
        [5000, 5000, 5000, 1, 1, 1, 1, 1, 1, 1],
        [u32::MAX, u32::MAX, 0, 0, 7, 7, 9, 9, 100, 3],
    ];
    for set in sets.iter() {
        let r = balance_teams_with(players(set), "m".to_string(), 0);
        assert!(r.avg_mmr_a >= r.avg_mmr_b);
        assert_eq!(r.mmr_diff, r.avg_mmr_a - r.avg_mmr_b);
        let total_a: u64 = r.team_a.iter().map(|m| m.mmr as u64).sum();
        let total_b: u64 = r.team_b.iter().map(|m| m.mmr as u64).sum();
        let max = *set.iter().max().unwrap() as u64;
        let min = *set.iter().min().unwrap() as u64;
        assert!(total_a >= total_b);
        assert!(total_a - total_b <= max - min);
        let mut all: Vec<u32> = r.team_a.iter().chain(r.team_b.iter()).map(|m| m.mmr).collect();
        let mut given = set.to_vec();
        all.sort();
        given.sort();
        assert_eq!(all, given);
    }
}

#[test]
fn balance_teams_names_the_match_with_a_v4_uuid() {
    let r = balance_teams(players(&[1, 2, 3, 4, 5, 6, 7, 8, 9, 10])).unwrap();
    let id: Vec<char> = r.match_id.chars().collect();
    assert_eq!(id.len(), 36);
    for (i, c) in id.iter().enumerate() {
        if i == 8 || i == 13 || i == 18 || i == 23 {
            assert_eq!(*c, '-');
        } else {
            assert!(c.is_ascii_hexdigit() && !c.is_ascii_uppercase());
        }
    }
    assert_eq!(id[14], '4');
    assert!(matches!(id[19], '8' | '9' | 'a' | 'b'));
    assert!(r.created_at_ms > 0);
    let other = balance_teams(players(&[1, 2, 3, 4, 5, 6, 7, 8, 9, 10])).unwrap();
    assert_ne!(other.match_id, r.match_id);
}

#[test]
fn average_of_a_team() {
    assert_eq!(avg_mmr(&[]), 0);
    assert_eq!(avg_mmr(&players(&[10, 20, 31])), 20);
    assert_eq!(avg_mmr(&players(&[u32::MAX, u32::MAX])), u32::MAX);
}

#[test]
fn fresh_ids_are_lower_case_v4_uuids() {
    let a = new_uuid_string().unwrap();
    let b = new_uuid_string().unwrap();
    assert_ne!(a, b);
    let id: Vec<char> = a.chars().collect();
    assert_eq!(id.len(), 36);
    assert_eq!(id[8], '-');
    assert_eq!(id[13], '-');
    assert_eq!(id[18], '-');
    assert_eq!(id[23], '-');
    assert_eq!(id[14], '4');
    assert!(matches!(id[19], '8' | '9' | 'a' | 'b'));
    assert!(a.chars().all(|c| c == '-' || (c.is_ascii_hexdigit() && !c.is_ascii_uppercase())));
}

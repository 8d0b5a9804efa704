use std::cmp::Ordering;
use swiss_tournament::matching::{Matching, STAT_SCALE};
use swiss_tournament::players::Player;

fn scaled(x: f64) -> u64 {
    (x * STAT_SCALE as f64) as u64
}

fn share(x: u64) -> f64 {
    x as f64 / STAT_SCALE as f64
}

fn assert_ap(left: f64, right: f64, eps: f64) {
    assert!(left > right - eps);
    assert!(left < right + eps);
}

#[test]
fn test_player_construct() {
    let p = Player::new(0, "ã‚ğŸ˜ã—ğŸ˜ã¯ğŸ˜ã‚‰".to_string());
    assert_eq!(*p.name(), "ã‚ğŸ˜ã—ğŸ˜ã¯ğŸ˜ã‚‰".to_string());
    assert_eq!(p.id, 0);
    assert!(!p.dropped);
}

#[test]
fn test_add_matching() {
    let mut p = Player::new(0, "ã‚ğŸ˜ã—ğŸ˜ã¯ğŸ˜ã‚‰".to_string());
    p.add_matching(Matching::new(0, 0, 0, 1, 2, 0, 0, false, false));
    p.add_matching(Matching::new(0, 0, 0, 2, 1, 1, 0, false, false));
    p.add_matching(Matching::new(0, 0, 0, 3, 2, 0, 1, false, false));
    p.add_matching(Matching::new(0, 0, 0, 4, 0, 0, 0, false, true));
    p.add_matching(Matching::new(0, 0, 0, 5, 0, 0, 2, false, false));
    assert_eq!(p.matching_list[0].draw_count(), 0);
    assert_eq!(p.matching_list[1].win_count(), 1);
    assert!(!p.matching_list[3].is_valid());
}

#[test]
fn test_points_calculation() {
    let mut p = Player::new(0, "ã‚ğŸ˜ã—ğŸ˜ã¯ğŸ˜ã‚‰".to_string());
    p.add_matching(Matching::new(0, 0, 0, 1, 2, 0, 0, false, false));
    p.add_matching(Matching::new(0, 0, 0, 2, 1, 1, 0, false, false));
    p.add_matching(Matching::new(0, 0, 0, 3, 2, 0, 1, false, false));
    p.add_matching(Matching::new(0, 0, 0, 4, 0, 0, 0, false, true));
    p.add_matching(Matching::new(0, 0, 0, 5, 0, 0, 2, false, false));
    p.calculate_points();
    let mwp: Vec<u64> = vec![0.800, 0.067, 0.500, 0.667, 0.000, 0.867].into_iter().map(scaled).collect();
    p.calculate_opponent_match_win_percentages(&mwp);
    p.calculate_game_win_percentages();
    assert_eq!(p.points, 12);
    assert_ap(share(p.opponent_match_win_percentage), 0.591, 0.001);
    assert_ap(share(p.game_win_percentage), 0.5833, 0.0001);
}

#[test]
fn test_special_points() {
    let mut p = Player::new(0, "ã‚ğŸ˜ã—ğŸ˜ã¯ğŸ˜ã‚‰".to_string());
    p.add_matching(Matching::new(0, 0, 0, 1, 2, 1, 0, false, false));
    p.add_matching(Matching::new(0, 0, 0, 2, 1, 1, 0, true, false));
    p.add_matching(Matching::new(0, 0, 0, 3, 2, 0, 1, false, true));
    p.add_matching(Matching::no_opponent_new(0, 0, 0));
    p.add_matching(Matching::dropped_new(0, 0, 0));
    p.calculate_points();
    let stats: Vec<u64> = vec![0.800, 0.067, 0.500, 0.667, 0.000, 0.867].into_iter().map(scaled).collect();
    p.calculate_opponent_match_win_percentages(&stats);
    p.calculate_game_win_percentages();
    p.calculate_opponent_game_win_percentages(&stats);
    assert_eq!(p.points, 9);
    assert_ap(share(p.opponent_match_win_percentage), 0.333, 0.001);
    assert_ap(share(p.game_win_percentage), 0.777, 0.001);
    assert_ap(share(p.opponent_game_win_percentage), 0.067, 0.001);
}

#[test]
fn test_players_ord() {
    let mut ps = Vec::new();
    let mut p1 = Player::new(0, "ã‚ğŸ˜ã—ğŸ˜ã¯ğŸ˜ã‚‰".to_string());
    p1.points = 1;
    let mut p2 = Player::new(1, "ã‚ğŸ˜ã—ğŸ˜ã¯ğŸ˜ã‚‰".to_string());
    p2.points = 2;
    let mut p3 = Player::new(2, "ã‚ğŸ˜ã—ğŸ˜ã¯ğŸ˜ã‚‰".to_string());
    p3.points = 0;
    let mut p4 = Player::new(3, "ã‚ğŸ˜ã—ğŸ˜ã¯ğŸ˜ã‚‰".to_string());
    p4.points = 1;
    assert_eq!(p1.cmp(&p2), Ordering::Less);
    assert_eq!(p1.cmp(&p3), Ordering::Greater);
    assert_eq!(p1.cmp(&p4), Ordering::Greater); // ID is less than p4, so Ordering is Greater
    ps.push(p1);
    ps.push(p2);
    ps.push(p3);
    ps.push(p4);
    ps.sort_by(|a, b| a.cmp(b));
    assert_eq!(ps[0].id, 2);
    assert_eq!(ps[3].id, 1);
}

#[test]
fn ranking_criteria_in_order() {
    let mut a = Player::new(5, "a".to_string());
    let mut b = Player::new(6, "b".to_string());
    assert_eq!(a.cmp(&b), Ordering::Greater);
    b.opponent_game_win_percentage = 1;
    assert_eq!(a.cmp(&b), Ordering::Less);
    a.game_win_percentage = 1;
    assert_eq!(a.cmp(&b), Ordering::Greater);
    b.opponent_match_win_percentage = 1;
    assert_eq!(a.cmp(&b), Ordering::Less);
    a.points = 3;
    assert_eq!(a.cmp(&b), Ordering::Greater);
    a.dropped = true;
    assert_eq!(a.cmp(&b), Ordering::Less);
    assert_eq!(a.partial_cmp(&b), Some(Ordering::Less));
    assert!(a != b);
    let c = Player::new(5, "other name".to_string());
    let d = Player::new(5, "c".to_string());
    assert!(c == d);
    assert_eq!(c.cmp(&d), Ordering::Equal);
}

#[test]
fn dummy_is_dropped() {
    let d = Player::dummy(9);
    assert!(d.is_dropped());
    assert_eq!(d.id(), 9);
    assert_eq!(d.points(), 0);
}

#[test]
fn rounds_counted_skip_drop_placeholders() {
    let mut p = Player::new(0, "x".to_string());
    assert_eq!(p.matched_round_number(), 0);
    p.calculate_points();
    p.calculate_match_win_percentages();
    assert_eq!(p.match_win_percentage(), 0);
    p.add_matching(Matching::new(1, 1, 0, 1, 2, 0, 0, false, false));
    p.add_matching(Matching::dropped_new(2, 2, 0));
    assert_eq!(p.matched_round_number(), 1);
    p.calculate_points();
    p.calculate_match_win_percentages();
    assert_eq!(p.points(), 3);
    assert_eq!(p.match_win_percentage(), STAT_SCALE);
    p.initialize_points();
    assert_eq!(p.points(), 0);
    assert_eq!(p.match_win_percentage(), 0);
    assert_eq!(p.matching_list().len(), 2);
}

#[test]
fn empty_history_statistics_are_zero() {
    let mut p = Player::new(0, "x".to_string());
    p.add_matching(Matching::no_opponent_new(1, 1, 0));
    p.calculate_points();
    p.calculate_match_win_percentages();
    p.calculate_opponent_match_win_percentages(&vec![]);
    p.calculate_game_win_percentages();
    p.calculate_opponent_game_win_percentages(&vec![]);
    assert_eq!(p.points(), 3);
    assert_eq!(p.match_win_percentage(), STAT_SCALE);
    assert_eq!(p.opponent_match_win_percentage(), 0);
    assert_eq!(p.game_win_percentage(), 0);
    assert_eq!(p.opponent_game_win_percentage(), 0);
}

#[test]
fn had_matched_id_looks_for_opponents_and_byes() {
    let mut p = Player::new(2, "x".to_string());
    assert!(!p.had_matched_id(None));
    assert!(!p.had_matched_id(Some(0)));
    p.add_matching(Matching::no_opponent_new(1, 1, 2));
    assert!(p.had_matched_id(None));
    assert!(!p.had_matched_id(Some(0)));
    p.add_matching(Matching::new(2, 2, 2, 4, 0, 0, 0, true, false));
    assert!(p.had_matched_id(Some(4)));
    assert!(!p.had_matched_id(Some(3)));
}

use swiss_tournament::matching::{Matching, STAT_SCALE};

#[test]
fn test_is_avail() {
    let m = Matching::new(1, 0, 0, 1, 10, 0, 10, false, false);
    assert!(m.is_valid());
    let m = Matching::new(1, 0, 0, 1, 10, 0, 10, true, false);
    assert!(!m.is_valid());
    let m = Matching::new(1, 0, 0, 1, 10, 0, 10, true, true);
    assert!(!m.is_valid());
    let m = Matching::new(1, 0, 0, 1, 10, 0, 10, false, true);
    assert!(!m.is_valid());
}

#[test]
fn test_result() {
    let m = Matching::new(1, 0, 0, 1, 10, 0, 10, false, false);
    assert!(m.is_draw());
    assert!(!m.is_win());
    assert!(!m.is_lose());
    assert_eq!(m.matching_points(), 1);
    let m = Matching::new(1, 0, 0, 1, 10, 0, 5, false, false);
    assert!(!m.is_draw());
    assert!(m.is_win());
    assert!(!m.is_lose());
    assert_eq!(m.matching_points(), 3);
    let m = Matching::new(1, 0, 0, 1, 5, 0, 10, false, false);
    assert!(!m.is_draw());
    assert!(!m.is_win());
    assert!(m.is_lose());
    assert_eq!(m.matching_points(), 0);
    let m = Matching::new(1, 0, 0, 1, 10, 0, 10, true, false);
    assert!(!m.is_draw());
    assert!(!m.is_win());
    assert!(m.is_lose());
    assert_eq!(m.matching_points(), 0);
    let m = Matching::new(1, 0, 0, 1, 10, 0, 10, false, true);
    assert!(!m.is_draw());
    assert!(m.is_win());
    assert!(!m.is_lose());
    assert_eq!(m.matching_points(), 3);
    let m = Matching::new(1, 0, 0, 1, 10, 0, 10, true, true);
    assert!(m.is_draw());
    assert!(!m.is_win());
    assert!(!m.is_lose());
    assert_eq!(m.matching_points(), 1);
    let m = Matching::no_opponent_new(1, 0, 0);
    assert!(!m.is_draw());
    assert!(m.is_win());
    assert!(!m.is_lose());
    assert_eq!(m.matching_points(), 3);
    let m = Matching::dropped_new(1, 0, 0);
    assert!(!m.is_draw());
    assert!(!m.is_win());
    assert!(m.is_lose());
    assert_eq!(m.matching_points(), 0);
}

#[test]
fn outcome_is_exactly_one_of_three() {
    for w in 0..4 {
        for d in 0..3 {
            for l in 0..4 {
                for pw in [false, true] {
                    for ow in [false, true] {
                        let m = Matching::new(7, 2, 3, 5, w, d, l, pw, ow);
                        let n = m.is_win() as i32 + m.is_draw() as i32 + m.is_lose() as i32;
                        assert_eq!(n, 1);
                        let expected = if m.is_win() {
                            3
                        } else if m.is_draw() {
                            1
                        } else {
                            0
                        };
                        assert_eq!(m.matching_points(), expected);
                    }
                }
            }
        }
    }
}

#[test]
fn bye_and_drop_are_not_valid_and_not_reversible() {
    let bye = Matching::no_opponent_new(3, 1, 4);
    assert!(bye.is_no_opponent());
    assert!(!bye.is_dropped());
    assert!(!bye.is_valid());
    assert!(!bye.is_reversible());
    assert_eq!(bye.player_id(), 4);
    let drop = Matching::dropped_new(3, 1, 4);
    assert!(drop.is_dropped());
    assert!(!drop.is_no_opponent());
    assert!(!drop.is_valid());
    assert!(!drop.is_reversible());
    let withdrawn = Matching::new(3, 1, 4, 2, 0, 0, 0, true, false);
    assert!(withdrawn.is_reversible());
}

#[test]
fn rev_swaps_sides_and_counts() {
    let m = Matching::new(9, 3, 2, 6, 2, 1, 0, false, true);
    let r = Matching::rev(&m);
    assert_eq!(r.player_id(), 6);
    assert_eq!(r.opponent_id(), 2);
    assert_eq!(r.win_count(), 0);
    assert_eq!(r.draw_count(), 1);
    assert_eq!(r.lose_count(), 2);
    assert!(m.is_win());
    assert!(r.is_lose());
    let m = Matching::new(9, 3, 2, 6, 2, 1, 0, false, false);
    let r = Matching::rev(&m);
    assert!(m.is_win());
    assert!(r.is_lose());
    assert_eq!(r.matching_points(), 0);
}

#[test]
fn game_win_percentage_values() {
    let m = Matching::new(1, 0, 0, 1, 2, 1, 0, false, false);
    assert_eq!(m.game_win_percentage(), 7 * STAT_SCALE / 9);
    let m = Matching::new(1, 0, 0, 1, 1, 0, 3, false, false);
    assert_eq!(m.game_win_percentage(), STAT_SCALE / 4);
    let m = Matching::new(1, 0, 0, 1, 2, 0, 0, false, false);
    assert_eq!(m.game_win_percentage(), STAT_SCALE);
    let m = Matching::new(1, 0, 0, 1, 0, 0, 0, false, false);
    assert_eq!(m.game_win_percentage(), 0);
}

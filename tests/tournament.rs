use swiss_tournament::matching::{Matching, STAT_SCALE};
use swiss_tournament::matching_algorithm::{
    filter_sorted_matchable_players, matching_build, matching_build_greed, PairingError,
};
use swiss_tournament::players::Player;
use swiss_tournament::swiss_system_tournament::{RoundError, Tournament};

fn share(x: u64) -> f64 {
    x as f64 / STAT_SCALE as f64
}

fn assert_ap(left: f64, right: f64, eps: f64) {
    assert!(left > right - eps);
    assert!(left < right + eps);
}

fn check_assignment(players: &Vec<Player>, ol: &Vec<Option<usize>>) {
    assert_eq!(ol.len(), players.len());
    let mut byes = 0;
    let mut active = 0;
    for i in 0..players.len() {
        if !players[i].is_dropped() {
            active += 1;
        }
        match ol[i] {
            Some(n) => {
                assert!(!players[i].is_dropped());
                assert_eq!(ol[n], Some(i));
                assert!(!players[i].had_matched_id(Some(n)));
            }
            None => {
                if !players[i].is_dropped() {
                    byes += 1;
                    assert!(!players[i].had_matched_id(None));
                }
            }
        }
    }
    assert_eq!(byes, active % 2);
}

#[test]
fn test_add_player() {
    let mut t: Tournament = Default::default();
    for i in 0..10000 {
        let p: Player = Player::new(i, format!("{}abcd", i));
        t.add_player(p);
    }
    for i in 0..10000 {
        assert_eq!(*t.players()[i].name(), format!("{}abcd", i));
    }
    assert_eq!(t.player_number(), 10000);
}

#[test]
fn test_aggregate_matches() {
    let mut t: Tournament = Default::default();
    for i in 0..4 {
        let p: Player = Player::new(i, format!("{}abcd", i));
        t.add_player(p);
    }
    let m = vec![
        Matching::new(1, 1, 0, 1, 3, 0, 1, false, false),
        Matching::new(1, 1, 2, 3, 0, 0, 2, false, false),
    ];
    t.aggregate_matches(m).unwrap();
    let m = vec![
        Matching::new(2, 2, 0, 3, 3, 0, 1, false, false),
        Matching::dropped_new(2, 2, 1),
        Matching::no_opponent_new(2, 2, 2),
    ];
    t.aggregate_matches(m).unwrap();
    let ps = t.players();
    assert_eq!(ps[0].points(), 6);
    assert_eq!(ps[1].points(), 0);
    assert_eq!(ps[2].points(), 3);
    assert_eq!(ps[3].points(), 3);
    assert_eq!(share(ps[0].match_win_percentage()), 1.0);
    assert_eq!(share(ps[1].match_win_percentage()), 0.0);
    assert_eq!(share(ps[2].match_win_percentage()), 0.5);
    assert_eq!(share(ps[3].match_win_percentage()), 0.5);
    assert_ap(share(ps[0].opponent_match_win_percentage()), 0.42, 0.01);
    assert_ap(share(ps[1].opponent_match_win_percentage()), 1.00, 1e-5);
    assert_ap(share(ps[2].opponent_match_win_percentage()), 0.50, 1e-5);
    assert_ap(share(ps[3].opponent_match_win_percentage()), 0.75, 1e-5);
    assert_ap(share(ps[0].game_win_percentage()), 0.75, 1e-5);
    assert_ap(share(ps[1].game_win_percentage()), 0.25, 1e-5);
    assert_ap(share(ps[2].game_win_percentage()), 0.00, 1e-5);
    assert_ap(share(ps[3].game_win_percentage()), 0.625, 1e-5);
    assert_ap(share(ps[0].opponent_game_win_percentage()), 0.4375, 1e-5);
    assert_ap(share(ps[1].opponent_game_win_percentage()), 0.75, 1e-5);
    assert_ap(share(ps[2].opponent_game_win_percentage()), 0.625, 1e-5);
    assert_ap(share(ps[3].opponent_game_win_percentage()), 0.375, 1e-5);
}

fn simulate(greedy: bool) {
    let mut t: Tournament = Default::default();
    for i in 0..2000 {
        let p: Player = Player::new(i, format!("{}abcd", i));
        t.add_player(p);
    }

    for _ in 0..20 {
        let ol = if greedy {
            t.greedy_matching_build().unwrap()
        } else {
            t.matching_build().unwrap()
        };
        let mut mt = vec![false; t.players().len()];
        let mut ml = Vec::new();

        // the pairing is symmetric and repeats no earlier match
        for i in 0..t.players().len() {
            match *ol.get(i).unwrap() {
                Some(n) => {
                    assert_eq!(i, ol.get(n).unwrap().unwrap());
                    assert!(!t.players().get(i).unwrap().had_matched_id(Some(n)));
                }
                None => {
                    assert!(!t.players().get(i).unwrap().had_matched_id(None));
                }
            }
        }

        // results of the round
        for (i, o) in ol.into_iter().enumerate() {
            match o {
                Some(n) => {
                    if !mt[n] {
                        mt[i] = true;
                        mt[n] = true;
                        ml.push(Matching::new(1, 1, i, n, 1, 0, 0, false, false));
                    }
                }
                None => {
                    ml.push(Matching::no_opponent_new(1, 1, i));
                }
            }
        }

        t.aggregate_matches(ml).unwrap();
    }
}

#[test]
fn test_matching_build() {
    simulate(false);
}

#[test]
fn test_greedy_matching_build() {
    simulate(true);
}

#[test]
fn duplicate_results_are_refused() {
    let mut t = Tournament::new();
    for i in 0..4 {
        t.add_player(Player::new(i, format!("p{}", i)));
    }
    // player 1 appears as the opponent of one result and the player of another
    let r = t.aggregate_matches(vec![
        Matching::new(1, 1, 0, 1, 2, 0, 0, false, false),
        Matching::new(2, 1, 1, 2, 2, 0, 0, false, false),
    ]);
    assert_eq!(r, Err(RoundError::DuplicatedMatching));
    // player 1 is the opponent twice
    let r = t.aggregate_matches(vec![
        Matching::new(1, 1, 0, 1, 2, 0, 0, false, false),
        Matching::new(2, 1, 2, 1, 2, 0, 0, false, false),
    ]);
    assert_eq!(r, Err(RoundError::DuplicatedMatching));
    // player 3 is given two byes
    let r = t.aggregate_matches(vec![
        Matching::no_opponent_new(1, 1, 3),
        Matching::no_opponent_new(2, 1, 3),
    ]);
    assert_eq!(r, Err(RoundError::DuplicatedMatching));
    for p in t.players() {
        assert_eq!(p.matching_list().len(), 0);
    }
    assert_eq!(t.rounds(), 0);
    let r = t.aggregate_matches(vec![
        Matching::new(1, 1, 0, 1, 2, 0, 0, false, false),
        Matching::new(2, 1, 2, 3, 0, 0, 2, false, false),
    ]);
    assert_eq!(r, Ok(()));
    assert_eq!(t.rounds(), 1);
    assert_eq!(t.players()[1].matching_list()[0].lose_count(), 2);
    assert_eq!(t.players()[3].points(), 3);
}

#[test]
fn odd_field_gets_one_bye_lowest_first() {
    let mut t = Tournament::new();
    for i in 0..5 {
        t.add_player(Player::new(i, format!("p{}", i)));
    }
    t.aggregate_matches(vec![
        Matching::new(1, 1, 0, 1, 2, 0, 0, false, false),
        Matching::new(1, 1, 2, 3, 2, 0, 0, false, false),
        Matching::no_opponent_new(1, 1, 4),
    ])
    .unwrap();
    for ol in [t.matching_build().unwrap(), t.greedy_matching_build().unwrap()] {
        check_assignment(t.players(), &ol);
    }
    let ol = t.matching_build().unwrap();
    // player 4 already had a bye; the bye goes to a player without points
    let bye: Vec<usize> = (0..5).filter(|&i| ol[i].is_none()).collect();
    assert_eq!(bye.len(), 1);
    assert!(bye[0] == 1 || bye[0] == 3);
}

#[test]
fn dropped_players_are_left_out() {
    let mut ps = Vec::new();
    for i in 0..6 {
        ps.push(Player::new(i, format!("p{}", i)));
    }
    ps[0].dropped = true;
    ps[3].dropped = true;
    ps[4].dropped = true;
    let order = filter_sorted_matchable_players(&ps);
    assert_eq!(order, vec![1, 2, 5]);
    for ol in [matching_build(&ps).unwrap(), matching_build_greed(&ps).unwrap()] {
        assert_eq!(ol[0], None);
        assert_eq!(ol[3], None);
        assert_eq!(ol[4], None);
        check_assignment(&ps, &ol);
    }
}

#[test]
fn ranking_order_puts_points_first() {
    let mut ps = Vec::new();
    for i in 0..4 {
        ps.push(Player::new(i, format!("p{}", i)));
    }
    ps[2].points = 6;
    ps[1].points = 3;
    ps[3].points = 3;
    ps[3].opponent_match_win_percentage = 10;
    assert_eq!(filter_sorted_matchable_players(&ps), vec![2, 3, 1, 0]);
    let ol = matching_build(&ps).unwrap();
    assert_eq!(ol, vec![Some(1), Some(0), Some(3), Some(2)]);
}

#[test]
fn no_pairing_after_everyone_met() {
    let mut t = Tournament::new();
    for i in 0..2 {
        t.add_player(Player::new(i, format!("p{}", i)));
    }
    t.aggregate_matches(vec![Matching::new(1, 1, 0, 1, 1, 0, 0, false, false)]).unwrap();
    assert_eq!(t.matching_build(), Err(PairingError::NoSatisfyingMatching));
    assert_eq!(t.greedy_matching_build(), Err(PairingError::NoSatisfyingMatching));
}

#[test]
fn single_player_gets_bye_once() {
    let mut t = Tournament::new();
    t.add_player(Player::new(0, "solo".to_string()));
    assert_eq!(t.matching_build(), Ok(vec![None]));
    assert_eq!(t.greedy_matching_build(), Ok(vec![None]));
    t.aggregate_matches(vec![Matching::no_opponent_new(1, 1, 0)]).unwrap();
    assert_eq!(t.matching_build(), Err(PairingError::NoSatisfyingMatching));
    assert_eq!(t.greedy_matching_build(), Err(PairingError::NoSatisfyingMatching));
}

#[test]
fn empty_roster_pairs_nobody() {
    let t = Tournament::new();
    assert_eq!(t.matching_build(), Ok(vec![]));
    assert_eq!(t.greedy_matching_build(), Ok(vec![]));
}

#[test]
fn dp_pairing_is_cheapest_while_backtracking_takes_first() {
    let mut ps = Vec::new();
    for i in 0..5 {
        ps.push(Player::new(i, format!("p{}", i)));
    }
    ps[0].add_matching(Matching::new(1, 1, 0, 2, 1, 0, 0, false, false));
    ps[2].add_matching(Matching::new(1, 1, 2, 0, 0, 0, 1, false, false));
    ps[0].add_matching(Matching::new(2, 2, 0, 4, 1, 0, 0, false, false));
    ps[4].add_matching(Matching::new(2, 2, 4, 0, 0, 0, 1, false, false));
    let points = [4, 9, 8, 1, 7];
    for i in 0..5 {
        ps[i].points = points[i];
    }
    assert_eq!(filter_sorted_matchable_players(&ps), vec![1, 2, 4, 0, 3]);
    let dp = matching_build(&ps).unwrap();
    assert_eq!(dp, vec![Some(1), Some(0), Some(4), None, Some(2)]);
    let greedy = matching_build_greed(&ps).unwrap();
    assert_eq!(greedy, vec![None, Some(2), Some(1), Some(4), Some(3)]);
    check_assignment(&ps, &dp);
    check_assignment(&ps, &greedy);
}

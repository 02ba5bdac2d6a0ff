use std::collections::HashSet;
use swyss::fraction::{add_checked, mean};
use swyss::{Fraction, InvalidScore, Pairing, PairingResultError, Player, Tournament};

fn value(f: Fraction) -> f64 {
    f.num as f64 / f.den as f64
}

fn named(n: usize) -> Vec<Player> {
    (1..n + 1).map(|i| Player::new(format!("Player {}", i).as_str())).collect()
}

#[test]
fn rounds_are_ceil_log2() {
    let cases = [(1, 0), (2, 1), (3, 2), (4, 2), (8, 3), (13, 4), (16, 4), (60, 6), (64, 6)];
    for (n, rounds) in cases {
        let tourn = Tournament::new(named(n));
        assert_eq!(tourn.rounds, rounds, "{} players", n);
        assert_eq!(tourn.needs_bye, n % 2 == 1);
    }
}

#[test]
fn single_player_plays_no_round() {
    let mut tourn = Tournament::new(named(1));
    assert_eq!(tourn.next_round(), None);
    assert_eq!(tourn.next_round(), None);
    assert_eq!(tourn.current_round, 2);
}

#[test]
fn bye_is_two_nil_without_opponent() {
    let mut tourn = Tournament::new(named(5));
    let pairings = tourn.next_round().unwrap();
    assert_eq!(pairings.len(), 2);
    let byes: Vec<&Player> = tourn.roster.iter().filter(|p| p.has_bye).collect();
    assert_eq!(byes.len(), 1);
    let bye = byes[0];
    assert_eq!(bye.match_points, 3);
    assert_eq!(bye.game_points, 6);
    assert_eq!(bye.matches_played, 1);
    assert_eq!(bye.games_played, 2);
    assert_eq!(bye.opponents.len(), 0);
    for pair in &pairings {
        assert!(pair.1 != bye.name && pair.2 != bye.name);
    }
    assert_eq!(tourn.players.len(), 5);
}

#[test]
fn no_player_gets_two_byes() {
    let mut tourn = Tournament::new(named(7));
    let mut byes_seen = 0;
    while let Some(pairings) = tourn.next_round() {
        for pair in &pairings {
            assert!(tourn.end_match(pair.0, 2, 0, 0).is_ok());
        }
        byes_seen += 1;
        let with_bye = tourn.roster.iter().filter(|p| p.has_bye).count();
        assert_eq!(with_bye, byes_seen);
    }
    assert_eq!(byes_seen, 3);
}

#[test]
fn round_pairs_every_active_player_once() {
    let mut tourn = Tournament::new(named(10));
    while let Some(pairings) = tourn.next_round() {
        assert_eq!(pairings.len(), 5);
        let mut seen = HashSet::new();
        for pair in &pairings {
            assert!(seen.insert(pair.1.clone()));
            assert!(seen.insert(pair.2.clone()));
            assert!(tourn.end_match(pair.0, 1, 2, 0).is_ok());
        }
        assert_eq!(seen.len(), 10);
    }
}

#[test]
fn no_rematches_across_rounds() {
    let mut tourn = Tournament::new(named(16));
    let mut met = HashSet::new();
    while let Some(pairings) = tourn.next_round() {
        for pair in &pairings {
            let key = if pair.1 < pair.2 {
                (pair.1.clone(), pair.2.clone())
            } else {
                (pair.2.clone(), pair.1.clone())
            };
            assert!(met.insert(key));
            assert!(tourn.end_match(pair.0, 2, 1, 0).is_ok());
        }
    }
    assert_eq!(met.len(), 32);
}

#[test]
fn match_win_percentage_floor() {
    let fresh = Player::new("Fresh");
    let f = fresh.match_win_percentage();
    assert_eq!((f.num, f.den), (1, 3));
    assert_eq!(value(fresh.game_win_percentage()), 1.0 / 3.0);

    let mut poor = Player::new("Poor");
    poor.win_match();
    poor.lose_match();
    poor.lose_match();
    poor.lose_match();
    poor.lose_match();
    assert_eq!(value(poor.match_win_percentage()), 1.0 / 3.0);

    let mut good = Player::new("Good");
    good.win_match();
    good.draw_match();
    good.win_match();
    assert_eq!(value(good.match_win_percentage()), 7.0 / 9.0);
}

#[test]
fn two_nil_round_trip() {
    let mut roster = named(2);
    roster[0].win_match();
    roster[0].win_game();
    let pair = Pairing::new(&mut roster, 0, 1);
    assert_eq!(pair.end_match(&mut roster, 2, 0, 0), Ok(()));
    assert_eq!(roster[0].match_points, 6);
    assert_eq!(roster[0].game_points, 9);
    assert_eq!(roster[0].matches_played, 2);
    assert_eq!(roster[0].games_played, 3);
    assert_eq!(roster[1].match_points, 0);
    assert_eq!(roster[1].game_points, 0);
    assert_eq!(roster[1].matches_played, 1);
    assert_eq!(roster[1].games_played, 2);
    assert_eq!(roster[0].opponents, vec![1]);
    assert_eq!(roster[1].opponents, vec![0]);
}

#[test]
fn invalid_scores_report_the_offending_value() {
    let mut roster = named(2);
    let pair = Pairing::new(&mut roster, 0, 1);
    assert_eq!(pair.end_match(&mut roster, 4, 0, 0), Err(InvalidScore { value: 4 }));
    assert_eq!(pair.end_match(&mut roster, 0, 3, 0), Err(InvalidScore { value: 3 }));
    assert_eq!(pair.end_match(&mut roster, 0, 0, 4), Err(InvalidScore { value: 4 }));
    assert_eq!(pair.end_match(&mut roster, 2, 1, 2), Err(InvalidScore { value: 5 }));
    assert_eq!(pair.end_match(&mut roster, 0, 0, 0), Err(InvalidScore { value: 0 }));
    for p in &roster {
        assert_eq!(p.match_points, 0);
        assert_eq!(p.game_points, 0);
        assert_eq!(p.matches_played, 0);
        assert_eq!(p.games_played, 0);
    }
}

#[test]
fn recording_results_in_a_tournament() {
    let mut tourn = Tournament::new(named(2));
    let pairings = tourn.next_round().unwrap();
    let uuid = pairings[0].0;
    let other = uuid.wrapping_add(1);
    assert_eq!(tourn.end_match(other, 2, 0, 0), Err(PairingResultError::NotFound(other)));
    assert_eq!(tourn.end_match(uuid, 3, 0, 0), Err(PairingResultError::OutOfRange(3)));
    assert_eq!(tourn.end_match(uuid, 1, 1, 0), Ok(()));
    assert_eq!(tourn.end_match(uuid, 1, 1, 0), Err(PairingResultError::NotFound(uuid)));
    for p in &tourn.roster {
        assert_eq!(p.match_points, 1);
        assert_eq!(p.game_points, 3);
    }
}

#[test]
fn two_player_ranking_puts_the_winner_first() {
    let mut tourn = Tournament::new(named(2));
    let pairings = tourn.next_round().unwrap();
    let (uuid, home, _) = pairings[0].clone();
    assert!(tourn.end_match(uuid, 2, 1, 0).is_ok());
    let ranking = tourn.ranking();
    assert_eq!(ranking[0].name, home);
    assert_eq!(ranking[0].match_points, 3);
    assert_eq!(ranking[1].match_points, 0);
}

#[test]
fn ranking_follows_the_cascade() {
    let mut tourn = Tournament::new(named(5));
    // match points decide first
    let points = [3, 9, 3, 6, 3];
    for (i, p) in points.iter().enumerate() {
        tourn.roster[i].match_points = *p;
        tourn.roster[i].matches_played = 3;
        tourn.roster[i].games_played = 9;
    }
    // among the three with 3 points, game win percentage decides
    tourn.roster[0].game_points = 12;
    tourn.roster[2].game_points = 18;
    tourn.roster[4].game_points = 15;
    let order = tourn.ranking_order();
    assert_eq!(order, vec![1, 3, 2, 4, 0]);
    let names: Vec<String> = tourn.ranking().into_iter().map(|p| p.name).collect();
    assert_eq!(names, vec!["Player 2", "Player 4", "Player 3", "Player 5", "Player 1"]);
}

#[test]
fn opponents_percentage_breaks_ties() {
    let mut roster = named(4);
    roster[2].win_match();
    roster[3].lose_match();
    roster[0].opponents.push(2);
    roster[1].opponents.push(3);
    let mut tourn = Tournament::new(named(4));
    tourn.roster = roster;
    let standings = tourn.standings();
    assert_eq!(value(standings[0].omwp), 1.0);
    assert_eq!(value(standings[1].omwp), 1.0 / 3.0);
    assert_eq!(value(standings[2].omwp), 1.0 / 3.0);
    let order = tourn.ranking_order();
    assert_eq!(order[0], 2);
    assert_eq!(order[1], 0);
}

#[test]
fn fraction_means() {
    let third = Fraction { num: 1, den: 3 };
    let two_thirds = Fraction { num: 2, den: 3 };
    let half = mean(&vec![third, two_thirds]).unwrap();
    assert_eq!(value(half), 0.5);
    assert!(mean(&vec![]).is_none());
    let big = Fraction { num: 1, den: 1 << 40 };
    let other = Fraction { num: 1, den: (1 << 40) + 1 };
    assert!(add_checked(big, other).is_none());
    assert!(mean(&vec![big, other]).is_none());
    let sum = add_checked(third, Fraction { num: 1, den: 2 }).unwrap();
    assert_eq!((sum.num, sum.den), (5, 6));
    assert!(half.same_value(&Fraction { num: 1, den: 2 }));
    assert!(two_thirds.at_least(&third));
    assert!(!third.at_least(&two_thirds));
}

#[test]
fn players_get_distinct_identifiers() {
    let a = Player::new("A");
    let b = Player::new("B");
    assert_ne!(a.uuid, b.uuid);
    let copy = a.snapshot();
    assert_eq!(copy.uuid, a.uuid);
    assert_eq!(copy.name, "A");
}

#[test]
fn opponents_mean_with_many_denominators() {
    let mut roster = named(13);
    for i in 1..13 {
        roster[i].games_played = 17 + i as u32;
        roster[i].game_points = 2 * (17 + i as u32);
        roster[0].opponents.push(i);
    }
    let ogwp = roster[0].opponents_game_win_percentage(&roster).unwrap();
    assert_eq!((ogwp.num, ogwp.den), (2, 3));
    roster[5].game_points += 1;
    let ogwp = roster[0].opponents_game_win_percentage(&roster).unwrap();
    let expected = (11.0 * 2.0 / 3.0 + (2.0 * 22.0 + 1.0) / 66.0) / 12.0;
    assert!((value(ogwp) - expected).abs() < 1e-12);
    assert_eq!((ogwp.num, ogwp.den), (529, 792));
}

#[test]
fn home_has_at_least_the_away_points() {
    let mut tourn = Tournament::new(named(12));
    while let Some(pairings) = tourn.next_round() {
        for pair in &pairings {
            let points = |name: &String| {
                tourn.roster.iter().find(|p| &p.name == name).unwrap().match_points
            };
            assert!(points(&pair.1) >= points(&pair.2));
        }
        for pair in &pairings {
            assert!(tourn.end_match(pair.0, 2, 0, 0).is_ok());
        }
    }
}

use swyss::{Fraction, Pairing, Player};

fn value(f: Fraction) -> f64 {
    f.num as f64 / f.den as f64
}

/// Player goes 5-2-1
#[test]
fn mwp_521() {
    let mut player = Player::new("5-2-1");

    for _ in 0..5 {
        player.win_match();
    }

    player.lose_match();
    player.lose_match();

    player.draw_match();

    assert_eq!(player.match_points, 16);
    assert_eq!(player.matches_played, 8);
    assert_eq!(value(player.match_win_percentage()), 2.0 / 3.0);
}

/// Player goes 1-3-0, then withdraws from the tournament
#[test]
fn mwp_130_drop() {
    let mut player = Player::new("1-3-0-Drop");

    player.win_match();

    for _ in 0..3 {
        player.lose_match();
    }

    assert_eq!(player.match_points, 3);
    assert_eq!(player.matches_played, 4);
    assert_eq!(value(player.match_win_percentage()), 1.0 / 3.0);
}

/// Player gets a bye, goes 3-2-0 overall, then withdraws
#[test]
fn mwp_bye_320_drop() {
    let mut player = Player::new("Bye-3-2-0-Drop");

    player.bye();

    for _ in 0..2 {
        player.win_match();
        player.lose_match();
    }

    assert_eq!(player.match_points, 9);
    assert_eq!(player.matches_played, 5);
    assert_eq!(value(player.match_win_percentage()), 0.6);
}

/// Player goes 2-0, 2-1, 1-2, 2-0
#[test]
fn gwp_21_10() {
    let mut roster = vec![
        Player::new("21-10"),
        Player::new("Opponent 1"),
        Player::new("Opponent 2"),
        Player::new("Opponent 3"),
        Player::new("Opponent 4"),
    ];

    // 2-0 (6 points)
    let pair = Pairing::new(&mut roster, 0, 1);
    assert!(pair.end_match(&mut roster, 2, 0, 0).is_ok());

    // 2-1 (6 points)
    let pair = Pairing::new(&mut roster, 0, 2);
    assert!(pair.end_match(&mut roster, 2, 1, 0).is_ok());

    // 1-2 (3 points)
    let pair = Pairing::new(&mut roster, 0, 3);
    assert!(pair.end_match(&mut roster, 1, 2, 0).is_ok());

    // 2-0 (6 points)
    let pair = Pairing::new(&mut roster, 0, 4);
    assert!(pair.end_match(&mut roster, 2, 0, 0).is_ok());

    let player = &roster[0];

    assert_eq!(player.opponents.len(), 4);
    assert_eq!(player.game_points, 21);
    assert_eq!(player.games_played, 10);
    assert_eq!(value(player.game_win_percentage()), 0.7);
}

/// Player goes 1-2, 1-2, 0-2, 1-2
#[test]
fn gwp_9_11() {
    let mut roster = vec![
        Player::new("9-11"),
        Player::new("Opponent 1"),
        Player::new("Opponent 2"),
        Player::new("Opponent 3"),
        Player::new("Opponent 4"),
    ];

    // 1-2 (3 points)
    let pair = Pairing::new(&mut roster, 0, 1);
    assert!(pair.end_match(&mut roster, 1, 2, 0).is_ok());

    // 1-2 (3 points)
    let pair = Pairing::new(&mut roster, 0, 2);
    assert!(pair.end_match(&mut roster, 1, 2, 0).is_ok());

    // 0-2 (0 points)
    let pair = Pairing::new(&mut roster, 0, 3);
    assert!(pair.end_match(&mut roster, 0, 2, 0).is_ok());

    // 1-2 (3 points)
    let pair = Pairing::new(&mut roster, 0, 4);
    assert!(pair.end_match(&mut roster, 1, 2, 0).is_ok());

    let player = &roster[0];

    assert_eq!(player.opponents.len(), 4);
    assert_eq!(player.game_points, 9);
    assert_eq!(player.games_played, 11);
    assert_eq!(value(player.game_win_percentage()), 1.0 / 3.0);
}

/// The eight opponents of the `omwp_*` tests, by their records: 4-4-0,
/// 7-1-0, 1-3-1, 3-3-1, 6-2-0, 5-2-1, 4-3-1 and 6-1-1, in a roster whose
/// first slot is left for the player under test.
fn opponents_roster(player: Player) -> Vec<Player> {
    let mut roster = vec![player];

    // Opponent 1 goes 4-4-0
    let mut o1 = Player::new("Opponent 1");
    for _ in 0..4 {
        o1.win_match();
        o1.lose_match();
    }
    assert_eq!(value(o1.match_win_percentage()), 0.5);
    roster.push(o1);

    // Opponent 2 goes 7-1-0
    let mut o2 = Player::new("Opponent 2");
    for _ in 0..7 {
        o2.win_match();
    }
    o2.lose_match();
    assert_eq!(value(o2.match_win_percentage()), 21.0 / 24.0);
    roster.push(o2);

    // Opponent 3 goes 1-3-1
    let mut o3 = Player::new("Opponent 3");
    o3.win_match();
    for _ in 0..3 {
        o3.lose_match();
    }
    o3.draw_match();
    assert_eq!(value(o3.match_win_percentage()), 1.0 / 3.0);
    roster.push(o3);

    // Opponent 4 goes 3-3-1
    let mut o4 = Player::new("Opponent 4");
    for _ in 0..3 {
        o4.win_match();
        o4.lose_match();
    }
    o4.draw_match();
    assert_eq!(value(o4.match_win_percentage()), 10.0 / 21.0);
    roster.push(o4);

    // Opponent 5 goes 6-2-0
    let mut o5 = Player::new("Opponent 5");
    for _ in 0..6 {
        o5.win_match();
    }
    o5.lose_match();
    o5.lose_match();
    assert_eq!(value(o5.match_win_percentage()), 18.0 / 24.0);
    roster.push(o5);

    // Opponent 6 goes 5-2-1
    let mut o6 = Player::new("Opponent 6");
    for _ in 0..5 {
        o6.win_match();
    }
    o6.lose_match();
    o6.lose_match();
    o6.draw_match();
    assert_eq!(value(o6.match_win_percentage()), 16.0 / 24.0);
    roster.push(o6);

    // Opponent 7 goes 4-3-1
    let mut o7 = Player::new("Opponent 7");
    for _ in 0..4 {
        o7.win_match();
    }
    for _ in 0..3 {
        o7.lose_match();
    }
    o7.draw_match();
    assert_eq!(value(o7.match_win_percentage()), 13.0 / 24.0);
    roster.push(o7);

    // Opponent 8 goes 6-1-1
    let mut o8 = Player::new("Opponent 8");
    for _ in 0..6 {
        o8.win_match();
    }
    o8.lose_match();
    o8.draw_match();
    assert_eq!(value(o8.match_win_percentage()), 19.0 / 24.0);
    roster.push(o8);

    roster
}

/// Player goes 6-2-0, their opponents having gone 4-4-0, 7-1-0, 1-3-1, 3-3-1, 6-2-0, 5-2-1,
/// 4-3-1, and 6-1-1
#[test]
fn omwp_normal() {
    let mut roster = opponents_roster(Player::new("Normal"));
    for o in 1..9 {
        roster[0].opponents.push(o);
    }

    let expected_omwp = (12.0 / 24.0
        + 21.0 / 24.0
        + 1.0 / 3.0
        + 10.0 / 21.0
        + 18.0 / 24.0
        + 16.0 / 24.0
        + 13.0 / 24.0
        + 19.0 / 24.0)
        / 8.0;

    let omwp = roster[0].opponents_match_win_percentage(&roster).unwrap();
    assert_eq!(value(omwp), expected_omwp);
}

/// Player goes 6-2-0, their opponents having been bye, 7-1-0, 1-3-1, 3-3-1, 6-2-0, 5-2-1,
/// 4-3-1, and 6-1-1
#[test]
fn omwp_with_bye() {
    let mut player = Player::new("Bye");

    // Player gets bye in round 1
    player.bye();

    let mut roster = opponents_roster(player);
    for o in 2..9 {
        roster[0].opponents.push(o);
    }

    let expected_omwp = (21.0 / 24.0
        + 1.0 / 3.0
        + 10.0 / 21.0
        + 18.0 / 24.0
        + 16.0 / 24.0
        + 13.0 / 24.0
        + 19.0 / 24.0)
        / 7.0;

    let omwp = roster[0].opponents_match_win_percentage(&roster).unwrap();
    assert_eq!(value(omwp), expected_omwp);
}

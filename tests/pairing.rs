use swyss::{Pairing, Player, PlayerSide};

/// Alice 2-0 Bob
#[test]
fn pairing_games_20() {
    let mut roster = vec![Player::new("Alice"), Player::new("Bob")];

    let pair = Pairing::new(&mut roster, 0, 1);

    pair.win_game(&mut roster, PlayerSide::Home);
    pair.win_game(&mut roster, PlayerSide::Home);

    let alice = &roster[0];
    let bob = &roster[1];

    assert_eq!(alice.game_points, 6);
    assert_eq!(bob.game_points, 0);

    assert_eq!(alice.games_played, 2);
    assert_eq!(bob.games_played, 2);

    // Even though a 2-0 is technically a won match, it is the tournament manager's
    // responsibility to mark the match as completed and won, so we expect no change here
    assert_eq!(alice.matches_played, 0);
    assert_eq!(bob.matches_played, 0);
    assert_eq!(alice.match_points, 0);
    assert_eq!(bob.match_points, 0);

    assert_eq!(alice.opponents.len(), 1);
    assert_eq!(bob.opponents.len(), 1);
}

/// Charlie 2-1 Dan
#[test]
fn pairing_games_21() {
    let mut roster = vec![Player::new("Charlie"), Player::new("Dan")];

    let pair = Pairing::new(&mut roster, 0, 1);

    pair.win_game(&mut roster, PlayerSide::Home);
    pair.win_game(&mut roster, PlayerSide::Away);
    pair.win_game(&mut roster, PlayerSide::Home);

    let charlie = &roster[0];
    let dan = &roster[1];

    assert_eq!(charlie.game_points, 6);
    assert_eq!(dan.game_points, 3);

    assert_eq!(charlie.games_played, 3);
    assert_eq!(dan.games_played, 3);

    assert_eq!(charlie.matches_played, 0);
    assert_eq!(dan.matches_played, 0);
    assert_eq!(charlie.match_points, 0);
    assert_eq!(dan.match_points, 0);

    assert_eq!(charlie.opponents.len(), 1);
    assert_eq!(dan.opponents.len(), 1);
}

/// Eve 2-0-1 Frank
#[test]
fn pairing_games_201() {
    let mut roster = vec![Player::new("Eve"), Player::new("Frank")];

    let pair = Pairing::new(&mut roster, 0, 1);

    pair.win_game(&mut roster, PlayerSide::Home);
    pair.draw_game(&mut roster);
    pair.win_game(&mut roster, PlayerSide::Home);

    let eve = &roster[0];
    let frank = &roster[1];

    assert_eq!(eve.game_points, 7);
    assert_eq!(frank.game_points, 1);

    assert_eq!(eve.games_played, 3);
    assert_eq!(frank.games_played, 3);

    assert_eq!(eve.matches_played, 0);
    assert_eq!(frank.matches_played, 0);
    assert_eq!(eve.match_points, 0);
    assert_eq!(frank.match_points, 0);

    assert_eq!(eve.opponents.len(), 1);
    assert_eq!(frank.opponents.len(), 1);
}

/// Alice 2-0 Bob
#[test]
fn pairing_match_20() {
    let mut roster = vec![Player::new("Alice"), Player::new("Bob")];

    let pair = Pairing::new(&mut roster, 0, 1);

    let result = pair.end_match(&mut roster, 2, 0, 0);
    assert!(result.is_ok());

    let alice = &roster[0];
    let bob = &roster[1];

    assert_eq!(alice.game_points, 6);
    assert_eq!(bob.game_points, 0);

    assert_eq!(alice.match_points, 3);
    assert_eq!(bob.match_points, 0);

    assert_eq!(alice.games_played, 2);
    assert_eq!(bob.games_played, 2);

    assert_eq!(alice.matches_played, 1);
    assert_eq!(bob.matches_played, 1);

    assert_eq!(alice.opponents.len(), 1);
    assert_eq!(bob.opponents.len(), 1);
}

/// Alice 1-2 Bob
#[test]
fn pairing_match_12() {
    let mut roster = vec![Player::new("Alice"), Player::new("Bob")];

    let pair = Pairing::new(&mut roster, 0, 1);

    let result = pair.end_match(&mut roster, 1, 2, 0);
    assert!(result.is_ok());

    let alice = &roster[0];
    let bob = &roster[1];

    assert_eq!(alice.game_points, 3);
    assert_eq!(bob.game_points, 6);

    assert_eq!(alice.match_points, 0);
    assert_eq!(bob.match_points, 3);

    assert_eq!(alice.games_played, 3);
    assert_eq!(bob.games_played, 3);

    assert_eq!(alice.matches_played, 1);
    assert_eq!(bob.matches_played, 1);

    assert_eq!(alice.opponents.len(), 1);
    assert_eq!(bob.opponents.len(), 1);
}

/// Alice 1-1-1 Bob
#[test]
fn pairing_match_111() {
    let mut roster = vec![Player::new("Alice"), Player::new("Bob")];

    let pair = Pairing::new(&mut roster, 0, 1);

    let result = pair.end_match(&mut roster, 1, 1, 1);
    assert!(result.is_ok());

    let alice = &roster[0];
    let bob = &roster[1];

    assert_eq!(alice.game_points, 4);
    assert_eq!(bob.game_points, 4);

    assert_eq!(alice.match_points, 1);
    assert_eq!(bob.match_points, 1);

    assert_eq!(alice.games_played, 3);
    assert_eq!(bob.games_played, 3);

    assert_eq!(alice.matches_played, 1);
    assert_eq!(bob.matches_played, 1);

    assert_eq!(alice.opponents.len(), 1);
    assert_eq!(bob.opponents.len(), 1);
}

/// Alice 0-0-3 Bob
#[test]
fn pairing_match_003() {
    let mut roster = vec![Player::new("Alice"), Player::new("Bob")];

    let pair = Pairing::new(&mut roster, 0, 1);

    let result = pair.end_match(&mut roster, 0, 0, 3);
    assert!(result.is_ok());

    let alice = &roster[0];
    let bob = &roster[1];

    assert_eq!(alice.game_points, 3);
    assert_eq!(bob.game_points, 3);

    assert_eq!(alice.match_points, 1);
    assert_eq!(bob.match_points, 1);

    assert_eq!(alice.games_played, 3);
    assert_eq!(bob.games_played, 3);

    assert_eq!(alice.matches_played, 1);
    assert_eq!(bob.matches_played, 1);

    assert_eq!(alice.opponents.len(), 1);
    assert_eq!(bob.opponents.len(), 1);
}

/// Alice 4-0 Bob
#[test]
fn pairing_match_40() {
    let mut roster = vec![Player::new("Alice"), Player::new("Bob")];

    let pair = Pairing::new(&mut roster, 0, 1);

    let result = pair.end_match(&mut roster, 4, 0, 0);
    assert!(result.is_err());

    let alice = &roster[0];
    let bob = &roster[1];

    assert_eq!(alice.game_points, 0);
    assert_eq!(bob.game_points, 0);

    assert_eq!(alice.match_points, 0);
    assert_eq!(bob.match_points, 0);

    assert_eq!(alice.games_played, 0);
    assert_eq!(bob.games_played, 0);

    assert_eq!(alice.matches_played, 0);
    assert_eq!(bob.matches_played, 0);

    assert_eq!(alice.opponents.len(), 1);
    assert_eq!(bob.opponents.len(), 1);
}

/// Alice 2-1-2 Bob
#[test]
fn pairing_match_212() {
    let mut roster = vec![Player::new("Alice"), Player::new("Bob")];

    let pair = Pairing::new(&mut roster, 0, 1);

    let result = pair.end_match(&mut roster, 2, 1, 2);
    assert!(result.is_err());

    let alice = &roster[0];
    let bob = &roster[1];

    assert_eq!(alice.game_points, 0);
    assert_eq!(bob.game_points, 0);

    assert_eq!(alice.match_points, 0);
    assert_eq!(bob.match_points, 0);

    assert_eq!(alice.games_played, 0);
    assert_eq!(bob.games_played, 0);

    assert_eq!(alice.matches_played, 0);
    assert_eq!(bob.matches_played, 0);

    assert_eq!(alice.opponents.len(), 1);
    assert_eq!(bob.opponents.len(), 1);
}

/// Alice 0-0-4 Bob
#[test]
fn pairing_match_004() {
    let mut roster = vec![Player::new("Alice"), Player::new("Bob")];

    let pair = Pairing::new(&mut roster, 0, 1);

    let result = pair.end_match(&mut roster, 0, 0, 4);
    assert!(result.is_err());

    let alice = &roster[0];
    let bob = &roster[1];

    assert_eq!(alice.game_points, 0);
    assert_eq!(bob.game_points, 0);

    assert_eq!(alice.match_points, 0);
    assert_eq!(bob.match_points, 0);

    assert_eq!(alice.games_played, 0);
    assert_eq!(bob.games_played, 0);

    assert_eq!(alice.matches_played, 0);
    assert_eq!(bob.matches_played, 0);

    assert_eq!(alice.opponents.len(), 1);
    assert_eq!(bob.opponents.len(), 1);
}

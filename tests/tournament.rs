use regex::Regex;
use swyss::{Player, Tournament};

/// The number in a player's name, as the regex captures it.
fn number(re: &Regex, name: &str) -> u32 {
    re.captures(name)
        .unwrap()
        .get(1)
        .unwrap()
        .as_str()
        .trim()
        .parse()
        .unwrap()
}

/// Plays every round; in each match the higher-numbered player wins 2-1.
fn play_out(tourn: &mut Tournament, re: &Regex) {
    while let Some(pairings) = tourn.next_round() {
        for pair in &pairings {
            let uuid = pair.0;

            let home = number(re, &pair.1);
            let away = number(re, &pair.2);

            let home_score;
            let away_score;
            let drawn = 0;

            if home > away {
                home_score = 2;
                away_score = 1;
            } else {
                home_score = 1;
                away_score = 2;
            }

            assert!(tourn.end_match(uuid, home_score, away_score, drawn).is_ok());
        }
    }
}

fn bye_count(players: &[Player]) -> u32 {
    let mut bye_count = 0;
    for p in players {
        if p.has_bye {
            bye_count += 1;
        }
    }
    bye_count
}

fn numbered_players(n: u32) -> Vec<Player> {
    let mut players = Vec::with_capacity(n as usize);
    for i in 1..n + 1 {
        players.push(Player::new(format!("Player {}", i).as_str()));
    }
    players
}

#[test]
fn tournament_2_players() {
    let mut players = Vec::with_capacity(2);
    players.push(Player::new("Player 1"));
    players.push(Player::new("Player 2"));

    let mut tourn = Tournament::new(players);
    assert_eq!(tourn.rounds, 1);
    let pairings = tourn.next_round();
    let pair = &pairings.unwrap()[0];
    let uuid = pair.0;
    let home = String::from(&pair.1);
    let away = String::from(&pair.2);

    assert!(
        (home == "Player 1" && away == "Player 2") || (home == "Player 2" && away == "Player 1")
    );

    assert!(tourn.end_match(uuid, 2, 1, 0).is_ok());

    assert_eq!(tourn.next_round(), None);

    let players = tourn.ranking();

    assert_eq!(bye_count(&players), 0);

    let winner = &players[0];
    assert_eq!(winner.matches_played, 1);
    assert_eq!(winner.match_points, 3);
    assert_eq!(winner.games_played, 3);
    assert_eq!(winner.game_points, 6);

    let loser = &players[1];
    assert_eq!(loser.matches_played, 1);
    assert_eq!(loser.match_points, 0);
    assert_eq!(loser.games_played, 3);
    assert_eq!(loser.game_points, 3);
}

#[test]
fn tournament_3_players() {
    let mut players = Vec::with_capacity(2);
    players.push(Player::new("Player 1"));
    players.push(Player::new("Player 2"));
    players.push(Player::new("Player 3"));

    let mut tourn = Tournament::new(players);
    assert_eq!(tourn.rounds, 2);

    let re = Regex::new(r"Player (\d)").unwrap();
    play_out(&mut tourn, &re);

    let players = tourn.ranking();

    assert_eq!(bye_count(&players), 2);

    let winner = &players[0];
    assert_eq!(winner.name, "Player 3");
    assert_eq!(winner.matches_played, 2);
    assert!(winner.games_played >= 5);
    assert_eq!(winner.match_points, 6);
    assert_eq!(winner.game_points, 12);

    let loser = &players[1];
    assert!(loser.name == "Player 1" || loser.name == "Player 2");
    assert_eq!(loser.matches_played, 2);
    assert!(loser.games_played >= 5);
    assert!(loser.match_points == 0 || loser.match_points == 3);
    assert!(loser.game_points == 3 || loser.game_points == 9);
}

#[test]
fn tournament_4_players() {
    let mut players = Vec::with_capacity(4);
    players.push(Player::new("Player 1"));
    players.push(Player::new("Player 2"));
    players.push(Player::new("Player 3"));
    players.push(Player::new("Player 4"));

    let mut tourn = Tournament::new(players);
    assert_eq!(tourn.rounds, 2);

    let re = Regex::new(r"Player (\d)").unwrap();
    play_out(&mut tourn, &re);

    let players = tourn.ranking();

    assert_eq!(bye_count(&players), 0);

    let p1 = &players[0];
    assert_eq!(p1.name, "Player 4");
    assert_eq!(p1.matches_played, 2);
    assert_eq!(p1.games_played, 6);
    assert_eq!(p1.match_points, 6);
    assert_eq!(p1.game_points, 12);

    let p2 = &players[1];
    assert!(p2.name == "Player 3" || p2.name == "Player 2");
    assert_eq!(p2.matches_played, 2);
    assert_eq!(p2.games_played, 6);
    assert_eq!(p2.match_points, 3);
    assert_eq!(p2.game_points, 9);

    let p3 = &players[2];
    assert!(p3.name == "Player 3" || p3.name == "Player 2");
    assert_eq!(p3.matches_played, 2);
    assert_eq!(p3.games_played, 6);
    assert_eq!(p3.match_points, 3);
    assert_eq!(p3.game_points, 9);

    let p4 = &players[3];
    assert_eq!(p4.name, "Player 1");
    assert_eq!(p4.matches_played, 2);
    assert_eq!(p4.games_played, 6);
    assert_eq!(p4.match_points, 0);
    assert_eq!(p4.game_points, 6);
}

#[test]
fn tournament_8_players() {
    let players = numbered_players(8);

    let mut tourn = Tournament::new(players);
    assert_eq!(tourn.rounds, 3);

    let re = Regex::new(r"Player (\d)").unwrap();
    play_out(&mut tourn, &re);

    let players = tourn.ranking();

    let p1 = &players[0];
    assert_eq!(p1.name, "Player 8");
    assert_eq!(p1.matches_played, 3);
    assert_eq!(p1.games_played, 9);
    assert_eq!(p1.match_points, 9);
    assert_eq!(p1.game_points, 18);

    let p2 = &players[7];
    assert_eq!(p2.matches_played, 3);
    assert_eq!(p2.games_played, 9);
    assert_eq!(p2.match_points, 0);
    assert_eq!(p2.game_points, 9);

    assert_eq!(bye_count(&players), 0);
}

#[test]
fn tournament_13_players() {
    let players = numbered_players(13);

    let mut tourn = Tournament::new(players);
    assert_eq!(tourn.rounds, 4);

    let re = Regex::new(r"Player (\d+)").unwrap();
    play_out(&mut tourn, &re);

    let players = tourn.ranking();

    assert_eq!(bye_count(&players), 4);

    let winner = &players[0];
    assert_eq!(winner.name, "Player 13");
    assert_eq!(winner.matches_played, 4);
    assert!(winner.games_played >= 11);
    assert_eq!(winner.match_points, 12);
    assert_eq!(winner.game_points, 24);

    let loser = &players[12];
    assert_eq!(loser.matches_played, 4);
    assert!(loser.games_played >= 11);
    assert!(loser.match_points == 0 || loser.match_points == 3);
    assert!(loser.game_points == 12 || loser.game_points == 15);
}

#[test]
fn tournament_60_players() {
    let players = numbered_players(60);

    let mut tourn = Tournament::new(players);
    assert_eq!(tourn.rounds, 6);

    let re = Regex::new(r"Player (\d+)").unwrap();
    play_out(&mut tourn, &re);

    let players = tourn.ranking();

    assert_eq!(bye_count(&players), 0);

    let winner = &players[0];
    assert_eq!(winner.name, "Player 60");
    assert_eq!(winner.matches_played, 6);
    assert!(winner.games_played >= 17);
    assert_eq!(winner.match_points, 18);
    assert_eq!(winner.game_points, 36);

    let loser = &players[59];
    assert_eq!(loser.matches_played, 6);
    assert!(loser.games_played >= 17);
    assert!(loser.match_points == 0 || loser.match_points == 3);
    assert!(loser.game_points == 18 || loser.game_points == 21);
}

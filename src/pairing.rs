//! One round's matchup between two players of a roster.
use crate::outside::{check_range, fresh_id};
use crate::player::Player;
use vstd::prelude::*;

verus! {

/// Which side of a pairing won a game.
#[derive(Clone, Copy, Debug, PartialEq, Eq, Structural)]
pub enum PlayerSide {
    Home,
    Away,
}

/// A score outside its range, or three scores whose sum is not 1, 2 or 3.
/// `value` is the offending score, or the offending sum.
#[derive(Clone, Copy, Debug, PartialEq, Eq, Structural)]
pub struct InvalidScore {
    pub value: u8,
}

/// Two players of a roster, by index, paired for one round.
#[derive(Clone, Copy, Debug)]
pub struct Pairing {
    pub uuid: u128,
    pub home: usize,
    pub away: usize,
}

/// `a` and `b` differ at most in their opponent history.
pub open spec fn same_but_opponents(a: Player, b: Player) -> bool {
    &&& a.uuid == b.uuid
    &&& a.name == b.name
    &&& a.match_points == b.match_points
    &&& a.game_points == b.game_points
    &&& a.matches_played == b.matches_played
    &&& a.games_played == b.games_played
    &&& a.has_bye == b.has_bye
}

/// `p` after `won` won, `lost` lost and `drawn` drawn games.
pub open spec fn played_games(p: Player, won: int, lost: int, drawn: int) -> Player {
    Player {
        games_played: (p.games_played + won + lost + drawn) as u32,
        game_points: (p.game_points + 3 * won + drawn) as u32,
        ..p
    }
}

/// Match points for a side that won `own` games against `other`.
pub open spec fn match_award(own: int, other: int) -> int {
    if own > other {
        3
    } else if own == other {
        1
    } else {
        0
    }
}

/// `p` after a whole match in which it won `own` games, lost `other` and
/// drew `drawn`.
pub open spec fn after_match(p: Player, own: int, other: int, drawn: int) -> Player {
    Player {
        matches_played: (p.matches_played + 1) as u32,
        match_points: (p.match_points + match_award(own, other)) as u32,
        ..played_games(p, own, other, drawn)
    }
}

/// The first check that a match result fails, with the value it reports:
/// each game score must be 0, 1 or 2, the drawn games 0 to 3, and the three
/// together 1 to 3.
pub open spec fn score_error(home: u8, away: u8, drawn: u8) -> Option<u8> {
    if home >= 3 {
        Some(home)
    } else if away >= 3 {
        Some(away)
    } else if drawn >= 4 {
        Some(drawn)
    } else if home + away + drawn < 1 || home + away + drawn >= 4 {
        Some((home + away + drawn) as u8)
    } else {
        None
    }
}

/// A 2-0 match gives the winner three match points, six game points, one
/// match and two games, and the loser one match and two games; nothing else
/// of either record changes.
pub proof fn lemma_two_nil(winner: Player, loser: Player)
    requires
        winner.has_room(),
        loser.has_room(),
    ensures
        after_match(winner, 2, 0, 0) == (Player {
            match_points: (winner.match_points + 3) as u32,
            game_points: (winner.game_points + 6) as u32,
            matches_played: (winner.matches_played + 1) as u32,
            games_played: (winner.games_played + 2) as u32,
            ..winner
        }),
        after_match(loser, 0, 2, 0) == (Player {
            matches_played: (loser.matches_played + 1) as u32,
            games_played: (loser.games_played + 2) as u32,
            ..loser
        }),
        after_match(winner, 2, 0, 0).match_points == winner.match_points + 3,
        after_match(winner, 2, 0, 0).game_points == winner.game_points + 6,
        after_match(loser, 0, 2, 0).matches_played == loser.matches_played + 1,
        after_match(loser, 0, 2, 0).games_played == loser.games_played + 2,
{
}

impl Pairing {
    /// Both sides are distinct players of a roster of `n`.
    pub open spec fn within(self, n: int) -> bool {
        self.home < n && self.away < n && self.home != self.away
    }

    /// Pairs `home` with `away`: each is appended to the other's opponent
    /// history, and the pairing gets a fresh identifier.
    pub fn new(roster: &mut Vec<Player>, home: usize, away: usize) -> (r: Pairing)
        requires
            home < old(roster)@.len(),
            away < old(roster)@.len(),
            home != away,
        ensures
            r.home == home,
            r.away == away,
            final(roster)@.len() == old(roster)@.len(),
            forall|i: int|
                0 <= i < old(roster)@.len() && i != home && i != away ==> final(roster)@[i]
                    == old(roster)@[i],
            same_but_opponents(final(roster)@[home as int], old(roster)@[home as int]),
            same_but_opponents(final(roster)@[away as int], old(roster)@[away as int]),
            final(roster)@[home as int].opponents@ == old(roster)@[home as int].opponents@.push(
                away,
            ),
            final(roster)@[away as int].opponents@ == old(roster)@[away as int].opponents@.push(
                home,
            ),
    {
        let uuid = fresh_id();
        roster[home].opponents.push(away);
        roster[away].opponents.push(home);
        Pairing { uuid, home, away }
    }

    /// Records one game won by `side`, and so lost by the other side.
    pub fn win_game(&self, roster: &mut Vec<Player>, side: PlayerSide)
        requires
            self.within(old(roster)@.len() as int),
            old(roster)@[self.home as int].games_played < u32::MAX,
            old(roster)@[self.home as int].game_points + 3 <= u32::MAX,
            old(roster)@[self.away as int].games_played < u32::MAX,
            old(roster)@[self.away as int].game_points + 3 <= u32::MAX,
        ensures
            final(roster)@ == (match side {
                PlayerSide::Home => old(roster)@.update(
                    self.home as int,
                    old(roster)@[self.home as int].won_game(),
                ).update(self.away as int, old(roster)@[self.away as int].lost_game()),
                PlayerSide::Away => old(roster)@.update(
                    self.away as int,
                    old(roster)@[self.away as int].won_game(),
                ).update(self.home as int, old(roster)@[self.home as int].lost_game()),
            }),
    {
        let (winner, loser) = match side {
            PlayerSide::Home => (self.home, self.away),
            PlayerSide::Away => (self.away, self.home),
        };
        roster[winner].win_game();
        roster[loser].lose_game();
    }

    /// Records one drawn game for both sides.
    pub fn draw_game(&self, roster: &mut Vec<Player>)
        requires
            self.within(old(roster)@.len() as int),
            old(roster)@[self.home as int].games_played < u32::MAX,
            old(roster)@[self.home as int].game_points < u32::MAX,
            old(roster)@[self.away as int].games_played < u32::MAX,
            old(roster)@[self.away as int].game_points < u32::MAX,
        ensures
            final(roster)@ == old(roster)@.update(
                self.home as int,
                old(roster)@[self.home as int].drew_game(),
            ).update(self.away as int, old(roster)@[self.away as int].drew_game()),
    {
        roster[self.home].draw_game();
        roster[self.away].draw_game();
    }

    /// Records a whole match: `home_score` games won by home, `away_score`
    /// by away and `drawn` drawn, then the match to the side with more game
    /// wins, or a drawn match on equal wins. The scores are checked first;
    /// on a bad one nothing changes and the offending value is returned.
    pub fn end_match(&self, roster: &mut Vec<Player>, home_score: u8, away_score: u8, drawn: u8)
        -> (r: Result<(), InvalidScore>)
        requires
            self.within(old(roster)@.len() as int),
            old(roster)@[self.home as int].has_room(),
            old(roster)@[self.away as int].has_room(),
        ensures
            match score_error(home_score, away_score, drawn) {
                Some(v) => r == Err::<(), InvalidScore>(InvalidScore { value: v })
                    && final(roster)@ == old(roster)@,
                None => r is Ok && final(roster)@ == old(roster)@.update(
                    self.home as int,
                    after_match(old(roster)@[self.home as int], home_score as int, away_score as int, drawn as int),
                ).update(
                    self.away as int,
                    after_match(old(roster)@[self.away as int], away_score as int, home_score as int, drawn as int),
                ),
            },
    {
        if let Err(v) = check_range(home_score, 0, 3) {
            return Err(InvalidScore { value: v });
        }
        if let Err(v) = check_range(away_score, 0, 3) {
            return Err(InvalidScore { value: v });
        }
        if let Err(v) = check_range(drawn, 0, 4) {
            return Err(InvalidScore { value: v });
        }
        if let Err(v) = check_range(home_score + away_score + drawn, 1, 4) {
            return Err(InvalidScore { value: v });
        }
        let ghost start = roster@;
        let ghost h = self.home as int;
        let ghost a = self.away as int;
        let mut i: u8 = 0;
        while i < home_score
            invariant
                self.within(start.len() as int),
                h == self.home as int,
                a == self.away as int,
                start[h].has_room(),
                start[a].has_room(),
                home_score + away_score + drawn <= 3,
                0 <= i <= home_score,
                roster@ == start.update(h, played_games(start[h], i as int, 0, 0)).update(
                    a,
                    played_games(start[a], 0, i as int, 0),
                ),
            decreases home_score - i,
        {
            self.win_game(roster, PlayerSide::Home);
            i = i + 1;
            assert(roster@ =~= start.update(h, played_games(start[h], i as int, 0, 0)).update(
                a,
                played_games(start[a], 0, i as int, 0),
            ));
        }
        let mut j: u8 = 0;
        while j < away_score
            invariant
                self.within(start.len() as int),
                h == self.home as int,
                a == self.away as int,
                start[h].has_room(),
                start[a].has_room(),
                home_score + away_score + drawn <= 3,
                0 <= j <= away_score,
                roster@ == start.update(h, played_games(start[h], home_score as int, j as int, 0)).update(
                    a,
                    played_games(start[a], j as int, home_score as int, 0),
                ),
            decreases away_score - j,
        {
            self.win_game(roster, PlayerSide::Away);
            j = j + 1;
            assert(roster@ =~= start.update(h, played_games(start[h], home_score as int, j as int, 0)).update(
                a,
                played_games(start[a], j as int, home_score as int, 0),
            ));
        }
        let mut k: u8 = 0;
        while k < drawn
            invariant
                self.within(start.len() as int),
                h == self.home as int,
                a == self.away as int,
                start[h].has_room(),
                start[a].has_room(),
                home_score + away_score + drawn <= 3,
                0 <= k <= drawn,
                roster@ == start.update(
                    h,
                    played_games(start[h], home_score as int, away_score as int, k as int),
                ).update(a, played_games(start[a], away_score as int, home_score as int, k as int)),
            decreases drawn - k,
        {
            self.draw_game(roster);
            k = k + 1;
            assert(roster@ =~= start.update(
                h,
                played_games(start[h], home_score as int, away_score as int, k as int),
            ).update(a, played_games(start[a], away_score as int, home_score as int, k as int)));
        }
        if home_score > away_score {
            roster[self.home].win_match();
            roster[self.away].lose_match();
        } else if away_score > home_score {
            roster[self.home].lose_match();
            roster[self.away].win_match();
        } else {
            roster[self.home].draw_match();
            roster[self.away].draw_match();
        }
        assert(roster@ =~= start.update(
            h,
            after_match(start[h], home_score as int, away_score as int, drawn as int),
        ).update(a, after_match(start[a], away_score as int, home_score as int, drawn as int)));
        Ok(())
    }
}

} // verus!

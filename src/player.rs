//! A competitor's identity and cumulative statistics.
use crate::fraction::{frac_mean, mean, mean_fits, pairs_of, Fraction};
use crate::outside::fresh_id;
use vstd::prelude::*;

verus! {

/// One competitor. `opponents` holds the indices, in the roster that the
/// player belongs to, of everyone the player has been paired against, in
/// pairing order; byes never appear there.
#[derive(Debug)]
pub struct Player {
    pub uuid: u128,
    pub name: String,
    pub match_points: u32,
    pub game_points: u32,
    pub matches_played: u32,
    pub games_played: u32,
    pub opponents: Vec<usize>,
    pub has_bye: bool,
}

/// A win percentage as a pair: points over the points possible (three per
/// game or match), but never under one third, and exactly one third when
/// nothing has been played. `max(points, played) / (3 * played)` is
/// `max(1/3, points / (3 * played))`.
pub open spec fn win_percentage(points: int, played: int) -> (int, int) {
    if played == 0 {
        (1, 3)
    } else if points > played {
        (points, 3 * played)
    } else {
        (played, 3 * played)
    }
}

/// A win percentage is one third when nothing has been played, and
/// otherwise `max(1/3, points / (3 * played))`: it is at least both, and
/// equal to one of them.
pub proof fn lemma_win_percentage_floor(points: nat, played: nat)
    ensures
        played == 0 ==> win_percentage(points as int, played as int) == (1int, 3int),
        played > 0 ==> {
            let (n, d) = win_percentage(points as int, played as int);
            &&& d > 0
            &&& n * 3 >= d
            &&& n * (3 * played) >= points * d
            &&& n * 3 == d || n * (3 * played) == points * d
        },
{
    if played > 0 {
        let (n, d) = win_percentage(points as int, played as int);
        assert(n * (3 * played) >= points * d) by (nonlinear_arith)
            requires
                d == 3 * played,
                n >= points,
                played > 0;
        assert(n * (3 * played) == points * d || n * 3 == d) by (nonlinear_arith)
            requires
                d == 3 * played,
                n == points || n == played;
    }
}

/// The match win percentages of the players at `ids` in `roster`.
pub open spec fn match_percentages(roster: Seq<Player>, ids: Seq<usize>) -> Seq<(int, int)> {
    ids.map_values(|o: usize| roster[o as int].spec_mwp())
}

/// The game win percentages of the players at `ids` in `roster`.
pub open spec fn game_percentages(roster: Seq<Player>, ids: Seq<usize>) -> Seq<(int, int)> {
    ids.map_values(|o: usize| roster[o as int].spec_gwp())
}

/// Every index in `ids` points into a roster of `n` players.
pub open spec fn ids_below(ids: Seq<usize>, n: int) -> bool {
    forall|j: int| 0 <= j < ids.len() ==> #[trigger] ids[j] < n
}

impl Player {
    pub open spec fn spec_mwp(self) -> (int, int) {
        win_percentage(self.match_points as int, self.matches_played as int)
    }

    pub open spec fn spec_gwp(self) -> (int, int) {
        win_percentage(self.game_points as int, self.games_played as int)
    }

    /// The counters can take one more match of up to three games.
    pub open spec fn has_room(self) -> bool {
        &&& self.match_points + 3 <= u32::MAX
        &&& self.matches_played + 1 <= u32::MAX
        &&& self.game_points + 9 <= u32::MAX
        &&& self.games_played + 3 <= u32::MAX
    }

    pub open spec fn lost_game(self) -> Player {
        Player { games_played: (self.games_played + 1) as u32, ..self }
    }

    pub open spec fn drew_game(self) -> Player {
        Player {
            games_played: (self.games_played + 1) as u32,
            game_points: (self.game_points + 1) as u32,
            ..self
        }
    }

    pub open spec fn won_game(self) -> Player {
        Player {
            games_played: (self.games_played + 1) as u32,
            game_points: (self.game_points + 3) as u32,
            ..self
        }
    }

    pub open spec fn lost_match(self) -> Player {
        Player { matches_played: (self.matches_played + 1) as u32, ..self }
    }

    pub open spec fn drew_match(self) -> Player {
        Player {
            matches_played: (self.matches_played + 1) as u32,
            match_points: (self.match_points + 1) as u32,
            ..self
        }
    }

    pub open spec fn won_match(self) -> Player {
        Player {
            matches_played: (self.matches_played + 1) as u32,
            match_points: (self.match_points + 3) as u32,
            ..self
        }
    }

    /// A bye: a 2-0 match win with no opponent, and the bye recorded.
    pub open spec fn had_bye(self) -> Player {
        Player {
            games_played: (self.games_played + 2) as u32,
            game_points: (self.game_points + 6) as u32,
            matches_played: (self.matches_played + 1) as u32,
            match_points: (self.match_points + 3) as u32,
            has_bye: true,
            ..self
        }
    }

    /// `self` and `other` hold the same record.
    pub open spec fn same_record(self, other: Player) -> bool {
        &&& self.uuid == other.uuid
        &&& self.name == other.name
        &&& self.match_points == other.match_points
        &&& self.game_points == other.game_points
        &&& self.matches_played == other.matches_played
        &&& self.games_played == other.games_played
        &&& self.opponents@ == other.opponents@
        &&& self.has_bye == other.has_bye
    }

    /// A copy of the player's record.
    pub fn snapshot(&self) -> (r: Player)
        ensures
            r.same_record(*self),
    {
        let mut opponents: Vec<usize> = Vec::new();
        let mut i: usize = 0;
        while i < self.opponents.len()
            invariant
                0 <= i <= self.opponents@.len(),
                opponents@ == self.opponents@.take(i as int),
            decreases self.opponents@.len() - i,
        {
            opponents.push(self.opponents[i]);
            i = i + 1;
            assert(opponents@ =~= self.opponents@.take(i as int));
        }
        assert(self.opponents@.take(i as int) =~= self.opponents@);
        Player {
            uuid: self.uuid,
            name: self.name.clone(),
            match_points: self.match_points,
            game_points: self.game_points,
            matches_played: self.matches_played,
            games_played: self.games_played,
            opponents,
            has_bye: self.has_bye,
        }
    }

    /// A new player with the given name, a fresh identifier and no history.
    pub fn new(name: &str) -> (r: Player)
        ensures
            r.name@ == name@,
            r.match_points == 0,
            r.game_points == 0,
            r.matches_played == 0,
            r.games_played == 0,
            r.opponents@.len() == 0,
            !r.has_bye,
    {
        Player {
            uuid: fresh_id(),
            name: name.to_string(),
            match_points: 0,
            game_points: 0,
            matches_played: 0,
            games_played: 0,
            opponents: Vec::new(),
            has_bye: false,
        }
    }

    /// Records a lost game: one more game played, no game points.
    pub fn lose_game(&mut self)
        requires
            old(self).games_played < u32::MAX,
        ensures
            *final(self) == old(self).lost_game(),
    {
        self.games_played = self.games_played + 1;
    }

    /// Records a drawn game: one more game played, one game point.
    pub fn draw_game(&mut self)
        requires
            old(self).games_played < u32::MAX,
            old(self).game_points + 1 <= u32::MAX,
        ensures
            *final(self) == old(self).drew_game(),
    {
        self.games_played = self.games_played + 1;
        self.game_points = self.game_points + 1;
    }

    /// Records a won game: one more game played, three game points.
    pub fn win_game(&mut self)
        requires
            old(self).games_played < u32::MAX,
            old(self).game_points + 3 <= u32::MAX,
        ensures
            *final(self) == old(self).won_game(),
    {
        self.games_played = self.games_played + 1;
        self.game_points = self.game_points + 3;
    }

    /// Records a lost match: one more match played, no match points.
    pub fn lose_match(&mut self)
        requires
            old(self).matches_played < u32::MAX,
        ensures
            *final(self) == old(self).lost_match(),
    {
        self.matches_played = self.matches_played + 1;
    }

    /// Records a drawn match: one more match played, one match point.
    pub fn draw_match(&mut self)
        requires
            old(self).matches_played < u32::MAX,
            old(self).match_points + 1 <= u32::MAX,
        ensures
            *final(self) == old(self).drew_match(),
    {
        self.matches_played = self.matches_played + 1;
        self.match_points = self.match_points + 1;
    }

    /// Records a won match: one more match played, three match points.
    pub fn win_match(&mut self)
        requires
            old(self).matches_played < u32::MAX,
            old(self).match_points + 3 <= u32::MAX,
        ensures
            *final(self) == old(self).won_match(),
    {
        self.matches_played = self.matches_played + 1;
        self.match_points = self.match_points + 3;
    }

    /// Awards a bye: two won games and a won match, with no opponent added,
    /// and the bye recorded.
    pub fn bye(&mut self)
        requires
            old(self).has_room(),
        ensures
            *final(self) == old(self).had_bye(),
    {
        self.win_game();
        self.win_game();
        self.win_match();
        self.has_bye = true;
    }

    /// Match points over the match points possible, floored at one third.
    pub fn match_win_percentage(&self) -> (r: Fraction)
        ensures
            r.pair() == self.spec_mwp(),
    {
        percentage(self.match_points, self.matches_played)
    }

    /// Game points over the game points possible, floored at one third.
    pub fn game_win_percentage(&self) -> (r: Fraction)
        ensures
            r.pair() == self.spec_gwp(),
    {
        percentage(self.game_points, self.games_played)
    }

    /// The mean match win percentage of the player's opponents in `roster`.
    /// `None` when the player has had no opponent, or when the exact mean
    /// does not fit in a `Fraction`.
    pub fn opponents_match_win_percentage(&self, roster: &Vec<Player>) -> (r: Option<Fraction>)
        requires
            ids_below(self.opponents@, roster@.len() as int),
        ensures
            r is Some <==> mean_fits(match_percentages(roster@, self.opponents@)),
            r matches Some(f) ==> f.pair() == frac_mean(
                match_percentages(roster@, self.opponents@),
            ),
    {
        let mut fs: Vec<Fraction> = Vec::new();
        let mut i: usize = 0;
        while i < self.opponents.len()
            invariant
                ids_below(self.opponents@, roster@.len() as int),
                0 <= i <= self.opponents@.len(),
                fs@.len() == i,
                forall|j: int|
                    0 <= j < i ==> (#[trigger] fs@[j]).pair() == roster@[self.opponents@[j] as int].spec_mwp(),
            decreases self.opponents@.len() - i,
        {
            let o = self.opponents[i];
            fs.push(roster[o].match_win_percentage());
            i = i + 1;
        }
        assert(pairs_of(fs@) =~= match_percentages(roster@, self.opponents@));
        mean(&fs)
    }

    /// The mean game win percentage of the player's opponents in `roster`.
    /// `None` when the player has had no opponent, or when the exact mean
    /// does not fit in a `Fraction`.
    pub fn opponents_game_win_percentage(&self, roster: &Vec<Player>) -> (r: Option<Fraction>)
        requires
            ids_below(self.opponents@, roster@.len() as int),
        ensures
            r is Some <==> mean_fits(game_percentages(roster@, self.opponents@)),
            r matches Some(f) ==> f.pair() == frac_mean(
                game_percentages(roster@, self.opponents@),
            ),
    {
        let mut fs: Vec<Fraction> = Vec::new();
        let mut i: usize = 0;
        while i < self.opponents.len()
            invariant
                ids_below(self.opponents@, roster@.len() as int),
                0 <= i <= self.opponents@.len(),
                fs@.len() == i,
                forall|j: int|
                    0 <= j < i ==> (#[trigger] fs@[j]).pair() == roster@[self.opponents@[j] as int].spec_gwp(),
            decreases self.opponents@.len() - i,
        {
            let o = self.opponents[i];
            fs.push(roster[o].game_win_percentage());
            i = i + 1;
        }
        assert(pairs_of(fs@) =~= game_percentages(roster@, self.opponents@));
        mean(&fs)
    }
}

/// `win_percentage` of two counters, as a `Fraction`.
fn percentage(points: u32, played: u32) -> (r: Fraction)
    ensures
        r.pair() == win_percentage(points as int, played as int),
{
    if played == 0 {
        Fraction::one_third()
    } else if points > played {
        Fraction { num: points as u64, den: 3 * played as u64 }
    } else {
        Fraction { num: played as u64, den: 3 * played as u64 }
    }
}

} // verus!

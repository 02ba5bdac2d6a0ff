//! The tournament: rounds, byes, pairings, results and the final ranking.
use crate::matching::{greedy, histories, home_ahead, match_round, no_rematch, paired, pairs_disjoint, unmet};
use crate::outside::shuffle;
use crate::pairing::{after_match, same_but_opponents, score_error, Pairing};
use crate::player::{ids_below, Player};
use crate::ranking::{rank_of, ranked, sort_by_rank, standing, Standing};
use crate::rounds::{ceil_log2, lemma_ceil_log2_least, pow2, rounds_for};
use crate::sorting::{by_points, sort_by_points};
use vstd::prelude::*;

verus! {

broadcast use vstd::seq_lib::group_to_multiset_ensures;

/// Recording a result fails when the pairing is not in the current round's
/// table, or when a score is invalid (with the offending value).
#[derive(Clone, Copy, Debug, PartialEq, Eq, Structural)]
pub enum PairingResultError {
    NotFound(u128),
    OutOfRange(u8),
}

/// A Swiss tournament over the players of `roster`, which it owns and never
/// reorders: a player's index in it is the player's identity. `players` is
/// the active roster, by index; `pairings` the current round's table.
#[derive(Debug)]
pub struct Tournament {
    pub rounds: u32,
    pub current_round: u32,
    pub roster: Vec<Player>,
    pub players: Vec<usize>,
    pub pairings: Vec<Pairing>,
    pub needs_bye: bool,
}

/// Player `i` takes part in some pairing of table `t`.
pub open spec fn in_table(t: Seq<Pairing>, i: int) -> bool {
    exists|k: int| 0 <= k < t.len() && (t[k].home == i || t[k].away == i)
}

/// No two pairings of table `t` share a player.
pub open spec fn disjoint(t: Seq<Pairing>) -> bool {
    forall|k1: int, k2: int|
        0 <= k1 < t.len() && 0 <= k2 < t.len() && k1 != k2 ==> {
            &&& t[k1].home != t[k2].home
            &&& t[k1].home != t[k2].away
            &&& t[k1].away != t[k2].home
            &&& t[k1].away != t[k2].away
        }
}

/// At most `limit` matches, and no more points or games than those matches
/// allow.
pub open spec fn bounded(p: Player, limit: int) -> bool {
    &&& p.matches_played <= limit
    &&& p.match_points <= 3 * p.matches_played
    &&& p.games_played <= 3 * p.matches_played
    &&& p.game_points <= 3 * p.games_played
}

/// Opponent histories agree: whoever is in a player's history has that
/// player in theirs.
pub open spec fn symmetric(roster: Seq<Player>) -> bool {
    forall|i: int, j: int|
        0 <= i < roster.len() && 0 <= j < roster[i].opponents@.len() ==> roster[#[trigger] roster[i].opponents@[j] as int].opponents@.contains(
            i as usize,
        )
}

/// A player who has played nothing yet.
pub open spec fn fresh(p: Player) -> bool {
    &&& p.match_points == 0
    &&& p.game_points == 0
    &&& p.matches_played == 0
    &&& p.games_played == 0
    &&& p.opponents@.len() == 0
    &&& !p.has_bye
}

/// How many times a round's pairing is attempted before it is given up.
/// The pairing is randomised and retried until it pairs everyone; on rosters
/// where no such pairing exists (two players who have already met) that
/// would never end, so the attempts are counted, with a limit that no real
/// tournament reaches.
pub const MAX_PAIRING_ATTEMPTS: u64 = 0xffff_ffff_ffff_ffff;

/// `b` holds the same indices as `a`, in some order.
pub open spec fn same_ids(a: Seq<usize>, b: Seq<usize>) -> bool {
    a.to_multiset() == b.to_multiset()
}

/// Player `i` was granted a bye between `before` and `after`.
pub open spec fn new_bye(before: Seq<Player>, after: Seq<Player>, i: int) -> bool {
    &&& !before[i].has_bye
    &&& after[i].has_bye
    &&& after[i] == before[i].had_bye()
}

/// What a round announces of table `t`: each pairing's identifier and the
/// names of its home and away players.
pub open spec fn announced(t: Seq<Pairing>, roster: Seq<Player>) -> Seq<(u128, String, String)> {
    t.map_values(|p: Pairing| (p.uuid, roster[p.home as int].name, roster[p.away as int].name))
}

/// A player who was granted a bye is never granted another: whatever
/// happens to the roster later, a second bye would need the player to be
/// without one.
pub proof fn lemma_bye_once(r0: Seq<Player>, r1: Seq<Player>, r2: Seq<Player>, i: int)
    requires
        0 <= i < r1.len(),
        new_bye(r0, r1, i),
    ensures
        !new_bye(r1, r2, i),
{
}

/// The first pairing of table `t` with identifier `id`, if any.
pub open spec fn find_id(t: Seq<Pairing>, id: u128) -> Option<int> {
    if exists|k: int| 0 <= k < t.len() && t[k].uuid == id {
        Some(
            choose|k: int|
                0 <= k < t.len() && t[k].uuid == id && forall|j: int| 0 <= j < k ==> t[j].uuid != id,
        )
    } else {
        None
    }
}

/// The indices `0..n`, in order.
pub open spec fn all_ids(n: nat) -> Seq<usize> {
    Seq::new(n, |i: int| i as usize)
}

/// The table `t` holds the pairs `pairs`, in order.
pub open spec fn table_of(t: Seq<Pairing>, pairs: Seq<(usize, usize)>) -> bool {
    &&& t.len() == pairs.len()
    &&& forall|k: int|
        0 <= k < t.len() ==> (#[trigger] t[k]).home == pairs[k].0 && t[k].away == pairs[k].1
}

proof fn lemma_table_of(t: Seq<Pairing>, pairs: Seq<(usize, usize)>)
    requires
        table_of(t, pairs),
    ensures
        forall|x: usize| in_table(t, x as int) <==> #[trigger] paired(pairs, x),
{
    assert forall|x: usize| in_table(t, x as int) <==> #[trigger] paired(pairs, x) by {
        let i = x as int;
        if in_table(t, i) {
            let k = choose|k: int| 0 <= k < t.len() && (t[k].home == i || t[k].away == i);
            assert(t[k].home == pairs[k].0);
        }
        if paired(pairs, x) {
            let k = choose|k: int| 0 <= k < pairs.len() && (pairs[k].0 == x || pairs[k].1 == x);
            assert(t[k].home == pairs[k].0);
        }
    }
}

/// Every pairing of table `t` is between players who had not met in
/// `before` (in neither history), and it appends each to the other's
/// history in `after`, changing nothing else of their records.
pub open spec fn new_matchups(before: Seq<Player>, after: Seq<Player>, t: Seq<Pairing>) -> bool {
    forall|k: int|
        0 <= k < t.len() ==> {
            let p = #[trigger] t[k];
            &&& !before[p.home as int].opponents@.contains(p.away)
            &&& !before[p.away as int].opponents@.contains(p.home)
            &&& same_but_opponents(after[p.home as int], before[p.home as int])
            &&& same_but_opponents(after[p.away as int], before[p.away as int])
            &&& after[p.home as int].opponents@ == before[p.home as int].opponents@.push(p.away)
            &&& after[p.away as int].opponents@ == before[p.away as int].opponents@.push(p.home)
        }
}

/// A player outside table `t` is unchanged, unless granted a bye.
pub open spec fn others_kept(before: Seq<Player>, after: Seq<Player>, t: Seq<Pairing>) -> bool {
    forall|i: int|
        0 <= i < before.len() && !in_table(t, i) ==> #[trigger] after[i] == before[i] || new_bye(
            before,
            after,
            i,
        )
}

/// At most one player is granted a bye, and only when one is needed; when
/// one is needed and someone is still without a bye, someone gets it.
pub open spec fn one_bye(before: Seq<Player>, after: Seq<Player>, needs_bye: bool) -> bool {
    &&& forall|i: int, j: int|
        0 <= i < before.len() && 0 <= j < before.len() && new_bye(before, after, i) && new_bye(
            before,
            after,
            j,
        ) ==> i == j
    &&& !needs_bye ==> forall|i: int| 0 <= i < before.len() ==> !new_bye(before, after, i)
    &&& needs_bye && (exists|i: int| 0 <= i < before.len() && !before[i].has_bye) ==> exists|i: int|
        0 <= i < before.len() && new_bye(before, after, i)
}

/// In every pairing of table `t`, home had at least as many match points
/// as away.
pub open spec fn home_first(before: Seq<Player>, t: Seq<Pairing>) -> bool {
    forall|k: int|
        0 <= k < t.len() ==> before[(#[trigger] t[k]).home as int].match_points >= before[t[k].away as int].match_points
}

/// Table `t` is the greedy pairing (`greedy`) of some order of the players
/// who were not granted a bye, sorted by ascending match points; or it is
/// empty.
pub open spec fn greedy_table(before: Seq<Player>, after: Seq<Player>, t: Seq<Pairing>) -> bool {
    t.len() == 0 || exists|q: Seq<usize>|
        {
            &&& q.no_duplicates()
            &&& forall|x: usize| #[trigger] q.contains(x) <==> (x < before.len() && !new_bye(before, after, x as int))
            &&& by_points(before, q)
            &&& table_of(t, greedy(q, histories(before)))
        }
}

/// The bye goes to a player with the fewest match points among those who
/// had not had one.
pub open spec fn bye_to_fewest(before: Seq<Player>, after: Seq<Player>) -> bool {
    forall|b: int, j: int|
        0 <= b < before.len() && 0 <= j < before.len() && new_bye(before, after, b) && !before[j].has_bye
            ==> #[trigger] before[b].match_points <= #[trigger] before[j].match_points
}

/// Every player is in table `t` or was granted a bye (save the odd one out
/// once everyone has had a bye). The one exception is a round that could
/// not be paired at all, which leaves `t` empty; it cannot happen while no
/// one has met anyone.
pub open spec fn all_placed(before: Seq<Player>, after: Seq<Player>, t: Seq<Pairing>, needs_bye: bool) -> bool {
    ||| t.len() == 0 && exists|i: int| 0 <= i < before.len() && before[i].opponents@.len() > 0
    ||| forall|i: int|
        0 <= i < before.len() ==> in_table(t, i) || new_bye(before, after, i) || (needs_bye
            && forall|j: int| 0 <= j < before.len() ==> before[j].has_bye)
}

/// A reordering keeps a sequence free of duplicates, and its elements.
pub proof fn lemma_same_ids<A>(a: Seq<A>, b: Seq<A>)
    requires
        a.to_multiset() == b.to_multiset(),
    ensures
        a.no_duplicates() ==> b.no_duplicates(),
        a.len() == b.len(),
        forall|x: A| a.contains(x) <==> b.contains(x),
{
    vstd::seq_lib::to_multiset_len(a);
    vstd::seq_lib::to_multiset_len(b);
    if a.no_duplicates() {
        a.lemma_multiset_has_no_duplicates();
        b.lemma_multiset_has_no_duplicates_conv();
    }
    assert forall|x: A| a.contains(x) <==> b.contains(x) by {
        vstd::seq_lib::to_multiset_contains(a, x);
        vstd::seq_lib::to_multiset_contains(b, x);
    }
}

/// A copy of `v`.
fn copy_ids(v: &Vec<usize>) -> (r: Vec<usize>)
    ensures
        r@ == v@,
{
    let mut r: Vec<usize> = Vec::new();
    let mut i: usize = 0;
    while i < v.len()
        invariant
            0 <= i <= v@.len(),
            r@ == v@.take(i as int),
        decreases v@.len() - i,
    {
        r.push(v[i]);
        i = i + 1;
        assert(r@ =~= v@.take(i as int));
    }
    assert(v@.take(i as int) =~= v@);
    r
}

impl Tournament {
    /// The tournament's invariant: the round count fits the roster, the
    /// active roster holds every player once, the table's pairings are
    /// disjoint, and no player has played more matches than rounds have
    /// begun, counting a pending pairing as a match.
    /// How many rounds have begun: the round counter, which keeps rising
    /// after the last round, capped at the number of rounds.
    pub open spec fn begun(self) -> int {
        if self.current_round <= self.rounds {
            self.current_round as int
        } else {
            self.rounds as int
        }
    }

    pub open spec fn wf(self) -> bool {
        let n = self.roster@.len();
        &&& self.rounds == ceil_log2(n as nat)
        &&& self.rounds <= 64
        &&& self.needs_bye == (n % 2 == 1)
        &&& same_ids(all_ids(n), self.players@)
        &&& self.players@.len() == n
        &&& self.players@.no_duplicates()
        &&& ids_below(self.players@, n as int)
        &&& forall|i: int| 0 <= i < n ==> ids_below(#[trigger] self.roster@[i].opponents@, n as int)
        &&& symmetric(self.roster@)
        &&& forall|k: int| 0 <= k < self.pairings@.len() ==> (#[trigger] self.pairings@[k]).within(n as int)
        &&& disjoint(self.pairings@)
        &&& forall|i: int|
            0 <= i < n ==> bounded(
                #[trigger] self.roster@[i],
                self.begun() - (if in_table(self.pairings@, i) { 1int } else { 0int }),
            )
    }

    /// A tournament over `players`, which have not played yet: it lasts
    /// `ceil(log2(n))` rounds for `n` players, and needs a bye each round
    /// when `n` is odd.
    pub fn new(players: Vec<Player>) -> (r: Tournament)
        requires
            forall|i: int| 0 <= i < players@.len() ==> fresh(#[trigger] players@[i]),
        ensures
            r.wf(),
            r.roster@ == players@,
            r.rounds == ceil_log2(players@.len() as nat),
            players@.len() <= pow2(r.rounds as nat),
            players@.len() >= 2 ==> pow2((r.rounds - 1) as nat) < players@.len(),
            r.current_round == 0,
            r.needs_bye == (players@.len() % 2 == 1),
            r.players@ == Seq::new(players@.len(), |i: int| i as usize),
            r.pairings@.len() == 0,
    {
        let n = players.len();
        let rounds = rounds_for(n);
        proof {
            lemma_ceil_log2_least(n as nat);
        }
        let mut active: Vec<usize> = Vec::new();
        let mut i: usize = 0;
        while i < n
            invariant
                0 <= i <= n,
                active@ == Seq::new(i as nat, |j: int| j as usize),
            decreases n - i,
        {
            active.push(i);
            i = i + 1;
            assert(active@ =~= Seq::new(i as nat, |j: int| j as usize));
        }
        let r = Tournament {
            rounds,
            current_round: 0,
            roster: players,
            players: active,
            pairings: Vec::new(),
            needs_bye: n % 2 == 1,
        };
        assert(r.players@.no_duplicates());
        r
    }

    /// When a bye is needed: shuffles the active roster, then removes from
    /// it the first player without a bye who has the fewest match points
    /// among those, and awards that player the bye.
    fn grant_bye(&mut self) -> (r: Option<usize>)
        requires
            old(self).players@.no_duplicates(),
            ids_below(old(self).players@, old(self).roster@.len() as int),
            forall|j: int|
                0 <= j < old(self).players@.len() ==> (#[trigger] old(self).roster@[old(
                    self,
                ).players@[j] as int]).has_room(),
        ensures
            final(self).roster@.len() == old(self).roster@.len(),
            final(self).rounds == old(self).rounds,
            final(self).current_round == old(self).current_round,
            final(self).pairings == old(self).pairings,
            final(self).needs_bye == old(self).needs_bye,
            !old(self).needs_bye ==> r is None && *final(self) == *old(self),
            r is None ==> final(self).roster@ == old(self).roster@ && same_ids(
                old(self).players@,
                final(self).players@,
            ),
            r is None && old(self).needs_bye ==> forall|j: int|
                0 <= j < old(self).players@.len() ==> (#[trigger] old(self).roster@[old(
                    self,
                ).players@[j] as int]).has_bye,
            r matches Some(b) ==> {
                &&& old(self).needs_bye
                &&& old(self).players@.contains(b)
                &&& !old(self).roster@[b as int].has_bye
                &&& forall|j: int|
                    0 <= j < old(self).players@.len() && !(#[trigger] old(self).roster@[old(
                        self,
                    ).players@[j] as int]).has_bye ==> old(self).roster@[b as int].match_points
                        <= old(self).roster@[old(self).players@[j] as int].match_points
                &&& final(self).roster@ == old(self).roster@.update(
                    b as int,
                    old(self).roster@[b as int].had_bye(),
                )
                &&& same_ids(old(self).players@, final(self).players@.push(b))
            },
    {
        if !self.needs_bye {
            return None;
        }
        let ghost start = self.players@;
        shuffle(&mut self.players);
        proof {
            lemma_same_ids(start, self.players@);
            assert forall|j: int| 0 <= j < self.players@.len() implies #[trigger] self.players@[j]
                < self.roster@.len() by {
                assert(self.players@.contains(self.players@[j]));
                let k = choose|k: int| 0 <= k < start.len() && start[k] == self.players@[j];
            }
        }
        let mut best: Option<usize> = None;
        let mut j: usize = 0;
        while j < self.players.len()
            invariant
                0 <= j <= self.players@.len(),
                ids_below(self.players@, self.roster@.len() as int),
                best matches Some(b) ==> {
                    &&& b < j
                    &&& !self.roster@[self.players@[b as int] as int].has_bye
                    &&& forall|t: int|
                        0 <= t < j && !(#[trigger] self.roster@[self.players@[t] as int]).has_bye
                            ==> self.roster@[self.players@[b as int] as int].match_points
                            <= self.roster@[self.players@[t] as int].match_points
                },
                best is None ==> forall|t: int|
                    0 <= t < j ==> (#[trigger] self.roster@[self.players@[t] as int]).has_bye,
            decreases self.players@.len() - j,
        {
            let id = self.players[j];
            if !self.roster[id].has_bye {
                match best {
                    None => {
                        best = Some(j);
                    },
                    Some(b) => {
                        if self.roster[id].match_points < self.roster[self.players[b]].match_points {
                            best = Some(j);
                        }
                    },
                }
            }
            j = j + 1;
        }
        match best {
            None => {
                proof {
                    assert forall|j: int|
                        0 <= j < start.len() implies (#[trigger] self.roster@[start[j] as int]).has_bye by {
                        assert(self.players@.contains(start[j]));
                    }
                }
                None
            },
            Some(b) => {
                let ghost shuffled = self.players@;
                let id = self.players.remove(b);
                proof {
                    assert(shuffled.contains(id));
                    assert(self.players@.push(id).to_multiset() =~= shuffled.to_multiset());
                    assert forall|j: int|
                        0 <= j < start.len() && !(#[trigger] self.roster@[start[j] as int]).has_bye
                        implies self.roster@[id as int].match_points
                        <= self.roster@[start[j] as int].match_points by {
                        let x = start[j];
                        assert(shuffled.contains(x));
                        let t = choose|t: int| 0 <= t < shuffled.len() && shuffled[t] == x;
                    }
                }
                self.roster[id].bye();
                Some(id)
            },
        }
    }

    /// Starts the next round and returns its pairings as (identifier, home
    /// name, away name), in random order; `None` once every round has begun.
    ///
    /// When the roster is odd, one player without a bye and with the fewest
    /// match points sits the round out with a bye (a 2-0 match win, no
    /// opponent). The others are paired anew, each pairing between players
    /// who have not met, until every one of them is paired; the previous
    /// round's table is dropped.
    #[verifier::rlimit(40)]
    pub fn next_round(&mut self) -> (r: Option<Vec<(u128, String, String)>>)
        requires
            old(self).wf(),
        ensures
            final(self).wf(),
            final(self).roster@.len() == old(self).roster@.len(),
            final(self).rounds == old(self).rounds,
            r is None <==> old(self).current_round >= old(self).rounds,
            r is None ==> {
                &&& final(self).current_round == (if old(self).current_round < u32::MAX {
                    old(self).current_round + 1
                } else {
                    old(self).current_round as int
                })
                &&& final(self).roster == old(self).roster
                &&& final(self).pairings == old(self).pairings
                &&& final(self).players == old(self).players
            },
            r matches Some(list) ==> {
                let (before, after, t) = (old(self).roster@, final(self).roster@, final(self).pairings@);
                &&& final(self).current_round == old(self).current_round + 1
                &&& list@.to_multiset() == announced(t, after).to_multiset()
                &&& new_matchups(before, after, t)
                &&& others_kept(before, after, t)
                &&& one_bye(before, after, old(self).needs_bye)
                &&& bye_to_fewest(before, after)
                &&& home_first(before, t)
                &&& greedy_table(before, after, t)
                &&& all_placed(before, after, t, old(self).needs_bye)
            },
    {
        if self.current_round >= self.rounds {
            if self.current_round < u32::MAX {
                self.current_round = self.current_round + 1;
            }
            return None;
        }
        self.current_round = self.current_round + 1;
        let ghost start = *self;
        let n = self.roster.len();
        proof {
            assert forall|j: int| 0 <= j < self.players@.len() implies (#[trigger] self.roster@[self.players@[j] as int]).has_room() by {
                let i = self.players@[j] as int;
                assert(bounded(self.roster@[i], start.current_round - 1 - (if in_table(start.pairings@, i) { 1int } else { 0int })));
            }
        }
        let bye = self.grant_bye();
        let ghost after_bye = *self;
        proof {
            if let Some(b) = bye {
                lemma_same_ids(start.players@, after_bye.players@.push(b));
                assert(after_bye.players@.push(b).no_duplicates());
                assert(after_bye.players@.push(b)[after_bye.players@.len() as int] == b);
                assert(!after_bye.players@.contains(b)) by {
                    if after_bye.players@.contains(b) {
                        let t = choose|t: int| 0 <= t < after_bye.players@.len() && after_bye.players@[t] == b;
                        assert(after_bye.players@.push(b)[t] == b);
                    }
                }
                assert(after_bye.players@.no_duplicates()) by {
                    assert forall|x: int, y: int| 0 <= x < y < after_bye.players@.len() implies after_bye.players@[x] != after_bye.players@[y] by {
                        assert(after_bye.players@.push(b)[x] == after_bye.players@[x]);
                        assert(after_bye.players@.push(b)[y] == after_bye.players@[y]);
                    }
                }
                assert forall|j: int| 0 <= j < after_bye.players@.len() implies #[trigger] after_bye.players@[j] < n by {
                    assert(after_bye.players@.push(b)[j] == after_bye.players@[j]);
                    assert(after_bye.players@.push(b).contains(after_bye.players@[j]));
                    assert(start.players@.contains(after_bye.players@[j]));
                    let k = choose|k: int| 0 <= k < start.players@.len() && start.players@[k] == after_bye.players@[j];
                }
            } else {
                lemma_same_ids(start.players@, after_bye.players@);
                assert forall|j: int| 0 <= j < after_bye.players@.len() implies #[trigger] after_bye.players@[j] < n by {
                    assert(after_bye.players@.contains(after_bye.players@[j]));
                    assert(start.players@.contains(after_bye.players@[j]));
                    let k = choose|k: int| 0 <= k < start.players@.len() && start.players@[k] == after_bye.players@[j];
                }
            }
        }
        let pairs = self.find_pairs();
        proof {
            assert forall|k: int| 0 <= k < pairs@.len() implies (#[trigger] pairs@[k]).0 < n && pairs@[k].1 < n by {
                let x = pairs@[k].0;
                let y = pairs@[k].1;
                let a = choose|a: int| 0 <= a < after_bye.players@.len() && after_bye.players@[a] == x;
                let c = choose|c: int| 0 <= c < after_bye.players@.len() && after_bye.players@[c] == y;
            }
        }
        let mut list = self.commit_pairs(&pairs);
        let ghost committed = list@;
        let ghost after_commit = *self;
        shuffle(&mut list);
        if let Some(b) = bye {
            self.players.push(b);
        }
        proof {
            let t = self.pairings@;
            let prior = old(self);
            assert(table_of(t, pairs@));
            lemma_table_of(t, pairs@);
            lemma_same_ids(committed, list@);
            lemma_same_ids(all_ids(n as nat), start.players@);
            // every index is in the active roster at the start of the round
            assert forall|i: int| 0 <= i < n implies #[trigger] start.players@.contains(i as usize) by {
                assert(all_ids(n as nat)[i] == i as usize);
                assert(all_ids(n as nat).contains(i as usize));
            }
            // the bye player's record
            assert forall|i: int| 0 <= i < n implies {
                &&& after_bye.roster@[i].opponents == start.roster@[i].opponents
                &&& (bye is None || bye != Some(i as usize)) ==> after_bye.roster@[i] == start.roster@[i]
            } by {}
            // the players of the table are active after the bye
            assert forall|i: int| 0 <= i < n && #[trigger] paired(pairs@, i as usize) implies after_bye.players@.contains(i as usize) by {
                let k = choose|k: int| 0 <= k < pairs@.len() && (pairs@[k].0 == i as usize || pairs@[k].1 == i as usize);
            }
            if let Some(b) = bye {
                assert(self.players@ == after_bye.players@.push(b));
                assert(!after_bye.players@.contains(b)) by {
                    if after_bye.players@.contains(b) {
                        let q = choose|q: int| 0 <= q < after_bye.players@.len() && after_bye.players@[q] == b;
                        assert(after_bye.players@.push(b)[q] == b);
                        assert(after_bye.players@.push(b)[after_bye.players@.len() as int] == b);
                    }
                }
                assert(!paired(pairs@, b));
            } else {
                assert(self.players@ == after_bye.players@);
            }
            lemma_same_ids(all_ids(n as nat), self.players@);
            assert forall|j: int| 0 <= j < self.players@.len() implies #[trigger] self.players@[j] < n by {
                assert(self.players@.contains(self.players@[j]));
                assert(all_ids(n as nat).contains(self.players@[j]));
            }
            // records after the round
            assert forall|i: int| 0 <= i < n implies {
                &&& ids_below(#[trigger] self.roster@[i].opponents@, n as int)
                &&& bounded(self.roster@[i], self.current_round - (if in_table(t, i) { 1int } else { 0int }))
                &&& !in_table(t, i) ==> (self.roster@[i] == prior.roster@[i]
                    || new_bye(prior.roster@, self.roster@, i))
                &&& new_bye(prior.roster@, self.roster@, i) ==> bye == Some(i as usize)
            } by {
                assert(bounded(start.roster@[i], start.current_round - 1 - (if in_table(start.pairings@, i) { 1int } else { 0int })));
                assert(ids_below(start.roster@[i].opponents@, n as int));
                if paired(pairs@, i as usize) {
                    let k = choose|k: int| 0 <= k < pairs@.len() && (pairs@[k].0 == i as usize || pairs@[k].1 == i as usize);
                    assert(t[k].home == pairs@[k].0);
                    assert(after_bye.players@.contains(i as usize));
                    if let Some(b) = bye {
                        assert(b != i as usize);
                    }
                } else {
                    assert(self.roster@[i] == after_bye.roster@[i]);
                }
            }
            assert forall|k: int| 0 <= k < t.len() implies (#[trigger] t[k]).within(n as int) by {}
            assert(disjoint(t)) by {
                assert forall|k1: int, k2: int| 0 <= k1 < t.len() && 0 <= k2 < t.len() && k1 != k2
                    implies t[k1].home != t[k2].home && t[k1].home != t[k2].away && t[k1].away != t[k2].home && t[k1].away != t[k2].away by {
                    assert(t[k1].home == pairs@[k1].0 && t[k2].home == pairs@[k2].0);
                }
            }
            // the returned list names the table's pairings
            assert(committed =~= announced(t, self.roster@));
            // the table's pairings are new matchups
            assert forall|k: int| 0 <= k < t.len() implies {
                let p = #[trigger] t[k];
                &&& !prior.roster@[p.home as int].opponents@.contains(p.away)
                &&& !prior.roster@[p.away as int].opponents@.contains(p.home)
                &&& same_but_opponents(self.roster@[p.home as int], prior.roster@[p.home as int])
                &&& same_but_opponents(self.roster@[p.away as int], prior.roster@[p.away as int])
                &&& self.roster@[p.home as int].opponents@ == prior.roster@[p.home as int].opponents@.push(p.away)
                &&& self.roster@[p.away as int].opponents@ == prior.roster@[p.away as int].opponents@.push(p.home)
            } by {
                let h = pairs@[k].0;
                let a = pairs@[k].1;
                assert(paired(pairs@, h));
                assert(paired(pairs@, a));
                assert(after_bye.players@.contains(h));
                assert(after_bye.players@.contains(a));
                if let Some(b) = bye {
                    assert(b != h && b != a);
                }
                if prior.roster@[a as int].opponents@.contains(h) {
                    let j = choose|j: int| 0 <= j < prior.roster@[a as int].opponents@.len() && prior.roster@[a as int].opponents@[j] == h;
                    assert(prior.roster@[prior.roster@[a as int].opponents@[j] as int].opponents@.contains(a));
                }
            }
            // histories only grow, and stay symmetric
            assert forall|o: int| 0 <= o < n implies {
                &&& (#[trigger] self.roster@[o]).opponents@.len() >= prior.roster@[o].opponents@.len()
                &&& forall|j: int| 0 <= j < prior.roster@[o].opponents@.len() ==> self.roster@[o].opponents@[j] == prior.roster@[o].opponents@[j]
            } by {
                if paired(pairs@, o as usize) {
                    let k = choose|k: int| 0 <= k < pairs@.len() && (pairs@[k].0 == o as usize || pairs@[k].1 == o as usize);
                    assert(t[k].home == pairs@[k].0);
                    assert(after_bye.players@.contains(o as usize));
                    if let Some(b) = bye {
                        assert(b != o as usize);
                    }
                } else {
                    assert(self.roster@[o] == after_bye.roster@[o]);
                }
            }
            assert(symmetric(self.roster@)) by {
                assert forall|i: int, j: int|
                    0 <= i < n && 0 <= j < self.roster@[i].opponents@.len() implies self.roster@[#[trigger] self.roster@[i].opponents@[j] as int].opponents@.contains(i as usize) by {
                    let old_len = prior.roster@[i].opponents@.len();
                    if j < old_len {
                        let o = prior.roster@[i].opponents@[j];
                        assert(self.roster@[i].opponents@[j] == o);
                        assert(prior.roster@[o as int].opponents@.contains(i as usize));
                        let q = choose|q: int| 0 <= q < prior.roster@[o as int].opponents@.len() && prior.roster@[o as int].opponents@[q] == i as usize;
                        assert(self.roster@[o as int].opponents@[q] == i as usize);
                    } else {
                        assert(paired(pairs@, i as usize)) by {
                            if !paired(pairs@, i as usize) {
                                assert(self.roster@[i] == after_bye.roster@[i]);
                            }
                        }
                        let k = choose|k: int| 0 <= k < pairs@.len() && (pairs@[k].0 == i as usize || pairs@[k].1 == i as usize);
                        let p = t[k];
                        assert(p.home == pairs@[k].0 && p.away == pairs@[k].1);
                        if p.home == i as usize {
                            assert(self.roster@[i].opponents@ == prior.roster@[i].opponents@.push(p.away));
                            assert(self.roster@[p.away as int].opponents@ == prior.roster@[p.away as int].opponents@.push(p.home));
                            assert(self.roster@[p.away as int].opponents@[prior.roster@[p.away as int].opponents@.len() as int] == i as usize);
                        } else {
                            assert(self.roster@[i].opponents@ == prior.roster@[i].opponents@.push(p.home));
                            assert(self.roster@[p.home as int].opponents@ == prior.roster@[p.home as int].opponents@.push(p.away));
                            assert(self.roster@[p.home as int].opponents@[prior.roster@[p.home as int].opponents@.len() as int] == i as usize);
                        }
                    }
                }
            }
            assert forall|b: int, j: int|
                0 <= b < n && 0 <= j < n && new_bye(prior.roster@, self.roster@, b) && !prior.roster@[j].has_bye
                implies #[trigger] prior.roster@[b].match_points <= #[trigger] prior.roster@[j].match_points by {
                assert(bye == Some(b as usize));
                assert(start.players@.contains(j as usize));
                let q = choose|q: int| 0 <= q < start.players@.len() && start.players@[q] == j as usize;
                assert(!start.roster@[start.players@[q] as int].has_bye);
            }
            // the table is the greedy pass over a sorted order of the active players
            assert(histories(prior.roster@) =~= histories(after_bye.roster@));
            assert forall|k: int| 0 <= k < t.len() implies prior.roster@[(#[trigger] t[k]).home as int].match_points
                >= prior.roster@[t[k].away as int].match_points by {
                assert(t[k].home == pairs@[k].0 && t[k].away == pairs@[k].1);
                assert(paired(pairs@, pairs@[k].0));
                assert(paired(pairs@, pairs@[k].1));
                assert(after_bye.players@.contains(pairs@[k].0));
                assert(after_bye.players@.contains(pairs@[k].1));
                if let Some(b) = bye {
                    assert(b != pairs@[k].0 && b != pairs@[k].1);
                }
            }
            if t.len() != 0 {
                let q = choose|q: Seq<usize>|
                    same_ids(after_bye.players@, q) && by_points(after_bye.roster@, q) && pairs@ == greedy(q, histories(after_bye.roster@));
                lemma_same_ids(after_bye.players@, q);
                assert forall|x: usize| #[trigger] q.contains(x) <==> (x < n && !new_bye(prior.roster@, self.roster@, x as int)) by {
                    if q.contains(x) {
                        assert(after_bye.players@.contains(x));
                        let j = choose|j: int| 0 <= j < after_bye.players@.len() && after_bye.players@[j] == x;
                        if let Some(b) = bye {
                            assert(x != b);
                        }
                    }
                    if x < n && !new_bye(prior.roster@, self.roster@, x as int) {
                        assert(all_ids(n as nat)[x as int] == x);
                        assert(all_ids(n as nat).contains(x));
                        assert(start.players@.contains(x));
                        if let Some(b) = bye {
                            assert(new_bye(prior.roster@, self.roster@, b as int));
                            assert(x != b);
                            assert(after_bye.players@.push(b).contains(x));
                            let j = choose|j: int| 0 <= j < after_bye.players@.len() + 1 && after_bye.players@.push(b)[j] == x;
                            assert(j < after_bye.players@.len());
                            assert(after_bye.players@[j] == x);
                        } else {
                            lemma_same_ids(start.players@, after_bye.players@);
                        }
                    }
                }
                assert forall|a: int, c: int| 0 <= a < c < q.len() implies crate::sorting::points_of(prior.roster@, #[trigger] q[a])
                    <= crate::sorting::points_of(prior.roster@, #[trigger] q[c]) by {
                    assert(q.contains(q[a]) && q.contains(q[c]));
                    assert(after_bye.players@.contains(q[a]) && after_bye.players@.contains(q[c]));
                    if let Some(b) = bye {
                        assert(q[a] != b && q[c] != b);
                    }
                    assert(crate::sorting::points_of(after_bye.roster@, q[a]) <= crate::sorting::points_of(after_bye.roster@, q[c]));
                }
                assert(table_of(t, greedy(q, histories(prior.roster@))));
            }
            if self.needs_bye && exists|i: int| 0 <= i < n && !prior.roster@[i].has_bye {
                let i = choose|i: int| 0 <= i < n && !prior.roster@[i].has_bye;
                if bye is None {
                    assert(start.players@.contains(i as usize));
                    let j = choose|j: int| 0 <= j < start.players@.len() && start.players@[j] == i as usize;
                    assert(false);
                }
                let b = bye->0;
                assert(new_bye(prior.roster@, self.roster@, b as int));
            }
            let fresh_round = forall|i: int| 0 <= i < n ==> prior.roster@[i].opponents@.len() == 0;
            if fresh_round {
                assert forall|j: int| 0 <= j < after_bye.players@.len() implies after_bye.roster@[#[trigger] after_bye.players@[j] as int].opponents@.len() == 0 by {
                    assert(after_bye.players@[j] < n);
                }
                assert(pairs@.len() == after_bye.players@.len() / 2);
            }
            if t.len() != 0 || fresh_round {
                assert forall|i: int| 0 <= i < n implies in_table(t, i) || new_bye(prior.roster@, self.roster@, i)
                    || (prior.needs_bye && forall|j: int| 0 <= j < n ==> prior.roster@[j].has_bye) by {
                    if !(prior.needs_bye && forall|j: int| 0 <= j < n ==> prior.roster@[j].has_bye) {
                        if prior.needs_bye {
                            assert(bye is Some);
                            assert(2 * pairs@.len() == after_bye.players@.len());
                        } else {
                            lemma_same_ids(start.players@, after_bye.players@);
                            assert(2 * pairs@.len() == after_bye.players@.len());
                        }
                        assert(start.players@.contains(i as usize));
                        if bye != Some(i as usize) {
                            lemma_same_ids(start.players@, self.players@);
                            assert(self.players@.contains(i as usize));
                            let q = choose|q: int| 0 <= q < self.players@.len() && self.players@[q] == i as usize;
                            if let Some(b) = bye {
                                assert(q < after_bye.players@.len());
                                assert(after_bye.players@[q] == i as usize);
                            }
                            assert(after_bye.players@.contains(i as usize));
                            assert(paired(pairs@, i as usize));
                        }
                    }
                }
            }
        }
        Some(list)
    }

    /// Records the result of the current round's pairing `uuid`: home won
    /// `home_score` games, away `away_score`, and `drawn` were drawn. The
    /// pairing then leaves the table. Fails with `NotFound` when no pairing
    /// of the table has that identifier, and with `OutOfRange` and the
    /// offending value when the scores are invalid; nothing changes then.
    pub fn end_match(&mut self, uuid: u128, home_score: u8, away_score: u8, drawn: u8) -> (r: Result<
        (),
        PairingResultError,
    >)
        requires
            old(self).wf(),
        ensures
            final(self).wf(),
            final(self).rounds == old(self).rounds,
            final(self).current_round == old(self).current_round,
            final(self).players == old(self).players,
            match find_id(old(self).pairings@, uuid) {
                None => r == Err::<(), PairingResultError>(PairingResultError::NotFound(uuid))
                    && *final(self) == *old(self),
                Some(k) => {
                    let p = old(self).pairings@[k];
                    match score_error(home_score, away_score, drawn) {
                        Some(v) => r == Err::<(), PairingResultError>(
                            PairingResultError::OutOfRange(v),
                        ) && final(self).roster@ == old(self).roster@ && final(self).pairings
                            == old(self).pairings,
                        None => r is Ok && final(self).pairings@ == old(self).pairings@.remove(k)
                            && final(self).roster@ == old(self).roster@.update(
                            p.home as int,
                            after_match(old(self).roster@[p.home as int], home_score as int, away_score as int, drawn as int),
                        ).update(
                            p.away as int,
                            after_match(old(self).roster@[p.away as int], away_score as int, home_score as int, drawn as int),
                        ),
                    }
                },
            },
    {
        let mut k: usize = 0;
        while k < self.pairings.len() && self.pairings[k].uuid != uuid
            invariant
                0 <= k <= self.pairings@.len(),
                forall|j: int| 0 <= j < k ==> self.pairings@[j].uuid != uuid,
            decreases self.pairings@.len() - k,
        {
            k = k + 1;
        }
        if k == self.pairings.len() {
            return Err(PairingResultError::NotFound(uuid));
        }
        proof {
            let t = self.pairings@;
            assert(exists|j: int| 0 <= j < t.len() && t[j].uuid == uuid);
            let c = find_id(t, uuid)->0;
            assert(c == k) by {
                if c < k {
                    assert(t[c].uuid != uuid);
                } else if c > k {
                    assert(t[k as int].uuid != uuid);
                }
            }
        }
        let p = self.pairings[k];
        let ghost start = *self;
        let n = self.roster.len();
        proof {
            assert(in_table(start.pairings@, p.home as int));
            assert(in_table(start.pairings@, p.away as int));
            assert(bounded(start.roster@[p.home as int], start.begun() - 1));
            assert(bounded(start.roster@[p.away as int], start.begun() - 1));
        }
        match p.end_match(&mut self.roster, home_score, away_score, drawn) {
            Ok(()) => {
                self.pairings.remove(k);
                proof {
                    let t0 = start.pairings@;
                    let t = self.pairings@;
                    assert(t =~= t0.remove(k as int));
                    assert forall|j: int| 0 <= j < t.len() implies t[j] == t0[if j < k { j } else { j + 1 }] by {}
                    assert forall|j: int| 0 <= j < t.len() implies (#[trigger] t[j]).within(n as int) by {
                        assert(t[j] == t0[if j < k { j } else { j + 1 }]);
                    }
                    assert(disjoint(t)) by {
                        assert forall|k1: int, k2: int| 0 <= k1 < t.len() && 0 <= k2 < t.len() && k1 != k2
                            implies t[k1].home != t[k2].home && t[k1].home != t[k2].away && t[k1].away != t[k2].home && t[k1].away != t[k2].away by {
                            assert(t[k1] == t0[if k1 < k { k1 } else { k1 + 1 }]);
                            assert(t[k2] == t0[if k2 < k { k2 } else { k2 + 1 }]);
                        }
                    }
                    assert forall|i: int| 0 <= i < n implies (#[trigger] self.roster@[i]).opponents@ == start.roster@[i].opponents@ by {}
                    assert(symmetric(self.roster@)) by {
                        assert forall|i: int, j: int|
                            0 <= i < n && 0 <= j < self.roster@[i].opponents@.len() implies self.roster@[#[trigger] self.roster@[i].opponents@[j] as int].opponents@.contains(i as usize) by {
                            assert(self.roster@[i].opponents@ == start.roster@[i].opponents@);
                            let o = start.roster@[i].opponents@[j] as int;
                            assert(self.roster@[o].opponents@ == start.roster@[o].opponents@);
                        }
                    }
                    assert forall|i: int| 0 <= i < n implies {
                        &&& bounded(#[trigger] self.roster@[i], self.begun() - (if in_table(t, i) { 1int } else { 0int }))
                        &&& ids_below(self.roster@[i].opponents@, n as int)
                    } by {
                        assert(bounded(start.roster@[i], start.begun() - (if in_table(t0, i) { 1int } else { 0int })));
                        assert(ids_below(start.roster@[i].opponents@, n as int));
                        if in_table(t, i) {
                            let j = choose|j: int| 0 <= j < t.len() && (t[j].home == i || t[j].away == i);
                            let j0 = if j < k { j } else { j + 1 };
                            assert(t[j] == t0[j0]);
                            assert(in_table(t0, i));
                            assert(i != p.home && i != p.away);
                        } else if i != p.home && i != p.away && in_table(t0, i) {
                            let j0 = choose|j0: int| 0 <= j0 < t0.len() && (t0[j0].home == i || t0[j0].away == i);
                            assert(j0 != k);
                            let j = if j0 < k { j0 } else { j0 - 1 };
                            assert(t[j] == t0[j0]);
                        }
                    }
                }
                Ok(())
            },
            Err(e) => {
                assert(self.roster@ =~= start.roster@);
                Err(PairingResultError::OutOfRange(e.value))
            },
        }
    }

    /// The ranking keys of every player, by roster index.
    pub fn standings(&self) -> (r: Vec<Standing>)
        requires
            self.wf(),
        ensures
            r@.len() == self.roster@.len(),
            forall|i: int|
                0 <= i < r@.len() ==> (#[trigger] r@[i]).rank() == rank_of(
                    self.roster@,
                    self.roster@[i],
                ) && r@[i].positive(),
    {
        let mut r: Vec<Standing> = Vec::new();
        let mut i: usize = 0;
        while i < self.roster.len()
            invariant
                self.wf(),
                0 <= i <= self.roster@.len(),
                r@.len() == i,
                forall|j: int|
                    0 <= j < i ==> (#[trigger] r@[j]).rank() == rank_of(
                        self.roster@,
                        self.roster@[j],
                    ) && r@[j].positive(),
            decreases self.roster@.len() - i,
        {
            r.push(standing(&self.roster[i], &self.roster));
            i = i + 1;
        }
        r
    }

    /// Every player's roster index, best first: by match points, then
    /// OMWP, GWP and OGWP, all descending. Players tied on all four keys
    /// come in random order.
    pub fn ranking_order(&self) -> (r: Vec<usize>)
        requires
            self.wf(),
        ensures
            same_ids(all_ids(self.roster@.len()), r@),
            ranked(self.roster@, r@),
    {
        let keys = self.standings();
        let n = self.roster.len();
        let mut ids: Vec<usize> = Vec::new();
        let mut i: usize = 0;
        while i < n
            invariant
                0 <= i <= n,
                n == self.roster@.len(),
                ids@ == Seq::new(i as nat, |j: int| j as usize),
            decreases n - i,
        {
            ids.push(i);
            i = i + 1;
            assert(ids@ =~= Seq::new(i as nat, |j: int| j as usize));
        }
        let ghost start = ids@;
        shuffle(&mut ids);
        proof {
            lemma_same_ids(start, ids@);
            assert forall|j: int| 0 <= j < ids@.len() implies #[trigger] ids@[j] < keys@.len() by {
                assert(ids@.contains(ids@[j]));
                assert(start.contains(ids@[j]));
            }
        }
        let ghost shuffled = ids@;
        sort_by_rank(&mut ids, &keys);
        proof {
            assert forall|a: int, b: int| 0 <= a < b < ids@.len() implies !crate::ranking::ranks_before(
                rank_of(self.roster@, self.roster@[#[trigger] ids@[b] as int]),
                rank_of(self.roster@, self.roster@[#[trigger] ids@[a] as int]),
            ) by {
                assert(keys@[ids@[a] as int].rank() == rank_of(self.roster@, self.roster@[ids@[a] as int]));
                assert(keys@[ids@[b] as int].rank() == rank_of(self.roster@, self.roster@[ids@[b] as int]));
            }
        }
        ids
    }

    /// Every player's record, best first (see `ranking_order`).
    pub fn ranking(&self) -> (r: Vec<Player>)
        requires
            self.wf(),
        ensures
            exists|order: Seq<usize>|
                {
                    &&& same_ids(all_ids(self.roster@.len()), order)
                    &&& ranked(self.roster@, order)
                    &&& order.len() == r@.len()
                    &&& forall|j: int|
                        0 <= j < r@.len() ==> (#[trigger] r@[j]).same_record(
                            self.roster@[order[j] as int],
                        )
                },
    {
        let order = self.ranking_order();
        proof {
            lemma_same_ids(all_ids(self.roster@.len()), order@);
            assert forall|j: int| 0 <= j < order@.len() implies #[trigger] order@[j] < self.roster@.len() by {
                assert(order@.contains(order@[j]));
                assert(all_ids(self.roster@.len()).contains(order@[j]));
            }
        }
        let mut r: Vec<Player> = Vec::new();
        let mut i: usize = 0;
        while i < order.len()
            invariant
                0 <= i <= order@.len(),
                forall|j: int| 0 <= j < order@.len() ==> #[trigger] order@[j] < self.roster@.len(),
                r@.len() == i,
                forall|j: int|
                    0 <= j < i ==> (#[trigger] r@[j]).same_record(self.roster@[order@[j] as int]),
            decreases order@.len() - i,
        {
            r.push(self.roster[order[i]].snapshot());
            i = i + 1;
        }
        r
    }

    /// Pairs the active roster: shuffles a copy of it, sorts it by match
    /// points and pairs it greedily (`match_round`), again and again until
    /// every active player is paired, or until `MAX_PAIRING_ATTEMPTS`, when
    /// no pairs are returned.
    fn find_pairs(&self) -> (pairs: Vec<(usize, usize)>)
        requires
            self.players@.no_duplicates(),
            ids_below(self.players@, self.roster@.len() as int),
        ensures
            pairs_disjoint(pairs@),
            no_rematch(self.roster@, pairs@),
            forall|k: int|
                0 <= k < pairs@.len() ==> self.players@.contains((#[trigger] pairs@[k]).0)
                    && self.players@.contains(pairs@[k].1),
            pairs@.len() == 0 || pairs@.len() == self.players@.len() / 2,
            2 * pairs@.len() == self.players@.len() ==> forall|x: usize|
                self.players@.contains(x) ==> #[trigger] paired(pairs@, x),
            unmet(self.roster@, self.players@) ==> pairs@.len() == self.players@.len() / 2,
            home_ahead(self.roster@, pairs@),
            pairs@.len() == 0 || exists|q: Seq<usize>|
                same_ids(self.players@, q) && by_points(self.roster@, q) && pairs@ == greedy(
                    q,
                    histories(self.roster@),
                ),
    {
        let target = self.players.len() / 2;
        let mut attempts: u64 = 0;
        while attempts < MAX_PAIRING_ATTEMPTS
            invariant
                self.players@.no_duplicates(),
                ids_below(self.players@, self.roster@.len() as int),
                target == self.players@.len() / 2,
                unmet(self.roster@, self.players@) ==> attempts == 0,
            decreases MAX_PAIRING_ATTEMPTS - attempts,
        {
            let mut queue = copy_ids(&self.players);
            shuffle(&mut queue);
            proof {
                lemma_same_ids(self.players@, queue@);
                assert forall|j: int| 0 <= j < queue@.len() implies #[trigger] queue@[j]
                    < self.roster@.len() by {
                    assert(queue@.contains(queue@[j]));
                    let k = choose|k: int| 0 <= k < self.players@.len() && self.players@[k] == queue@[j];
                }
            }
            let ghost shuffled = queue@;
            sort_by_points(&mut queue, &self.roster);
            proof {
                lemma_same_ids(shuffled, queue@);
                lemma_same_ids(self.players@, queue@);
            }
            let ghost sorted = queue@;
            proof {
                if unmet(self.roster@, self.players@) {
                    assert forall|j: int| 0 <= j < sorted.len() implies self.roster@[#[trigger] sorted[j] as int].opponents@.len() == 0 by {
                        assert(sorted.contains(sorted[j]));
                        assert(self.players@.contains(sorted[j]));
                        let k = choose|k: int| 0 <= k < self.players@.len() && self.players@[k] == sorted[j];
                    }
                }
            }
            let candidate = match_round(queue, &self.roster);
            attempts = attempts + 1;
            if candidate.len() == target {
                assert forall|x: usize| self.players@.contains(x) <==> sorted.contains(x) by {}
                assert(same_ids(self.players@, sorted));
                return candidate;
            }
        }
        Vec::new()
    }

    /// Enters `pairs` as the round's table: each becomes a `Pairing`, which
    /// records the two players as each other's opponents. Returns, for each,
    /// its identifier and the names of its home and away players.
    fn commit_pairs(&mut self, pairs: &Vec<(usize, usize)>) -> (ret: Vec<(u128, String, String)>)
        requires
            pairs_disjoint(pairs@),
            forall|k: int|
                0 <= k < pairs@.len() ==> (#[trigger] pairs@[k]).0 < old(self).roster@.len()
                    && pairs@[k].1 < old(self).roster@.len(),
        ensures
            final(self).rounds == old(self).rounds,
            final(self).current_round == old(self).current_round,
            final(self).players == old(self).players,
            final(self).needs_bye == old(self).needs_bye,
            final(self).roster@.len() == old(self).roster@.len(),
            final(self).pairings@.len() == pairs@.len(),
            ret@.len() == pairs@.len(),
            forall|k: int|
                0 <= k < pairs@.len() ==> {
                    let p = #[trigger] final(self).pairings@[k];
                    &&& p.home == pairs@[k].0
                    &&& p.away == pairs@[k].1
                    &&& ret@[k].0 == p.uuid
                    &&& ret@[k].1 == final(self).roster@[p.home as int].name
                    &&& ret@[k].2 == final(self).roster@[p.away as int].name
                    &&& same_but_opponents(final(self).roster@[p.home as int], old(self).roster@[p.home as int])
                    &&& same_but_opponents(final(self).roster@[p.away as int], old(self).roster@[p.away as int])
                    &&& final(self).roster@[p.home as int].opponents@
                        == old(self).roster@[p.home as int].opponents@.push(p.away)
                    &&& final(self).roster@[p.away as int].opponents@
                        == old(self).roster@[p.away as int].opponents@.push(p.home)
                },
            forall|i: int|
                0 <= i < old(self).roster@.len() && !paired(pairs@, i as usize)
                    ==> #[trigger] final(self).roster@[i] == old(self).roster@[i],
    {
        self.pairings.clear();
        let mut ret: Vec<(u128, String, String)> = Vec::new();
        let ghost start = self.roster@;
        let mut k: usize = 0;
        while k < pairs.len()
            invariant
                pairs_disjoint(pairs@),
                forall|j: int|
                    0 <= j < pairs@.len() ==> (#[trigger] pairs@[j]).0 < start.len() && pairs@[j].1
                        < start.len(),
                0 <= k <= pairs@.len(),
                self.rounds == old(self).rounds,
                self.current_round == old(self).current_round,
                self.players == old(self).players,
                self.needs_bye == old(self).needs_bye,
                start == old(self).roster@,
                self.roster@.len() == start.len(),
                self.pairings@.len() == k,
                ret@.len() == k,
                forall|j: int|
                    0 <= j < k ==> {
                        let p = #[trigger] self.pairings@[j];
                        &&& p.home == pairs@[j].0
                        &&& p.away == pairs@[j].1
                        &&& ret@[j].0 == p.uuid
                        &&& ret@[j].1 == self.roster@[p.home as int].name
                        &&& ret@[j].2 == self.roster@[p.away as int].name
                        &&& same_but_opponents(self.roster@[p.home as int], start[p.home as int])
                        &&& same_but_opponents(self.roster@[p.away as int], start[p.away as int])
                        &&& self.roster@[p.home as int].opponents@ == start[p.home as int].opponents@.push(p.away)
                        &&& self.roster@[p.away as int].opponents@ == start[p.away as int].opponents@.push(p.home)
                    },
                forall|i: int|
                    0 <= i < start.len() && !paired(pairs@.take(k as int), i as usize)
                        ==> #[trigger] self.roster@[i] == start[i],
            decreases pairs@.len() - k,
        {
            let (h, a) = pairs[k];
            let ghost before = self.roster@;
            assert(!paired(pairs@.take(k as int), h) && !paired(pairs@.take(k as int), a)) by {
                if paired(pairs@.take(k as int), h) {
                    let j = choose|j: int| 0 <= j < k && (pairs@.take(k as int)[j].0 == h || pairs@.take(k as int)[j].1 == h);
                    assert(pairs@[j] == pairs@.take(k as int)[j]);
                }
                if paired(pairs@.take(k as int), a) {
                    let j = choose|j: int| 0 <= j < k && (pairs@.take(k as int)[j].0 == a || pairs@.take(k as int)[j].1 == a);
                    assert(pairs@[j] == pairs@.take(k as int)[j]);
                }
            }
            let p = Pairing::new(&mut self.roster, h, a);
            let home_name = self.roster[h].name.clone();
            let away_name = self.roster[a].name.clone();
            ret.push((p.uuid, home_name, away_name));
            self.pairings.push(p);
            proof {
                assert forall|j: int| 0 <= j < k implies {
                    &&& pairs@[j].0 != h && pairs@[j].0 != a
                    &&& pairs@[j].1 != h && pairs@[j].1 != a
                } by {
                    assert(pairs@[j] != pairs@[k as int] || j == k);
                }
                assert forall|i: int| 0 <= i < start.len() && !paired(pairs@.take(k + 1), i as usize)
                    implies #[trigger] self.roster@[i] == start[i] by {
                    assert(pairs@.take(k + 1)[k as int] == pairs@[k as int]);
                    if paired(pairs@.take(k as int), i as usize) {
                        let j = choose|j: int| 0 <= j < k && (pairs@.take(k as int)[j].0 == i || pairs@.take(k as int)[j].1 == i);
                        assert(pairs@.take(k + 1)[j] == pairs@.take(k as int)[j]);
                    }
                }
            }
            k = k + 1;
        }
        assert(pairs@.take(k as int) =~= pairs@);
        ret
    }
}

} // verus!

//! One attempt at pairing a round: a greedy pass over a queue of players.
use crate::player::{ids_below, Player};
use crate::sorting::{by_points, points_of};
use vstd::prelude::*;

verus! {

broadcast use vstd::seq_lib::group_to_multiset_ensures;

/// `x` is one of the two players of some pair in `pairs`.
pub open spec fn paired(pairs: Seq<(usize, usize)>, x: usize) -> bool {
    exists|k: int| 0 <= k < pairs.len() && (pairs[k].0 == x || pairs[k].1 == x)
}

/// No player appears twice in `pairs`, within a pair or across two.
pub open spec fn pairs_disjoint(pairs: Seq<(usize, usize)>) -> bool {
    &&& forall|k: int| 0 <= k < pairs.len() ==> (#[trigger] pairs[k]).0 != pairs[k].1
    &&& forall|k1: int, k2: int|
        0 <= k1 < pairs.len() && 0 <= k2 < pairs.len() && k1 != k2 ==> {
            &&& (#[trigger] pairs[k1]).0 != (#[trigger] pairs[k2]).0
            &&& pairs[k1].0 != pairs[k2].1
            &&& pairs[k1].1 != pairs[k2].0
            &&& pairs[k1].1 != pairs[k2].1
        }
}

/// No pair of `pairs` has met before: the away player is not in the home
/// player's opponent history.
pub open spec fn no_rematch(roster: Seq<Player>, pairs: Seq<(usize, usize)>) -> bool {
    forall|k: int|
        0 <= k < pairs.len() ==> !roster[(#[trigger] pairs[k]).0 as int].opponents@.contains(
            pairs[k].1,
        )
}

/// The opponent histories of a roster, by index.
pub open spec fn histories(roster: Seq<Player>) -> Seq<Seq<usize>> {
    roster.map_values(|p: Player| p.opponents@)
}

/// The last index below `i` of a player of `rest` who is not in `met`, or
/// -1 when there is none.
pub open spec fn last_unmet(rest: Seq<usize>, met: Seq<usize>, i: int) -> int
    decreases i,
{
    if i <= 0 {
        -1
    } else if !met.contains(rest[i - 1]) {
        i - 1
    } else {
        last_unmet(rest, met, i - 1)
    }
}

proof fn lemma_last_unmet_range(rest: Seq<usize>, met: Seq<usize>, i: int)
    ensures
        -1 <= last_unmet(rest, met, i) < i || (i <= 0 && last_unmet(rest, met, i) == -1),
    decreases i,
{
    if i > 0 {
        lemma_last_unmet_range(rest, met, i - 1);
    }
}

/// The greedy pairing of `queue`, given the players' histories `hist`: the
/// last player is home; away is the last of the others whom home has not
/// met, and both leave the queue; when home has met them all, home alone
/// leaves it. This repeats until the queue is empty.
pub open spec fn greedy(queue: Seq<usize>, hist: Seq<Seq<usize>>) -> Seq<(usize, usize)>
    decreases queue.len(),
{
    if queue.len() == 0 {
        seq![]
    } else {
        let home = queue.last();
        let rest = queue.drop_last();
        let t = last_unmet(rest, hist[home as int], rest.len() as int);
        if 0 <= t < rest.len() {
            seq![(home, rest[t])] + greedy(rest.remove(t), hist)
        } else {
            greedy(rest, hist)
        }
    }
}

/// In every pair, home has at least as many match points as away.
pub open spec fn home_ahead(roster: Seq<Player>, pairs: Seq<(usize, usize)>) -> bool {
    forall|k: int|
        0 <= k < pairs.len() ==> points_of(roster, (#[trigger] pairs[k]).0) >= points_of(
            roster,
            pairs[k].1,
        )
}

/// None of the players of `ids` has met anyone yet.
pub open spec fn unmet(roster: Seq<Player>, ids: Seq<usize>) -> bool {
    forall|j: int| 0 <= j < ids.len() ==> roster[#[trigger] ids[j] as int].opponents@.len() == 0
}

/// What taking the last player off a queue leaves: the others, in order.
proof fn lemma_drop_last(roster: Seq<Player>, q0: Seq<usize>)
    requires
        q0.no_duplicates(),
        q0.len() > 0,
    ensures
        !q0.drop_last().contains(q0.last()),
        forall|x: usize| q0.drop_last().contains(x) ==> q0.contains(x),
        forall|x: usize| q0.contains(x) && x != q0.last() ==> q0.drop_last().contains(x),
        q0.drop_last().no_duplicates(),
        by_points(roster, q0) ==> by_points(roster, q0.drop_last()),
        by_points(roster, q0) ==> forall|j: int|
            0 <= j < q0.len() - 1 ==> points_of(roster, #[trigger] q0.drop_last()[j]) <= points_of(roster, q0.last()),
{
    let q = q0.drop_last();
    assert forall|x: usize| q.contains(x) implies q0.contains(x) && x != q0.last() by {
        let t = choose|t: int| 0 <= t < q.len() && q[t] == x;
        assert(q0[t] == x);
    }
    assert forall|x: usize| q0.contains(x) && x != q0.last() implies q.contains(x) by {
        let t = choose|t: int| 0 <= t < q0.len() && q0[t] == x;
        assert(q[t] == x);
    }
    if by_points(roster, q0) {
        assert forall|a: int, b: int| 0 <= a < b < q.len() implies points_of(roster, #[trigger] q[a])
            <= points_of(roster, #[trigger] q[b]) by {
            assert(q[a] == q0[a] && q[b] == q0[b]);
        }
        assert forall|j: int| 0 <= j < q0.len() - 1 implies points_of(roster, #[trigger] q[j]) <= points_of(roster, q0.last()) by {
            assert(q[j] == q0[j]);
            assert(q0.last() == q0[q0.len() - 1]);
        }
    }
}

/// What taking the player at `t` out of a queue leaves: the others, in order.
proof fn lemma_remove_at(roster: Seq<Player>, q1: Seq<usize>, t: int)
    requires
        q1.no_duplicates(),
        0 <= t < q1.len(),
    ensures
        forall|x: usize| q1.remove(t).contains(x) ==> q1.contains(x) && x != q1[t],
        forall|x: usize| q1.contains(x) && x != q1[t] ==> q1.remove(t).contains(x),
        q1.remove(t).no_duplicates(),
        by_points(roster, q1) ==> by_points(roster, q1.remove(t)),
{
    let q = q1.remove(t);
    assert forall|x: usize| q.contains(x) implies q1.contains(x) && x != q1[t] by {
        let s = choose|s: int| 0 <= s < q.len() && q[s] == x;
        if s < t {
            assert(q1[s] == x);
        } else {
            assert(q1[s + 1] == x);
        }
    }
    assert forall|x: usize| q1.contains(x) && x != q1[t] implies q.contains(x) by {
        let s = choose|s: int| 0 <= s < q1.len() && q1[s] == x;
        if s < t {
            assert(q[s] == x);
        } else {
            assert(q[s - 1] == x);
        }
    }
    assert forall|a: int, b: int| 0 <= a < q.len() && 0 <= b < q.len() && a != b implies q[a] != q[b] by {
        let a1 = if a < t { a } else { a + 1 };
        let b1 = if b < t { b } else { b + 1 };
        assert(q[a] == q1[a1] && q[b] == q1[b1]);
    }
    if by_points(roster, q1) {
        assert forall|a: int, b: int| 0 <= a < b < q.len() implies points_of(roster, #[trigger] q[a])
            <= points_of(roster, #[trigger] q[b]) by {
            let a1 = if a < t { a } else { a + 1 };
            let b1 = if b < t { b } else { b + 1 };
            assert(q[a] == q1[a1] && q[b] == q1[b1]);
        }
    }
}

/// Tells whether `x` occurs in `v`.
pub fn contains_id(v: &Vec<usize>, x: usize) -> (r: bool)
    ensures
        r == v@.contains(x),
{
    let mut i: usize = 0;
    while i < v.len()
        invariant
            0 <= i <= v@.len(),
            forall|j: int| 0 <= j < i ==> v@[j] != x,
        decreases v@.len() - i,
    {
        if v[i] == x {
            return true;
        }
        i = i + 1;
    }
    false
}

/// Pairs the players of `queue`, which is sorted by ascending match points.
/// The last player of the queue is taken as home; the away player is the
/// nearest one below it in the queue that home has not met yet. When there
/// is none, home stays unpaired this time. This repeats until the queue is
/// empty.
pub fn match_round(queue: Vec<usize>, roster: &Vec<Player>) -> (pairs: Vec<(usize, usize)>)
    requires
        queue@.no_duplicates(),
        ids_below(queue@, roster@.len() as int),
    ensures
        pairs_disjoint(pairs@),
        no_rematch(roster@, pairs@),
        forall|k: int|
            0 <= k < pairs@.len() ==> queue@.contains((#[trigger] pairs@[k]).0) && queue@.contains(
                pairs@[k].1,
            ),
        2 * pairs@.len() <= queue@.len(),
        2 * pairs@.len() == queue@.len() ==> forall|x: usize|
            queue@.contains(x) ==> #[trigger] paired(pairs@, x),
        unmet(roster@, queue@) ==> pairs@.len() == queue@.len() / 2,
        pairs@ == greedy(queue@, histories(roster@)),
        by_points(roster@, queue@) ==> home_ahead(roster@, pairs@),
{
    let ghost hist = histories(roster@);
    let ghost orig = queue@;
    let mut q = queue;
    let mut pairs: Vec<(usize, usize)> = Vec::new();
    let ghost mut skipped: int = 0;
    while q.len() > 0
        invariant
            q@.no_duplicates(),
            ids_below(q@, roster@.len() as int),
            forall|x: usize| q@.contains(x) ==> orig.contains(x),
            forall|k: int|
                0 <= k < pairs@.len() ==> orig.contains((#[trigger] pairs@[k]).0) && orig.contains(
                    pairs@[k].1,
                ) && !q@.contains(pairs@[k].0) && !q@.contains(pairs@[k].1),
            pairs_disjoint(pairs@),
            no_rematch(roster@, pairs@),
            skipped >= 0,
            2 * pairs@.len() + skipped + q@.len() == orig.len(),
            skipped == 0 ==> forall|x: usize| orig.contains(x) ==> q@.contains(x) || paired(pairs@, x),
            unmet(roster@, orig) ==> skipped == 0 || (skipped == 1 && q@.len() == 0),
            hist == histories(roster@),
            pairs@ + greedy(q@, hist) == greedy(orig, hist),
            by_points(roster@, orig) ==> by_points(roster@, q@) && home_ahead(roster@, pairs@),
        decreases q@.len(),
    {
        let ghost q0 = q@;
        let ghost old_pairs = pairs@;
        assert(skipped == 0 ==> forall|x: usize| orig.contains(x) ==> q0.contains(x) || paired(old_pairs, x));
        let home = q.pop().unwrap();
        assert(q0 == q@.push(home));
        assert(q0.drop_last() =~= q@);
        proof {
            lemma_drop_last(roster@, q0);
        }
        assert(orig.contains(home)) by {
            assert(q0.contains(home));
        }
        let mut i: usize = q.len();
        let mut found: Option<usize> = None;
        while i > 0 && found.is_none()
            invariant
                0 <= i <= q@.len(),
                found matches Some(t) ==> t < q@.len() && !roster@[home as int].opponents@.contains(
                    q@[t as int],
                ),
                found is None ==> forall|t: int|
                    i <= t < q@.len() ==> roster@[home as int].opponents@.contains(#[trigger] q@[t]),
                found is None ==> last_unmet(q@, roster@[home as int].opponents@, q@.len() as int)
                    == last_unmet(q@, roster@[home as int].opponents@, i as int),
                found matches Some(t) ==> last_unmet(q@, roster@[home as int].opponents@, q@.len() as int) == t,
                home < roster@.len(),
            decreases i,
        {
            i = i - 1;
            if !contains_id(&roster[home].opponents, q[i]) {
                found = Some(i);
            }
        }
        proof {
            assert(hist[home as int] == roster@[home as int].opponents@);
            assert(q0.drop_last() == q@);
            assert(q0.last() == home);
            lemma_last_unmet_range(q@, hist[home as int], q@.len() as int);
        }
        match found {
            Some(t) => {
                let ghost q1 = q@;
                let away = q.remove(t);
                proof {
                    lemma_remove_at(roster@, q1, t as int);
                }
                assert(q1.contains(away));
                assert(orig.contains(away));
                pairs.push((home, away));
                proof {
                    assert(greedy(q0, hist) == seq![(home, q1[t as int])] + greedy(q@, hist));
                    assert(pairs@ + greedy(q@, hist) =~= old_pairs + (seq![(home, away)] + greedy(q@, hist)));
                    if by_points(roster@, orig) {
                        assert(points_of(roster@, q@.push(home)[t as int]) <= points_of(roster@, home));
                        assert forall|k: int| 0 <= k < pairs@.len() implies points_of(roster@, (#[trigger] pairs@[k]).0)
                            >= points_of(roster@, pairs@[k].1) by {
                            if k < old_pairs.len() {
                                assert(pairs@[k] == old_pairs[k]);
                            }
                        }
                    }
                    assert(pairs@[old_pairs.len() as int] == (home, away));
                    assert forall|k: int| 0 <= k < old_pairs.len() implies pairs@[k] == old_pairs[k] by {}
                    assert forall|k: int| 0 <= k < old_pairs.len() implies old_pairs[k].0 != home && old_pairs[k].1 != home
                        && old_pairs[k].0 != away && old_pairs[k].1 != away by {
                        assert(!q0.contains(old_pairs[k].0));
                        assert(!q0.contains(old_pairs[k].1));
                        assert(q0.contains(home));
                        assert(q0.contains(away));
                    }
                    assert(home != away);
                    assert(paired(pairs@, home));
                    assert(paired(pairs@, away));
                    if skipped == 0 {
                        assert forall|x: usize| orig.contains(x) implies q@.contains(x) || paired(pairs@, x) by {
                            if !q@.contains(x) && x != home && x != away {
                                if q0.contains(x) {
                                    let s = choose|s: int| 0 <= s < q0.len() && q0[s] == x;
                                    assert(s < q1.len());
                                    assert(q1[s] == x);
                                    assert(q1.contains(x));
                                    assert(q@.contains(x));
                                }
                                assert(orig.contains(x) ==> q0.contains(x) || paired(old_pairs, x));
                                assert(paired(old_pairs, x));
                                let k = choose|k: int| 0 <= k < old_pairs.len() && (old_pairs[k].0 == x || old_pairs[k].1 == x);
                                assert(pairs@[k] == old_pairs[k]);
                            }
                        }
                    }
                }
            },
            None => {
                proof {
                    assert(greedy(q0, hist) == greedy(q@, hist));
                    if unmet(roster@, orig) && q@.len() > 0 {
                        let j = choose|j: int| 0 <= j < orig.len() && orig[j] == home;
                        assert(roster@[orig[j] as int].opponents@.len() == 0);
                        assert(roster@[home as int].opponents@.contains(q@[0]));
                    }
                    skipped = skipped + 1;
                }
            },
        }
    }
    assert(pairs@ + greedy(q@, hist) =~= pairs@);
    pairs
}

} // verus!

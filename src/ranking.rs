//! The ranking order: match points, then opponents' match win percentage,
//! game win percentage and opponents' game win percentage, all descending.
use crate::fraction::{frac_mean, lemma_sum_den_positive, mean_fits, Fraction};
use crate::player::{game_percentages, ids_below, match_percentages, Player};
use vstd::prelude::*;

verus! {

broadcast use vstd::seq_lib::group_to_multiset_ensures;

/// A fraction given as `(numerator, denominator)`.
pub type Ratio = (int, int);

/// The four ranking keys of a player: match points, OMWP, GWP, OGWP.
pub type Rank = (int, Ratio, Ratio, Ratio);

/// `a > b` as rationals with positive denominators.
pub open spec fn greater(a: Ratio, b: Ratio) -> bool {
    a.0 * b.1 > b.0 * a.1
}

/// `x` ranks strictly ahead of `y`: more match points, or as many and a
/// higher OMWP, or those equal and a higher GWP, or those equal and a
/// higher OGWP.
pub open spec fn ranks_before(x: Rank, y: Rank) -> bool {
    ||| x.0 > y.0
    ||| x.0 == y.0 && greater(x.1, y.1)
    ||| x.0 == y.0 && !greater(y.1, x.1) && greater(x.2, y.2)
    ||| x.0 == y.0 && !greater(y.1, x.1) && !greater(y.2, x.2) && greater(x.3, y.3)
}

/// An opponents' percentage for ranking: the exact mean, or one third (the
/// floor of every percentage) for a player without opponents, or whose mean
/// cannot be held exactly.
pub open spec fn mean_or_floor(s: Seq<Ratio>) -> Ratio {
    if mean_fits(s) {
        frac_mean(s)
    } else {
        (1, 3)
    }
}

/// The ranking keys of player `p` of `roster`.
pub open spec fn rank_of(roster: Seq<Player>, p: Player) -> Rank {
    (
        p.match_points as int,
        mean_or_floor(match_percentages(roster, p.opponents@)),
        p.spec_gwp(),
        mean_or_floor(game_percentages(roster, p.opponents@)),
    )
}

/// No player of `order` ranks strictly ahead of one listed before it.
pub open spec fn ranked(roster: Seq<Player>, order: Seq<usize>) -> bool {
    forall|a: int, b: int|
        0 <= a < b < order.len() ==> !ranks_before(
            rank_of(roster, roster[#[trigger] order[b] as int]),
            rank_of(roster, roster[#[trigger] order[a] as int]),
        )
}

/// A player's four ranking keys, exactly.
#[derive(Clone, Copy, Debug)]
pub struct Standing {
    pub match_points: u32,
    pub omwp: Fraction,
    pub gwp: Fraction,
    pub ogwp: Fraction,
}

impl Standing {
    pub open spec fn rank(self) -> Rank {
        (self.match_points as int, self.omwp.pair(), self.gwp.pair(), self.ogwp.pair())
    }

    pub open spec fn positive(self) -> bool {
        self.omwp.den > 0 && self.gwp.den > 0 && self.ogwp.den > 0
    }
}

/// Comparisons of rationals with positive denominators chain.
pub proof fn lemma_greater_chain(a: Ratio, b: Ratio, c: Ratio)
    requires
        a.1 > 0,
        b.1 > 0,
        c.1 > 0,
    ensures
        greater(a, b) && greater(b, c) ==> greater(a, c),
        greater(a, b) && !greater(c, b) ==> greater(a, c),
        !greater(b, a) && greater(b, c) ==> greater(a, c),
        !greater(b, a) && !greater(c, b) ==> !greater(c, a),
        greater(a, b) ==> !greater(b, a),
{
    let (x, p) = a;
    let (y, q) = b;
    let (z, r) = c;
    assert(x * q > y * p && y * r > z * q ==> x * r > z * p) by (nonlinear_arith)
        requires p > 0, q > 0, r > 0;
    assert(x * q > y * p && z * q <= y * r ==> x * r > z * p) by (nonlinear_arith)
        requires p > 0, q > 0, r > 0;
    assert(y * p <= x * q && y * r > z * q ==> x * r > z * p) by (nonlinear_arith)
        requires p > 0, q > 0, r > 0;
    assert(y * p <= x * q && z * q <= y * r ==> z * p <= x * r) by (nonlinear_arith)
        requires p > 0, q > 0, r > 0;
}

/// "Not ranked strictly ahead" is transitive, and "strictly ahead" is
/// asymmetric: the ranking order is a total preorder.
pub proof fn lemma_rank_order(x: Rank, y: Rank, z: Rank)
    requires
        x.1.1 > 0 && x.2.1 > 0 && x.3.1 > 0,
        y.1.1 > 0 && y.2.1 > 0 && y.3.1 > 0,
        z.1.1 > 0 && z.2.1 > 0 && z.3.1 > 0,
    ensures
        !ranks_before(y, x) && !ranks_before(z, y) ==> !ranks_before(z, x),
        ranks_before(x, y) ==> !ranks_before(y, x),
{
    lemma_greater_chain(x.1, y.1, z.1);
    lemma_greater_chain(z.1, y.1, x.1);
    lemma_greater_chain(y.1, x.1, z.1);
    lemma_greater_chain(x.1, z.1, y.1);
    lemma_greater_chain(y.1, z.1, x.1);
    lemma_greater_chain(z.1, x.1, y.1);
    lemma_greater_chain(x.2, y.2, z.2);
    lemma_greater_chain(z.2, y.2, x.2);
    lemma_greater_chain(y.2, x.2, z.2);
    lemma_greater_chain(x.2, z.2, y.2);
    lemma_greater_chain(y.2, z.2, x.2);
    lemma_greater_chain(z.2, x.2, y.2);
    lemma_greater_chain(x.3, y.3, z.3);
    lemma_greater_chain(z.3, y.3, x.3);
    lemma_greater_chain(y.3, x.3, z.3);
    lemma_greater_chain(x.3, z.3, y.3);
    lemma_greater_chain(y.3, z.3, x.3);
    lemma_greater_chain(z.3, x.3, y.3);
}

/// The opponents' percentages used for ranking have positive denominators.
pub proof fn lemma_rank_positive(roster: Seq<Player>, p: Player)
    requires
        ids_below(p.opponents@, roster.len() as int),
    ensures
        rank_of(roster, p).1.1 > 0,
        rank_of(roster, p).2.1 > 0,
        rank_of(roster, p).3.1 > 0,
{
    let m = match_percentages(roster, p.opponents@);
    let g = game_percentages(roster, p.opponents@);
    assert forall|i: int| 0 <= i < m.len() implies (#[trigger] m[i]).1 > 0 by {
        assert(m[i] == roster[p.opponents@[i] as int].spec_mwp());
    }
    assert forall|i: int| 0 <= i < g.len() implies (#[trigger] g[i]).1 > 0 by {
        assert(g[i] == roster[p.opponents@[i] as int].spec_gwp());
    }
    lemma_sum_den_positive(m);
    lemma_sum_den_positive(g);
}

/// The ranking keys of `p`, a player of `roster`.
pub fn standing(p: &Player, roster: &Vec<Player>) -> (r: Standing)
    requires
        ids_below(p.opponents@, roster@.len() as int),
    ensures
        r.rank() == rank_of(roster@, *p),
        r.positive(),
{
    proof {
        lemma_rank_positive(roster@, *p);
    }
    let omwp = match p.opponents_match_win_percentage(roster) {
        Some(f) => f,
        None => Fraction::one_third(),
    };
    let ogwp = match p.opponents_game_win_percentage(roster) {
        Some(f) => f,
        None => Fraction::one_third(),
    };
    Standing { match_points: p.match_points, omwp, gwp: p.game_win_percentage(), ogwp }
}

/// `ids` lists its players best first by the keys in `keys`.
pub open spec fn by_rank(keys: Seq<Standing>, ids: Seq<usize>) -> bool {
    forall|a: int, b: int|
        0 <= a < b < ids.len() ==> !ranks_before(
            keys[#[trigger] ids[b] as int].rank(),
            keys[#[trigger] ids[a] as int].rank(),
        )
}

/// Where `x` stands in `s`.
pub open spec fn position(s: Seq<usize>, x: usize) -> int {
    choose|k: int| 0 <= k < s.len() && s[k] == x
}

/// Neither of two keys ranks strictly ahead of the other.
pub open spec fn tied(x: Rank, y: Rank) -> bool {
    !ranks_before(x, y) && !ranks_before(y, x)
}

/// Players of `after` that tie on all four keys stand in the order they had
/// in `before`.
pub open spec fn keeps_ties(keys: Seq<Standing>, before: Seq<usize>, after: Seq<usize>) -> bool {
    forall|a: int, b: int|
        0 <= a < b < after.len() && tied(
            keys[#[trigger] after[a] as int].rank(),
            keys[#[trigger] after[b] as int].rank(),
        ) ==> position(before, after[a]) < position(before, after[b])
}

proof fn lemma_position(s: Seq<usize>, k: int)
    requires
        s.no_duplicates(),
        0 <= k < s.len(),
    ensures
        position(s, s[k]) == k,
{
    let q = position(s, s[k]);
    assert(0 <= q < s.len() && s[q] == s[k]);
}

/// Inserting `x` at `p` into a ranked prefix of length `i`, behind the players
/// it does not rank ahead of and ahead of those it does, gives a ranked
/// prefix of length `i + 1`.
proof fn lemma_insert_ranked(
    keys: Seq<Standing>,
    removed: Seq<usize>,
    after: Seq<usize>,
    i: int,
    p: int,
    x: usize,
)
    requires
        0 <= p <= i <= removed.len(),
        after == removed.insert(p, x),
        x < keys.len(),
        ids_below(removed, keys.len() as int),
        forall|j: int| 0 <= j < keys.len() ==> (#[trigger] keys[j]).positive(),
        by_rank(keys, removed.take(i)),
        p > 0 ==> !ranks_before(keys[x as int].rank(), keys[removed[p - 1] as int].rank()),
        forall|a: int| p <= a < i ==> ranks_before(keys[x as int].rank(), #[trigger] keys[removed[a] as int].rank()),
    ensures
        by_rank(keys, after.take(i + 1)),
{
    let w = after.take(i + 1);
    let rt = removed.take(i);
    assert forall|a: int, b: int| 0 <= a < b < w.len() implies !ranks_before(
        keys[#[trigger] w[b] as int].rank(),
        keys[#[trigger] w[a] as int].rank(),
    ) by {
        let ra = keys[w[a] as int].rank();
        let rb = keys[w[b] as int].rank();
        assert(keys[w[a] as int].positive());
        assert(keys[w[b] as int].positive());
        if b < p {
            assert(w[a] == rt[a] && w[b] == rt[b]);
        } else if b == p {
            if a < p {
                assert(w[a] == rt[a]);
                assert(removed[p - 1] == rt[p - 1]);
                let rp = keys[removed[p - 1] as int].rank();
                assert(keys[removed[p - 1] as int].positive());
                lemma_rank_order(ra, rp, rb);
            }
        } else if a < p {
            assert(w[a] == rt[a]);
            assert(w[b] == rt[b - 1]);
        } else if a == p {
            assert(w[b] == removed[b - 1]);
            lemma_rank_order(ra, rb, ra);
        } else {
            assert(w[a] == rt[a - 1]);
            assert(w[b] == rt[b - 1]);
        }
    }
}

/// The same insertion keeps tied players in their original order, when the
/// prefix held exactly the first `i` players of `orig` and `x` is the next.
proof fn lemma_insert_keeps_ties(
    keys: Seq<Standing>,
    orig: Seq<usize>,
    before: Seq<usize>,
    removed: Seq<usize>,
    after: Seq<usize>,
    i: int,
    p: int,
    x: usize,
)
    requires
        orig.no_duplicates(),
        0 <= p <= i < before.len(),
        before.len() == orig.len(),
        x == before[i],
        x == orig[i],
        position(orig, x) == i,
        removed == before.remove(i),
        after == removed.insert(p, x),
        forall|a: int|
            0 <= a < i ==> 0 <= position(orig, #[trigger] before[a]) < i && orig[position(orig, before[a])] == before[a],
        keeps_ties(keys, orig, before.take(i)),
        forall|a: int| p <= a < i ==> ranks_before(keys[x as int].rank(), #[trigger] keys[removed[a] as int].rank()),
    ensures
        forall|a: int|
            0 <= a < i + 1 ==> 0 <= position(orig, #[trigger] after[a]) < i + 1 && orig[position(orig, after[a])] == after[a],
        keeps_ties(keys, orig, after.take(i + 1)),
{
    assert forall|a: int| 0 <= a < i + 1 implies 0 <= position(orig, #[trigger] after[a]) < i + 1
        && orig[position(orig, after[a])] == after[a] by {
        if a < p {
            assert(after[a] == before[a]);
        } else if a > p {
            assert(after[a] == before[a - 1]);
        }
    }
    let w = after.take(i + 1);
    let bt = before.take(i);
    assert forall|a: int, b: int| 0 <= a < b < w.len() && tied(
        keys[#[trigger] w[a] as int].rank(),
        keys[#[trigger] w[b] as int].rank(),
    ) implies position(orig, w[a]) < position(orig, w[b]) by {
        if b < p {
            assert(w[a] == bt[a] && w[b] == bt[b]);
        } else if b == p {
            assert(w[b] == x);
            assert(w[a] == before[a]);
        } else if a < p {
            assert(w[a] == bt[a]);
            assert(w[b] == bt[b - 1]);
        } else if a == p {
            assert(w[b] == removed[b - 1]);
        } else {
            assert(w[a] == bt[a - 1]);
            assert(w[b] == bt[b - 1]);
        }
    }
}

/// Sorts `ids` best first by their keys in `keys`; players that tie on all
/// four keys keep their order.
pub fn sort_by_rank(ids: &mut Vec<usize>, keys: &Vec<Standing>)
    requires
        ids_below(old(ids)@, keys@.len() as int),
        forall|i: int| 0 <= i < keys@.len() ==> (#[trigger] keys@[i]).positive(),
    ensures
        final(ids)@.to_multiset() == old(ids)@.to_multiset(),
        ids_below(final(ids)@, keys@.len() as int),
        by_rank(keys@, final(ids)@),
        old(ids)@.no_duplicates() ==> keeps_ties(keys@, old(ids)@, final(ids)@),
{
    let ghost orig = ids@;
    let ghost nodup = orig.no_duplicates();
    let n = ids.len();
    if n == 0 {
        return;
    }
    let mut i: usize = 1;
    proof {
        if nodup {
            lemma_position(orig, 0);
        }
    }
    while i < n
        invariant
            1 <= i <= n,
            n == ids@.len(),
            ids@.to_multiset() == old(ids)@.to_multiset(),
            ids_below(ids@, keys@.len() as int),
            forall|j: int| 0 <= j < keys@.len() ==> (#[trigger] keys@[j]).positive(),
            by_rank(keys@, ids@.take(i as int)),
            orig == old(ids)@,
            orig.len() == n,
            nodup == orig.no_duplicates(),
            forall|k: int| i <= k < n ==> #[trigger] ids@[k] == orig[k],
            nodup ==> forall|a: int|
                0 <= a < i ==> 0 <= position(orig, #[trigger] ids@[a]) < i && orig[position(orig, ids@[a])] == ids@[a],
            nodup ==> keeps_ties(keys@, orig, ids@.take(i as int)),
        decreases n - i,
    {
        let ghost before = ids@;
        let x = ids.remove(i);
        let kx = keys[x];
        assert(ids@.take(i as int) =~= before.take(i as int));
        let mut p: usize = i;
        while p > 0 && standing_before(&kx, &keys[ids[p - 1]])
            invariant
                0 <= p <= i,
                i < n,
                ids@.len() == n - 1,
                ids_below(ids@, keys@.len() as int),
                by_rank(keys@, ids@.take(i as int)),
                kx == keys@[x as int],
                forall|a: int| p <= a < i ==> ranks_before(kx.rank(), #[trigger] keys@[ids@[a] as int].rank()),
            decreases p,
        {
            p = p - 1;
        }
        let ghost removed = ids@;
        ids.insert(p, x);
        proof {
            assert(ids@.to_multiset() == removed.to_multiset().insert(x));
            assert(ids@.to_multiset() =~= before.to_multiset());
            assert(x == orig[i as int]);
            assert forall|k: int| i + 1 <= k < n implies #[trigger] ids@[k] == orig[k] by {
                assert(ids@[k] == removed[k - 1]);
                assert(removed[k - 1] == before[k]);
            }
            lemma_insert_ranked(keys@, removed, ids@, i as int, p as int, x);
            if nodup {
                lemma_position(orig, i as int);
                lemma_insert_keeps_ties(keys@, orig, before, removed, ids@, i as int, p as int, x);
            }
            assert forall|j: int| 0 <= j < ids@.len() implies #[trigger] ids@[j] < keys@.len() by {
                if j < p {
                    assert(ids@[j] == removed[j]);
                } else if j > p {
                    assert(ids@[j] == removed[j - 1]);
                }
            }
        }
        i = i + 1;
    }
    assert(ids@.take(n as int) =~= ids@);
}

/// No two distinct players of `order` tie on all four keys.
pub open spec fn no_ties(roster: Seq<Player>, order: Seq<usize>) -> bool {
    forall|a: int, b: int|
        0 <= a < order.len() && 0 <= b < order.len() && order[a] != order[b] ==> ranks_before(
            rank_of(roster, roster[#[trigger] order[a] as int]),
            rank_of(roster, roster[#[trigger] order[b] as int]),
        ) || ranks_before(
            rank_of(roster, roster[order[b] as int]),
            rank_of(roster, roster[order[a] as int]),
        )
}

/// Without exact ties, the ranking order is unique: two orders of the same
/// players that both follow the four-key cascade are the same order. So a
/// ranking reproduces the cascade exactly, whatever order it started from.
pub proof fn lemma_ranking_unique(roster: Seq<Player>, o1: Seq<usize>, o2: Seq<usize>)
    requires
        o1.to_multiset() == o2.to_multiset(),
        ranked(roster, o1),
        ranked(roster, o2),
        no_ties(roster, o1),
        forall|i: int| 0 <= i < roster.len() ==> ids_below(#[trigger] roster[i].opponents@, roster.len() as int),
        ids_below(o1, roster.len() as int),
    ensures
        o1 == o2,
    decreases o1.len(),
{
    vstd::seq_lib::to_multiset_len(o1);
    vstd::seq_lib::to_multiset_len(o2);
    if o1.len() == 0 {
        assert(o1 =~= o2);
    } else {
        let x = o1[0];
        let y = o2[0];
        vstd::seq_lib::to_multiset_contains(o1, y);
        vstd::seq_lib::to_multiset_contains(o2, y);
        vstd::seq_lib::to_multiset_contains(o1, x);
        vstd::seq_lib::to_multiset_contains(o2, x);
        assert(o2.contains(y));
        assert(o1.contains(x));
        if x != y {
            let j = choose|j: int| 0 <= j < o1.len() && o1[j] == y;
            let k = choose|k: int| 0 <= k < o2.len() && o2[k] == x;
            let rx = rank_of(roster, roster[x as int]);
            let ry = rank_of(roster, roster[y as int]);
            assert(o1[0] == x);
            assert(!ranks_before(ry, rx));
            assert(o2[0] == y);
            assert(!ranks_before(rx, ry));
            assert(ranks_before(rx, ry) || ranks_before(ry, rx));
        }
        let r1 = o1.drop_first();
        let r2 = o2.drop_first();
        assert(r1 =~= o1.remove(0));
        assert(r2 =~= o2.remove(0));
        assert(r1.to_multiset() == r2.to_multiset());
        assert forall|a: int, b: int| 0 <= a < b < r1.len() implies !ranks_before(
            rank_of(roster, roster[#[trigger] r1[b] as int]),
            rank_of(roster, roster[#[trigger] r1[a] as int]),
        ) by {
            assert(r1[a] == o1[a + 1] && r1[b] == o1[b + 1]);
        }
        assert forall|a: int, b: int| 0 <= a < b < r2.len() implies !ranks_before(
            rank_of(roster, roster[#[trigger] r2[b] as int]),
            rank_of(roster, roster[#[trigger] r2[a] as int]),
        ) by {
            assert(r2[a] == o2[a + 1] && r2[b] == o2[b + 1]);
        }
        assert forall|a: int, b: int|
            0 <= a < r1.len() && 0 <= b < r1.len() && r1[a] != r1[b] implies ranks_before(
            rank_of(roster, roster[#[trigger] r1[a] as int]),
            rank_of(roster, roster[#[trigger] r1[b] as int]),
        ) || ranks_before(
            rank_of(roster, roster[r1[b] as int]),
            rank_of(roster, roster[r1[a] as int]),
        ) by {
            assert(r1[a] == o1[a + 1] && r1[b] == o1[b + 1]);
        }
        assert forall|j: int| 0 <= j < r1.len() implies #[trigger] r1[j] < roster.len() by {
            assert(r1[j] == o1[j + 1]);
        }
        lemma_ranking_unique(roster, r1, r2);
        assert(o1 =~= o2) by {
            assert(o1 =~= seq![x].add(r1));
            assert(o2 =~= seq![y].add(r2));
        }
    }
}

/// Tells whether `x` ranks strictly ahead of `y`.
pub fn standing_before(x: &Standing, y: &Standing) -> (r: bool)
    ensures
        r == ranks_before(x.rank(), y.rank()),
{
    if x.match_points != y.match_points {
        return x.match_points > y.match_points;
    }
    if !y.omwp.at_least(&x.omwp) {
        return true;
    }
    if !x.omwp.at_least(&y.omwp) {
        return false;
    }
    if !y.gwp.at_least(&x.gwp) {
        return true;
    }
    if !x.gwp.at_least(&y.gwp) {
        return false;
    }
    !y.ogwp.at_least(&x.ogwp)
}

} // verus!

//! Sorting player indices by match points.
use crate::player::{ids_below, Player};
use vstd::prelude::*;

verus! {

broadcast use vstd::seq_lib::group_to_multiset_ensures;

/// The match points of player `id` in `roster`.
pub open spec fn points_of(roster: Seq<Player>, id: usize) -> int {
    roster[id as int].match_points as int
}

/// `ids` lists its players by ascending match points.
pub open spec fn by_points(roster: Seq<Player>, ids: Seq<usize>) -> bool {
    forall|a: int, b: int|
        0 <= a < b < ids.len() ==> points_of(roster, #[trigger] ids[a]) <= points_of(
            roster,
            #[trigger] ids[b],
        )
}

/// Sorts `ids` by ascending match points in `roster`.
pub fn sort_by_points(ids: &mut Vec<usize>, roster: &Vec<Player>)
    requires
        ids_below(old(ids)@, roster@.len() as int),
    ensures
        final(ids)@.to_multiset() == old(ids)@.to_multiset(),
        ids_below(final(ids)@, roster@.len() as int),
        by_points(roster@, final(ids)@),
{
    let n = ids.len();
    let mut i: usize = 1;
    if n == 0 {
        return;
    }
    while i < n
        invariant
            1 <= i <= n,
            n == ids@.len(),
            ids@.to_multiset() == old(ids)@.to_multiset(),
            ids_below(ids@, roster@.len() as int),
            by_points(roster@, ids@.take(i as int)),
        decreases n - i,
    {
        let ghost before = ids@;
        let x = ids.remove(i);
        let key = roster[x].match_points;
        assert(ids@.take(i as int) =~= before.take(i as int));
        let mut p: usize = i;
        while p > 0 && roster[ids[p - 1]].match_points > key
            invariant
                0 <= p <= i,
                i < n,
                ids@.len() == n - 1,
                ids_below(ids@, roster@.len() as int),
                by_points(roster@, ids@.take(i as int)),
                key == roster@[x as int].match_points,
                forall|a: int| p <= a < i ==> points_of(roster@, #[trigger] ids@[a]) > key,
            decreases p,
        {
            p = p - 1;
        }
        let ghost removed = ids@;
        ids.insert(p, x);
        proof {
            assert(ids@.to_multiset() == removed.to_multiset().insert(x));
            assert(ids@.to_multiset() =~= before.to_multiset());
            assert forall|a: int, b: int|
                0 <= a < b < i + 1 implies points_of(roster@, #[trigger] ids@.take(i + 1)[a])
                <= points_of(roster@, #[trigger] ids@.take(i + 1)[b]) by {
                if b < p {
                    assert(ids@[a] == removed.take(i as int)[a]);
                    assert(ids@[b] == removed.take(i as int)[b]);
                } else if b == p {
                    if a < p {
                        assert(ids@[a] == removed.take(i as int)[a]);
                        assert(ids@[p - 1] == removed.take(i as int)[p - 1]);
                    }
                } else if a < p {
                    assert(ids@[a] == removed.take(i as int)[a]);
                    assert(ids@[b] == removed[b - 1]);
                    if p > 0 {
                        assert(ids@[p - 1] == removed.take(i as int)[p - 1]);
                        assert(removed.take(i as int)[a] == removed[a]);
                    }
                } else if a == p {
                    assert(ids@[b] == removed[b - 1]);
                } else {
                    assert(ids@[a] == removed[a - 1]);
                    assert(ids@[b] == removed[b - 1]);
                    assert(removed.take(i as int)[a - 1] == removed[a - 1]);
                    assert(removed.take(i as int)[b - 1] == removed[b - 1]);
                }
            }
            assert forall|j: int| 0 <= j < ids@.len() implies #[trigger] ids@[j] < roster@.len() by {
                if j < p {
                    assert(ids@[j] == removed[j]);
                } else if j > p {
                    assert(ids@[j] == removed[j - 1]);
                }
            }
        }
        i = i + 1;
    }
    assert(ids@.take(n as int) =~= ids@);
}

} // verus!

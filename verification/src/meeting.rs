//! Meeting detection: where the forward and the backward frontier hold the
//! same place.

use crate::node::LinkFollower;
use std::collections::HashMap;
use std::sync::Arc;
use vstd::prelude::*;

verus! {

/// The ids of the nodes of a frontier, in order.
pub open spec fn frontier_ids(frontier: Seq<Arc<LinkFollower>>) -> Seq<u32> {
    Seq::new(frontier.len(), |i: int| frontier[i].id())
}

/// The positions at which `id` occurs in `ids`, ascending.
pub open spec fn positions(id: u32, ids: Seq<u32>) -> Seq<usize>
    decreases ids.len(),
{
    if ids.len() == 0 {
        Seq::empty()
    } else if ids.last() == id {
        positions(id, ids.drop_last()).push((ids.len() - 1) as usize)
    } else {
        positions(id, ids.drop_last())
    }
}

/// The meetings of the forward node at position `i`: that position paired
/// with each of the given backward positions.
pub open spec fn paired(i: usize, js: Seq<usize>) -> Seq<(usize, usize)> {
    Seq::new(js.len(), |k: int| (i, js[k]))
}

/// Every pair of positions `(i, j)` at which the forward and the backward
/// frontier hold the same id, ordered by `i`, then by `j`.
pub open spec fn meetings(forward: Seq<u32>, backward: Seq<u32>) -> Seq<(usize, usize)>
    decreases forward.len(),
{
    if forward.len() == 0 {
        Seq::empty()
    } else {
        meetings(forward.drop_last(), backward) + paired(
            (forward.len() - 1) as usize,
            positions(forward.last(), backward),
        )
    }
}

/// A position is listed for an id exactly when the id stands there, and the
/// list ascends.
pub proof fn lemma_positions(id: u32, ids: Seq<u32>)
    requires
        ids.len() <= usize::MAX,
    ensures
        forall|k: int|
            0 <= k < positions(id, ids).len() ==> (#[trigger] positions(id, ids)[k]) < ids.len()
                && ids[positions(id, ids)[k] as int] == id,
        forall|j: int|
            0 <= j < ids.len() && ids[j] == id ==> positions(id, ids).contains(j as usize),
        forall|k: int, l: int|
            0 <= k < l < positions(id, ids).len() ==> positions(id, ids)[k] < positions(
                id,
                ids,
            )[l],
    decreases ids.len(),
{
    if ids.len() > 0 {
        let shorter = ids.drop_last();
        lemma_positions(id, shorter);
        let before = positions(id, shorter);
        let now = positions(id, ids);
        assert forall|j: int| 0 <= j < ids.len() && ids[j] == id implies now.contains(
            j as usize,
        ) by {
            if j < ids.len() - 1 {
                assert(shorter[j] == id);
                assert(before.contains(j as usize));
                let k = choose|k: int| 0 <= k < before.len() && before[k] == j as usize;
                assert(now[k] == j as usize);
            } else {
                assert(now[now.len() - 1] == j as usize);
            }
        }
    }
}

/// A pair of positions is listed exactly when both frontiers hold one id
/// there, and it is listed once: the list ascends strictly, by the forward
/// position first.
pub proof fn lemma_meetings(forward: Seq<u32>, backward: Seq<u32>)
    requires
        forward.len() <= usize::MAX,
        backward.len() <= usize::MAX,
    ensures
        forall|k: int|
            0 <= k < meetings(forward, backward).len() ==> {
                let pair = #[trigger] meetings(forward, backward)[k];
                pair.0 < forward.len() && pair.1 < backward.len() && forward[pair.0 as int]
                    == backward[pair.1 as int]
            },
        forall|i: int, j: int|
            0 <= i < forward.len() && 0 <= j < backward.len() && forward[i] == backward[j]
                ==> meetings(forward, backward).contains((i as usize, j as usize)),
        forall|k: int, l: int|
            0 <= k < l < meetings(forward, backward).len() ==> pair_before(
                meetings(forward, backward)[k],
                meetings(forward, backward)[l],
            ),
        meetings(forward, backward).no_duplicates(),
    decreases forward.len(),
{
    if forward.len() > 0 {
        let shorter = forward.drop_last();
        lemma_meetings(shorter, backward);
        lemma_positions(forward.last(), backward);
        let before = meetings(shorter, backward);
        let i_last = (forward.len() - 1) as usize;
        let js = positions(forward.last(), backward);
        let row = paired(i_last, js);
        let now = meetings(forward, backward);
        assert(now == before + row);
        assert forall|k: int| 0 <= k < now.len() implies {
            let pair = #[trigger] now[k];
            pair.0 < forward.len() && pair.1 < backward.len() && forward[pair.0 as int]
                == backward[pair.1 as int]
        } by {
            if k < before.len() {
                assert(now[k] == before[k]);
                assert(shorter[before[k].0 as int] == forward[before[k].0 as int]);
            } else {
                assert(now[k] == row[k - before.len()]);
                assert(js[k - before.len()] < backward.len());
            }
        }
        assert forall|i: int, j: int|
            0 <= i < forward.len() && 0 <= j < backward.len() && forward[i]
                == backward[j] implies now.contains((i as usize, j as usize)) by {
            if i < forward.len() - 1 {
                assert(shorter[i] == backward[j]);
                assert(before.contains((i as usize, j as usize)));
                let k = choose|k: int|
                    0 <= k < before.len() && before[k] == (i as usize, j as usize);
                assert(now[k] == (i as usize, j as usize));
            } else {
                assert(js.contains(j as usize));
                let k = choose|k: int| 0 <= k < js.len() && js[k] == j as usize;
                assert(now[before.len() + k] == row[k]);
            }
        }
        assert forall|k: int, l: int| 0 <= k < l < now.len() implies pair_before(
            now[k],
            now[l],
        ) by {
            if l < before.len() {
                assert(now[k] == before[k] && now[l] == before[l]);
            } else if k < before.len() {
                assert(now[k] == before[k]);
                assert(now[l] == row[l - before.len()]);
                assert(before[k].0 < shorter.len());
            } else {
                assert(now[k] == row[k - before.len()]);
                assert(now[l] == row[l - before.len()]);
                assert(js[k - before.len()] < js[l - before.len()]);
            }
        }
    }
    let listed = meetings(forward, backward);
    assert forall|k: int, l: int|
        0 <= k < listed.len() && 0 <= l < listed.len() && k != l implies listed[k]
        != listed[l] by {
        if k < l {
            assert(pair_before(listed[k], listed[l]));
        } else {
            assert(pair_before(listed[l], listed[k]));
        }
    }
}

/// A search whose start is its end meets at once: the two roots are the one
/// meeting.
pub proof fn lemma_roots_meet(id: u32)
    ensures
        meetings(seq![id], seq![id]) == seq![(0usize, 0usize)],
{
    let only = seq![id];
    assert(only.drop_last() =~= Seq::<u32>::empty());
    assert(positions(id, only.drop_last()) =~= Seq::<usize>::empty());
    assert(positions(id, only) =~= seq![0usize]);
    assert(meetings(only.drop_last(), only) =~= Seq::<(usize, usize)>::empty());
    assert(meetings(only, only) =~= seq![(0usize, 0usize)]);
}

/// The order in which meetings are listed.
pub open spec fn pair_before(a: (usize, usize), b: (usize, usize)) -> bool {
    a.0 < b.0 || (a.0 == b.0 && a.1 < b.1)
}

/// What the index over a frontier holds once its first `upto` nodes are
/// entered: under each id that occurs among them, its positions.
spec fn indexes(index: Map<u32, Vec<usize>>, ids: Seq<u32>) -> bool {
    forall|id: u32|
        #![trigger positions(id, ids)]
        #![trigger index.contains_key(id)]
        {
            &&& index.contains_key(id) <==> positions(id, ids).len() > 0
            &&& index.contains_key(id) ==> index[id]@ == positions(id, ids)
        }
}

/// Enters every node of the frontier under its id.
fn index_by_id(frontier: &Vec<Arc<LinkFollower>>) -> (index: HashMap<u32, Vec<usize>>)
    ensures
        indexes(index@, frontier_ids(frontier@)),
{
    let ghost ids = frontier_ids(frontier@);
    let mut index: HashMap<u32, Vec<usize>> = HashMap::new();
    let mut j: usize = 0;
    while j < frontier.len()
        invariant
            j <= frontier.len(),
            ids == frontier_ids(frontier@),
            indexes(index@, ids.take(j as int)),
        decreases frontier.len() - j,
    {
        let id = frontier[j].current_link();
        let ghost before = index@;
        let mut slots = match index.remove(&id) {
            Some(found) => found,
            None => Vec::new(),
        };
        proof {
            assert(ids.take(j + 1).drop_last() =~= ids.take(j as int));
            assert(ids.take(j + 1).last() == id);
            if !before.contains_key(id) {
                assert(positions(id, ids.take(j as int)).len() == 0);
                assert(slots@ =~= positions(id, ids.take(j as int)));
            }
        }
        slots.push(j);
        index.insert(id, slots);
        proof {
            let grown = ids.take(j + 1);
            assert forall|other: u32|
                #![trigger positions(other, grown)]
                #![trigger index@.contains_key(other)]
                {
                    &&& index@.contains_key(other) <==> positions(other, grown).len() > 0
                    &&& index@.contains_key(other) ==> index@[other]@ == positions(other, grown)
                } by {
                let earlier = positions(other, ids.take(j as int));
                if other != id {
                    assert(before.contains_key(other) <==> index@.contains_key(other));
                    assert(positions(other, grown) == earlier);
                } else {
                    assert(positions(other, grown) == earlier.push(j));
                }
            }
        }
        j += 1;
    }
    assert(ids.take(frontier.len() as int) =~= ids);
    index
}

/// Finds every pair of a forward and a backward frontier node that are the
/// same place.
///
/// The backward frontier is indexed by id once; each forward node then looks
/// its id up, so that the work grows with the two frontiers and the number
/// of meetings, not with their product.  Each pair gives the position of the
/// forward node and the position of the backward node.
pub fn find_meetings(
    forward: &Vec<Arc<LinkFollower>>,
    backward: &Vec<Arc<LinkFollower>>,
) -> (pairs: Vec<(usize, usize)>)
    ensures
        pairs@ == meetings(frontier_ids(forward@), frontier_ids(backward@)),
        forall|k: int|
            0 <= k < pairs@.len() ==> {
                let pair = #[trigger] pairs@[k];
                pair.0 < forward.len() && pair.1 < backward.len() && forward@[pair.0 as int].id()
                    == backward@[pair.1 as int].id()
            },
        forall|i: int, j: int|
            0 <= i < forward.len() && 0 <= j < backward.len() && forward@[i].id()
                == backward@[j].id() ==> pairs@.contains((i as usize, j as usize)),
        pairs@.no_duplicates(),
{
    let ghost f_ids = frontier_ids(forward@);
    let ghost b_ids = frontier_ids(backward@);
    let index = index_by_id(backward);
    let mut pairs: Vec<(usize, usize)> = Vec::new();
    let mut i: usize = 0;
    while i < forward.len()
        invariant
            i <= forward.len(),
            f_ids == frontier_ids(forward@),
            b_ids == frontier_ids(backward@),
            indexes(index@, b_ids),
            pairs@ == meetings(f_ids.take(i as int), b_ids),
        decreases forward.len() - i,
    {
        let id = forward[i].current_link();
        proof {
            assert(f_ids.take(i + 1).drop_last() =~= f_ids.take(i as int));
            assert(f_ids.take(i + 1).last() == id);
        }
        let ghost before = pairs@;
        let ghost js = positions(id, b_ids);
        match index.get(&id) {
            Some(slots) => {
                let mut k: usize = 0;
                while k < slots.len()
                    invariant
                        k <= slots.len(),
                        slots@ == js,
                        pairs@ == before + paired(i, js.take(k as int)),
                    decreases slots.len() - k,
                {
                    pairs.push((i, slots[k]));
                    assert(pairs@ =~= before + paired(i, js.take(k + 1)));
                    k += 1;
                }
                assert(js.take(slots.len() as int) =~= js);
            },
            None => {
                assert(pairs@ =~= before + paired(i, js));
            },
        }
        i += 1;
    }
    assert(f_ids.take(forward.len() as int) =~= f_ids);
    proof {
        assert(f_ids.len() == forward.len() && b_ids.len() == backward.len());
        lemma_meetings(f_ids, b_ids);
        assert forall|i: int, j: int|
            0 <= i < forward.len() && 0 <= j < backward.len() && forward@[i].id()
                == backward@[j].id() implies pairs@.contains((i as usize, j as usize)) by {
            assert(f_ids[i] == b_ids[j]);
        }
    }
    pairs
}

} // verus!

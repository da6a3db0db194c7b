//! One expansion pass: from a frontier and what was discovered from each of
//! its nodes to the next frontier.

use crate::meeting::frontier_ids;
use crate::node::LinkFollower;
use crate::trusted::share;
use std::collections::HashSet;
use std::sync::Arc;
use vstd::prelude::*;

verus! {

/// The chains of the nodes of a frontier, in order.
pub open spec fn chains(frontier: Seq<Arc<LinkFollower>>) -> Seq<Seq<u32>> {
    Seq::new(frontier.len(), |i: int| frontier[i]@)
}

/// The ids discovered from the frontier node at position `i`.  A node whose
/// query failed, or for which nothing was reported, discovered none.
pub open spec fn report_at(reports: Seq<Option<Vec<u32>>>, i: int) -> Seq<u32> {
    if 0 <= i < reports.len() {
        match reports[i] {
            Some(ids) => ids@,
            None => Seq::empty(),
        }
    } else {
        Seq::empty()
    }
}

/// The chains of the nodes discovered from one node: its own chain, grown by
/// each discovered id in turn.
pub open spec fn children_of(chain: Seq<u32>, ids: Seq<u32>) -> Seq<Seq<u32>> {
    Seq::new(ids.len(), |k: int| chain.push(ids[k]))
}

/// Everything discovered in one pass, in the order of the frontier and, for
/// one node, in the order of its report.
pub open spec fn offspring(frontier: Seq<Seq<u32>>, reports: Seq<Option<Vec<u32>>>) -> Seq<
    Seq<u32>,
>
    decreases frontier.len(),
{
    if frontier.len() == 0 {
        Seq::empty()
    } else {
        offspring(frontier.drop_last(), reports) + children_of(
            frontier.last(),
            report_at(reports, frontier.len() - 1),
        )
    }
}

/// Whether one of the chains ends at the place `id`.
pub open spec fn holds_place(kept: Seq<Seq<u32>>, id: u32) -> bool {
    exists|k: int| 0 <= k < kept.len() && (#[trigger] kept[k]).last() == id
}

/// The candidates that survive deduplication: those whose place was not
/// expanded before and that are the first candidate for their place.
pub open spec fn fresh(candidates: Seq<Seq<u32>>, visited: Set<u32>) -> Seq<Seq<u32>>
    decreases candidates.len(),
{
    if candidates.len() == 0 {
        Seq::empty()
    } else {
        let kept = fresh(candidates.drop_last(), visited);
        let id = candidates.last().last();
        if visited.contains(id) || holds_place(kept, id) {
            kept
        } else {
            kept.push(candidates.last())
        }
    }
}

/// The visited set after a pass: what it held, and the places of the
/// frontier that was expanded.
pub open spec fn with_expanded(visited: Set<u32>, expanded: Seq<u32>) -> Set<u32> {
    Set::new(|id: u32| visited.contains(id) || expanded.contains(id))
}

/// No two chains end at one place, and none ends at a visited place.
pub open spec fn deduplicated(kept: Seq<Seq<u32>>, visited: Set<u32>) -> bool {
    &&& forall|k: int| 0 <= k < kept.len() ==> !visited.contains((#[trigger] kept[k]).last())
    &&& forall|k: int, l: int|
        0 <= k < l < kept.len() ==> (#[trigger] kept[k]).last() != (#[trigger] kept[l]).last()
}

/// The survivors are candidates, none ends at a visited place, and no two
/// end at the same place; a candidate at an unvisited place has a survivor
/// at that place.
pub proof fn lemma_fresh_deduplicated(candidates: Seq<Seq<u32>>, visited: Set<u32>)
    ensures
        deduplicated(fresh(candidates, visited), visited),
        forall|k: int|
            0 <= k < fresh(candidates, visited).len() ==> candidates.contains(
                #[trigger] fresh(candidates, visited)[k],
            ),
        forall|c: int|
            0 <= c < candidates.len() && !visited.contains((#[trigger] candidates[c]).last())
                ==> holds_place(fresh(candidates, visited), candidates[c].last()),
    decreases candidates.len(),
{
    if candidates.len() > 0 {
        let shorter = candidates.drop_last();
        lemma_fresh_deduplicated(shorter, visited);
        let before = fresh(shorter, visited);
        let now = fresh(candidates, visited);
        let id = candidates.last().last();
        assert forall|k: int| 0 <= k < now.len() implies candidates.contains(
            #[trigger] now[k],
        ) by {
            if k < before.len() {
                assert(now[k] == before[k]);
                let at = choose|at: int| 0 <= at < shorter.len() && shorter[at] == before[k];
                assert(candidates[at] == now[k]);
            } else {
                assert(candidates[candidates.len() - 1] == now[k]);
            }
        }
        assert forall|c: int|
            0 <= c < candidates.len() && !visited.contains(
                (#[trigger] candidates[c]).last(),
            ) implies holds_place(now, candidates[c].last()) by {
            if c < shorter.len() {
                assert(shorter[c] == candidates[c]);
                let k = choose|k: int|
                    0 <= k < before.len() && (#[trigger] before[k]).last()
                        == candidates[c].last();
                assert(now[k] == before[k]);
            } else if holds_place(before, id) {
                let k = choose|k: int| 0 <= k < before.len() && (#[trigger] before[k]).last() == id;
                assert(now[k] == before[k]);
            } else {
                assert(now[now.len() - 1].last() == id);
            }
        }
    }
}

/// Chains that are already deduplicated pass the filter unchanged.
pub proof fn lemma_fresh_keeps_deduplicated(kept: Seq<Seq<u32>>, visited: Set<u32>)
    requires
        deduplicated(kept, visited),
    ensures
        fresh(kept, visited) == kept,
    decreases kept.len(),
{
    if kept.len() > 0 {
        let shorter = kept.drop_last();
        assert forall|k: int| 0 <= k < shorter.len() implies !visited.contains(
            (#[trigger] shorter[k]).last(),
        ) by {
            assert(shorter[k] == kept[k]);
        }
        assert forall|k: int, l: int| 0 <= k < l < shorter.len() implies (
        #[trigger] shorter[k]).last() != (#[trigger] shorter[l]).last() by {
            assert(shorter[k] == kept[k] && shorter[l] == kept[l]);
        }
        lemma_fresh_keeps_deduplicated(shorter, visited);
        if holds_place(shorter, kept.last().last()) {
            let k = choose|k: int|
                0 <= k < shorter.len() && (#[trigger] shorter[k]).last() == kept.last().last();
            assert(shorter[k] == kept[k]);
            assert(kept[kept.len() - 1] == kept.last());
        }
        assert(kept[kept.len() - 1] == kept.last());
        assert(fresh(kept, visited) =~= kept);
    }
}

/// Filtering is idempotent: to filter what survived changes nothing.
pub proof fn lemma_fresh_idempotent(candidates: Seq<Seq<u32>>, visited: Set<u32>)
    ensures
        fresh(fresh(candidates, visited), visited) == fresh(candidates, visited),
{
    lemma_fresh_deduplicated(candidates, visited);
    lemma_fresh_keeps_deduplicated(fresh(candidates, visited), visited);
}

/// Where every candidate ends at a visited place, nothing survives.
pub proof fn lemma_fresh_nothing_new(candidates: Seq<Seq<u32>>, visited: Set<u32>)
    requires
        forall|c: int|
            0 <= c < candidates.len() ==> visited.contains((#[trigger] candidates[c]).last()),
    ensures
        fresh(candidates, visited) == Seq::<Seq<u32>>::empty(),
    decreases candidates.len(),
{
    if candidates.len() > 0 {
        let shorter = candidates.drop_last();
        assert forall|c: int| 0 <= c < shorter.len() implies visited.contains(
            (#[trigger] shorter[c]).last(),
        ) by {
            assert(shorter[c] == candidates[c]);
        }
        lemma_fresh_nothing_new(shorter, visited);
        assert(candidates[candidates.len() - 1] == candidates.last());
    }
}

/// Once the places of the survivors count as visited, filtering the same
/// candidates again leaves nothing: a second run discovers nothing new.
pub proof fn lemma_fresh_second_run_empty(
    candidates: Seq<Seq<u32>>,
    visited: Set<u32>,
    later: Set<u32>,
)
    requires
        forall|id: u32| visited.contains(id) ==> later.contains(id),
        forall|k: int|
            0 <= k < fresh(candidates, visited).len() ==> later.contains(
                (#[trigger] fresh(candidates, visited)[k]).last(),
            ),
    ensures
        fresh(candidates, later) == Seq::<Seq<u32>>::empty(),
{
    lemma_fresh_deduplicated(candidates, visited);
    assert forall|c: int| 0 <= c < candidates.len() implies later.contains(
        (#[trigger] candidates[c]).last(),
    ) by {
        if !visited.contains(candidates[c].last()) {
            let kept = fresh(candidates, visited);
            let k = choose|k: int|
                0 <= k < kept.len() && (#[trigger] kept[k]).last() == candidates[c].last();
        }
    }
    lemma_fresh_nothing_new(candidates, later);
}

/// A pass that left nothing new leaves nothing new when it is made again:
/// the same discoveries, filtered against the visited set as the pass left
/// it, give the same empty frontier.
pub proof fn lemma_pass_again_nothing_new(
    frontier: Seq<Seq<u32>>,
    reports: Seq<Option<Vec<u32>>>,
    visited: Set<u32>,
    expanded: Seq<u32>,
)
    requires
        fresh(offspring(frontier, reports), visited) == Seq::<Seq<u32>>::empty(),
    ensures
        fresh(offspring(frontier, reports), with_expanded(visited, expanded)) == Seq::<
            Seq<u32>,
        >::empty(),
{
    lemma_fresh_second_run_empty(
        offspring(frontier, reports),
        visited,
        with_expanded(visited, expanded),
    );
}

/// Every discovered chain is one id longer than the chain of the node it
/// was discovered from: where the whole frontier stands at one depth, the
/// next one stands one deeper.
pub proof fn lemma_offspring_one_deeper(
    frontier: Seq<Seq<u32>>,
    reports: Seq<Option<Vec<u32>>>,
    length: nat,
)
    requires
        forall|i: int| 0 <= i < frontier.len() ==> (#[trigger] frontier[i]).len() == length,
    ensures
        forall|c: int|
            0 <= c < offspring(frontier, reports).len() ==> (#[trigger] offspring(
                frontier,
                reports,
            )[c]).len() == length + 1,
    decreases frontier.len(),
{
    if frontier.len() > 0 {
        let shorter = frontier.drop_last();
        assert forall|i: int| 0 <= i < shorter.len() implies (#[trigger] shorter[i]).len()
            == length by {
            assert(shorter[i] == frontier[i]);
        }
        lemma_offspring_one_deeper(shorter, reports, length);
        let before = offspring(shorter, reports);
        let row = children_of(frontier.last(), report_at(reports, frontier.len() - 1));
        let now = offspring(frontier, reports);
        assert(now == before + row);
        assert forall|c: int| 0 <= c < now.len() implies (#[trigger] now[c]).len() == length
            + 1 by {
            if c < before.len() {
                assert(now[c] == before[c]);
            } else {
                assert(now[c] == row[c - before.len()]);
                assert(frontier[frontier.len() - 1] == frontier.last());
            }
        }
    }
}

/// A pass leads one step further: where every node of the frontier stands
/// at one depth, every node of the next frontier stands one deeper.
pub proof fn lemma_pass_one_deeper(
    frontier: Seq<Seq<u32>>,
    reports: Seq<Option<Vec<u32>>>,
    visited: Set<u32>,
    length: nat,
)
    requires
        forall|i: int| 0 <= i < frontier.len() ==> (#[trigger] frontier[i]).len() == length,
    ensures
        forall|k: int|
            0 <= k < fresh(offspring(frontier, reports), visited).len() ==> (#[trigger] fresh(
                offspring(frontier, reports),
                visited,
            )[k]).len() == length + 1,
{
    let found = offspring(frontier, reports);
    let kept = fresh(found, visited);
    lemma_offspring_one_deeper(frontier, reports, length);
    lemma_fresh_deduplicated(found, visited);
    assert forall|k: int| 0 <= k < kept.len() implies (#[trigger] kept[k]).len() == length
        + 1 by {
        assert(found.contains(kept[k]));
        let at = choose|at: int| 0 <= at < found.len() && found[at] == kept[k];
        assert(found[at].len() == length + 1);
    }
}

/// Expands a frontier by one pass.
///
/// `reports[i]` holds the ids discovered from `frontier[i]`, or `None` where
/// the query for that node failed; such a node discovers nothing.  Each
/// discovered id becomes a node whose predecessor is the node it was
/// discovered from.  Of these, the nodes at a place that `visited` holds are
/// dropped, and of several at one place only the first stays.  Then the
/// places of the expanded frontier are entered into `visited`.
pub fn expand_frontier(
    frontier: &Vec<Arc<LinkFollower>>,
    visited: &mut HashSet<u32>,
    reports: &Vec<Option<Vec<u32>>>,
) -> (next: Vec<Arc<LinkFollower>>)
    ensures
        chains(next@) == fresh(offspring(chains(frontier@), reports@), old(visited)@),
        deduplicated(chains(next@), old(visited)@),
        final(visited)@ == with_expanded(old(visited)@, frontier_ids(frontier@)),
{
    let ghost parents = chains(frontier@);
    let ghost barred = visited@;
    let mut next: Vec<Arc<LinkFollower>> = Vec::new();
    let mut seen: HashSet<u32> = HashSet::new();
    let mut i: usize = 0;
    while i < frontier.len()
        invariant
            i <= frontier.len(),
            parents == chains(frontier@),
            barred == visited@,
            chains(next@) == fresh(offspring(parents.take(i as int), reports@), barred),
            forall|id: u32| seen@.contains(id) <==> holds_place(chains(next@), id),
        decreases frontier.len() - i,
    {
        let ghost done = offspring(parents.take(i as int), reports@);
        let ghost found = report_at(reports@, i as int);
        proof {
            assert(parents.take(i + 1).drop_last() =~= parents.take(i as int));
            assert(parents.take(i + 1).last() == frontier@[i as int]@);
            assert(children_of(frontier@[i as int]@, found.take(0)) =~= Seq::<Seq<u32>>::empty());
            assert(done + Seq::<Seq<u32>>::empty() =~= done);
        }
        if i < reports.len() {
            match &reports[i] {
                Some(ids) => {
                    let mut k: usize = 0;
                    while k < ids.len()
                        invariant
                            k <= ids.len(),
                            i < frontier.len(),
                            ids@ == found,
                            barred == visited@,
                            chains(next@) == fresh(
                                done + children_of(frontier@[i as int]@, found.take(k as int)),
                                barred,
                            ),
                            forall|id: u32|
                                seen@.contains(id) <==> holds_place(chains(next@), id),
                        decreases ids.len() - k,
                    {
                        let id = ids[k];
                        let ghost before = done + children_of(
                            frontier@[i as int]@,
                            found.take(k as int),
                        );
                        let ghost after = done + children_of(
                            frontier@[i as int]@,
                            found.take(k + 1),
                        );
                        let ghost kept = chains(next@);
                        proof {
                            assert(after.drop_last() =~= before);
                            assert(after.last() == frontier@[i as int]@.push(id));
                        }
                        if !visited.contains(&id) && !seen.contains(&id) {
                            let child = LinkFollower::new(id, Some(share(&frontier[i])));
                            next.push(Arc::new(child));
                            seen.insert(id);
                            proof {
                                assert(chains(next@) =~= kept.push(after.last()));
                                assert forall|other: u32| seen@.contains(other) implies holds_place(
                                    chains(next@),
                                    other,
                                ) by {
                                    if other == id {
                                        assert(chains(next@)[kept.len() as int].last() == id);
                                    } else {
                                        let at = choose|at: int|
                                            0 <= at < kept.len() && (#[trigger] kept[at]).last()
                                                == other;
                                        assert(chains(next@)[at] == kept[at]);
                                    }
                                }
                                assert forall|other: u32|
                                    holds_place(chains(next@), other) implies seen@.contains(
                                    other,
                                ) by {
                                    let at = choose|at: int|
                                        0 <= at < chains(next@).len() && (#[trigger] chains(
                                            next@,
                                        )[at]).last() == other;
                                    if at < kept.len() {
                                        assert(kept[at] == chains(next@)[at]);
                                    }
                                }
                            }
                        }
                        k += 1;
                    }
                    assert(found.take(ids.len() as int) =~= found);
                },
                None => {
                    assert(children_of(frontier@[i as int]@, found) =~= Seq::<Seq<u32>>::empty());
                },
            }
        } else {
            assert(children_of(frontier@[i as int]@, found) =~= Seq::<Seq<u32>>::empty());
        }
        i += 1;
    }
    assert(parents.take(frontier.len() as int) =~= parents);
    let ghost places = frontier_ids(frontier@);
    let mut j: usize = 0;
    while j < frontier.len()
        invariant
            j <= frontier.len(),
            places == frontier_ids(frontier@),
            visited@ == with_expanded(barred, places.take(j as int)),
        decreases frontier.len() - j,
    {
        let id = frontier[j].current_link();
        visited.insert(id);
        proof {
            let shorter = places.take(j as int);
            let longer = places.take(j + 1);
            assert(longer =~= shorter.push(id));
            assert forall|other: u32| longer.contains(other) <==> (shorter.contains(other)
                || other == id) by {
                if longer.contains(other) {
                    let at = choose|at: int| 0 <= at < longer.len() && #[trigger] longer[at] == other;
                    if at < j {
                        assert(shorter[at] == other);
                    }
                }
                if shorter.contains(other) {
                    let at = choose|at: int|
                        0 <= at < shorter.len() && #[trigger] shorter[at] == other;
                    assert(longer[at] == other);
                }
                if other == id {
                    assert(longer[j as int] == other);
                }
            }
            assert(visited@ =~= with_expanded(barred, places.take(j + 1)));
        }
        j += 1;
    }
    assert(places.take(frontier.len() as int) =~= places);
    proof {
        lemma_fresh_deduplicated(offspring(parents, reports@), barred);
    }
    next
}

} // verus!

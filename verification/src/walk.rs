//! Why a reported path is a path: every step of it was witnessed as a link
//! by a reply of the remote source.

use crate::frontier::{children_of, fresh, lemma_fresh_deduplicated, offspring, report_at};
use crate::render::path_of;
use vstd::prelude::*;

verus! {

/// Whether each place of the chain is linked to from the one before it.
pub open spec fn is_walk(chain: Seq<u32>, linked: spec_fn(u32, u32) -> bool) -> bool {
    forall|k: int| 0 < k < chain.len() ==> linked(chain[k - 1], #[trigger] chain[k])
}

/// The link relation read against its direction.
pub open spec fn flipped(linked: spec_fn(u32, u32) -> bool) -> spec_fn(u32, u32) -> bool {
    |from: u32, to: u32| linked(to, from)
}

/// Whether the reports of a pass tell of links: each id reported for a node
/// of the frontier is linked to from the place of that node.
pub open spec fn reports_witness(
    frontier: Seq<Seq<u32>>,
    reports: Seq<Option<Vec<u32>>>,
    linked: spec_fn(u32, u32) -> bool,
) -> bool {
    forall|i: int, k: int|
        0 <= i < frontier.len() && 0 <= k < report_at(reports, i).len() ==> linked(
            frontier[i].last(),
            #[trigger] report_at(reports, i)[k],
        )
}

/// Whether every chain is a walk that begins at `root`.
pub open spec fn walks_from(
    frontier: Seq<Seq<u32>>,
    root: u32,
    linked: spec_fn(u32, u32) -> bool,
) -> bool {
    forall|i: int|
        0 <= i < frontier.len() ==> (#[trigger] frontier[i]).len() > 0 && frontier[i][0] == root
            && is_walk(frontier[i], linked)
}

/// What a pass discovers from walks are walks again, from the same root.
pub proof fn lemma_offspring_walks(
    frontier: Seq<Seq<u32>>,
    reports: Seq<Option<Vec<u32>>>,
    root: u32,
    linked: spec_fn(u32, u32) -> bool,
)
    requires
        walks_from(frontier, root, linked),
        reports_witness(frontier, reports, linked),
    ensures
        walks_from(offspring(frontier, reports), root, linked),
    decreases frontier.len(),
{
    if frontier.len() > 0 {
        let shorter = frontier.drop_last();
        assert forall|i: int| 0 <= i < shorter.len() implies (#[trigger] shorter[i]).len() > 0
            && shorter[i][0] == root && is_walk(shorter[i], linked) by {
            assert(shorter[i] == frontier[i]);
        }
        assert forall|i: int, k: int|
            0 <= i < shorter.len() && 0 <= k < report_at(reports, i).len() implies linked(
            shorter[i].last(),
            #[trigger] report_at(reports, i)[k],
        ) by {
            assert(shorter[i] == frontier[i]);
        }
        lemma_offspring_walks(shorter, reports, root, linked);
        let before = offspring(shorter, reports);
        let parent = frontier.last();
        let found = report_at(reports, frontier.len() - 1);
        let row = children_of(parent, found);
        let now = offspring(frontier, reports);
        assert(now == before + row);
        assert(parent == frontier[frontier.len() - 1]);
        assert forall|c: int| 0 <= c < now.len() implies (#[trigger] now[c]).len() > 0
            && now[c][0] == root && is_walk(now[c], linked) by {
            if c < before.len() {
                assert(now[c] == before[c]);
            } else {
                let k = c - before.len();
                let child = parent.push(found[k]);
                assert(now[c] == row[k]);
                assert(row[k] == child);
                assert(child[0] == parent[0]);
                assert forall|n: int| 0 < n < child.len() implies linked(
                    child[n - 1],
                    #[trigger] child[n],
                ) by {
                    if n < parent.len() {
                        assert(child[n] == parent[n] && child[n - 1] == parent[n - 1]);
                    } else {
                        assert(child[n - 1] == parent.last());
                        assert(child[n] == report_at(reports, frontier.len() - 1)[k]);
                    }
                }
            }
        }
    }
}

/// A pass keeps the frontier sound: where every node of the frontier was
/// reached from the root along witnessed links, and the reports of the pass
/// tell of links, every node of the next frontier was reached so too.
pub proof fn lemma_pass_keeps_walks(
    frontier: Seq<Seq<u32>>,
    reports: Seq<Option<Vec<u32>>>,
    visited: Set<u32>,
    root: u32,
    linked: spec_fn(u32, u32) -> bool,
)
    requires
        walks_from(frontier, root, linked),
        reports_witness(frontier, reports, linked),
    ensures
        walks_from(fresh(offspring(frontier, reports), visited), root, linked),
{
    let found = offspring(frontier, reports);
    let kept = fresh(found, visited);
    lemma_offspring_walks(frontier, reports, root, linked);
    lemma_fresh_deduplicated(found, visited);
    assert forall|k: int| 0 <= k < kept.len() implies (#[trigger] kept[k]).len() > 0
        && kept[k][0] == root && is_walk(kept[k], linked) by {
        assert(found.contains(kept[k]));
        let at = choose|at: int| 0 <= at < found.len() && found[at] == kept[k];
        assert(found[at].len() > 0);
    }
}

/// The path of a meeting is a path: where the forward node was reached from
/// the start along links, the backward node was reached from the end against
/// links, and both stand at one place, the ids of the rendered path lead
/// from the start to the end, each linked to from the one before it.
pub proof fn lemma_meeting_path_is_walk(
    forward: Seq<u32>,
    backward: Seq<u32>,
    linked: spec_fn(u32, u32) -> bool,
)
    requires
        forward.len() > 0,
        backward.len() > 0,
        forward.last() == backward.last(),
        is_walk(forward, linked),
        is_walk(backward, flipped(linked)),
    ensures
        is_walk(path_of(forward, backward), linked),
        path_of(forward, backward)[0] == forward[0],
        path_of(forward, backward).last() == backward[0],
{
    let path = path_of(forward, backward);
    let beyond = backward.drop_last().reverse();
    assert(path == forward + beyond);
    assert forall|k: int| 0 < k < path.len() implies linked(path[k - 1], #[trigger] path[k]) by {
        if k < forward.len() {
            assert(path[k] == forward[k] && path[k - 1] == forward[k - 1]);
        } else {
            let at = backward.len() - 2 - (k - forward.len());
            assert(path[k] == beyond[k - forward.len()]);
            assert(path[k] == backward[at]);
            if k == forward.len() {
                assert(path[k - 1] == forward.last());
            } else {
                assert(path[k - 1] == beyond[k - 1 - forward.len()]);
            }
            assert(path[k - 1] == backward[at + 1]);
            assert(flipped(linked)(backward[at], backward[at + 1]));
        }
    }
    if backward.len() == 1 {
        assert(beyond.len() == 0);
        assert(path =~= forward);
    } else {
        assert(path.last() == beyond[beyond.len() - 1]);
    }
}

} // verus!

//! Rendering: from a meeting to the line of text that reports it.

use crate::frontier::chains;
use crate::node::LinkFollower;
use crate::query::TITLE_BATCH_LIMIT;
use crate::text::{
    arrow, arrow_chain, decimal, decimal_string, join_with_arrows, lemma_joined_len,
    signed_decimal, signed_decimal_string, texts, total_len,
};
use std::collections::{HashMap, HashSet};
use std::sync::Arc;
use vstd::prelude::*;
use vstd::string::*;

verus! {

/// The ids along the path that a meeting witnesses: the forward chain from
/// the start down to the meeting place, then the backward chain from just
/// past the meeting place out to the end.
pub open spec fn path_of(forward: Seq<u32>, backward: Seq<u32>) -> Seq<u32> {
    forward + backward.drop_last().reverse()
}

/// Whether every id of the path has a title.
pub open spec fn titled(path: Seq<u32>, titles: Map<u32, String>) -> bool {
    forall|i: int| 0 <= i < path.len() ==> titles.contains_key(#[trigger] path[i])
}

/// The titles of the ids of a path, in order.
pub open spec fn titles_of(path: Seq<u32>, titles: Map<u32, String>) -> Seq<Seq<char>> {
    Seq::new(path.len(), |i: int| titles[path[i]]@)
}

/// The line that reports a path: its titles joined by arrows, then the
/// number of its edges.
pub open spec fn rendered(path: Seq<u32>, titles: Map<u32, String>) -> Seq<char> {
    arrow_chain(titles_of(path, titles)) + " at depth "@ + decimal((path.len() - 1) as nat)
}

/// The depth that a reported path states is the sum of the depths of the two
/// nodes that met, and the rendered chain holds exactly that many arrows
/// between its titles.
pub proof fn lemma_depth_additivity(
    forward: LinkFollower,
    backward: LinkFollower,
    titles: Map<u32, String>,
)
    ensures
        path_of(forward@, backward@).len() == forward.depth() + backward.depth() + 1,
        rendered(path_of(forward@, backward@), titles) == arrow_chain(
            titles_of(path_of(forward@, backward@), titles),
        ) + " at depth "@ + decimal(forward.depth() + backward.depth()),
        arrow_chain(titles_of(path_of(forward@, backward@), titles)).len() == total_len(
            titles_of(path_of(forward@, backward@), titles),
        ) + arrow().len() * (forward.depth() + backward.depth()),
{
    forward.lemma_view_nonempty();
    backward.lemma_view_nonempty();
    lemma_joined_len(titles_of(path_of(forward@, backward@), titles), arrow());
}

/// The ids along the path that the meeting of `forward` and `backward`
/// witnesses, from the start to the end.
pub fn path_ids(forward: &LinkFollower, backward: &LinkFollower) -> (path: Vec<u32>)
    ensures
        path@ == path_of(forward@, backward@),
        path@.len() == forward.depth() + backward.depth() + 1,
{
    proof {
        forward.lemma_view_nonempty();
        backward.lemma_view_nonempty();
    }
    let mut path = forward.get_links();
    path.push(forward.current_link());
    assert(path@ =~= forward@);
    let beyond = backward.get_links();
    let mut left: usize = beyond.len();
    while left > 0
        invariant
            left <= beyond.len(),
            beyond@ == backward@.drop_last(),
            path@ == forward@ + beyond@.reverse().take(beyond.len() - left),
        decreases left,
    {
        left -= 1;
        path.push(beyond[left]);
        assert(path@ =~= forward@ + beyond@.reverse().take(beyond.len() - left));
    }
    assert(beyond@.reverse().take(beyond.len() as int) =~= beyond@.reverse());
    path
}

/// Renders the meeting of `forward` and `backward` with the given titles:
/// `first -> ... -> meeting -> ... -> last at depth N`.
///
/// Gives nothing where the mapping lacks the title of an id on the path.
pub fn combine_with_mapping(
    forward: &LinkFollower,
    backward: &LinkFollower,
    mapping: &HashMap<u32, String>,
) -> (line: Option<String>)
    ensures
        match line {
            Some(text) => titled(path_of(forward@, backward@), mapping@) && text@ == rendered(
                path_of(forward@, backward@),
                mapping@,
            ),
            None => !titled(path_of(forward@, backward@), mapping@),
        },
{
    let path = path_ids(forward, backward);
    let mut parts: Vec<String> = Vec::new();
    let mut i: usize = 0;
    while i < path.len()
        invariant
            i <= path.len(),
            parts@.len() == i,
            path@ == path_of(forward@, backward@),
            forall|k: int| 0 <= k < i ==> mapping@.contains_key(#[trigger] path@[k]),
            forall|k: int| 0 <= k < i ==> (#[trigger] parts@[k])@ == mapping@[path@[k]]@,
        decreases path.len() - i,
    {
        match mapping.get(&path[i]) {
            Some(title) => {
                parts.push(title.clone());
            },
            None => {
                assert(!mapping@.contains_key(path@[i as int]));
                return None;
            },
        }
        i += 1;
    }
    assert(texts(parts@) =~= titles_of(path@, mapping@));
    let mut text = join_with_arrows(&parts);
    text.append(" at depth ");
    let depth = decimal_string((path.len() - 1) as u64);
    text.append(depth.as_str());
    Some(text)
}

/// The ids of the paths of the listed meetings, one path after the other; a
/// pair that names a position outside a frontier stands for no path.
pub open spec fn meeting_paths(
    forward: Seq<Seq<u32>>,
    backward: Seq<Seq<u32>>,
    pairs: Seq<(usize, usize)>,
) -> Seq<u32>
    decreases pairs.len(),
{
    if pairs.len() == 0 {
        Seq::empty()
    } else {
        let pair = pairs.last();
        let path = if pair.0 < forward.len() && pair.1 < backward.len() {
            path_of(forward[pair.0 as int], backward[pair.1 as int])
        } else {
            Seq::empty()
        };
        meeting_paths(forward, backward, pairs.drop_last()) + path
    }
}

/// The ids in the order in which each first occurs.
pub open spec fn distinct(ids: Seq<u32>) -> Seq<u32>
    decreases ids.len(),
{
    if ids.len() == 0 {
        Seq::empty()
    } else {
        let kept = distinct(ids.drop_last());
        if kept.contains(ids.last()) {
            kept
        } else {
            kept.push(ids.last())
        }
    }
}

/// `distinct` keeps every id, and each once.
pub proof fn lemma_distinct(ids: Seq<u32>)
    ensures
        distinct(ids).no_duplicates(),
        forall|id: u32| distinct(ids).contains(id) <==> ids.contains(id),
    decreases ids.len(),
{
    if ids.len() > 0 {
        let shorter = ids.drop_last();
        lemma_distinct(shorter);
        let kept = distinct(shorter);
        let now = distinct(ids);
        assert forall|id: u32| now.contains(id) <==> ids.contains(id) by {
            if now.contains(id) {
                let k = choose|k: int| 0 <= k < now.len() && now[k] == id;
                if k < kept.len() {
                    assert(kept[k] == id);
                    assert(kept.contains(id));
                    assert(shorter.contains(id));
                    let at = choose|at: int| 0 <= at < shorter.len() && shorter[at] == id;
                    assert(ids[at] == id);
                } else {
                    assert(ids[ids.len() - 1] == id);
                }
            }
            if ids.contains(id) {
                let at = choose|at: int| 0 <= at < ids.len() && ids[at] == id;
                if at < shorter.len() {
                    assert(shorter[at] == id);
                    assert(shorter.contains(id));
                    assert(kept.contains(id));
                    let k = choose|k: int| 0 <= k < kept.len() && kept[k] == id;
                    assert(now[k] == id);
                } else if kept.contains(id) {
                    let k = choose|k: int| 0 <= k < kept.len() && kept[k] == id;
                    assert(now[k] == id);
                } else {
                    assert(now[now.len() - 1] == id);
                }
            }
        }
    }
}

/// The ids that need a title before the listed meetings can be rendered:
/// every id on one of their paths, each once, in the order of first use.
pub fn meeting_page_ids(
    forward: &Vec<Arc<LinkFollower>>,
    backward: &Vec<Arc<LinkFollower>>,
    pairs: &Vec<(usize, usize)>,
) -> (ids: Vec<u32>)
    ensures
        ids@ == distinct(meeting_paths(chains(forward@), chains(backward@), pairs@)),
{
    let ghost f = chains(forward@);
    let ghost b = chains(backward@);
    let mut ids: Vec<u32> = Vec::new();
    let mut seen: HashSet<u32> = HashSet::new();
    let mut p: usize = 0;
    while p < pairs.len()
        invariant
            p <= pairs.len(),
            f == chains(forward@),
            b == chains(backward@),
            ids@ == distinct(meeting_paths(f, b, pairs@.take(p as int))),
            forall|id: u32| seen@.contains(id) <==> ids@.contains(id),
        decreases pairs.len() - p,
    {
        let ghost done = meeting_paths(f, b, pairs@.take(p as int));
        let (i, j) = pairs[p];
        proof {
            assert(pairs@.take(p + 1).drop_last() =~= pairs@.take(p as int));
            assert(pairs@.take(p + 1).last() == (i, j));
        }
        if i < forward.len() && j < backward.len() {
            let path = path_ids(&forward[i], &backward[j]);
            assert(path@ == path_of(f[i as int], b[j as int]));
            let mut k: usize = 0;
            assert(done + path@.take(0) =~= done);
            while k < path.len()
                invariant
                    k <= path.len(),
                    ids@ == distinct(done + path@.take(k as int)),
                    forall|id: u32| seen@.contains(id) <==> ids@.contains(id),
                decreases path.len() - k,
            {
                let id = path[k];
                let ghost kept = ids@;
                proof {
                    assert((done + path@.take(k + 1)).drop_last() =~= done + path@.take(k as int));
                    assert((done + path@.take(k + 1)).last() == id);
                }
                if !seen.contains(&id) {
                    seen.insert(id);
                    ids.push(id);
                    proof {
                        assert forall|other: u32| seen@.contains(other) <==> ids@.contains(
                            other,
                        ) by {
                            if other == id {
                                assert(ids@[kept.len() as int] == id);
                            } else {
                                if kept.contains(other) {
                                    let at = choose|at: int|
                                        0 <= at < kept.len() && kept[at] == other;
                                    assert(ids@[at] == other);
                                }
                                if ids@.contains(other) {
                                    let at = choose|at: int|
                                        0 <= at < ids@.len() && ids@[at] == other;
                                    assert(kept[at] == other);
                                }
                            }
                        }
                    }
                }
                k += 1;
            }
            assert(path@.take(path.len() as int) =~= path@);
        } else {
            assert(done + Seq::<u32>::empty() =~= done);
        }
        p += 1;
    }
    assert(pairs@.take(pairs.len() as int) =~= pairs@);
    ids
}

/// The ids cut into consecutive batches of `size`; only the last batch may
/// hold fewer.
pub open spec fn batches(ids: Seq<u32>, size: nat) -> Seq<Seq<u32>>
    decreases ids.len(),
{
    if ids.len() == 0 || size == 0 {
        Seq::empty()
    } else if ids.len() <= size {
        seq![ids]
    } else {
        seq![ids.take(size as int)] + batches(ids.skip(size as int), size)
    }
}

/// The sequences that a sequence of vectors holds.
pub open spec fn lists(vectors: Seq<Vec<u32>>) -> Seq<Seq<u32>> {
    Seq::new(vectors.len(), |i: int| vectors[i]@)
}

/// No batch is empty, none is over the size, and together, in order, they
/// are the ids that were cut.
pub proof fn lemma_batches(ids: Seq<u32>, size: nat)
    requires
        size > 0,
    ensures
        forall|n: int|
            0 <= n < batches(ids, size).len() ==> 1 <= (#[trigger] batches(ids, size)[n]).len()
                <= size,
        batches(ids, size).flatten() == ids,
    decreases ids.len(),
{
    let cut = batches(ids, size);
    if ids.len() == 0 {
        assert(cut.flatten() =~= ids);
    } else if ids.len() <= size {
        assert(cut.first() == ids);
        assert(cut.drop_first() =~= Seq::<Seq<u32>>::empty());
        assert(cut.drop_first().flatten() =~= Seq::<u32>::empty());
        assert(cut.flatten() =~= ids);
    } else {
        let rest = batches(ids.skip(size as int), size);
        lemma_batches(ids.skip(size as int), size);
        assert(cut.first() == ids.take(size as int));
        assert(cut.drop_first() =~= rest);
        assert(cut.flatten() =~= ids.take(size as int) + rest.flatten());
        assert(ids.take(size as int) + ids.skip(size as int) =~= ids);
        assert forall|n: int| 0 <= n < cut.len() implies 1 <= (#[trigger] cut[n]).len()
            <= size by {
            if n > 0 {
                assert(cut[n] == rest[n - 1]);
            }
        }
    }
}

/// Cuts the ids into the batches that title queries accept.
pub fn title_batches(ids: &Vec<u32>) -> (out: Vec<Vec<u32>>)
    ensures
        lists(out@) == batches(ids@, TITLE_BATCH_LIMIT as nat),
{
    let ghost size = TITLE_BATCH_LIMIT as nat;
    let mut out: Vec<Vec<u32>> = Vec::new();
    let mut current: Vec<u32> = Vec::new();
    let mut i: usize = 0;
    assert(ids@.skip(0) =~= ids@);
    assert(lists(out@) + batches(ids@, size) =~= batches(ids@, size));
    while i < ids.len()
        invariant
            i <= ids.len(),
            size == TITLE_BATCH_LIMIT as nat,
            current.len() < TITLE_BATCH_LIMIT,
            current.len() <= i,
            i == ids.len() ==> current.len() == 0,
            current@ == ids@.subrange(i - current.len(), i as int),
            batches(ids@, size) == lists(out@) + batches(ids@.skip(i - current.len()), size),
        decreases ids.len() - i,
    {
        let ghost start = i - current.len();
        let ghost rest = ids@.skip(start);
        let ghost cut = lists(out@);
        current.push(ids[i]);
        i += 1;
        assert(current@ =~= ids@.subrange(start, i as int));
        if current.len() == TITLE_BATCH_LIMIT || i == ids.len() {
            proof {
                if i == ids.len() {
                    assert(current@ =~= rest);
                    assert(ids@.skip(i as int) =~= Seq::<u32>::empty());
                    assert(batches(rest, size) =~= seq![current@] + batches(
                        ids@.skip(i as int),
                        size,
                    ));
                } else {
                    assert(current@ =~= rest.take(size as int));
                    assert(rest.skip(size as int) =~= ids@.skip(i as int));
                }
            }
            let ghost batch = current@;
            assert(batches(rest, size) =~= seq![batch] + batches(ids@.skip(i as int), size));
            out.push(current);
            current = Vec::new();
            proof {
                assert(lists(out@) =~= cut + seq![batch]);
                assert(ids@.subrange(i as int, i as int) =~= Seq::<u32>::empty());
                assert(batches(ids@, size) =~= lists(out@) + batches(ids@.skip(i as int), size));
            }
        }
    }
    proof {
        assert(ids@.skip(ids.len() as int) =~= Seq::<u32>::empty());
        assert(lists(out@) + Seq::<Seq<u32>>::empty() =~= lists(out@));
    }
    out
}

/// One page of a reply to a title query: the id under which the remote
/// source lists the page, and its title.
#[derive(Debug)]
pub struct TitlePage {
    pub pageid: u64,
    pub title: String,
}

/// The mapping after the pages were entered in order, each under the low 32
/// bits of its id; a later page replaces an earlier one with the same id.
pub open spec fn with_titles(titles: Map<u32, String>, pages: Seq<TitlePage>) -> Map<u32, String>
    decreases pages.len(),
{
    if pages.len() == 0 {
        titles
    } else {
        with_titles(titles, pages.drop_last()).insert(
            pages.last().pageid as u32,
            pages.last().title,
        )
    }
}

/// Enters the pages of one reply into the mapping from ids to titles.
pub fn absorb_titles(mapping: &mut HashMap<u32, String>, pages: &Vec<TitlePage>)
    ensures
        final(mapping)@ == with_titles(old(mapping)@, pages@),
{
    let ghost start = mapping@;
    let mut i: usize = 0;
    while i < pages.len()
        invariant
            i <= pages.len(),
            mapping@ == with_titles(start, pages@.take(i as int)),
        decreases pages.len() - i,
    {
        proof {
            assert(pages@.take(i + 1).drop_last() =~= pages@.take(i as int));
            assert(pages@.take(i + 1).last() == pages@[i as int]);
        }
        let id = #[verifier::truncate] (pages[i].pageid as u32);
        mapping.insert(id, pages[i].title.clone());
        i += 1;
    }
    assert(pages@.take(pages.len() as int) =~= pages@);
}

/// Every batch that `batches` cuts for title queries is within the limit
/// that such a query accepts.
pub proof fn lemma_title_batches_accepted(ids: Seq<u32>)
    ensures
        forall|n: int|
            0 <= n < batches(ids, TITLE_BATCH_LIMIT as nat).len() ==> 1 <= (#[trigger] batches(
                ids,
                TITLE_BATCH_LIMIT as nat,
            )[n]).len() <= TITLE_BATCH_LIMIT,
        batches(ids, TITLE_BATCH_LIMIT as nat).flatten() == ids,
{
    lemma_batches(ids, TITLE_BATCH_LIMIT as nat);
}

/// The line that closes a report: how many nodes each frontier held at the
/// end.
pub open spec fn summary_text(forward: nat, backward: nat) -> Seq<char> {
    "In the end, there were "@ + decimal(forward) + " links going forward and "@ + decimal(
        backward,
    ) + " links going backwards that were added to the graph."@
}

/// Writes the line that closes a report.
pub fn summary_line(forward: usize, backward: usize) -> (line: String)
    ensures
        line@ == summary_text(forward as nat, backward as nat),
{
    let mut line = String::from_str("In the end, there were ");
    let count = decimal_string(forward as u64);
    line.append(count.as_str());
    line.append(" links going forward and ");
    let count = decimal_string(backward as u64);
    line.append(count.as_str());
    line.append(" links going backwards that were added to the graph.");
    line
}

/// The name of the file that keeps the report of a search that ended at the
/// given moment.
pub open spec fn file_name_text(
    year: int,
    month: nat,
    day: nat,
    hour: nat,
    minute: nat,
    second: nat,
) -> Seq<char> {
    "link_dated_"@ + signed_decimal(year) + "-"@ + decimal(month) + "-"@ + decimal(day) + "_"@
        + decimal(hour) + "-"@ + decimal(minute) + "-"@ + decimal(second) + ".txt"@
}

/// Names the file that keeps the report of a search that ended at the given
/// moment.
pub fn result_file_name(year: i32, month: u32, day: u32, hour: u32, minute: u32, second: u32) -> (name:
    String)
    ensures
        name@ == file_name_text(
            year as int,
            month as nat,
            day as nat,
            hour as nat,
            minute as nat,
            second as nat,
        ),
{
    let mut name = String::from_str("link_dated_");
    let part = signed_decimal_string(year as i64);
    name.append(part.as_str());
    name.append("-");
    let part = decimal_string(month as u64);
    name.append(part.as_str());
    name.append("-");
    let part = decimal_string(day as u64);
    name.append(part.as_str());
    name.append("_");
    let part = decimal_string(hour as u64);
    name.append(part.as_str());
    name.append("-");
    let part = decimal_string(minute as u64);
    name.append(part.as_str());
    name.append("-");
    let part = decimal_string(second as u64);
    name.append(part.as_str());
    name.append(".txt");
    name
}

} // verus!

//! The search controller: the two frontiers, the visited sets, and the rule
//! that says what happens next.

use crate::frontier::{chains, deduplicated, expand_frontier, fresh, offspring, with_expanded};
use crate::meeting::{find_meetings, frontier_ids, meetings};
use crate::node::LinkFollower;
use crate::render::{combine_with_mapping, path_of, rendered, summary_line, summary_text, titled};
use std::collections::{HashMap, HashSet};
use std::sync::Arc;
use vstd::prelude::*;
use vstd::string::*;

verus! {

/// A side of the search.
#[derive(Debug, Clone, Copy, PartialEq, Eq, Structural)]
pub enum Direction {
    /// From the start, along outgoing links.
    Forward,
    /// From the end, along incoming links.
    Backward,
}

/// What the search does next.
#[derive(Debug)]
pub enum SearchStep {
    /// One more expansion pass is due on this side.
    Expand(Direction),
    /// The frontiers meet.  Each pair gives the position of a forward node
    /// and the position of a backward node at the same place.
    Found(Vec<(usize, usize)>),
    /// The frontier of this side ran empty: the search ends without a path.
    DeadEnd(Direction),
}

/// The side whose frontier ran empty in the pass that was made last, if it
/// did.
pub open spec fn dead_end(last_pass: Option<Direction>, forward: nat, backward: nat) -> Option<
    Direction,
> {
    if last_pass == Some(Direction::Backward) && backward == 0 {
        Some(Direction::Backward)
    } else if last_pass == Some(Direction::Forward) && forward == 0 {
        Some(Direction::Forward)
    } else {
        None
    }
}

/// The side to expand: the backward one as long as its frontier is no
/// larger than the forward one.
pub open spec fn side_to_expand(forward: nat, backward: nat) -> Direction {
    if backward <= forward {
        Direction::Backward
    } else {
        Direction::Forward
    }
}

/// Whether a meeting can be rendered: both positions exist, and every id on
/// the path has a title.
pub open spec fn renderable(
    forward: Seq<Seq<u32>>,
    backward: Seq<Seq<u32>>,
    pair: (usize, usize),
    titles: Map<u32, String>,
) -> bool {
    pair.0 < forward.len() && pair.1 < backward.len() && titled(
        path_of(forward[pair.0 as int], backward[pair.1 as int]),
        titles,
    )
}

/// The state of one search.
pub struct WikiLinker {
    links: Vec<Arc<LinkFollower>>,
    backlinks: Vec<Arc<LinkFollower>>,
    visited_links: HashSet<u32>,
    visited_backlinks: HashSet<u32>,
    last_pass: Option<Direction>,
    namespaces: String,
    domain: String,
}

impl WikiLinker {
    /// The forward frontier.
    pub closed spec fn forward(&self) -> Seq<Arc<LinkFollower>> {
        self.links@
    }

    /// The backward frontier.
    pub closed spec fn backward(&self) -> Seq<Arc<LinkFollower>> {
        self.backlinks@
    }

    /// The places that were expanded on the forward side.
    pub closed spec fn visited_forward(&self) -> Set<u32> {
        self.visited_links@
    }

    /// The places that were expanded on the backward side.
    pub closed spec fn visited_backward(&self) -> Set<u32> {
        self.visited_backlinks@
    }

    /// The side of the pass that was made last; none since the search was
    /// seeded.
    pub closed spec fn last_pass(&self) -> Option<Direction> {
        self.last_pass
    }

    /// The namespace filter that requests carry.
    pub closed spec fn namespace_filter(&self) -> Seq<char> {
        self.namespaces@
    }

    /// The site that requests go to.
    pub closed spec fn site(&self) -> Seq<char> {
        self.domain@
    }

    /// A search with empty frontiers, on the English Wikipedia, over the
    /// namespaces 0, 14 and 100.
    pub fn new() -> (linker: WikiLinker)
        ensures
            linker.forward() == Seq::<Arc<LinkFollower>>::empty(),
            linker.backward() == Seq::<Arc<LinkFollower>>::empty(),
            linker.visited_forward() == Set::<u32>::empty(),
            linker.visited_backward() == Set::<u32>::empty(),
            linker.last_pass() is None,
            linker.namespace_filter() == "0|14|100"@,
            linker.site() == "en.wikipedia.org/w"@,
    {
        WikiLinker {
            links: Vec::new(),
            backlinks: Vec::new(),
            visited_links: HashSet::new(),
            visited_backlinks: HashSet::new(),
            last_pass: None,
            namespaces: String::from_str("0|14|100"),
            domain: String::from_str("en.wikipedia.org/w"),
        }
    }

    /// Sets the namespace filter; the search itself stays as it is.
    pub fn set_namespaces(&mut self, namespaces: &str)
        ensures
            final(self).namespace_filter() == namespaces@,
            final(self).site() == old(self).site(),
            final(self).forward() == old(self).forward(),
            final(self).backward() == old(self).backward(),
            final(self).visited_forward() == old(self).visited_forward(),
            final(self).visited_backward() == old(self).visited_backward(),
            final(self).last_pass() == old(self).last_pass(),
    {
        self.namespaces = String::from_str(namespaces);
    }

    /// Sets the site; the search itself stays as it is.
    pub fn set_domain(&mut self, domain: &str)
        ensures
            final(self).site() == domain@,
            final(self).namespace_filter() == old(self).namespace_filter(),
            final(self).forward() == old(self).forward(),
            final(self).backward() == old(self).backward(),
            final(self).visited_forward() == old(self).visited_forward(),
            final(self).visited_backward() == old(self).visited_backward(),
            final(self).last_pass() == old(self).last_pass(),
    {
        self.domain = String::from_str(domain);
    }

    /// The namespace filter.
    pub fn namespaces(&self) -> (namespaces: &str)
        ensures
            namespaces@ == self.namespace_filter(),
    {
        self.namespaces.as_str()
    }

    /// The site.
    pub fn domain(&self) -> (domain: &str)
        ensures
            domain@ == self.site(),
    {
        self.domain.as_str()
    }

    /// The forward frontier.
    pub fn links(&self) -> (frontier: &Vec<Arc<LinkFollower>>)
        ensures
            frontier@ == self.forward(),
    {
        &self.links
    }

    /// The backward frontier.
    pub fn backlinks(&self) -> (frontier: &Vec<Arc<LinkFollower>>)
        ensures
            frontier@ == self.backward(),
    {
        &self.backlinks
    }

    /// Seeds the search: the start joins the forward frontier as a root, the
    /// end joins the backward frontier as a root.
    pub fn seed(&mut self, start: u32, end: u32)
        ensures
            chains(final(self).forward()) == chains(old(self).forward()).push(seq![start]),
            chains(final(self).backward()) == chains(old(self).backward()).push(seq![end]),
            final(self).visited_forward() == old(self).visited_forward(),
            final(self).visited_backward() == old(self).visited_backward(),
            final(self).last_pass() is None,
            final(self).namespace_filter() == old(self).namespace_filter(),
            final(self).site() == old(self).site(),
    {
        let ghost forward = chains(self.links@);
        let ghost backward = chains(self.backlinks@);
        self.links.push(Arc::new(LinkFollower::new(start, None)));
        self.backlinks.push(Arc::new(LinkFollower::new(end, None)));
        self.last_pass = None;
        assert(chains(self.links@) =~= forward.push(seq![start]));
        assert(chains(self.backlinks@) =~= backward.push(seq![end]));
    }

    /// Lists the meetings of the two frontiers as they stand.
    pub fn check_end(&self) -> (pairs: Vec<(usize, usize)>)
        ensures
            pairs@ == meetings(frontier_ids(self.forward()), frontier_ids(self.backward())),
    {
        find_meetings(&self.links, &self.backlinks)
    }

    /// Makes a forward pass: `reports[i]` holds the pages that the node at
    /// position `i` of the forward frontier links to, or `None` where that
    /// could not be found out.
    pub fn do_forward_link_pass(&mut self, reports: &Vec<Option<Vec<u32>>>)
        ensures
            chains(final(self).forward()) == fresh(
                offspring(chains(old(self).forward()), reports@),
                old(self).visited_forward(),
            ),
            deduplicated(chains(final(self).forward()), old(self).visited_forward()),
            final(self).visited_forward() == with_expanded(
                old(self).visited_forward(),
                frontier_ids(old(self).forward()),
            ),
            final(self).last_pass() == Some(Direction::Forward),
            final(self).backward() == old(self).backward(),
            final(self).visited_backward() == old(self).visited_backward(),
            final(self).namespace_filter() == old(self).namespace_filter(),
            final(self).site() == old(self).site(),
    {
        let next = expand_frontier(&self.links, &mut self.visited_links, reports);
        self.links = next;
        self.last_pass = Some(Direction::Forward);
    }

    /// Makes a backward pass: `reports[i]` holds the pages that link to the
    /// node at position `i` of the backward frontier, redirects folded in,
    /// or `None` where that could not be found out.
    pub fn do_backward_link_pass(&mut self, reports: &Vec<Option<Vec<u32>>>)
        ensures
            chains(final(self).backward()) == fresh(
                offspring(chains(old(self).backward()), reports@),
                old(self).visited_backward(),
            ),
            deduplicated(chains(final(self).backward()), old(self).visited_backward()),
            final(self).visited_backward() == with_expanded(
                old(self).visited_backward(),
                frontier_ids(old(self).backward()),
            ),
            final(self).last_pass() == Some(Direction::Backward),
            final(self).forward() == old(self).forward(),
            final(self).visited_forward() == old(self).visited_forward(),
            final(self).namespace_filter() == old(self).namespace_filter(),
            final(self).site() == old(self).site(),
    {
        let next = expand_frontier(&self.backlinks, &mut self.visited_backlinks, reports);
        self.backlinks = next;
        self.last_pass = Some(Direction::Backward);
    }

    /// Says what the search does next.
    ///
    /// Where the frontiers meet, the search has found its paths.  Where the
    /// pass that was made last left its frontier empty, that side is a dead
    /// end.  Otherwise the backward side is expanded as long as its frontier
    /// is no larger than the forward one, else the forward side.
    pub fn next_step(&self) -> (step: SearchStep)
        ensures
            match step {
                SearchStep::Found(pairs) => {
                    &&& pairs@.len() > 0
                    &&& pairs@ == meetings(
                        frontier_ids(self.forward()),
                        frontier_ids(self.backward()),
                    )
                },
                SearchStep::DeadEnd(side) => {
                    &&& meetings(
                        frontier_ids(self.forward()),
                        frontier_ids(self.backward()),
                    ).len() == 0
                    &&& dead_end(self.last_pass(), self.forward().len(), self.backward().len())
                        == Some(side)
                },
                SearchStep::Expand(side) => {
                    &&& meetings(
                        frontier_ids(self.forward()),
                        frontier_ids(self.backward()),
                    ).len() == 0
                    &&& dead_end(self.last_pass(), self.forward().len(), self.backward().len())
                        is None
                    &&& side == side_to_expand(self.forward().len(), self.backward().len())
                },
            },
    {
        let pairs = self.check_end();
        if pairs.len() > 0 {
            return SearchStep::Found(pairs);
        }
        match self.last_pass {
            Some(Direction::Backward) => {
                if self.backlinks.len() == 0 {
                    return SearchStep::DeadEnd(Direction::Backward);
                }
            },
            Some(Direction::Forward) => {
                if self.links.len() == 0 {
                    return SearchStep::DeadEnd(Direction::Forward);
                }
            },
            None => {},
        }
        if self.backlinks.len() <= self.links.len() {
            SearchStep::Expand(Direction::Backward)
        } else {
            SearchStep::Expand(Direction::Forward)
        }
    }

    /// Writes the report of a search that has found its paths: one line for
    /// each listed meeting, in order, then the closing line.
    ///
    /// Gives nothing where a pair names a position that a frontier does not
    /// have, or where the mapping lacks the title of an id on a path.
    pub fn report(&self, pairs: &Vec<(usize, usize)>, mapping: &HashMap<u32, String>) -> (lines:
        Option<Vec<String>>)
        ensures
            match lines {
                Some(all) => {
                    &&& all@.len() == pairs@.len() + 1
                    &&& forall|k: int|
                        0 <= k < pairs@.len() ==> renderable(
                            chains(self.forward()),
                            chains(self.backward()),
                            #[trigger] pairs@[k],
                            mapping@,
                        )
                    &&& forall|k: int|
                        0 <= k < pairs@.len() ==> (#[trigger] all@[k])@ == rendered(
                            path_of(
                                chains(self.forward())[pairs@[k].0 as int],
                                chains(self.backward())[pairs@[k].1 as int],
                            ),
                            mapping@,
                        )
                    &&& all@[pairs@.len() as int]@ == summary_text(
                        self.forward().len(),
                        self.backward().len(),
                    )
                },
                None => exists|k: int|
                    0 <= k < pairs@.len() && !renderable(
                        chains(self.forward()),
                        chains(self.backward()),
                        #[trigger] pairs@[k],
                        mapping@,
                    ),
            },
    {
        let ghost f = chains(self.links@);
        let ghost b = chains(self.backlinks@);
        let mut lines: Vec<String> = Vec::new();
        let mut k: usize = 0;
        while k < pairs.len()
            invariant
                k <= pairs.len(),
                lines@.len() == k,
                f == chains(self.links@),
                b == chains(self.backlinks@),
                forall|n: int| 0 <= n < k ==> renderable(f, b, #[trigger] pairs@[n], mapping@),
                forall|n: int|
                    0 <= n < k ==> (#[trigger] lines@[n])@ == rendered(
                        path_of(f[pairs@[n].0 as int], b[pairs@[n].1 as int]),
                        mapping@,
                    ),
            decreases pairs.len() - k,
        {
            let (i, j) = pairs[k];
            if i >= self.links.len() || j >= self.backlinks.len() {
                assert(!renderable(f, b, pairs@[k as int], mapping@));
                return None;
            }
            match combine_with_mapping(&self.links[i], &self.backlinks[j], mapping) {
                Some(line) => {
                    lines.push(line);
                },
                None => {
                    assert(!renderable(f, b, pairs@[k as int], mapping@));
                    return None;
                },
            }
            k += 1;
        }
        lines.push(summary_line(self.links.len(), self.backlinks.len()));
        Some(lines)
    }
}

} // verus!

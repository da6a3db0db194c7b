//! Backlinks through redirects: a page that redirects to a node stands for
//! that node, so what links to the alias links to the node.
//!
//! The resolver keeps an explicit worklist and the set of nodes it has
//! already asked about, so that aliases that redirect in a circle are each
//! asked about once.

use std::collections::HashSet;
use vstd::prelude::*;
use vstd::relations::injective_on;
use vstd::set_lib::{lemma_int_range, lemma_len_subset, lemma_map_size, set_int_range};

verus! {

/// What the resolution of the backlinks of one node holds at a moment.
pub struct ResolverState {
    /// The node whose report is awaited.
    pub current: u32,
    /// The aliases still to be looked at, the next one last.
    pub pending: Seq<u32>,
    /// The nodes whose report has come.
    pub processed: Set<u32>,
    /// The backlinks gathered so far.
    pub collected: Seq<u32>,
    /// Whether the report that is awaited is the first one.
    pub first: bool,
    /// Whether the first report held any list at all.
    pub available: bool,
    /// Whether nothing is left to ask.
    pub done: bool,
}

/// The resolution of the backlinks of one node, redirects folded in.
pub struct BacklinkResolver {
    current: u32,
    pending: Vec<u32>,
    processed: HashSet<u32>,
    collected: Vec<u32>,
    first: bool,
    available: bool,
    done: bool,
}

impl View for BacklinkResolver {
    type V = ResolverState;

    closed spec fn view(&self) -> ResolverState {
        ResolverState {
            current: self.current,
            pending: self.pending@,
            processed: self.processed@,
            collected: self.collected@,
            first: self.first,
            available: self.available,
            done: self.done,
        }
    }
}

/// The ids of a reported list; none where the list is missing.
pub open spec fn ids_in(report: Option<Vec<u32>>) -> Seq<u32> {
    match report {
        Some(ids) => ids@,
        None => Seq::empty(),
    }
}

/// The worklist once the aliases at its end that were already asked about
/// are taken off.
pub open spec fn skip_processed(pending: Seq<u32>, processed: Set<u32>) -> Seq<u32>
    decreases pending.len(),
{
    if pending.len() == 0 || !processed.contains(pending.last()) {
        pending
    } else {
        skip_processed(pending.drop_last(), processed)
    }
}

/// The state at the start: the node itself is asked about first.
pub open spec fn initial(node: u32) -> ResolverState {
    ResolverState {
        current: node,
        pending: Seq::empty(),
        processed: Set::empty(),
        collected: Seq::empty(),
        first: true,
        available: false,
        done: false,
    }
}

/// The state after the report about the current node has come.
///
/// The node counts as processed.  Its backlinks are gathered.  Its aliases
/// go on the worklist so that the first of them is looked at next, before
/// anything that waited already.  The next node to ask about is the nearest
/// one on the worklist that is not processed; where there is none, the
/// resolution is done.
pub open spec fn after_report(
    state: ResolverState,
    backlinks: Option<Vec<u32>>,
    redirects: Option<Vec<u32>>,
) -> ResolverState {
    let processed = state.processed.insert(state.current);
    let waiting = skip_processed(state.pending + ids_in(redirects).reverse(), processed);
    ResolverState {
        current: if waiting.len() > 0 {
            waiting.last()
        } else {
            state.current
        },
        pending: if waiting.len() > 0 {
            waiting.drop_last()
        } else {
            waiting
        },
        processed,
        collected: state.collected + ids_in(backlinks),
        first: false,
        available: if state.first {
            backlinks is Some || redirects is Some
        } else {
            state.available
        },
        done: waiting.len() == 0,
    }
}

/// What the resolution gives when it is read off: the gathered backlinks,
/// or nothing where the remote source had no list at all for the node.
pub open spec fn outcome(state: ResolverState) -> Option<Seq<u32>> {
    if state.available {
        Some(state.collected)
    } else {
        None
    }
}

/// What is left of a worklist after skipping is a front part of it, and its
/// last entry, if any, is not processed.
pub proof fn lemma_skip_processed(pending: Seq<u32>, processed: Set<u32>)
    ensures
        skip_processed(pending, processed).len() <= pending.len(),
        skip_processed(pending, processed) == pending.take(
            skip_processed(pending, processed).len() as int,
        ),
        skip_processed(pending, processed).len() > 0 ==> !processed.contains(
            skip_processed(pending, processed).last(),
        ),
    decreases pending.len(),
{
    if pending.len() == 0 || !processed.contains(pending.last()) {
        assert(pending.take(pending.len() as int) =~= pending);
    } else {
        lemma_skip_processed(pending.drop_last(), processed);
        let left = skip_processed(pending.drop_last(), processed);
        assert(pending.drop_last().take(left.len() as int) =~= pending.take(left.len() as int));
    }
}

/// No node is asked about twice: a report enters exactly the node it is
/// about into the processed set, and the node to ask about next is never
/// one of that set.  With each report the set therefore grows by one node,
/// which bounds the number of requests by the number of nodes there are,
/// whatever the remote source reports, circles of redirects included.
pub proof fn lemma_never_asked_twice(
    state: ResolverState,
    backlinks: Option<Vec<u32>>,
    redirects: Option<Vec<u32>>,
)
    requires
        state.processed.finite(),
        !state.processed.contains(state.current),
    ensures
        after_report(state, backlinks, redirects).processed == state.processed.insert(
            state.current,
        ),
        after_report(state, backlinks, redirects).processed.finite(),
        after_report(state, backlinks, redirects).processed.len() == state.processed.len() + 1,
        !after_report(state, backlinks, redirects).done ==> !after_report(
            state,
            backlinks,
            redirects,
        ).processed.contains(after_report(state, backlinks, redirects).current),
        after_report(state, backlinks, redirects).collected == state.collected + ids_in(
            backlinks,
        ),
{
    let processed = state.processed.insert(state.current);
    lemma_skip_processed(state.pending + ids_in(redirects).reverse(), processed);
}

/// The state of a resolution after a run of reports, each about the node
/// that was current when it came: its backlinks and its redirects.
pub open spec fn state_after(
    node: u32,
    reports: Seq<(Option<Vec<u32>>, Option<Vec<u32>>)>,
) -> ResolverState
    decreases reports.len(),
{
    if reports.len() == 0 {
        initial(node)
    } else {
        after_report(state_after(node, reports.drop_last()), reports.last().0, reports.last().1)
    }
}

/// Whether every report of the run came while the resolution still asked
/// for one.
pub open spec fn awaited(node: u32, reports: Seq<(Option<Vec<u32>>, Option<Vec<u32>>)>) -> bool {
    forall|n: int| 0 <= n < reports.len() ==> !(#[trigger] state_after(node, reports.take(n))).done
}

/// The backlinks of all reports of a run, one report after the other.
pub open spec fn reported_backlinks(reports: Seq<(Option<Vec<u32>>, Option<Vec<u32>>)>) -> Seq<
    u32,
>
    decreases reports.len(),
{
    if reports.len() == 0 {
        Seq::empty()
    } else {
        reported_backlinks(reports.drop_last()) + ids_in(reports.last().0)
    }
}

/// There are no more sets of ids than there are ids.
proof fn lemma_id_set_bounded(ids: Set<u32>)
    requires
        ids.finite(),
    ensures
        ids.len() <= 0x1_0000_0000,
{
    let widen = |id: u32| id as int;
    let wide = ids.map(widen);
    assert(injective_on(widen, ids));
    lemma_map_size(ids, wide, widen);
    lemma_int_range(0, 0x1_0000_0000);
    assert(wide.subset_of(set_int_range(0, 0x1_0000_0000))) by {
        assert forall|v: int| wide.contains(v) implies set_int_range(0, 0x1_0000_0000).contains(
            v,
        ) by {
            let id = choose|id: u32| ids.contains(id) && v == widen(id);
        }
    }
    lemma_len_subset(wide, set_int_range(0, 0x1_0000_0000));
}

/// A resolution ends, whatever the remote source reports.
///
/// Each awaited report is about a node that no earlier report was about, so
/// a run of awaited reports is no longer than there are ids: redirects that
/// lead in a circle cannot keep a resolution going.  What the run gathered
/// is what its reports held as backlinks, in the order of the reports.
pub proof fn lemma_resolution_is_bounded(
    node: u32,
    reports: Seq<(Option<Vec<u32>>, Option<Vec<u32>>)>,
)
    requires
        awaited(node, reports),
    ensures
        state_after(node, reports).processed.finite(),
        state_after(node, reports).processed.len() == reports.len(),
        reports.len() <= 0x1_0000_0000,
        !state_after(node, reports).done ==> !state_after(node, reports).processed.contains(
            state_after(node, reports).current,
        ),
        state_after(node, reports).collected == reported_backlinks(reports),
    decreases reports.len(),
{
    if reports.len() > 0 {
        let earlier = reports.drop_last();
        assert forall|n: int| 0 <= n < earlier.len() implies !(#[trigger] state_after(
            node,
            earlier.take(n),
        )).done by {
            assert(earlier.take(n) =~= reports.take(n));
        }
        lemma_resolution_is_bounded(node, earlier);
        let before = state_after(node, earlier);
        assert(reports.take(reports.len() - 1) =~= earlier);
        assert(!state_after(node, reports.take(reports.len() - 1)).done);
        lemma_never_asked_twice(before, reports.last().0, reports.last().1);
    } else {
        assert(state_after(node, reports).collected =~= reported_backlinks(reports));
    }
    lemma_id_set_bounded(state_after(node, reports).processed);
}

impl BacklinkResolver {
    /// Begins the resolution of the backlinks of `node`.  The first report
    /// that is due is the one about `node` itself.
    pub fn start(node: u32) -> (resolver: BacklinkResolver)
        ensures
            resolver@ == initial(node),
    {
        let resolver = BacklinkResolver {
            current: node,
            pending: Vec::new(),
            processed: HashSet::new(),
            collected: Vec::new(),
            first: true,
            available: false,
            done: false,
        };
        assert(resolver@.pending =~= Seq::<u32>::empty());
        assert(resolver@.collected =~= Seq::<u32>::empty());
        resolver
    }

    /// The node whose report is awaited.
    pub fn current(&self) -> (node: u32)
        ensures
            node == self@.current,
    {
        self.current
    }

    /// Whether nothing is left to ask.
    pub fn is_done(&self) -> (done: bool)
        ensures
            done == self@.done,
    {
        self.done
    }

    /// Takes the report about the current node: the pages that link to it,
    /// redirects aside, and the pages that redirect to it; either is `None`
    /// where the remote source has no such list.  Gives the node to ask
    /// about next, or `None` when the resolution is done.
    pub fn absorb(&mut self, backlinks: Option<Vec<u32>>, redirects: Option<Vec<u32>>) -> (next:
        Option<u32>)
        ensures
            final(self)@ == after_report(old(self)@, backlinks, redirects),
            next == if final(self)@.done {
                None
            } else {
                Some(final(self)@.current)
            },
    {
        let ghost before = self@;
        let ghost target = after_report(before, backlinks, redirects);
        if self.first {
            self.available = backlinks.is_some() || redirects.is_some();
            self.first = false;
        }
        self.processed.insert(self.current);
        match &backlinks {
            Some(found) => {
                let mut i: usize = 0;
                assert(before.collected + found@.take(0) =~= before.collected);
                while i < found.len()
                    invariant
                        i <= found.len(),
                        self.collected@ == before.collected + found@.take(i as int),
                        self.current == before.current,
                        self.pending@ == before.pending,
                        self.processed@ == target.processed,
                        self.first == target.first,
                        self.available == target.available,
                    decreases found.len() - i,
                {
                    self.collected.push(found[i]);
                    assert(self.collected@ =~= before.collected + found@.take(i + 1));
                    i += 1;
                }
                assert(found@.take(found.len() as int) =~= found@);
            },
            None => {
                assert(before.collected + Seq::<u32>::empty() =~= before.collected);
            },
        }
        let ghost stacked = before.pending + ids_in(redirects).reverse();
        match &redirects {
            Some(aliases) => {
                let mut left: usize = aliases.len();
                assert(before.pending + aliases@.reverse().take(0) =~= before.pending);
                while left > 0
                    invariant
                        left <= aliases.len(),
                        self.pending@ == before.pending + aliases@.reverse().take(
                            aliases.len() - left,
                        ),
                        self.current == before.current,
                        self.collected@ == target.collected,
                        self.processed@ == target.processed,
                        self.first == target.first,
                        self.available == target.available,
                    decreases left,
                {
                    left -= 1;
                    self.pending.push(aliases[left]);
                    assert(self.pending@ =~= before.pending + aliases@.reverse().take(
                        aliases.len() - left,
                    ));
                }
                assert(aliases@.reverse().take(aliases.len() as int) =~= aliases@.reverse());
            },
            None => {
                assert(ids_in(redirects).reverse() =~= Seq::<u32>::empty());
                assert(before.pending + Seq::<u32>::empty() =~= before.pending);
            },
        }
        assert(self.pending@ == stacked);
        let mut next: Option<u32> = None;
        while self.pending.len() > 0
            invariant_except_break
                next is None,
                skip_processed(self.pending@, target.processed) == skip_processed(
                    stacked,
                    target.processed,
                ),
            invariant
                self.current == before.current,
                self.collected@ == target.collected,
                self.processed@ == target.processed,
                self.first == target.first,
                self.available == target.available,
            ensures
                match next {
                    Some(node) => {
                        let waiting = skip_processed(stacked, target.processed);
                        waiting.len() > 0 && waiting.last() == node && self.pending@
                            == waiting.drop_last()
                    },
                    None => skip_processed(stacked, target.processed).len() == 0
                        && self.pending@.len() == 0,
                },
            decreases self.pending.len(),
        {
            let ghost waiting = self.pending@;
            let candidate = self.pending.pop().unwrap();
            if !self.processed.contains(&candidate) {
                next = Some(candidate);
                assert(skip_processed(waiting, target.processed) == waiting);
                break ;
            }
        }
        match next {
            Some(node) => {
                self.current = node;
                self.done = false;
            },
            None => {
                self.done = true;
            },
        }
        assert(self@.pending =~= target.pending);
        next
    }

    /// Reads the resolution off: the gathered backlinks, in the order in
    /// which the reports came, or `None` where the first report held no
    /// list at all.
    pub fn finish(self) -> (backlinks: Option<Vec<u32>>)
        ensures
            match backlinks {
                Some(all) => outcome(self@) == Some(all@),
                None => outcome(self@) is None,
            },
    {
        if self.available {
            Some(self.collected)
        } else {
            None
        }
    }
}

} // verus!

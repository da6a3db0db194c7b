//! Path nodes: a place reached during the search together with the shared,
//! immutable chain of places it was reached through.

use crate::text::{arrow_chain, decimal, decimal_string, join_with_arrows, numerals, texts};
use crate::trusted::share;
use std::sync::Arc;
use vstd::prelude::*;
use vstd::std_specs::cmp::{PartialEqSpec, PartialEqSpecImpl};

verus! {

/// One place of the graph as the search reached it.
///
/// A node knows its own id and the node it was discovered from.  Many nodes
/// may share one predecessor; nothing is changed after construction.
#[derive(Debug)]
pub struct LinkFollower {
    previous_links: Option<Arc<LinkFollower>>,
    current_link: u32,
}

impl View for LinkFollower {
    type V = Seq<u32>;

    /// The ids from the root of the chain down to this node, this node last.
    closed spec fn view(&self) -> Seq<u32> {
        self.chain()
    }
}

impl LinkFollower {
    /// The id of the place itself.
    pub open spec fn id(&self) -> u32 {
        self@.last()
    }

    /// The ids of the ancestors, oldest first, this node excluded.
    pub open spec fn ancestors(&self) -> Seq<u32> {
        self@.drop_last()
    }

    /// The number of ancestors.
    pub open spec fn depth(&self) -> nat {
        self.ancestors().len()
    }

    /// The chain that a node has when it is discovered from `previous`.
    pub open spec fn chain_from(previous: Option<Arc<LinkFollower>>, id: u32) -> Seq<u32> {
        match previous {
            None => seq![id],
            Some(p) => p@.push(id),
        }
    }

    /// Every chain holds at least the node itself.
    pub proof fn lemma_view_nonempty(&self)
        ensures
            self@.len() >= 1,
            self@.len() == self.depth() + 1,
    {
    }

    /// Makes the node for the place `id` as discovered from `previous_links`,
    /// or as a root where there is no such node.
    pub fn new(id: u32, previous_links: Option<Arc<LinkFollower>>) -> (node: LinkFollower)
        ensures
            node@ == Self::chain_from(previous_links, id),
            node.id() == id,
            node.ancestors() == match previous_links {
                None => Seq::<u32>::empty(),
                Some(p) => p@,
            },
    {
        let ghost above = Self::chain_above(previous_links);
        let node = LinkFollower { current_link: id, previous_links };
        assert(node@ =~= above.push(id));
        assert(node@.drop_last() =~= above);
        node
    }

    /// The id of this node.
    pub fn current_link(&self) -> (id: u32)
        ensures
            id == self.id(),
    {
        self.current_link
    }

    /// The node this one was discovered from, if it is not a root.
    pub fn previous_links(&self) -> (previous: &Option<Arc<LinkFollower>>)
        ensures
            self@ == Self::chain_from(*previous, self.id()),
    {
        &self.previous_links
    }

    /// The ids of the ancestors, oldest first.
    pub fn get_links(&self) -> (links: Vec<u32>)
        ensures
            links@ == self.ancestors(),
    {
        let mut nearest_first: Vec<u32> = Vec::new();
        let mut pointer = &self.previous_links;
        loop
            invariant
                self.ancestors() == Self::chain_above(*pointer) + nearest_first@.reverse(),
            ensures
                self.ancestors() == nearest_first@.reverse(),
            decreases pointer,
        {
            match pointer {
                Some(l) => {
                    proof {
                        let grown = nearest_first@.push(l.current_link);
                        assert(grown.reverse() =~= seq![l.current_link] + nearest_first@.reverse());
                        assert(Self::chain_above(*pointer) =~= Self::chain_above(l.previous_links)
                            + seq![l.current_link]);
                        assert(self.ancestors() =~= Self::chain_above(l.previous_links)
                            + grown.reverse());
                    }
                    nearest_first.push(l.current_link);
                    pointer = &l.previous_links;
                },
                None => {
                    assert(self.ancestors() =~= nearest_first@.reverse());
                    break ;
                },
            }
        }
        let mut links: Vec<u32> = Vec::new();
        let mut left: usize = nearest_first.len();
        while left > 0
            invariant
                left <= nearest_first.len(),
                links@ == nearest_first@.reverse().take(nearest_first.len() - left),
            decreases left,
        {
            left -= 1;
            links.push(nearest_first[left]);
            assert(links@ =~= nearest_first@.reverse().take(nearest_first.len() - left));
        }
        assert(links@ =~= nearest_first@.reverse());
        links
    }

    /// The number of ancestors.
    pub fn get_depth(&self) -> (depth: usize)
        ensures
            depth == self.depth(),
    {
        self.get_links().len()
    }

    /// The chain written as ids joined by arrows, root first.
    pub fn to_string(&self) -> (s: String)
        ensures
            s@ == arrow_chain(numerals(self@)),
    {
        let links = self.get_links();
        let mut parts: Vec<String> = Vec::new();
        let mut i: usize = 0;
        while i < links.len()
            invariant
                i <= links.len(),
                parts@.len() == i,
                forall|k: int| 0 <= k < i ==> parts@[k]@ == decimal(links@[k] as nat),
            decreases links.len() - i,
        {
            parts.push(decimal_string(links[i] as u64));
            i += 1;
        }
        parts.push(decimal_string(self.current_link as u64));
        proof {
            assert(self@ =~= links@.push(self.current_link));
            assert forall|k: int| 0 <= k < parts@.len() implies texts(parts@)[k] == numerals(
                self@,
            )[k] by {
                if k < links@.len() {
                    assert(self@[k] == links@[k]);
                }
            }
            assert(texts(parts@) =~= numerals(self@));
        }
        join_with_arrows(&parts)
    }

    closed spec fn chain(&self) -> Seq<u32>
        decreases self,
    {
        match self.previous_links {
            None => seq![self.current_link],
            Some(p) => p.chain().push(self.current_link),
        }
    }

    /// The ids from the root down to the node that `pointer` names; nothing
    /// where it names none.
    closed spec fn chain_above(pointer: Option<Arc<LinkFollower>>) -> Seq<u32> {
        match pointer {
            None => Seq::empty(),
            Some(p) => p@,
        }
    }
}

impl Clone for LinkFollower {
    fn clone(&self) -> (copy: Self)
        ensures
            copy == *self,
    {
        let previous_links = match &self.previous_links {
            None => None,
            Some(p) => Some(share(p)),
        };
        LinkFollower { previous_links, current_link: self.current_link }
    }
}

impl PartialEq for LinkFollower {
    /// Two nodes are the same place when their ids agree, however each was
    /// reached.
    fn eq(&self, other: &Self) -> (same: bool) {
        self.current_link == other.current_link
    }
}

impl Eq for LinkFollower {

}

impl PartialEqSpecImpl for LinkFollower {
    open spec fn obeys_eq_spec() -> bool {
        true
    }

    open spec fn eq_spec(&self, other: &Self) -> bool {
        self.id() == other.id()
    }
}

/// Nodes are compared by place alone: two nodes with one id are equal,
/// whatever chains lead to them, and two nodes with different ids are not.
pub proof fn lemma_equal_by_id(a: LinkFollower, b: LinkFollower)
    ensures
        PartialEqSpec::eq_spec(&a, &b) <==> a.id() == b.id(),
        a.id() == b.id() ==> PartialEqSpec::eq_spec(&a, &b) && PartialEqSpec::eq_spec(&b, &a),
        PartialEqSpec::eq_spec(&a, &a),
{
}

impl std::hash::Hash for LinkFollower {
    /// Only the id is hashed, so that nodes that compare equal hash alike.
    fn hash<H: std::hash::Hasher>(&self, state: &mut H) {
        self.current_link.hash(state);
    }
}

} // verus!

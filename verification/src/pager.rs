//! Paging: a list that the remote source hands out page by page is asked
//! for until no continuation comes back.

use crate::query::Continuation;
use vstd::prelude::*;

verus! {

/// The lists that the search asks the remote source for.
#[derive(Debug, Clone, Copy, PartialEq, Eq, Structural)]
pub enum QueryKind {
    /// The pages that a page links to.
    Links,
    /// The pages that link to a page, redirects aside.
    Backlinks,
    /// The pages that redirect to a page.
    Redirects,
}

/// One page of a reply.
#[derive(Debug)]
pub struct PageReply {
    /// The page ids that the reply lists, as the remote source wrote them;
    /// `None` where the reply has no such list at all.
    pub ids: Option<Vec<i64>>,
    /// Set where more pages follow.
    pub continuation: Option<Continuation>,
}

/// How the paging of one list stands after a reply.
#[derive(Debug)]
pub enum Paging {
    /// Another page has to be asked for, with this continuation.
    More { collected: Vec<u32>, continuation: Continuation },
    /// The list is complete, or `None`: the remote source has no such list
    /// for the node.
    Finished(Option<Vec<u32>>),
}

/// The ids worth keeping from a raw list: those above zero, in order, each
/// in its low 32 bits.
pub open spec fn kept_ids(raw: Seq<i64>) -> Seq<u32>
    decreases raw.len(),
{
    if raw.len() == 0 {
        Seq::empty()
    } else if raw.last() > 0 {
        kept_ids(raw.drop_last()).push(raw.last() as u32)
    } else {
        kept_ids(raw.drop_last())
    }
}

/// What a reply adds to the ids collected so far.
pub open spec fn reply_ids(reply: PageReply) -> Seq<u32> {
    match reply.ids {
        Some(raw) => kept_ids(raw@),
        None => Seq::empty(),
    }
}

/// Whether a reply ends the paging without a result: it lacks the list, and
/// the list is one of links.  A reply about redirects that lacks the list
/// is passed over instead.
pub open spec fn gives_up(kind: QueryKind, reply: PageReply) -> bool {
    reply.ids is None && kind != QueryKind::Redirects
}

/// Every kept id comes from a raw id above zero, and the order stays.
pub proof fn lemma_kept_ids(raw: Seq<i64>)
    ensures
        kept_ids(raw).len() <= raw.len(),
        forall|k: int|
            0 <= k < kept_ids(raw).len() ==> exists|at: int|
                0 <= at < raw.len() && raw[at] > 0 && raw[at] as u32 == #[trigger] kept_ids(
                    raw,
                )[k],
        (forall|at: int| 0 <= at < raw.len() ==> 0 < #[trigger] raw[at] <= u32::MAX)
            ==> kept_ids(raw).len() == raw.len(),
    decreases raw.len(),
{
    if raw.len() > 0 {
        let shorter = raw.drop_last();
        lemma_kept_ids(shorter);
        let before = kept_ids(shorter);
        let now = kept_ids(raw);
        assert forall|k: int| 0 <= k < now.len() implies exists|at: int|
            0 <= at < raw.len() && raw[at] > 0 && raw[at] as u32 == #[trigger] now[k] by {
            if k < before.len() {
                assert(now[k] == before[k]);
                let at = choose|at: int|
                    0 <= at < shorter.len() && shorter[at] > 0 && shorter[at] as u32
                        == before[k];
                assert(raw[at] == shorter[at]);
            } else {
                assert(raw[raw.len() - 1] as u32 == now[k]);
            }
        }
        if forall|at: int| 0 <= at < raw.len() ==> 0 < #[trigger] raw[at] <= u32::MAX {
            assert forall|at: int| 0 <= at < shorter.len() implies 0 < #[trigger] shorter[at]
                <= u32::MAX by {
                assert(shorter[at] == raw[at]);
            }
            assert(raw[raw.len() - 1] > 0);
        }
    }
}

/// Takes one reply into the paging of a list.
///
/// The ids of the reply that are above zero are added to those collected
/// before.  Where the reply carries a continuation, another page is due;
/// where it carries none, the list is complete.  A reply without the list
/// ends the paging of links with no result, whatever was collected; for
/// redirects it adds nothing and the paging goes on.
pub fn absorb_page(kind: QueryKind, collected: Vec<u32>, reply: PageReply) -> (paging: Paging)
    ensures
        match paging {
            Paging::More { collected: all, continuation } => {
                &&& !gives_up(kind, reply)
                &&& reply.continuation == Some(continuation)
                &&& all@ == collected@ + reply_ids(reply)
            },
            Paging::Finished(Some(all)) => {
                &&& !gives_up(kind, reply)
                &&& reply.continuation is None
                &&& all@ == collected@ + reply_ids(reply)
            },
            Paging::Finished(None) => gives_up(kind, reply),
        },
{
    let ghost start = collected@;
    let mut collected = collected;
    let PageReply { ids, continuation } = reply;
    match ids {
        None => {
            match kind {
                QueryKind::Redirects => {
                    assert(collected@ =~= start + reply_ids(reply));
                },
                _ => {
                    return Paging::Finished(None);
                },
            }
        },
        Some(raw) => {
            let mut i: usize = 0;
            assert(start + kept_ids(raw@.take(0)) =~= start);
            while i < raw.len()
                invariant
                    i <= raw.len(),
                    collected@ == start + kept_ids(raw@.take(i as int)),
                decreases raw.len() - i,
            {
                proof {
                    assert(raw@.take(i + 1).drop_last() =~= raw@.take(i as int));
                    assert(raw@.take(i + 1).last() == raw@[i as int]);
                }
                if raw[i] > 0 {
                    let id = #[verifier::truncate] (raw[i] as u32);
                    collected.push(id);
                    assert(collected@ =~= start + kept_ids(raw@.take(i + 1)));
                }
                i += 1;
            }
            assert(raw@.take(raw.len() as int) =~= raw@);
        },
    }
    match continuation {
        Some(next) => Paging::More { collected, continuation: next },
        None => Paging::Finished(Some(collected)),
    }
}

} // verus!

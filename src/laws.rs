//! Properties of every traversal, stated over the model of a chain.
use vstd::prelude::*;

use crate::chain::{outcome_of, visited_of, LinkView, Outcome, Traversal};

verus! {

/// A traversal visits a contiguous prefix of the chain, starting at the head,
/// of at most as many approvers as the chain holds: every approver visited
/// before the last one passed the request on, and a traversal that ends before
/// the end of the chain ends at an approver that stopped the request.
pub proof fn lemma_visits_prefix(links: Seq<LinkView>, amount: int)
    ensures
        visited_of(links, amount).len() <= links.len(),
        visited_of(links, amount) == links.take(visited_of(links, amount).len() as int),
        forall|i: int|
            0 <= i < visited_of(links, amount).len() - 1 ==> #[trigger] links[i].role.lets_through(
                amount,
            ),
        visited_of(links, amount).len() < links.len() ==> {
            &&& visited_of(links, amount).len() >= 1
            &&& !links[visited_of(links, amount).len() - 1].role.lets_through(amount)
        },
    decreases links.len(),
{
    if links.len() > 0 && links[0].role.lets_through(amount) {
        let rest = links.drop_first();
        lemma_visits_prefix(rest, amount);
        let n = visited_of(rest, amount).len() as int;
        assert(links.take(n + 1) =~= seq![links[0]] + rest.take(n));
        assert forall|i: int|
            0 <= i < visited_of(links, amount).len() - 1 implies #[trigger] links[i].role.lets_through(
            amount,
        ) by {
            if i > 0 {
                assert(links[i] == rest[i - 1]);
            }
        }
    } else if links.len() > 0 {
        assert(links.take(1) =~= seq![links[0]]);
    } else {
        assert(links.take(0) =~= Seq::<LinkView>::empty());
    }
}

/// Two traversals of the same chain for requests of the same amount visit the
/// same approvers and end the same way: nothing a traversal does is kept for
/// the next one.
pub proof fn lemma_deterministic(
    first: Traversal,
    second: Traversal,
    links: Seq<LinkView>,
    amount: int,
)
    requires
        first.describes(links, amount),
        second.describes(links, amount),
    ensures
        first.visited_view() == second.visited_view(),
        first.outcome == second.outcome,
{
}

/// An approver that stops the request hides every approver after it: two
/// chains that agree up to and including that approver are traversed alike,
/// whatever follows it, and the traversal ends there or earlier, stopped.
pub proof fn lemma_stop_hides_rest(a: Seq<LinkView>, b: Seq<LinkView>, i: int, amount: int)
    requires
        0 <= i < a.len(),
        i < b.len(),
        a.take(i + 1) == b.take(i + 1),
        !a[i].role.lets_through(amount),
    ensures
        visited_of(a, amount) == visited_of(b, amount),
        visited_of(a, amount).len() <= i + 1,
        outcome_of(a, amount) == Outcome::Stopped,
        outcome_of(b, amount) == Outcome::Stopped,
    decreases i,
{
    assert(a[0] == a.take(i + 1)[0]);
    assert(b[0] == b.take(i + 1)[0]);
    if i > 0 && a[0].role.lets_through(amount) {
        assert(a.drop_first().take(i) =~= a.take(i + 1).drop_first());
        assert(b.drop_first().take(i) =~= b.take(i + 1).drop_first());
        lemma_stop_hides_rest(a.drop_first(), b.drop_first(), i - 1, amount);
    }
}

/// When every approver passes the request on, the traversal ends after the
/// last one, which has no successor: it visits the whole chain and nothing
/// more, and ends as one that ran out.
pub proof fn lemma_last_passes(links: Seq<LinkView>, amount: int)
    requires
        forall|i: int| 0 <= i < links.len() ==> #[trigger] links[i].role.lets_through(amount),
    ensures
        visited_of(links, amount) == links,
        outcome_of(links, amount) == Outcome::Continued,
    decreases links.len(),
{
    if links.len() > 0 {
        let rest = links.drop_first();
        assert forall|i: int| 0 <= i < rest.len() implies #[trigger] rest[i].role.lets_through(
            amount,
        ) by {
            assert(rest[i] == links[i + 1]);
        }
        lemma_last_passes(rest, amount);
        assert(seq![links[0]] + rest =~= links);
    } else {
        assert(links =~= Seq::<LinkView>::empty());
    }
}

/// A chain of one approver is traversed by that approver's decision alone:
/// it is visited, and the traversal ends as that decision says.
pub proof fn lemma_single_approver(link: LinkView, amount: int)
    ensures
        visited_of(seq![link], amount) == seq![link],
        outcome_of(seq![link], amount) == if link.role.lets_through(amount) {
            Outcome::Continued
        } else {
            Outcome::Stopped
        },
{
    let links = seq![link];
    assert(links[0] == link);
    assert(links.drop_first() =~= Seq::<LinkView>::empty());
    assert(visited_of(Seq::<LinkView>::empty(), amount) =~= Seq::<LinkView>::empty());
    assert(outcome_of(Seq::<LinkView>::empty(), amount) == Outcome::Continued);
    assert(seq![link] + Seq::<LinkView>::empty() =~= seq![link]);
}

} // verus!

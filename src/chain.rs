//! Approvers, the links between them, and the traversal of a chain.
use vstd::prelude::*;

use crate::request::PurchaseRequest;

verus! {

/// A director lets a request go on when its amount is above this.
pub const DIRECTOR_LIMIT: i64 = 50000;

/// A vice president lets a request go on when its amount is above this.
pub const VICE_PRESIDENT_LIMIT: i64 = 100000;

/// A president lets a request go on when its amount is above this.
pub const PRESIDENT_LIMIT: i64 = 500000;

/// The kind of an approver, which fixes its rule.
#[derive(Clone, Copy, Debug, PartialEq, Eq, Structural)]
pub enum Role {
    Director,
    VicePresident,
    President,
    /// The board: it never passes a request on.
    Congress,
}

impl Role {
    /// Whether an approver of this role passes a request of `amount` on to
    /// its successor. The comparisons are strict.
    pub open spec fn lets_through(self, amount: int) -> bool {
        match self {
            Role::Director => amount > DIRECTOR_LIMIT,
            Role::VicePresident => amount > VICE_PRESIDENT_LIMIT,
            Role::President => amount > PRESIDENT_LIMIT,
            Role::Congress => false,
        }
    }

    pub fn decide(&self, amount: i64) -> (r: bool)
        ensures
            r == self.lets_through(amount as int),
    {
        match self {
            Role::Director => amount > DIRECTOR_LIMIT,
            Role::VicePresident => amount > VICE_PRESIDENT_LIMIT,
            Role::President => amount > PRESIDENT_LIMIT,
            Role::Congress => false,
        }
    }
}

/// What the traversal sees of one approver: its role and its name.
pub struct LinkView {
    pub role: Role,
    pub name: Seq<char>,
}

/// The approvers that a traversal of `links` visits for a request of
/// `amount`: each one in order, up to and including the first that stops
/// the request, or all of them.
pub open spec fn visited_of(links: Seq<LinkView>, amount: int) -> Seq<LinkView>
    decreases links.len(),
{
    if links.len() == 0 {
        Seq::empty()
    } else if links[0].role.lets_through(amount) {
        seq![links[0]] + visited_of(links.drop_first(), amount)
    } else {
        seq![links[0]]
    }
}

/// How a traversal ends.
#[derive(Clone, Copy, Debug, PartialEq, Eq, Structural)]
pub enum Outcome {
    /// Every approver visited passed the request on, and the chain ran out.
    Continued,
    /// The last approver visited stopped the request.
    Stopped,
}

/// How a traversal of `links` ends for a request of `amount`.
pub open spec fn outcome_of(links: Seq<LinkView>, amount: int) -> Outcome
    decreases links.len(),
{
    if links.len() == 0 {
        Outcome::Continued
    } else if links[0].role.lets_through(amount) {
        outcome_of(links.drop_first(), amount)
    } else {
        Outcome::Stopped
    }
}

/// One approver that a traversal visited.
pub struct Visit {
    pub role: Role,
    pub name: String,
}

impl View for Visit {
    type V = LinkView;

    open spec fn view(&self) -> LinkView {
        LinkView { role: self.role, name: self.name@ }
    }
}

/// The record of one traversal: the approvers visited, in order, and how it
/// ended.
pub struct Traversal {
    pub visited: Vec<Visit>,
    pub outcome: Outcome,
}

impl Traversal {
    /// The approvers visited, as the traversal saw them.
    pub open spec fn visited_view(&self) -> Seq<LinkView> {
        self.visited@.map_values(|v: Visit| v@)
    }

    /// Whether this is the traversal of `links` for a request of `amount`.
    pub open spec fn describes(&self, links: Seq<LinkView>, amount: int) -> bool {
        &&& self.visited_view() == visited_of(links, amount)
        &&& self.outcome == outcome_of(links, amount)
    }
}

/// One approver of a chain, which owns the rest of the chain through its
/// handle.
#[derive(Debug)]
pub struct Approver {
    pub role: Role,
    pub name: String,
    pub handle_base: Option<HandleBase>,
}

/// The holder of an approver's successor, if it has one.
#[derive(Debug)]
pub struct HandleBase {
    pub next: Option<Box<Approver>>,
}

impl Approver {
    /// What a traversal sees of this approver alone.
    pub open spec fn link(&self) -> LinkView {
        LinkView { role: self.role, name: self.name@ }
    }

    /// This approver followed by every approver after it, in order.
    pub open spec fn links(&self) -> Seq<LinkView>
        decreases self,
    {
        match &self.handle_base {
            Some(h) => seq![self.link()] + h.links(),
            None => seq![self.link()],
        }
    }

    /// An approver of `role` named `name`, in front of `next` if it is given.
    pub fn new(role: Role, name: String, next: Option<Approver>) -> (r: Approver)
        ensures
            r.link() == (LinkView { role, name: name@ }),
            r.links() == seq![r.link()] + match next {
                Some(n) => n.links(),
                None => Seq::empty(),
            },
    {
        match next {
            Some(n) => Approver {
                role,
                name,
                handle_base: Some(HandleBase { next: Some(Box::new(n)) }),
            },
            None => {
                let r = Approver { role, name, handle_base: None };
                assert(r.links() == seq![r.link()] + Seq::<LinkView>::empty());
                r
            },
        }
    }
}

impl HandleBase {
    /// The approvers held here, in order: none, or the successor and every
    /// approver after it.
    pub open spec fn links(&self) -> Seq<LinkView>
        decreases self,
    {
        match &self.next {
            Some(n) => n.links(),
            None => Seq::empty(),
        }
    }

    /// Hands `request` to the successor held here, if there is one. With none,
    /// nothing is visited and the traversal ends as one that ran out.
    pub fn handle_next(&self, request: &PurchaseRequest) -> (r: Traversal)
        ensures
            r.describes(self.links(), request.amount as int),
    {
        match &self.next {
            Some(n) => n.handle_chain(request),
            None => {
                let r = Traversal { visited: Vec::new(), outcome: Outcome::Continued };
                assert(r.visited_view() =~= Seq::<LinkView>::empty());
                r
            },
        }
    }
}

/// A node of a chain of approvers: it decides on a request by its own rule,
/// and exposes the holder of its successor so that a traversal can go on
/// without knowing what kind of node comes next.
pub trait ConcreteHandlerBase {
    /// This node followed by every node after it, in order.
    spec fn chain(&self) -> Seq<LinkView>;

    /// The holder of this node's successor, if it has one.
    fn get_handler(&self) -> (r: Option<&HandleBase>)
        ensures
            self.chain().len() >= 1,
            self.chain().drop_first() == match r {
                Some(h) => h.links(),
                None => Seq::empty(),
            },
    ;

    /// Whether this node passes `request` on to its successor.
    fn process(&self, request: &PurchaseRequest) -> (r: bool)
        ensures
            self.chain().len() >= 1,
            r == self.chain()[0].role.lets_through(request.amount as int),
    ;

    /// Walks the chain from this node: each node decides in turn, and the walk
    /// goes on to the successor while the node passes the request on and has
    /// a successor.
    fn handle_chain(&self, request: &PurchaseRequest) -> (r: Traversal)
        ensures
            r.describes(self.chain(), request.amount as int),
    ;
}

impl ConcreteHandlerBase for Approver {
    open spec fn chain(&self) -> Seq<LinkView> {
        self.links()
    }

    fn get_handler(&self) -> (r: Option<&HandleBase>) {
        match &self.handle_base {
            Some(h) => Some(h),
            None => {
                assert(self.links().drop_first() =~= Seq::<LinkView>::empty());
                None
            },
        }
    }

    fn process(&self, request: &PurchaseRequest) -> (r: bool) {
        self.role.decide(request.get_amount())
    }

    fn handle_chain(&self, request: &PurchaseRequest) -> (r: Traversal) {
        let ghost links = self.links();
        let ghost amount = request.amount as int;
        let mut visited: Vec<Visit> = Vec::new();
        let mut node: &Approver = self;
        loop
            invariant
                links == self.links(),
                amount == request.amount as int,
                visited@.len() < links.len(),
                node.links() == links.skip(visited@.len() as int),
                visited@.map_values(|v: Visit| v@) == links.take(visited@.len() as int),
                visited_of(links, amount) == links.take(visited@.len() as int) + visited_of(
                    node.links(),
                    amount,
                ),
                outcome_of(links, amount) == outcome_of(node.links(), amount),
            decreases links.len() - visited@.len(),
        {
            let ghost k = visited@.len() as int;
            proof {
                lemma_split_first(node);
            }
            visited.push(Visit { role: node.role, name: node.name.clone() });
            assert(visited@.map_values(|v: Visit| v@) =~= links.take(k + 1));
            let go_on = node.process(request);
            assert(node.chain() == node.links());
            assert(links.take(k) + seq![node.link()] =~= links.take(k + 1));
            if !go_on {
                assert(visited_of(node.links(), amount) =~= seq![node.link()]);
                assert(outcome_of(node.links(), amount) == Outcome::Stopped);
                return Traversal { visited, outcome: Outcome::Stopped };
            }
            assert(visited_of(node.links(), amount) == seq![node.link()] + visited_of(
                node.links().drop_first(),
                amount,
            ));
            assert(outcome_of(node.links(), amount) == outcome_of(
                node.links().drop_first(),
                amount,
            ));
            assert(node.links().drop_first() =~= links.skip(k + 1));
            let next = match node.get_handler() {
                Some(h) => match &h.next {
                    Some(n) => Some(n),
                    None => None,
                },
                None => None,
            };
            match next {
                Some(n) => {
                    node = n;
                },
                None => {
                    assert(node.links().drop_first() =~= Seq::<LinkView>::empty());
                    assert(visited_of(Seq::<LinkView>::empty(), amount) =~= Seq::<
                        LinkView,
                    >::empty());
                    assert(outcome_of(Seq::<LinkView>::empty(), amount) == Outcome::Continued);
                    assert(visited_of(links, amount) =~= links.take(k + 1));
                    return Traversal { visited, outcome: Outcome::Continued };
                },
            }
        }
    }
}

/// The chain from an approver is its own link followed by the rest.
proof fn lemma_split_first(a: &Approver)
    ensures
        a.links().len() >= 1,
        a.links()[0] == a.link(),
        a.links().drop_first() == match &a.handle_base {
            Some(h) => h.links(),
            None => Seq::empty(),
        },
{
    match &a.handle_base {
        Some(h) => {
            assert(a.links().drop_first() =~= h.links());
        },
        None => {
            assert(a.links().drop_first() =~= Seq::<LinkView>::empty());
        },
    }
}

} // verus!

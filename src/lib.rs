//! A purchase-approval chain of responsibility.
//!
//! A [`PurchaseRequest`] is handed to the head of a chain of [`Approver`]s.
//! Each approver decides, by its [`Role`], whether the request goes on to the
//! next approver; traversal ends at the first approver that stops it, or after
//! the last one. The result of a traversal is returned as a [`Traversal`]: the
//! approvers visited, in order, and whether the chain stopped or ran out.
pub mod chain;
pub mod laws;
pub mod request;

pub use chain::{
    outcome_of, visited_of, Approver, ConcreteHandlerBase, HandleBase, LinkView, Outcome, Role,
    Traversal, Visit, DIRECTOR_LIMIT, PRESIDENT_LIMIT, VICE_PRESIDENT_LIMIT,
};
pub use request::PurchaseRequest;

//! The request that travels along a chain.
use vstd::prelude::*;

verus! {

/// A purchase to be approved: how much it costs, its number and
/// what it is for. Only the amount is read by the approvers; the number and
/// the purpose are carried along.
pub struct PurchaseRequest {
    /// The amount, in whole currency units. Zero and negative amounts are
    /// accepted as they are.
    pub amount: i64,
    pub number: i64,
    pub purpose: String,
}

impl PurchaseRequest {
    pub fn new(amount: i64, number: i64, purpose: String) -> (r: Self)
        ensures
            r.amount == amount,
            r.number == number,
            r.purpose == purpose,
    {
        PurchaseRequest { amount, number, purpose }
    }

    pub fn get_amount(&self) -> (r: i64)
        ensures
            r == self.amount,
    {
        self.amount
    }

    pub fn get_number(&self) -> (r: i64)
        ensures
            r == self.number,
    {
        self.number
    }

    pub fn get_purpose(&self) -> (r: &String)
        ensures
            *r == self.purpose,
    {
        &self.purpose
    }
}

} // verus!

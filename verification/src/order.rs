use vstd::prelude::*;
use crate::errors::EngineError;

verus! {

/// The side of an order: buy interest (bid) or sell interest (ask).
#[derive(Clone, Copy, Debug, PartialEq, Eq, Structural)]
pub enum BidOrAsk {
    Bid,
    Ask,
}

/// A unit of trading intent: a side, the quantity originally requested,
/// and the quantity still unmatched. Quantities are exact integer units;
/// the matching algorithm decrements `remaining_size` as fills happen.
#[derive(Clone, Copy, Debug, PartialEq, Eq, Structural)]
pub struct Order {
    pub bid_or_ask: BidOrAsk,
    pub original_size: u64,
    pub remaining_size: u64,
}

impl Order {
    /// A well-formed order was created with a positive size and never has
    /// more remaining than was originally requested.
    pub open spec fn wf(&self) -> bool {
        0 < self.original_size && self.remaining_size <= self.original_size
    }

    /// Creates an order; a size of zero is rejected.
    pub fn new(bid_or_ask: BidOrAsk, size: u64) -> (r: Result<Order, EngineError>)
        ensures
            size == 0 ==> r == Err::<Order, EngineError>(EngineError::InvalidSize),
            size > 0 ==> (r == Ok::<Order, EngineError>(
                Order { bid_or_ask, original_size: size, remaining_size: size },
            )),
            r matches Ok(o) ==> o.wf(),
    {
        if size == 0 {
            Err(EngineError::InvalidSize)
        } else {
            Ok(Order { bid_or_ask, original_size: size, remaining_size: size })
        }
    }

    /// An order is filled exactly when nothing of it remains.
    pub fn is_filled(&self) -> (r: bool)
        ensures
            r == (self.remaining_size == 0),
    {
        self.remaining_size == 0
    }

    /// Decrements the remaining quantity by `quantity`; a fill beyond what
    /// remains is rejected rather than wrapping below zero.
    pub fn apply_fill(&mut self, quantity: u64) -> (r: Result<(), EngineError>)
        ensures
            quantity > old(self).remaining_size ==> (r == Err::<(), EngineError>(
                EngineError::OverFill,
            ) && *final(self) == *old(self)),
            quantity <= old(self).remaining_size ==> (r == Ok::<(), EngineError>(())
                && final(self).remaining_size == old(self).remaining_size - quantity
                && final(self).original_size == old(self).original_size
                && final(self).bid_or_ask == old(self).bid_or_ask),
            old(self).wf() ==> final(self).wf(),
    {
        if quantity > self.remaining_size {
            Err(EngineError::OverFill)
        } else {
            self.remaining_size = self.remaining_size - quantity;
            Ok(())
        }
    }
}

} // verus!

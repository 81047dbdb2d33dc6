use vstd::prelude::*;

verus! {

/// The error kinds the matching core reports to its callers.
#[derive(Clone, Copy, Debug, PartialEq, Eq, Structural)]
pub enum EngineError {
    /// A price was negative or out of the representable range.
    InvalidPrice,
    /// A price carried more fractional digits than the book's scale keeps.
    PrecisionLoss,
    /// An order was created with a size of zero.
    InvalidSize,
    /// A fill asked for more quantity than an order has remaining.
    OverFill,
    /// A limit order with nothing remaining was handed to the book.
    InvalidOrder,
    /// An order referenced a trading pair that was never registered.
    MarketNotFound,
    /// A trading pair was registered twice.
    MarketAlreadyExists,
}

} // verus!

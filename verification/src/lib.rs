//! A single-instrument limit order book.
//!
//! The book keeps resting buy (bid) and sell (ask) orders grouped into price
//! levels, supports insertion and O(1) cancellation by identifier, reports
//! best bid/ask and per-level depth, and matches incoming orders against
//! resting liquidity under strict price-then-time priority.

pub mod book;
pub mod half_book;
pub mod matching;

pub use book::OrderBook;
pub use matching::{FillResult, OrderStatus};

use vstd::prelude::*;

verus! {

/// A price, in ticks. `NO_PRICE` is reserved as the "absent" marker.
pub type Price = u64;

/// An order quantity.
pub type OrderQty = u64;

/// The sentinel returned for a side with no resting orders. It is not a
/// valid price: orders are never inserted at `NO_PRICE`.
pub const NO_PRICE: Price = u64::MAX;

/// A unique order identifier.
#[derive(Debug, Clone, Copy, PartialOrd, Ord, PartialEq, Eq, Hash, Structural)]
pub struct OrderId(pub u64);

/// The side of the book an order belongs to.
#[derive(Debug, Clone, Copy, PartialEq, Eq, Structural)]
pub enum Side {
    /// Buy side
    Bid,

    /// Sell side
    Ask,
}

/// The outcome of a cancellation request.
#[derive(Debug, Clone, Copy, PartialEq, Eq, Structural)]
pub enum CancelResult {
    /// Order was not found
    NotFound,

    /// Order was successfully canceled
    Canceled,
}

/// The failures the book reports; none of them mutates any state.
#[derive(Debug, Clone, Copy, PartialEq, Eq, Structural)]
pub enum BookError {
    /// A depth query named a price for which no level was ever allocated
    PriceNotFound,

    /// A submitted order had quantity zero
    InvalidQuantity,

    /// A submitted order carried the `NO_PRICE` sentinel as its price
    InvalidPrice,

    /// A volume-weighted average was requested over an empty fill list
    UndefinedAverage,
}

impl Side {
    /// The side an incoming order on `self` matches against.
    pub open spec fn spec_opposite(self) -> Side {
        match self {
            Side::Bid => Side::Ask,
            Side::Ask => Side::Bid,
        }
    }

    /// Executable counterpart of [`Side::spec_opposite`].
    pub fn opposite(self) -> (r: Side)
        ensures
            r == self.spec_opposite(),
    {
        match self {
            Side::Bid => Side::Ask,
            Side::Ask => Side::Bid,
        }
    }
}

} // verus!

use crate::fixed::Fixed;
use vstd::prelude::*;

verus! {

/// The side of the book an order belongs to.
#[derive(Clone, Copy, Debug, PartialEq, Eq, Structural)]
pub enum Side {
    Buy,
    Sell,
}

impl Side {
    pub open spec fn flip(self) -> Side {
        match self {
            Side::Buy => Side::Sell,
            Side::Sell => Side::Buy,
        }
    }

    /// The side whose resting orders an order of this side trades against.
    pub fn opposite(&self) -> (r: Side)
        ensures
            r == self.flip(),
    {
        match self {
            Side::Buy => Side::Sell,
            Side::Sell => Side::Buy,
        }
    }
}

/// A limit order. `remaining_quantity` starts equal to `original_quantity`
/// and only decreases as the order trades.
#[derive(Clone, Copy, Debug, PartialEq, Eq, Structural)]
pub struct Order {
    pub id: u64,
    pub side: Side,
    pub price: Fixed,
    pub remaining_quantity: Fixed,
    pub original_quantity: Fixed,
    /// Arrival index; breaks ties between equal prices.
    pub sequence: u64,
}

/// An execution between a resting order (the maker) and an incoming one
/// (the taker), at the maker's price.
#[derive(Clone, Copy, Debug, PartialEq, Eq, Structural)]
pub struct Trade {
    pub maker_id: u64,
    pub taker_id: u64,
    pub price: Fixed,
    pub quantity: Fixed,
    pub sequence: u64,
}

/// Why an order is refused before it reaches the book.
#[derive(Clone, Copy, Debug, PartialEq, Eq, Structural)]
pub enum ValidationError {
    NonPositivePrice,
    NonPositiveQuantity,
    /// The order has already traded: its remaining quantity differs from
    /// its original quantity.
    PartiallyFilled,
    /// An order with the same id is already resting in the book. The book
    /// checks this on submission; `validate` looks at the order alone.
    DuplicateId,
}

/// `a` has strictly higher priority than `b` on `side`: a better price, or the
/// same price and an earlier arrival.
pub open spec fn precedes(side: Side, a: Order, b: Order) -> bool {
    match side {
        Side::Buy => a.price.units > b.price.units || (a.price.units == b.price.units
            && a.sequence < b.sequence),
        Side::Sell => a.price.units < b.price.units || (a.price.units == b.price.units
            && a.sequence < b.sequence),
    }
}

/// The priority order of `side` as an `Ordering`: `Less` means `a` comes first.
pub open spec fn priority_ordering(side: Side, a: Order, b: Order) -> std::cmp::Ordering {
    if precedes(side, a, b) {
        std::cmp::Ordering::Less
    } else if precedes(side, b, a) {
        std::cmp::Ordering::Greater
    } else {
        std::cmp::Ordering::Equal
    }
}

/// An incoming order with the given price is willing to trade against a
/// resting order with price `resting`.
pub open spec fn crosses(incoming_side: Side, incoming: u64, resting: u64) -> bool {
    match incoming_side {
        Side::Buy => resting <= incoming,
        Side::Sell => resting >= incoming,
    }
}

impl Order {
    /// A fresh order: nothing of it has traded yet.
    pub fn new(id: u64, side: Side, price: Fixed, quantity: Fixed, sequence: u64) -> (r: Order)
        ensures
            r.id == id,
            r.side == side,
            r.price == price,
            r.remaining_quantity == quantity,
            r.original_quantity == quantity,
            r.sequence == sequence,
    {
        Order {
            id,
            side,
            price,
            remaining_quantity: quantity,
            original_quantity: quantity,
            sequence,
        }
    }

    /// Remaining quantity never exceeds what the order started with.
    pub open spec fn valid(self) -> bool {
        self.remaining_quantity.units <= self.original_quantity.units
    }

    /// Compares two orders by the priority of this order's side.
    pub fn priority_cmp(&self, other: &Order) -> (r: std::cmp::Ordering)
        ensures
            r == priority_ordering(self.side, *self, *other),
    {
        if has_priority(self.side, self, other) {
            std::cmp::Ordering::Less
        } else if has_priority(self.side, other, self) {
            std::cmp::Ordering::Greater
        } else {
            std::cmp::Ordering::Equal
        }
    }
}

/// Whether `a` has strictly higher priority than `b` on `side`.
pub fn has_priority(side: Side, a: &Order, b: &Order) -> (r: bool)
    ensures
        r == precedes(side, *a, *b),
{
    let better_price = match side {
        Side::Buy => a.price.units > b.price.units,
        Side::Sell => a.price.units < b.price.units,
    };
    better_price || (a.price.units == b.price.units && a.sequence < b.sequence)
}

/// Whether an incoming order crosses a resting order's price.
pub fn price_crosses(incoming_side: Side, incoming: Fixed, resting: Fixed) -> (r: bool)
    ensures
        r == crosses(incoming_side, incoming.units, resting.units),
{
    match incoming_side {
        Side::Buy => resting.units <= incoming.units,
        Side::Sell => resting.units >= incoming.units,
    }
}

/// The outcome of the checks an order must pass before it reaches the book.
pub open spec fn validation(order: Order) -> Result<(), ValidationError> {
    if order.price.units == 0 {
        Err(ValidationError::NonPositivePrice)
    } else if order.original_quantity.units == 0 {
        Err(ValidationError::NonPositiveQuantity)
    } else if order.remaining_quantity != order.original_quantity {
        Err(ValidationError::PartiallyFilled)
    } else {
        Ok(())
    }
}

/// Checks an order before it reaches the book: a positive price, a positive
/// quantity, and nothing of it traded yet.
pub fn validate(order: &Order) -> (r: Result<(), ValidationError>)
    ensures
        r == validation(*order),
{
    if order.price.units == 0 {
        Err(ValidationError::NonPositivePrice)
    } else if order.original_quantity.units == 0 {
        Err(ValidationError::NonPositiveQuantity)
    } else if order.remaining_quantity.units != order.original_quantity.units {
        Err(ValidationError::PartiallyFilled)
    } else {
        Ok(())
    }
}

} // verus!

//! Orders and their sides.

use uuid::Uuid;
use vstd::prelude::*;

verus! {

/// `uuid::Uuid`, an opaque 128-bit identifier. The engine never looks inside
/// one: it carries identifiers through and compares them for equality.
#[verifier::external_type_specification]
#[verifier::external_body]
pub struct ExUuid(Uuid);

/// The side of the book an order belongs to.
#[derive(Debug, Clone, Copy, PartialEq, Eq)]
pub enum OrderSide {
    Buy,
    Sell,
}

impl OrderSide {
    /// The side an order of this side trades against.
    pub open spec fn spec_opposite(self) -> OrderSide {
        match self {
            OrderSide::Buy => OrderSide::Sell,
            OrderSide::Sell => OrderSide::Buy,
        }
    }

    /// The side an order of this side trades against.
    #[verifier::when_used_as_spec(spec_opposite)]
    pub fn opposite(self) -> (other: OrderSide)
        ensures
            other == self.spec_opposite(),
    {
        match self {
            OrderSide::Buy => OrderSide::Sell,
            OrderSide::Sell => OrderSide::Buy,
        }
    }
}

/// A limit order: buy or sell `quantity` units at `price` or better.
///
/// `id`, `side` and `price` are fixed when the order is made. `quantity` is
/// what is still open; matching lowers it. The same type serves as a trade
/// record: there `id`, `side` and `price` name the resting order that traded,
/// and `quantity` is the amount executed against it.
#[derive(Debug, Clone, Copy, PartialEq, Eq)]
pub struct Order {
    pub id: Uuid,
    pub side: OrderSide,
    pub price: u64,
    pub quantity: u64,
}

impl Order {
    /// This order with another open quantity.
    pub open spec fn spec_with_quantity(self, quantity: u64) -> Order {
        Order { id: self.id, side: self.side, price: self.price, quantity }
    }

    /// This order with another open quantity.
    #[verifier::when_used_as_spec(spec_with_quantity)]
    pub fn with_quantity(self, quantity: u64) -> (o: Order)
        ensures
            o == self.spec_with_quantity(quantity),
    {
        Order { id: self.id, side: self.side, price: self.price, quantity }
    }

    /// Whether this order carries the identifier `id`.
    pub fn has_id(&self, id: &Uuid) -> (same: bool)
        ensures
            same == (self.id == *id),
    {
        same_id(&self.id, id)
    }
}

/// `PartialEq::eq` of `uuid::Uuid`, which compares the sixteen bytes of the
/// two identifiers: true exactly when they are the same identifier.
#[verifier::external_body]
pub(crate) fn same_id(a: &Uuid, b: &Uuid) -> (same: bool)
    ensures
        same == (*a == *b),
{
    a == b
}

} // verus!

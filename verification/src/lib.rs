//! A continuous limit order book for a single instrument.
//!
//! Orders rest on two sides, bids and asks. An incoming order trades against
//! the other side from the best price outward, oldest order first at each
//! price, and what is left of it rests on its own side. Prices are integers
//! (ticks), so that they are totally ordered and compare exactly.
//!
//! [`OrderBook`] is the engine. [`BookView`] is its mathematical model, two
//! sequences of resting orders in priority order, and the contracts of the
//! engine's operations are stated over it.

pub mod book;
pub mod facts;
pub mod laws;
pub mod levels;
pub mod model;
pub mod order;
pub mod side_book;

pub use crate::book::OrderBook;
pub use crate::model::BookView;
pub use crate::model::Fill;
pub use crate::model::Operation;
pub use crate::order::Order;
pub use crate::order::OrderSide;
pub use crate::side_book::SideBook;

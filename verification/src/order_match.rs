use vstd::prelude::*;

use crate::order::{OrderId, OrderSide, Price, Quantity};

verus! {

/// One trade event: the incoming (taker) order `match_from_id` filled
/// `quantity` units against the resting (maker) order `match_to_id`
/// at `price`.
#[derive(PartialEq, Eq, Structural, Clone, Copy, Debug)]
pub struct OrderMatch {
    pub order_side: OrderSide,
    pub price: Price,
    pub quantity: Quantity,
    pub match_from_id: OrderId,
    pub match_to_id: OrderId,
}

} // verus!

use vstd::prelude::*;

verus! {

/// Caller-visible failures. Internal invariant breaches are not represented
/// here: the verified engine rules them out.
#[derive(PartialEq, Eq, Structural, Clone, Copy, Debug)]
pub enum OrderError {
    /// No orders exist at the quoted (side, price).
    OrdersNotFound,
    /// The id does not exist at that level.
    OrderNotFound,
    /// Internal inconsistency: a queued handle is missing from the pool.
    SlabOrderNotFound,
    /// Internal inconsistency: a pool slot could not be released.
    SlabFailedRemoveOrder,
    /// No order was matched.
    NoOrderMatch,
    /// A replace would drive the quantity to 0.
    OrderAlreadyFilled,
}

impl OrderError {
    /// A human-readable description of the failure.
    pub fn message(&self) -> (r: &'static str)
        ensures
            *self == OrderError::OrdersNotFound ==> r@ == "Orders not found"@,
            *self == OrderError::OrderNotFound ==> r@ == "Order not found"@,
            *self == OrderError::SlabOrderNotFound ==> r@ == "Order not found at slab"@,
            *self == OrderError::SlabFailedRemoveOrder ==> r@ == "Failed to remove order from slab"@,
            *self == OrderError::NoOrderMatch ==> r@ == "No order was match"@,
            *self == OrderError::OrderAlreadyFilled ==> r@ == "Order already filled"@,
    {
        match self {
            OrderError::OrdersNotFound => "Orders not found",
            OrderError::OrderNotFound => "Order not found",
            OrderError::SlabOrderNotFound => "Order not found at slab",
            OrderError::SlabFailedRemoveOrder => "Failed to remove order from slab",
            OrderError::NoOrderMatch => "No order was match",
            OrderError::OrderAlreadyFilled => "Order already filled",
        }
    }
}

} // verus!

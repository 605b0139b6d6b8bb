use vstd::prelude::*;

use crate::order::{ExecutionCondition, Order, OrderId, OrderSide, OrderType, Price, Quantity, TimeInForce};

verus! {

/// The canonical plain order record: what the pool stores and what the
/// contracts of the whole crate speak about.
#[derive(PartialEq, Eq, Structural, Clone, Copy, Debug)]
pub struct OrderSpec {
    /// Caller-supplied identifier; uniqueness across resident orders is the
    /// caller's responsibility.
    pub id: OrderId,
    /// Limit or trigger price; 0 is the market-order sentinel.
    pub price: Price,
    pub quantity: Quantity,
    pub order_side: OrderSide,
    pub order_type: OrderType,
    pub time_in_force: TimeInForce,
    pub execution_condition: ExecutionCondition,
}

impl OrderSpec {
    pub fn limit_price(id: OrderId, order_side: OrderSide, price: Price, quantity: Quantity) -> (r:
        Self)
        ensures
            r == (OrderSpec {
                id,
                price,
                quantity,
                order_side,
                order_type: OrderType::Limit,
                time_in_force: TimeInForce::GTC,
                execution_condition: ExecutionCondition::NoCondition,
            }),
    {
        Self {
            id,
            order_side,
            price,
            quantity,
            order_type: OrderType::Limit,
            time_in_force: TimeInForce::GTC,
            execution_condition: ExecutionCondition::NoCondition,
        }
    }

    /// A selector for `cancel_order`: only `id`, `order_side` and `price`
    /// are read by the engine.
    pub fn cancel(id: OrderId, order_side: OrderSide, price: Price) -> (r: Self)
        ensures
            r.id == id,
            r.order_side == order_side,
            r.price == price,
    {
        Self {
            id,
            order_side,
            price,
            quantity: 0,
            order_type: OrderType::Limit,
            time_in_force: TimeInForce::GTC,
            execution_condition: ExecutionCondition::NoCondition,
        }
    }

    /// A selector for `replace_order`: only `id`, `order_side` and `price`
    /// are read by the engine.
    pub fn replace(id: OrderId, order_side: OrderSide, price: Price) -> (r: Self)
        ensures
            r.id == id,
            r.order_side == order_side,
            r.price == price,
    {
        Self {
            id,
            order_side,
            price,
            quantity: 0,
            order_type: OrderType::Limit,
            time_in_force: TimeInForce::GTC,
            execution_condition: ExecutionCondition::NoCondition,
        }
    }

    pub fn market(id: OrderId, order_side: OrderSide, quantity: Quantity) -> (r: Self)
        ensures
            r == (OrderSpec {
                id,
                price: 0,
                quantity,
                order_side,
                order_type: OrderType::Market,
                time_in_force: TimeInForce::GTC,
                execution_condition: ExecutionCondition::NoCondition,
            }),
    {
        Self {
            id,
            order_side,
            quantity,
            price: 0,
            order_type: OrderType::Market,
            time_in_force: TimeInForce::GTC,
            execution_condition: ExecutionCondition::NoCondition,
        }
    }
}

impl Order for OrderSpec {
    open spec fn order_model(&self) -> OrderSpec {
        *self
    }

    fn id(&self) -> OrderId {
        self.id
    }

    fn price(&self) -> Price {
        self.price
    }

    fn set_price(&mut self, new_price: Price) {
        self.price = new_price;
    }

    fn quantity(&self) -> Quantity {
        self.quantity
    }

    fn set_quantity(&mut self, new_quantity: Quantity) {
        self.quantity = new_quantity;
    }

    fn order_side(&self) -> OrderSide {
        self.order_side
    }

    fn order_type(&self) -> OrderType {
        self.order_type
    }

    fn time_in_force(&self) -> TimeInForce {
        self.time_in_force
    }

    fn execution_condition(&self) -> ExecutionCondition {
        self.execution_condition
    }

    fn set_time_in_force(&mut self, time_in_force: TimeInForce) {
        self.time_in_force = time_in_force;
    }
}

} // verus!

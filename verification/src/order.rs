use vstd::prelude::*;

use crate::order_spec::OrderSpec;

verus! {

/// Prices and quantities are non-negative integers in a caller-chosen
/// minimum unit; a price of 0 is the sentinel used by market orders.
pub type Price = u64;

pub type Quantity = u64;

pub type OrderId = u32;

#[derive(PartialEq, Eq, Structural, Clone, Copy, Debug)]
pub enum OrderSide {
    Buy,
    Sell,
}

impl OrderSide {
    pub fn is_buy(self) -> (r: bool)
        ensures
            r == (self == OrderSide::Buy),
    {
        self == OrderSide::Buy
    }

    pub fn is_sell(self) -> (r: bool)
        ensures
            r == (self == OrderSide::Sell),
    {
        self == OrderSide::Sell
    }
}

#[derive(PartialEq, Eq, Structural, Clone, Copy, Debug)]
pub enum TimeInForce {
    /// Good till cancel
    GTC,
    /// Immediate or cancel
    IOC,
    /// Fill or kill
    FOK,
    /// Good for the trading day
    DAY,
    /// Good till date
    GTD,
}

#[derive(PartialEq, Eq, Structural, Clone, Copy, Debug)]
pub enum ExecutionCondition {
    NoCondition,
    /// All-or-none
    AON,
}

#[derive(PartialEq, Eq, Structural, Clone, Copy, Debug)]
pub enum OrderType {
    /// Match now, no price test
    Market,
    /// Match at the limit price or better
    Limit,
    /// Triggers a Market order when the stop price is hit
    StopMarket,
    /// Triggers a Limit order when the stop price is hit
    StopLimit,
    /// Stop price trails the market price
    TrailingStop,
}

impl OrderType {
    pub fn is_market(&self) -> (r: bool)
        ensures
            r == (*self == OrderType::Market),
    {
        *self == OrderType::Market
    }

    pub fn is_limit(&self) -> (r: bool)
        ensures
            r == (*self == OrderType::Limit),
    {
        *self == OrderType::Limit
    }

    pub fn is_stop_market(&self) -> (r: bool)
        ensures
            r == (*self == OrderType::StopMarket),
    {
        *self == OrderType::StopMarket
    }

    pub fn is_stop_limit(&self) -> (r: bool)
        ensures
            r == (*self == OrderType::StopLimit),
    {
        *self == OrderType::StopLimit
    }

    pub fn is_trailing_stop(&self) -> (r: bool)
        ensures
            r == (*self == OrderType::TrailingStop),
    {
        *self == OrderType::TrailingStop
    }
}

/// An order as the engine sees it. `order_model` maps any implementation
/// to the canonical plain record `OrderSpec`, and every method is specified
/// against that record.
pub trait Order: Sized {
    spec fn order_model(&self) -> OrderSpec;

    fn id(&self) -> (r: OrderId)
        ensures
            r == self.order_model().id,
    ;

    fn price(&self) -> (r: Price)
        ensures
            r == self.order_model().price,
    ;

    fn set_price(&mut self, new_price: Price)
        ensures
            final(self).order_model() == (OrderSpec { price: new_price, ..old(self).order_model() }),
    ;

    fn quantity(&self) -> (r: Quantity)
        ensures
            r == self.order_model().quantity,
    ;

    fn set_quantity(&mut self, new_quantity: Quantity)
        ensures
            final(self).order_model() == (OrderSpec {
                quantity: new_quantity,
                ..old(self).order_model()
            }),
    ;

    fn order_side(&self) -> (r: OrderSide)
        ensures
            r == self.order_model().order_side,
    ;

    fn order_type(&self) -> (r: OrderType)
        ensures
            r == self.order_model().order_type,
    ;

    fn time_in_force(&self) -> (r: TimeInForce)
        ensures
            r == self.order_model().time_in_force,
    ;

    fn execution_condition(&self) -> (r: ExecutionCondition)
        ensures
            r == self.order_model().execution_condition,
    ;

    fn set_time_in_force(&mut self, time_in_force: TimeInForce)
        ensures
            final(self).order_model() == (OrderSpec {
                time_in_force: time_in_force,
                ..old(self).order_model()
            }),
    ;

    fn with_time_in_force(self, time_in_force: TimeInForce) -> (r: Self)
        ensures
            r.order_model() == (OrderSpec { time_in_force: time_in_force, ..self.order_model() }),
    {
        let mut this = self;
        this.set_time_in_force(time_in_force);
        this
    }

    fn with_price(self, new_price: Price) -> (r: Self)
        ensures
            r.order_model() == (OrderSpec { price: new_price, ..self.order_model() }),
    {
        let mut this = self;
        this.set_price(new_price);
        this
    }

    fn is_buy(&self) -> (r: bool)
        ensures
            r == (self.order_model().order_side == OrderSide::Buy),
    {
        self.order_side().is_buy()
    }

    fn is_sell(&self) -> (r: bool)
        ensures
            r == (self.order_model().order_side == OrderSide::Sell),
    {
        self.order_side().is_sell()
    }

    fn is_market(&self) -> (r: bool)
        ensures
            r == (self.order_model().order_type == OrderType::Market),
    {
        self.order_type() == OrderType::Market
    }

    fn is_limit_price(&self) -> (r: bool)
        ensures
            r == (self.order_model().order_type == OrderType::Limit),
    {
        self.order_type() == OrderType::Limit
    }

    fn good_till_cancel(&self) -> (r: bool)
        ensures
            r == (self.order_model().time_in_force == TimeInForce::GTC),
    {
        self.time_in_force() == TimeInForce::GTC
    }

    /// An ephemeral order never rests in the book.
    fn is_ephemeral_order(&self) -> (r: bool)
        ensures
            r == (self.order_model().time_in_force == TimeInForce::IOC
                || self.order_model().time_in_force == TimeInForce::FOK),
    {
        self.is_immediate_or_cancel() || self.is_fill_or_kill()
    }

    fn is_immediate_or_cancel(&self) -> (r: bool)
        ensures
            r == (self.order_model().time_in_force == TimeInForce::IOC),
    {
        self.time_in_force() == TimeInForce::IOC
    }

    fn is_fill_or_kill(&self) -> (r: bool)
        ensures
            r == (self.order_model().time_in_force == TimeInForce::FOK),
    {
        self.time_in_force() == TimeInForce::FOK
    }
}

} // verus!

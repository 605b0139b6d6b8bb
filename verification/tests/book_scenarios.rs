use market_forge::order::{Order, OrderSide, TimeInForce};
use market_forge::order_book::OrderBook;
use market_forge::order_error::OrderError;
use market_forge::order_match::OrderMatch;
use market_forge::order_spec::OrderSpec;

#[test]
fn basic_crossing() {
    let mut book = OrderBook::new(16);
    _ = book.insert_order(&OrderSpec::limit_price(1, OrderSide::Sell, 120, 2));
    _ = book.insert_order(&OrderSpec::limit_price(2, OrderSide::Sell, 118, 5));
    _ = book.insert_order(&OrderSpec::limit_price(3, OrderSide::Sell, 120, 8));
    _ = book.insert_order(&OrderSpec::limit_price(4, OrderSide::Sell, 121, 12));

    let trades = book
        .insert_order(&OrderSpec::limit_price(5, OrderSide::Buy, 119, 4))
        .unwrap();
    assert_eq!(
        trades,
        vec![OrderMatch {
            order_side: OrderSide::Buy,
            price: 118,
            quantity: 4,
            match_from_id: 5,
            match_to_id: 2,
        }]
    );

    // The remaining ask at 118 has quantity 1; no bid rests.
    let first = &book.asks().orders()[0];
    assert_eq!(first.0, 118);
    assert_eq!(first.1.orders_quantity(), 1);
    assert_eq!(book.bids().len(), 0);
    assert!(book.validate_cache().is_ok());
}

#[test]
fn ioc_sweep() {
    let mut book = OrderBook::new(16);
    _ = book.insert_order(&OrderSpec::limit_price(1, OrderSide::Sell, 120, 2));
    _ = book.insert_order(&OrderSpec::limit_price(2, OrderSide::Sell, 118, 5));
    _ = book.insert_order(&OrderSpec::limit_price(3, OrderSide::Sell, 120, 8));
    _ = book.insert_order(&OrderSpec::limit_price(4, OrderSide::Sell, 121, 12));
    _ = book.insert_order(&OrderSpec::limit_price(5, OrderSide::Buy, 119, 4));

    // The book now holds the basic-crossing end state; sweep with an IOC.
    let trades = book
        .insert_order(
            &OrderSpec::limit_price(6, OrderSide::Buy, 118, 15)
                .with_time_in_force(TimeInForce::IOC),
        )
        .unwrap();
    assert_eq!(
        trades,
        vec![OrderMatch {
            order_side: OrderSide::Buy,
            price: 118,
            quantity: 1,
            match_from_id: 6,
            match_to_id: 2,
        }]
    );

    // No resting bid; asks are 120 -> [(1, 2), (3, 8)] and 121 -> [(4, 12)].
    assert_eq!(book.bids().len(), 0);
    assert_eq!(book.asks().len(), 2);
    let level_120 = book.asks().get_orders(&120).unwrap();
    assert_eq!(level_120.len(), 2);
    assert_eq!(level_120.orders_quantity(), 10);
    assert_eq!(level_120.items()[0].order_id(), 1);
    assert_eq!(level_120.items()[1].order_id(), 3);
    let level_121 = book.asks().get_orders(&121).unwrap();
    assert_eq!(level_121.orders_quantity(), 12);
    assert!(book.validate_cache().is_ok());
}

#[test]
fn fok_failure_leaves_book_unchanged() {
    let mut book = OrderBook::new(16);
    _ = book.insert_order(&OrderSpec::limit_price(1, OrderSide::Sell, 119, 12));
    _ = book.insert_order(&OrderSpec::limit_price(2, OrderSide::Sell, 120, 8));
    _ = book.insert_order(&OrderSpec::limit_price(3, OrderSide::Sell, 120, 2));

    // Available at or below 120 is 22, strictly less than 23.
    let res = book.insert_order(
        &OrderSpec::limit_price(4, OrderSide::Buy, 120, 23).with_time_in_force(TimeInForce::FOK),
    );
    assert!(res.is_none());

    assert_eq!(book.asks().len(), 2);
    assert_eq!(book.asks().total_quantity(), 22);
    assert_eq!(book.asks().get_orders(&119).unwrap().orders_quantity(), 12);
    assert_eq!(book.asks().get_orders(&120).unwrap().orders_quantity(), 10);
    assert_eq!(book.bids().len(), 0);
    assert!(book.validate_cache().is_ok());
}

#[test]
fn fok_success() {
    let mut book = OrderBook::new(16);
    _ = book.insert_order(&OrderSpec::limit_price(1, OrderSide::Sell, 119, 12));
    _ = book.insert_order(&OrderSpec::limit_price(2, OrderSide::Sell, 120, 8));
    _ = book.insert_order(&OrderSpec::limit_price(3, OrderSide::Sell, 120, 2));

    let trades = book
        .insert_order(
            &OrderSpec::limit_price(4, OrderSide::Buy, 120, 12)
                .with_time_in_force(TimeInForce::FOK),
        )
        .unwrap();
    assert_eq!(
        trades,
        vec![OrderMatch {
            order_side: OrderSide::Buy,
            price: 119,
            quantity: 12,
            match_from_id: 4,
            match_to_id: 1,
        }]
    );

    // Level 119 is gone; asks are 120 -> [(2, 8), (3, 2)].
    assert_eq!(book.asks().len(), 1);
    let level_120 = book.asks().get_orders(&120).unwrap();
    assert_eq!(level_120.len(), 2);
    assert_eq!(level_120.items()[0].order_id(), 2);
    assert_eq!(level_120.items()[1].order_id(), 3);
    assert!(book.validate_cache().is_ok());
}

#[test]
fn market_order_partial_book() {
    let mut book = OrderBook::new(16);
    _ = book.insert_order(&OrderSpec::limit_price(1, OrderSide::Sell, 121, 12));
    _ = book.insert_order(&OrderSpec::limit_price(2, OrderSide::Sell, 120, 8));
    _ = book.insert_order(&OrderSpec::limit_price(3, OrderSide::Sell, 120, 2));
    _ = book.insert_order(&OrderSpec::limit_price(4, OrderSide::Sell, 118, 5));

    let trades = book
        .insert_order(&OrderSpec::market(5, OrderSide::Buy, 2))
        .unwrap();
    assert_eq!(
        trades,
        vec![OrderMatch {
            order_side: OrderSide::Buy,
            price: 118,
            quantity: 2,
            match_from_id: 5,
            match_to_id: 4,
        }]
    );
    assert_eq!(book.asks().get_orders(&118).unwrap().orders_quantity(), 3);
    assert!(book.validate_cache().is_ok());
}

#[test]
fn cancel_missing_and_cancel_hit() {
    let mut book = OrderBook::new(16);
    _ = book.insert_order(&OrderSpec::limit_price(1, OrderSide::Sell, 121, 12));
    _ = book.insert_order(&OrderSpec::limit_price(2, OrderSide::Sell, 120, 8));
    _ = book.insert_order(&OrderSpec::limit_price(3, OrderSide::Sell, 120, 2));
    _ = book.insert_order(&OrderSpec::limit_price(4, OrderSide::Sell, 118, 5));
    _ = book.insert_order(&OrderSpec::market(5, OrderSide::Buy, 2));

    // Id 5 was the buy taker; it never rested on the asks.
    let miss = book.cancel_order(&OrderSpec::cancel(5, OrderSide::Sell, 118));
    assert_eq!(miss.err(), Some(OrderError::OrderNotFound));

    let hit = book.cancel_order(&OrderSpec::cancel(4, OrderSide::Sell, 118)).unwrap();
    assert_eq!(hit.id, 4);
    assert_eq!(hit.order_side, OrderSide::Sell);
    assert_eq!(hit.quantity, 3);

    assert_eq!(book.asks().len(), 2);
    assert_eq!(book.asks().get_orders(&120).unwrap().len(), 2);
    assert_eq!(book.asks().get_orders(&121).unwrap().len(), 1);
    assert_eq!(book.asks().total_quantity(), 22);
    assert!(book.validate_cache().is_ok());
}

#[test]
fn insert_then_cancel_restores_book() {
    let mut book = OrderBook::new(16);
    _ = book.insert_order(&OrderSpec::limit_price(1, OrderSide::Sell, 121, 12));
    _ = book.insert_order(&OrderSpec::limit_price(2, OrderSide::Buy, 117, 4));

    // A GTC limit that does not cross rests, and cancelling it restores
    // the book content.
    let res = book.insert_order(&OrderSpec::limit_price(3, OrderSide::Buy, 118, 6));
    assert!(res.is_none());
    assert_eq!(book.bids().len(), 2);
    assert_eq!(book.bids().total_quantity(), 10);

    let removed = book.cancel_order(&OrderSpec::cancel(3, OrderSide::Buy, 118)).unwrap();
    assert_eq!(removed.quantity, 6);
    assert_eq!(book.bids().len(), 1);
    assert_eq!(book.bids().total_quantity(), 4);
    assert_eq!(book.bids().orders()[0].0, 117);
    assert_eq!(book.asks().total_quantity(), 12);
    assert!(book.validate_cache().is_ok());
}

#[test]
fn replace_keeps_quantity_and_loses_priority() {
    let mut book = OrderBook::new(16);
    _ = book.insert_order(&OrderSpec::limit_price(1, OrderSide::Buy, 115, 2));
    _ = book.insert_order(&OrderSpec::limit_price(2, OrderSide::Buy, 115, 7));

    // A replace with no quantity or price change re-queues id 1 at the
    // tail of the 115 level.
    let trades = book
        .replace_order(&OrderSpec::replace(1, OrderSide::Buy, 115), 0, 0)
        .unwrap();
    assert!(trades.is_empty());

    let level = book.bids().get_orders(&115).unwrap();
    assert_eq!(level.len(), 2);
    assert_eq!(level.items()[0].order_id(), 2);
    assert_eq!(level.items()[1].order_id(), 1);
    assert_eq!(level.orders_quantity(), 9);
    assert_eq!(book.bids().total_quantity(), 9);
    assert!(book.validate_cache().is_ok());
}

#[test]
fn replace_changes_price_and_can_match() {
    let mut book = OrderBook::new(16);
    _ = book.insert_order(&OrderSpec::limit_price(1, OrderSide::Sell, 120, 5));
    _ = book.insert_order(&OrderSpec::limit_price(2, OrderSide::Buy, 118, 5));

    // Raising the bid to 120 crosses the ask completely.
    let trades = book
        .replace_order(&OrderSpec::replace(2, OrderSide::Buy, 118), 0, 120)
        .unwrap();
    assert_eq!(
        trades,
        vec![OrderMatch {
            order_side: OrderSide::Buy,
            price: 120,
            quantity: 5,
            match_from_id: 2,
            match_to_id: 1,
        }]
    );
    assert_eq!(book.asks().len(), 0);
    assert_eq!(book.bids().len(), 0);
    assert!(book.validate_cache().is_ok());
}

#[test]
fn replace_missing_level_and_missing_id() {
    let mut book = OrderBook::new(16);
    _ = book.insert_order(&OrderSpec::limit_price(1, OrderSide::Buy, 115, 2));

    let r = book.replace_order(&OrderSpec::replace(1, OrderSide::Buy, 99), 1, 0);
    assert_eq!(r.err(), Some(OrderError::OrdersNotFound));

    let r = book.replace_order(&OrderSpec::replace(9, OrderSide::Buy, 115), 1, 0);
    assert_eq!(r.err(), Some(OrderError::OrderNotFound));
}

#[test]
fn stop_orders_are_parked() {
    let mut book = OrderBook::new(16);
    book.insert_stop_order(&OrderSpec::limit_price(1, OrderSide::Buy, 130, 4));
    book.insert_stop_order(&OrderSpec::limit_price(2, OrderSide::Sell, 110, 3));

    assert_eq!(book.stop_bids().len(), 1);
    assert_eq!(book.stop_bids().total_quantity(), 4);
    assert_eq!(book.stop_asks().len(), 1);
    assert_eq!(book.stop_asks().total_quantity(), 3);
    // Parked stop orders do not participate in matching.
    let res = book.insert_order(&OrderSpec::market(3, OrderSide::Buy, 1));
    assert!(res.is_none());
}

#[test]
fn market_price_is_tracked() {
    let mut book = OrderBook::new(4);
    assert_eq!(book.current_market_price(), 0);
    book.set_market_price(123);
    assert_eq!(book.current_market_price(), 123);
}

#[test]
fn recover_order_price_finds_first_level() {
    let mut book = OrderBook::new(16);
    _ = book.insert_order(&OrderSpec::limit_price(7, OrderSide::Sell, 121, 5));
    _ = book.insert_order(&OrderSpec::limit_price(8, OrderSide::Sell, 119, 5));
    _ = book.insert_order(&OrderSpec::limit_price(9, OrderSide::Buy, 110, 5));

    assert_eq!(book.recover_order_price(OrderSide::Sell, 7), Some(121));
    assert_eq!(book.recover_order_price(OrderSide::Sell, 8), Some(119));
    assert_eq!(book.recover_order_price(OrderSide::Buy, 9), Some(110));
    assert_eq!(book.recover_order_price(OrderSide::Sell, 9), None);
    assert_eq!(book.recover_order_price(OrderSide::Buy, 7), None);
}

#[test]
fn peek_top_price_is_best_of_each_side() {
    let mut book = OrderBook::new(16);
    _ = book.insert_order(&OrderSpec::limit_price(1, OrderSide::Sell, 121, 5));
    _ = book.insert_order(&OrderSpec::limit_price(2, OrderSide::Sell, 119, 5));
    _ = book.insert_order(&OrderSpec::limit_price(3, OrderSide::Buy, 110, 5));
    _ = book.insert_order(&OrderSpec::limit_price(4, OrderSide::Buy, 112, 5));

    assert_eq!(book.peek_top_price(false), Some(119));
    assert_eq!(book.peek_top_price(true), Some(112));
}

#[test]
fn has_sufficient_quantity_counts_marketable_liquidity() {
    let mut book = OrderBook::new(16);
    _ = book.insert_order(&OrderSpec::limit_price(1, OrderSide::Sell, 119, 12));
    _ = book.insert_order(&OrderSpec::limit_price(2, OrderSide::Sell, 120, 10));
    _ = book.insert_order(&OrderSpec::limit_price(3, OrderSide::Sell, 125, 40));

    assert!(book.has_sufficient_quantity(&OrderSpec::limit_price(4, OrderSide::Buy, 120, 22)));
    assert!(!book.has_sufficient_quantity(&OrderSpec::limit_price(4, OrderSide::Buy, 120, 23)));
    assert!(book.has_sufficient_quantity(&OrderSpec::market(4, OrderSide::Buy, 62)));
    assert!(!book.has_sufficient_quantity(&OrderSpec::market(4, OrderSide::Buy, 63)));
}

#[test]
fn market_order_rests_when_book_is_empty() {
    let mut book = OrderBook::new(4);
    let res = book.insert_order(&OrderSpec::market(1, OrderSide::Buy, 10));
    assert!(res.is_none());
    // A good-till-cancel market order parks at the sentinel price 0.
    assert_eq!(book.bids().len(), 1);
    assert_eq!(book.bids().orders()[0].0, 0);
    assert_eq!(book.bids().total_quantity(), 10);
}

#[test]
fn error_messages() {
    assert_eq!(OrderError::OrdersNotFound.message(), "Orders not found");
    assert_eq!(OrderError::OrderNotFound.message(), "Order not found");
    assert_eq!(OrderError::SlabOrderNotFound.message(), "Order not found at slab");
    assert_eq!(
        OrderError::SlabFailedRemoveOrder.message(),
        "Failed to remove order from slab"
    );
    assert_eq!(OrderError::NoOrderMatch.message(), "No order was match");
    assert_eq!(OrderError::OrderAlreadyFilled.message(), "Order already filled");
}

#[test]
fn price_time_priority_within_and_across_levels() {
    let mut book = OrderBook::new(16);
    _ = book.insert_order(&OrderSpec::limit_price(1, OrderSide::Sell, 120, 3));
    _ = book.insert_order(&OrderSpec::limit_price(2, OrderSide::Sell, 119, 4));
    _ = book.insert_order(&OrderSpec::limit_price(3, OrderSide::Sell, 120, 5));

    let trades = book
        .insert_order(&OrderSpec::limit_price(4, OrderSide::Buy, 120, 9))
        .unwrap();
    // Best price first, then first arrival first at the shared level.
    assert_eq!(trades.len(), 3);
    assert_eq!((trades[0].price, trades[0].match_to_id, trades[0].quantity), (119, 2, 4));
    assert_eq!((trades[1].price, trades[1].match_to_id, trades[1].quantity), (120, 1, 3));
    assert_eq!((trades[2].price, trades[2].match_to_id, trades[2].quantity), (120, 3, 2));
    assert!(book.validate_cache().is_ok());
}

#[test]
fn fok_sell_counts_bid_liquidity() {
    let mut book = OrderBook::new(16);
    _ = book.insert_order(&OrderSpec::limit_price(1, OrderSide::Buy, 118, 6));
    _ = book.insert_order(&OrderSpec::limit_price(2, OrderSide::Buy, 117, 4));

    // Exactly 10 units rest at or above 117, so the sell just fills.
    let trades = book
        .insert_order(
            &OrderSpec::limit_price(3, OrderSide::Sell, 117, 10)
                .with_time_in_force(TimeInForce::FOK),
        )
        .unwrap();
    assert_eq!(trades.len(), 2);
    assert_eq!((trades[0].price, trades[0].quantity, trades[0].match_to_id), (118, 6, 1));
    assert_eq!((trades[1].price, trades[1].quantity, trades[1].match_to_id), (117, 4, 2));
    assert_eq!(book.bids().len(), 0);

    // One unit more cannot be filled: nothing trades and nothing rests.
    _ = book.insert_order(&OrderSpec::limit_price(4, OrderSide::Buy, 118, 6));
    let res = book.insert_order(
        &OrderSpec::limit_price(5, OrderSide::Sell, 117, 7).with_time_in_force(TimeInForce::FOK),
    );
    assert!(res.is_none());
    assert_eq!(book.bids().total_quantity(), 6);
    assert_eq!(book.asks().len(), 0);
}

#[test]
fn stop_orders_keep_their_time_in_force() {
    let mut book = OrderBook::new(4);
    // Parking is independent of the time in force; the policy applies
    // when the trigger routine re-submits the order.
    book.insert_stop_order(
        &OrderSpec::limit_price(1, OrderSide::Buy, 130, 4).with_time_in_force(TimeInForce::IOC),
    );
    assert_eq!(book.stop_bids().len(), 1);
    assert_eq!(book.stop_bids().total_quantity(), 4);
}

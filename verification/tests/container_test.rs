use market_forge::order::OrderSide;
use market_forge::order_map::OrderMap;
use market_forge::orders::{OrderMeta, Orders};

#[test]
fn orders_fifo_and_cache() {
    let mut level = Orders::new();
    assert_eq!(level.len(), 0);
    assert!(level.pop_front().is_none());

    level.add(10, 1, 5);
    level.add(11, 2, 7);
    assert_eq!(level.len(), 2);
    assert_eq!(level.orders_quantity(), 12);
    assert_eq!(level.front().order_id(), 1);

    let popped = level.pop_front().unwrap();
    assert_eq!(popped.slab_idx(), 10);
    assert_eq!(popped.order_id(), 1);
    assert_eq!(level.len(), 1);
    // The cache is the engine's job: popping does not touch it.
    assert_eq!(level.orders_quantity(), 12);
    level.set_orders_quantity(7);
    assert_eq!(level.orders_quantity(), 7);
}

#[test]
fn orders_remove_at_keeps_order() {
    let mut level = Orders::new();
    level.add(1, 11, 1);
    level.add(2, 22, 1);
    level.add(3, 33, 1);
    let removed = level.remove_at(1);
    assert_eq!(removed.order_id(), 22);
    assert_eq!(level.items()[0].order_id(), 11);
    assert_eq!(level.items()[1].order_id(), 33);
}

#[test]
fn order_meta_accessors() {
    let meta = OrderMeta::new(42, 7);
    assert_eq!(meta.slab_idx(), 42);
    assert_eq!(meta.order_id(), 7);
}

#[test]
fn order_map_keeps_book_order() {
    let mut asks = OrderMap::new(false);
    asks.add_order(&120, 0, 1, 5);
    asks.add_order(&118, 1, 2, 3);
    asks.add_order(&121, 2, 3, 4);
    asks.add_order(&118, 3, 4, 2);

    assert_eq!(asks.len(), 3);
    assert_eq!(asks.peek_key(), Some(118));
    assert_eq!(asks.orders()[0].0, 118);
    assert_eq!(asks.orders()[1].0, 120);
    assert_eq!(asks.orders()[2].0, 121);
    assert_eq!(asks.get_orders(&118).unwrap().len(), 2);
    assert_eq!(asks.get_orders(&118).unwrap().orders_quantity(), 5);
    assert_eq!(asks.total_quantity(), 14);
    assert!(asks.validate_cache().is_ok());

    let mut bids = OrderMap::new(true);
    bids.add_order(&100, 4, 5, 1);
    bids.add_order(&110, 5, 6, 1);
    bids.add_order(&105, 6, 7, 1);
    assert_eq!(bids.peek_key(), Some(110));
    assert_eq!(bids.orders()[1].0, 105);
    assert_eq!(bids.orders()[2].0, 100);
    let best = bids.peek().unwrap();
    assert_eq!(best.0, 110);
    assert_eq!(best.1.len(), 1);
}

#[test]
fn order_map_remove_level() {
    let mut asks = OrderMap::new(false);
    asks.add_order(&120, 0, 1, 5);
    asks.add_order(&118, 1, 2, 3);
    let removed = asks.remove_orders(&120).unwrap();
    assert_eq!(removed.orders_quantity(), 5);
    assert!(asks.remove_orders(&119).is_none());
    assert_eq!(asks.len(), 1);
    // Removing a level leaves the side cache to its caller.
    assert_eq!(asks.total_quantity(), 8);
}

#[test]
fn order_map_feasibility_walk() {
    let mut asks = OrderMap::new(false);
    asks.add_order(&119, 0, 1, 12);
    asks.add_order(&120, 1, 2, 8);
    asks.add_order(&120, 2, 3, 2);
    asks.add_order(&125, 3, 4, 40);

    // A buy limited to 120 can reach levels 119 and 120 only.
    let walked = asks.collect_quantity_match_price(&120, &OrderSide::Buy, &23);
    assert_eq!(walked, 22);
    // The walk may stop early once it exceeds the need.
    let walked = asks.collect_quantity_match_price(&120, &OrderSide::Buy, &5);
    assert_eq!(walked, 12);
    // A sell limited to 119 is marketable against nothing here; against a
    // bid book it walks while its limit is at or below the level.
    let mut bids = OrderMap::new(true);
    bids.add_order(&118, 4, 5, 6);
    bids.add_order(&117, 5, 6, 4);
    let walked = bids.collect_quantity_match_price(&117, &OrderSide::Sell, &100);
    assert_eq!(walked, 10);
    let walked = bids.collect_quantity_match_price(&118, &OrderSide::Sell, &100);
    assert_eq!(walked, 6);
}

#[test]
fn order_map_cache_diagnostics() {
    let mut asks = OrderMap::new(false);
    asks.add_order(&119, 0, 1, 12);
    asks.add_order(&121, 1, 2, 8);
    assert_eq!(asks.recalculate_total(), 20);
    assert!(asks.validate_cache().is_ok());

    // Drifting the side cache is caught.
    asks.set_total_quantity(19);
    assert!(asks.validate_cache().is_err());
    assert_eq!(asks.recalculate_total(), 20);
    asks.set_total_quantity(20);
    assert!(asks.validate_cache().is_ok());
}

#[test]
fn order_map_collect_until_key() {
    let mut asks = OrderMap::new(false);
    asks.add_order(&119, 0, 1, 1);
    asks.add_order(&120, 1, 2, 1);
    asks.add_order(&125, 2, 3, 1);
    let prefix = asks.collect_until_key(|p| *p > 120);
    assert_eq!(prefix, vec![119, 120]);
    let all = asks.collect_until_key(|p| *p > 200);
    assert_eq!(all, vec![119, 120, 125]);
}

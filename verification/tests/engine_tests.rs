use hft_engine::{MatchingEngine, Order, Side, Trade};

fn order(id: u64, side: Side, price: u64, quantity: u32) -> Order {
    Order::new(id, side, price, quantity, id)
}

#[test]
fn non_crossing_orders_rest_on_both_sides() {
    let mut engine = MatchingEngine::default();
    assert!(engine.process(order(1, Side::Buy, 99, 5)).is_empty());
    assert!(engine.process(order(2, Side::Sell, 101, 5)).is_empty());
    assert_eq!(engine.book().best_bid(), Some(99));
    assert_eq!(engine.book().best_ask(), Some(101));
}

#[test]
fn sell_sweeps_bids_from_highest_down() {
    let mut engine = MatchingEngine::new();
    engine.process(order(1, Side::Buy, 98, 2));
    engine.process(order(2, Side::Buy, 100, 3));
    engine.process(order(3, Side::Buy, 99, 4));
    let trades = engine.process(order(4, Side::Sell, 99, 10));
    assert_eq!(
        trades,
        vec![
            Trade { buy_order_id: 2, sell_order_id: 4, price: 100, quantity: 3 },
            Trade { buy_order_id: 3, sell_order_id: 4, price: 99, quantity: 4 },
        ]
    );
    // 3 left of the sell rests at 99; the bid at 98 stays.
    assert_eq!(engine.book().best_ask(), Some(99));
    assert_eq!(engine.book().best_bid(), Some(98));
}

#[test]
fn partial_fill_leaves_resting_remainder_in_front() {
    let mut engine = MatchingEngine::new();
    engine.process(order(1, Side::Sell, 100, 10));
    engine.process(order(2, Side::Sell, 100, 10));
    let trades = engine.process(order(3, Side::Buy, 100, 4));
    assert_eq!(trades, vec![Trade { buy_order_id: 3, sell_order_id: 1, price: 100, quantity: 4 }]);
    let trades = engine.process(order(4, Side::Buy, 100, 7));
    assert_eq!(
        trades,
        vec![
            Trade { buy_order_id: 4, sell_order_id: 1, price: 100, quantity: 6 },
            Trade { buy_order_id: 4, sell_order_id: 2, price: 100, quantity: 1 },
        ]
    );
    assert_eq!(engine.book().best_bid(), None);
}

#[test]
fn exact_fill_leaves_nothing() {
    let mut engine = MatchingEngine::new();
    engine.process(order(1, Side::Buy, 100, 5));
    let trades = engine.process(order(2, Side::Sell, 100, 5));
    assert_eq!(trades, vec![Trade { buy_order_id: 1, sell_order_id: 2, price: 100, quantity: 5 }]);
    assert!(engine.book().is_empty());
}

#[test]
fn zero_quantity_order_neither_trades_nor_rests() {
    let mut engine = MatchingEngine::new();
    engine.process(order(1, Side::Sell, 100, 5));
    assert!(engine.process(order(2, Side::Buy, 100, 0)).is_empty());
    assert_eq!(engine.book().best_bid(), None);
    assert_eq!(engine.book().best_ask(), Some(100));
}

#[test]
fn trades_stay_within_limit_and_quantity_is_conserved() {
    let mut engine = MatchingEngine::new();
    engine.process(order(1, Side::Sell, 101, 3));
    engine.process(order(2, Side::Sell, 103, 3));
    engine.process(order(3, Side::Sell, 105, 3));
    let incoming = order(4, Side::Buy, 103, 10);
    let trades = engine.process(incoming);
    let filled: u32 = trades.iter().map(|t| t.quantity).sum();
    assert_eq!(filled, 6);
    assert!(trades.iter().all(|t| t.price <= 103 && t.quantity > 0 && t.buy_order_id == 4));
    assert!(trades.windows(2).all(|w| w[0].price <= w[1].price));
    // The unfilled 4 rest at 103 as a bid; the book is not crossed.
    assert_eq!(engine.book().best_bid(), Some(103));
    assert_eq!(engine.book().best_ask(), Some(105));
    assert_eq!(engine.cancel(4), Some(Order::new(4, Side::Buy, 103, 4, 4)));
}

#[test]
fn cancel_unknown_order_is_none() {
    let mut engine = MatchingEngine::new();
    assert_eq!(engine.cancel(9), None);
    engine.process(order(1, Side::Sell, 100, 5));
    engine.process(order(2, Side::Buy, 100, 5));
    // Fully filled orders leave no trace to cancel.
    assert_eq!(engine.cancel(1), None);
    assert_eq!(engine.cancel(2), None);
}

#[test]
fn cancel_takes_out_a_resting_order_and_keeps_the_rest() {
    let mut engine = MatchingEngine::new();
    engine.process(order(1, Side::Sell, 100, 2));
    engine.process(order(2, Side::Sell, 100, 3));
    engine.process(order(3, Side::Sell, 100, 4));
    engine.process(order(4, Side::Sell, 101, 5));
    assert_eq!(engine.cancel(2), Some(order(2, Side::Sell, 100, 3)));
    assert_eq!(engine.cancel(2), None);
    let trades = engine.process(order(5, Side::Buy, 101, 20));
    assert_eq!(
        trades,
        vec![
            Trade { buy_order_id: 5, sell_order_id: 1, price: 100, quantity: 2 },
            Trade { buy_order_id: 5, sell_order_id: 3, price: 100, quantity: 4 },
            Trade { buy_order_id: 5, sell_order_id: 4, price: 101, quantity: 5 },
        ]
    );
    // The 9 not filled rest as a bid and can be cancelled.
    assert_eq!(engine.cancel(5), Some(order(5, Side::Buy, 101, 9)));
    assert!(engine.book().is_empty());
}

#[test]
fn sweep_takes_best_levels_first_and_leaves_worse_levels_untouched() {
    let mut engine = MatchingEngine::new();
    engine.process(order(1, Side::Sell, 100, 2));
    engine.process(order(2, Side::Sell, 101, 3));
    engine.process(order(3, Side::Sell, 101, 4));
    engine.process(order(4, Side::Sell, 102, 5));
    // 2 at 100, then 3 + 1 of 4 at 101; nothing at 102.
    let trades = engine.process(order(5, Side::Buy, 102, 6));
    assert_eq!(
        trades,
        vec![
            Trade { buy_order_id: 5, sell_order_id: 1, price: 100, quantity: 2 },
            Trade { buy_order_id: 5, sell_order_id: 2, price: 101, quantity: 3 },
            Trade { buy_order_id: 5, sell_order_id: 3, price: 101, quantity: 1 },
        ]
    );
    // The opposite side lost exactly the 6 traded: 3 left at 101, 5 at 102.
    assert_eq!(engine.cancel(3), Some(order(3, Side::Sell, 101, 3)));
    assert_eq!(engine.cancel(4), Some(order(4, Side::Sell, 102, 5)));
    assert!(engine.book().is_empty());
}

#[test]
fn cancelled_order_never_trades() {
    let mut engine = MatchingEngine::new();
    engine.process(order(1, Side::Sell, 100, 5));
    engine.process(order(2, Side::Sell, 100, 5));
    assert!(engine.cancel(1).is_some());
    let trades = engine.process(order(3, Side::Buy, 100, 10));
    assert!(trades.iter().all(|t| t.sell_order_id != 1 && t.buy_order_id != 1));
    assert_eq!(trades, vec![Trade { buy_order_id: 3, sell_order_id: 2, price: 100, quantity: 5 }]);
    assert_eq!(engine.cancel(1), None);
}

#[test]
fn cancelled_id_stays_gone_even_when_ids_are_reused() {
    let mut engine = MatchingEngine::new();
    engine.process(order(1, Side::Sell, 100, 5));
    engine.process(order(2, Side::Sell, 101, 5));
    assert!(engine.cancel(1).is_some());
    // An incoming order reusing the id of a resting order.
    let trades = engine.process(order(2, Side::Buy, 99, 3));
    assert!(trades.is_empty());
    let trades = engine.process(order(3, Side::Buy, 101, 1));
    assert!(trades.iter().all(|t| t.sell_order_id != 1 && t.buy_order_id != 1));
    assert_eq!(engine.cancel(1), None);
}

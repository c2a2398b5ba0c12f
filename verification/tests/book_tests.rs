use hft_engine::{OrderBook, Order, Side};

fn order(id: u64, side: Side, price: u64, quantity: u32) -> Order {
    Order::new(id, side, price, quantity, id)
}

#[test]
fn new_book_is_empty() {
    let book = OrderBook::new();
    assert!(book.is_empty());
    let defaulted = OrderBook::default();
    assert!(defaulted.is_empty());
}

#[test]
fn best_bid_is_highest_and_best_ask_is_lowest() {
    let mut book = OrderBook::new();
    book.insert_resting(order(1, Side::Buy, 95, 1));
    book.insert_resting(order(2, Side::Buy, 99, 1));
    book.insert_resting(order(3, Side::Buy, 97, 1));
    book.insert_resting(order(4, Side::Sell, 105, 1));
    book.insert_resting(order(5, Side::Sell, 101, 1));
    book.insert_resting(order(6, Side::Sell, 103, 1));
    assert_eq!(book.best_bid(), Some(99));
    assert_eq!(book.best_ask(), Some(101));
    assert!(!book.is_empty());
}

#[test]
fn remove_unknown_id_changes_nothing() {
    let mut book = OrderBook::new();
    book.insert_resting(order(1, Side::Buy, 100, 5));
    assert_eq!(book.remove(42), None);
    assert_eq!(book.best_bid(), Some(100));
    assert_eq!(book.front_at(Side::Buy, 100).map(|o| o.id), Some(1));
}

#[test]
fn remove_undoes_insert() {
    let mut book = OrderBook::new();
    book.insert_resting(order(1, Side::Sell, 100, 5));
    book.insert_resting(order(2, Side::Sell, 100, 6));
    let fresh = order(3, Side::Sell, 100, 7);
    book.insert_resting(fresh.clone());
    assert_eq!(book.remove(3), Some(fresh));
    assert_eq!(book.pop_front_at(Side::Sell, 100).map(|o| o.id), Some(1));
    assert_eq!(book.pop_front_at(Side::Sell, 100).map(|o| o.id), Some(2));
    assert_eq!(book.pop_front_at(Side::Sell, 100), None);
    assert!(book.is_empty());
}

#[test]
fn remove_closes_emptied_level() {
    let mut book = OrderBook::new();
    book.insert_resting(order(1, Side::Buy, 100, 5));
    book.insert_resting(order(2, Side::Buy, 101, 5));
    assert_eq!(book.remove(2), Some(order(2, Side::Buy, 101, 5)));
    assert_eq!(book.best_bid(), Some(100));
    assert_eq!(book.remove(2), None);
}

#[test]
fn remove_takes_every_order_with_that_id_from_the_indexed_level() {
    let mut book = OrderBook::new();
    book.insert_resting(Order::new(7, Side::Buy, 100, 1, 1));
    book.insert_resting(Order::new(8, Side::Buy, 100, 2, 2));
    book.insert_resting(Order::new(7, Side::Buy, 100, 3, 3));
    // The last order of that id is returned; both leave the queue.
    assert_eq!(book.remove(7), Some(Order::new(7, Side::Buy, 100, 3, 3)));
    assert_eq!(book.pop_front_at(Side::Buy, 100).map(|o| o.id), Some(8));
    assert!(book.is_empty());
}

#[test]
fn front_at_gives_oldest_order_and_writes_through() {
    let mut book = OrderBook::new();
    book.insert_resting(order(1, Side::Sell, 100, 5));
    book.insert_resting(order(2, Side::Sell, 100, 6));
    assert!(book.front_at(Side::Sell, 101).is_none());
    assert!(book.front_at(Side::Buy, 100).is_none());
    {
        let front = book.front_at(Side::Sell, 100).unwrap();
        assert_eq!(front.id, 1);
        front.remaining = 2;
    }
    assert_eq!(book.pop_front_at(Side::Sell, 100), Some(order(1, Side::Sell, 100, 2)));
    assert_eq!(book.front_at(Side::Sell, 100).map(|o| o.id), Some(2));
}

#[test]
fn pop_front_at_missing_level_is_none() {
    let mut book = OrderBook::new();
    assert_eq!(book.pop_front_at(Side::Buy, 100), None);
    book.insert_resting(order(1, Side::Buy, 100, 5));
    assert_eq!(book.pop_front_at(Side::Buy, 99), None);
    assert_eq!(book.pop_front_at(Side::Sell, 100), None);
    assert_eq!(book.best_bid(), Some(100));
}

#[test]
fn popping_removes_index_entry() {
    let mut book = OrderBook::new();
    book.insert_resting(order(1, Side::Buy, 100, 5));
    assert!(book.pop_front_at(Side::Buy, 100).is_some());
    assert_eq!(book.remove(1), None);
}

#[test]
fn side_text() {
    assert_eq!(Side::Buy.to_string(), "Buy");
    assert_eq!(Side::Sell.to_string(), "Sell");
}

use market_web::book::{LiveOrderBook, OB};
use market_web::order::{OrderType, RestingOrder, Side};
use market_web::store::persist_order_book;

fn order(qty: u32, symbol: &[u8], price: u64, side: Side, id: &[u8]) -> RestingOrder {
    RestingOrder {
        qty,
        symbol: symbol.to_vec(),
        price,
        side,
        order_type: OrderType::Limit,
        cl_ord_id: id.to_vec(),
    }
}

fn two_sided_book() -> LiveOrderBook {
    let mut book = LiveOrderBook::empty();
    book.add_order_to_order_book(order(100, b"IBM", 50025, Side::Buy, b"b1"));
    book.add_order_to_order_book(order(40, b"IBM", 50100, Side::Sell, b"s1"));
    book
}

#[test]
fn test_from() {
    let order_book = two_sided_book();
    assert_eq!(order_book.buy_orders.len(), 1);
    assert_eq!(order_book.sell_orders.len(), 1);
    let ob = OB::from(&order_book);
    let content = persist_order_book(&ob);
    assert!(!content.is_empty());
}

#[test]
fn test_to() {
    let ob = OB::from(&two_sided_book());
    let order_book = OB::to(&ob).expect("well-formed snapshot hydrates");
    assert_eq!(order_book.buy_orders.len(), 1);
    assert_eq!(order_book.sell_orders.len(), 1);
}

#[test]
fn test_snapshot_keys() {
    let ob = OB::from(&two_sided_book());
    assert_eq!(ob.buy_orders[0].0, b"IBM_500.25".to_vec());
    assert_eq!(ob.sell_orders[0].0, b"IBM_501".to_vec());
}

#[test]
fn test_book_round_trip_concrete() {
    let book = two_sided_book();
    let back = OB::to(&OB::from(&book)).expect("round trip");
    assert_eq!(back.buy_orders.len(), book.buy_orders.len());
    assert_eq!(back.buy_orders[0].0.symbol, book.buy_orders[0].0.symbol);
    assert_eq!(back.buy_orders[0].0.price, book.buy_orders[0].0.price);
    assert_eq!(back.buy_orders[0].1[0].qty, 100);
    assert_eq!(back.sell_orders[0].1[0].cl_ord_id, b"s1".to_vec());
}

#[test]
fn test_to_rejects_malformed_key() {
    let ob = OB {
        buy_orders: vec![(b"nokey".to_vec(), vec![order(1, b"X", 100, Side::Buy, b"a")])],
        sell_orders: vec![],
    };
    assert!(OB::to(&ob).is_err());
}

#[test]
fn test_insert_keeps_fifo_order() {
    let mut book = LiveOrderBook::empty();
    book.add_order_to_order_book(order(10, b"X", 1000, Side::Buy, b"first"));
    book.add_order_to_order_book(order(20, b"X", 1000, Side::Buy, b"second"));
    book.add_order_to_order_book(order(30, b"X", 1100, Side::Buy, b"other"));
    assert_eq!(book.buy_orders.len(), 2);
    let level = &book.buy_orders[0];
    assert_eq!(level.1.len(), 2);
    assert_eq!(level.1[0].cl_ord_id, b"first".to_vec());
    assert_eq!(level.1[1].cl_ord_id, b"second".to_vec());
    assert_eq!(book.buy_orders[1].0.price, 1100);
}

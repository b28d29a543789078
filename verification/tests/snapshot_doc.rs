use market_web::book::OB;
use market_web::doc::{doc_bytes, parse_doc};
use market_web::errors::RequestError;
use market_web::order::{OrderType, RestingOrder, Side};
use market_web::store::{load_or_create, persist_order_book, reset};

fn order(qty: u32, symbol: &[u8], price: u64, side: Side, id: &[u8]) -> RestingOrder {
    RestingOrder {
        qty,
        symbol: symbol.to_vec(),
        price,
        side,
        order_type: OrderType::Limit,
        cl_ord_id: id.to_vec(),
    }
}

fn one_level_snapshot() -> OB {
    OB {
        buy_orders: vec![(
            b"X_10".to_vec(),
            vec![
                order(100, b"X", 1000, Side::Buy, b"id1"),
                order(25, b"X", 1000, Side::Buy, b"id2"),
            ],
        )],
        sell_orders: vec![(b"Y_5.25".to_vec(), vec![order(7, b"Y", 525, Side::Sell, b"id3")])],
    }
}

#[test]
fn test_doc_bytes_exact() {
    let ob = one_level_snapshot();
    let expected = b"B|X_10|100,X,1000,Buy,Limit,id1|25,X,1000,Buy,Limit,id2\n\
S|Y_5.25|7,Y,525,Sell,Limit,id3\n"
        .to_vec();
    assert_eq!(doc_bytes(&ob), expected);
}

#[test]
fn test_doc_parse_round() {
    let ob = one_level_snapshot();
    let back = parse_doc(&doc_bytes(&ob)).expect("parses");
    assert_eq!(back.buy_orders.len(), 1);
    assert_eq!(back.buy_orders[0].0, b"X_10".to_vec());
    assert_eq!(back.buy_orders[0].1.len(), 2);
    assert_eq!(back.buy_orders[0].1[0].qty, 100);
    assert_eq!(back.buy_orders[0].1[0].cl_ord_id, b"id1".to_vec());
    assert_eq!(back.buy_orders[0].1[1].qty, 25);
    assert_eq!(back.sell_orders.len(), 1);
    assert_eq!(back.sell_orders[0].1[0].price, 525);
    assert!(matches!(back.sell_orders[0].1[0].side, Side::Sell));
}

#[test]
fn test_parse_empty_is_empty_snapshot() {
    let ob = parse_doc(&Vec::new()).expect("empty parses");
    assert!(ob.buy_orders.is_empty());
    assert!(ob.sell_orders.is_empty());
}

#[test]
fn test_parse_garbage_fails() {
    assert!(parse_doc(&b"not a document".to_vec()).is_none());
    assert!(parse_doc(&b"B|broken\n".to_vec()).is_none());
    assert!(parse_doc(&b"Q|X_10|1,X,1000,Buy,Limit,a\n".to_vec()).is_none());
    assert!(parse_doc(&b"B|X_10|1,X,1000,Up,Limit,a\n".to_vec()).is_none());
}

#[test]
fn test_load_or_create_lenient_and_fatal() {
    let empty = load_or_create(None).expect("absent resource is an empty book");
    assert!(empty.buy_orders.is_empty() && empty.sell_orders.is_empty());
    let empty2 = load_or_create(Some(&Vec::new())).expect("empty resource is an empty book");
    assert!(empty2.buy_orders.is_empty() && empty2.sell_orders.is_empty());
    assert_eq!(
        load_or_create(Some(&b"garbage".to_vec())).unwrap_err(),
        RequestError::CorruptState
    );
}

#[test]
fn test_persist_then_load() {
    let ob = one_level_snapshot();
    let content = persist_order_book(&ob);
    let back = load_or_create(Some(&content)).expect("loads back");
    assert_eq!(doc_bytes(&back), content);
    assert_eq!(back.buy_orders[0].0, ob.buy_orders[0].0);
    assert_eq!(back.sell_orders[0].0, ob.sell_orders[0].0);
}

#[test]
fn test_reset_idempotent() {
    let first = reset(true).expect("reset reports success");
    assert_eq!(first, "Order book deleted successfully");
    let second = reset(false).expect("second reset reports success too");
    assert_eq!(second, "Order book was already absent");
}

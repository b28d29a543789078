use market_web::doc::parse_doc;
use market_web::errors::RequestError;
use market_web::order::{Order, OrderType, RestingOrder, Side};
use market_web::orchestrator::{get_order_book_from_file, index, malformed, not_found,
    process_request};
use market_web::strategy::{Strategy, get_matcher};

fn order(qty: u32, symbol: &[u8], price: u64, side: Side, id: &[u8]) -> RestingOrder {
    RestingOrder {
        qty,
        symbol: symbol.to_vec(),
        price,
        side,
        order_type: OrderType::Limit,
        cl_ord_id: id.to_vec(),
    }
}

#[test]
fn test_scenario_empty_store_buy() {
    let out = process_request(None, Some(order(100, b"X", 1000, Side::Buy, b"c1")), Strategy::Fifo)
        .expect("request succeeds");
    assert!(out.fills.is_empty());
    assert_eq!(out.book.buy_orders.len(), 1);
    assert!(out.book.sell_orders.is_empty());
    assert_eq!(out.book.buy_orders[0].0.symbol, b"X".to_vec());
    assert_eq!(out.book.buy_orders[0].0.price, 1000);
    assert_eq!(out.book.buy_orders[0].1.len(), 1);
    assert_eq!(out.book.buy_orders[0].1[0].qty, 100);
    let persisted = parse_doc(&out.content).expect("persisted contents parse");
    assert_eq!(persisted.buy_orders.len(), 1);
    assert_eq!(persisted.buy_orders[0].0, b"X_10".to_vec());
}

#[test]
fn test_scenario_crossed_orders_fill() {
    let resting = process_request(
        None,
        Some(order(50, b"X", 1000, Side::Sell, b"s1")),
        Strategy::Fifo,
    )
    .expect("resting sell persists");
    assert!(resting.fills.is_empty());
    let out = process_request(
        Some(&resting.content),
        Some(order(50, b"X", 1000, Side::Buy, b"b1")),
        Strategy::Fifo,
    )
    .expect("crossing buy matches");
    assert!(!out.fills.is_empty());
    for f in &out.fills {
        assert_eq!(f.qty, 50);
    }
    assert_eq!(out.fills.iter().filter(|f| matches!(f.side, Side::Buy)).count(), 1);
    assert_eq!(out.fills.iter().filter(|f| matches!(f.side, Side::Sell)).count(), 1);
    assert!(out.book.buy_orders.is_empty());
    assert!(out.book.sell_orders.is_empty());
    let persisted = parse_doc(&out.content).expect("persisted contents parse");
    assert!(persisted.buy_orders.is_empty() && persisted.sell_orders.is_empty());
}

#[test]
fn test_scenario_two_sequential_submissions() {
    let first = process_request(None, Some(order(10, b"Y", 500, Side::Buy, b"a1")), Strategy::Fifo)
        .expect("first request");
    let second = process_request(
        Some(&first.content),
        Some(order(10, b"Y", 500, Side::Buy, b"a2")),
        Strategy::Fifo,
    )
    .expect("second request");
    let final_book = get_order_book_from_file(Some(&second.content), None)
        .expect("persisted book hydrates");
    assert_eq!(final_book.buy_orders.len(), 1);
    let level = &final_book.buy_orders[0];
    assert_eq!(level.1.len(), 2);
    assert_eq!(level.1.iter().map(|o| o.qty).sum::<u32>(), 20);
    assert_eq!(level.1[0].cl_ord_id, b"a1".to_vec());
    assert_eq!(level.1[1].cl_ord_id, b"a2".to_vec());
}

#[test]
fn test_scenario_invalid_key_fails_request() {
    let content = b"B|badkey|10,Y,500,Buy,Limit,a\n".to_vec();
    let err = match process_request(Some(&content), None, Strategy::Fifo) {
        Err(e) => e,
        Ok(_) => panic!("request must fail"),
    };
    assert_eq!(err, RequestError::MalformedKey);
    let err2 = get_order_book_from_file(Some(&content), None).unwrap_err();
    assert_eq!(err2, RequestError::MalformedKey);
}

#[test]
fn test_corrupt_store_fails_request() {
    let err = match process_request(Some(&b"# not a snapshot".to_vec()), None, Strategy::Fifo) {
        Err(e) => e,
        Ok(_) => panic!("request must fail"),
    };
    assert_eq!(err, RequestError::CorruptState);
}

#[test]
fn test_inspection_still_runs_cycle() {
    let resting = process_request(
        None,
        Some(order(50, b"X", 1000, Side::Sell, b"s1")),
        Strategy::Fifo,
    )
    .expect("resting sell");
    let buy = process_request(
        Some(&resting.content),
        Some(order(80, b"X", 1000, Side::Buy, b"b1")),
        Strategy::Fifo,
    )
    .expect("partially matched buy");
    assert!(!buy.fills.is_empty());
    assert_eq!(buy.book.buy_orders.len(), 1);
    assert_eq!(buy.book.buy_orders[0].1[0].qty, 30);
    let inspect = process_request(Some(&buy.content), None, Strategy::Fifo)
        .expect("pure inspection runs the full cycle");
    assert_eq!(inspect.book.buy_orders.len(), 1);
    assert_eq!(inspect.book.buy_orders[0].1[0].qty, 30);
}

#[test]
fn test_get_matcher_selection() {
    assert_eq!(get_matcher(None), Strategy::Fifo);
    assert_eq!(get_matcher(Some(&b"FIFO".to_vec())), Strategy::Fifo);
    assert_eq!(get_matcher(Some(&b"PRORATA".to_vec())), Strategy::Prorata);
    assert_eq!(get_matcher(Some(&b"unknown".to_vec())), Strategy::Fifo);
}

#[test]
fn test_order_payload_accessors() {
    let o = Order::new(
        b"X".to_vec(),
        100,
        1000,
        b"Buy".to_vec(),
        b"Limit".to_vec(),
        b"c1".to_vec(),
        b"json".to_vec(),
    );
    assert_eq!(o.symbol(), &b"X".to_vec());
    assert_eq!(o.qty(), 100);
    assert_eq!(o.price(), 1000);
    assert_eq!(o.side(), &b"Buy".to_vec());
    assert_eq!(o.order_type(), &b"Limit".to_vec());
    assert_eq!(o.cl_ord_id(), &b"c1".to_vec());
    assert_eq!(o.format(), &b"json".to_vec());
    let r = o.to_resting();
    assert!(matches!(r.side, Side::Buy));
    assert!(matches!(r.order_type, OrderType::Limit));
    let other = Order::new(
        b"X".to_vec(),
        1,
        1,
        b"Dump".to_vec(),
        b"Stop".to_vec(),
        b"c2".to_vec(),
        b"pretty".to_vec(),
    );
    let r2 = other.to_resting();
    assert!(matches!(r2.side, Side::Sell));
    assert!(matches!(r2.order_type, OrderType::Market));
}

#[test]
fn test_web_messages() {
    assert_eq!(index(), "Please fill the form");
    assert_eq!(not_found("/missing"), "The requested path /missing , is not available ");
    assert_eq!(malformed("bad form"), "the submitted data could not be processed! 'bad form'");
}

use market_web::doc::parse_doc;
use market_web::errors::RequestError;
use market_web::order::{OrderType, RestingOrder, Side};
use market_web::orchestrator::process_request;
use market_web::store::load_or_create;
use market_web::strategy::Strategy;
use market_web::upload::upload;

fn order(qty: u32, symbol: &[u8], price: u64, side: Side, id: &[u8]) -> RestingOrder {
    RestingOrder {
        qty,
        symbol: symbol.to_vec(),
        price,
        side,
        order_type: OrderType::Limit,
        cl_ord_id: id.to_vec(),
    }
}

fn expect_err(r: Result<market_web::orchestrator::RequestOutcome, RequestError>) -> RequestError {
    match r {
        Err(e) => e,
        Ok(_) => panic!("request must fail"),
    }
}

#[test]
fn test_prorata_no_cross() {
    let out = process_request(
        None,
        Some(order(100, b"X", 1000, Side::Buy, b"p1")),
        Strategy::Prorata,
    )
    .expect("lone buy rests");
    assert!(out.fills.is_empty());
    assert_eq!(out.book.buy_orders.len(), 1);
    assert_eq!(out.book.buy_orders[0].1[0].qty, 100);
}

#[test]
fn test_prorata_proportional_fill() {
    let a = process_request(
        None,
        Some(order(300, b"IBM", 60250, Side::Buy, b"id8")),
        Strategy::Prorata,
    )
    .expect("first buy rests");
    let b = process_request(
        Some(&a.content),
        Some(order(100, b"IBM", 60250, Side::Buy, b"id7")),
        Strategy::Prorata,
    )
    .expect("second buy rests");
    let c = process_request(
        Some(&b.content),
        Some(order(300, b"IBM", 60250, Side::Sell, b"id9")),
        Strategy::Prorata,
    )
    .expect("balanced sell matches");
    assert!(!c.fills.is_empty());
    assert!(c.book.sell_orders.is_empty());
    // fills are rationed 3:1 across the two resting buys
    assert!(c.fills.iter().any(|f| f.qty == 225 && f.cl_ord_id == b"id8".to_vec()));
    assert!(c.fills.iter().any(|f| f.qty == 75 && f.cl_ord_id == b"id7".to_vec()));
    assert_eq!(c.book.buy_orders.len(), 1);
}

#[test]
fn test_prorata_oversized_sell_rejected() {
    let a = process_request(
        None,
        Some(order(100, b"X", 1000, Side::Buy, b"b1")),
        Strategy::Prorata,
    )
    .expect("buy rests");
    let e = expect_err(process_request(
        Some(&a.content),
        Some(order(1000, b"X", 1000, Side::Sell, b"s1")),
        Strategy::Prorata,
    ));
    assert_eq!(e, RequestError::EngineUnsafe);
}

#[test]
fn test_duplicate_level_ids_rejected() {
    let a = process_request(None, Some(order(100, b"X", 1000, Side::Buy, b"dup")), Strategy::Fifo)
        .expect("first order rests");
    let e = expect_err(process_request(
        Some(&a.content),
        Some(order(50, b"X", 1000, Side::Buy, b"dup")),
        Strategy::Fifo,
    ));
    assert_eq!(e, RequestError::EngineUnsafe);
}

#[test]
fn test_duplicate_id_other_level_allowed() {
    let a = process_request(None, Some(order(100, b"X", 1000, Side::Buy, b"dup")), Strategy::Fifo)
        .expect("first order rests");
    let b = process_request(
        Some(&a.content),
        Some(order(50, b"X", 1100, Side::Buy, b"dup")),
        Strategy::Fifo,
    )
    .expect("same id at another level is fine");
    assert_eq!(b.book.buy_orders.len(), 2);
}

#[test]
fn test_huge_qty_rejected() {
    let e = expect_err(process_request(
        None,
        Some(order(2147483648, b"X", 1000, Side::Buy, b"b1")),
        Strategy::Fifo,
    ));
    assert_eq!(e, RequestError::EngineUnsafe);
}

#[test]
fn test_unsupported_text_rejected() {
    let e1 = expect_err(process_request(
        None,
        Some(order(1, b"A,B", 100, Side::Buy, b"c1")),
        Strategy::Fifo,
    ));
    assert_eq!(e1, RequestError::UnsupportedText);
    let e2 = expect_err(process_request(
        None,
        Some(order(1, b"A_B", 100, Side::Buy, b"c1")),
        Strategy::Fifo,
    ));
    assert_eq!(e2, RequestError::UnsupportedText);
    let e3 = expect_err(process_request(
        None,
        Some(order(1, b"AB", 100, Side::Buy, b"c|1")),
        Strategy::Fifo,
    ));
    assert_eq!(e3, RequestError::UnsupportedText);
}

#[test]
fn test_duplicate_key_document_rejected() {
    let content = b"B|X_10|1,X,1000,Buy,Limit,a\nB|X_10|1,X,1000,Buy,Limit,b\n".to_vec();
    assert!(parse_doc(&content).is_none());
    assert_eq!(load_or_create(Some(&content)).unwrap_err(), RequestError::CorruptState);
}

#[test]
fn test_nonascii_text_rejected() {
    // two ids distinct as bytes would collapse to one string inside the
    // engine, so such a book never reaches it
    let e = expect_err(process_request(
        None,
        Some(order(12, b"X", 1000, Side::Buy, &[0xFF])),
        Strategy::Fifo,
    ));
    assert_eq!(e, RequestError::EngineUnsafe);
    let e2 = expect_err(process_request(
        None,
        Some(order(12, &[0xC3, 0x28], 1000, Side::Buy, b"ok")),
        Strategy::Fifo,
    ));
    assert_eq!(e2, RequestError::EngineUnsafe);
}

#[test]
fn test_huge_price_rejected() {
    // beyond this bound distinct cent counts can share one floating point
    // key inside the engine
    let e = expect_err(process_request(
        None,
        Some(order(1, b"X", 0x100000000000, Side::Buy, b"b1")),
        Strategy::Fifo,
    ));
    assert_eq!(e, RequestError::EngineUnsafe);
    let ok = process_request(
        None,
        Some(order(1, b"X", 0xfffffffffff, Side::Buy, b"b1")),
        Strategy::Fifo,
    )
    .expect("the largest representable price passes");
    assert_eq!(ok.book.buy_orders[0].0.price, 0xfffffffffff);
}

#[test]
fn test_upload_skips_unsafe_text_lines() {
    let payload = b"a1 X,Y 10 5 Buy\na2 A_B 5 2 Buy\nokid Z 5 2 Buy\n".to_vec();
    let out = upload(None, &payload, Strategy::Fifo).expect("upload succeeds");
    assert_eq!(out.book.buy_orders.len(), 1);
    assert_eq!(out.book.buy_orders[0].0.symbol, b"Z".to_vec());
    assert_eq!(out.book.buy_orders[0].1[0].cl_ord_id, b"okid".to_vec());
}

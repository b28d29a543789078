use market_web::order::Side;
use market_web::strategy::Strategy;
use market_web::upload::upload;

#[test]
fn test_upload_batch_resting() {
    let payload = b"a1 X 10 5 Buy\r\na2 X 10 5 Buy\nnot a valid line\n".to_vec();
    let out = upload(None, &payload, Strategy::Fifo).expect("upload succeeds");
    assert!(out.fills.is_empty());
    assert_eq!(out.book.buy_orders.len(), 1);
    let level = &out.book.buy_orders[0];
    assert_eq!(level.0.symbol, b"X".to_vec());
    assert_eq!(level.0.price, 500);
    assert_eq!(level.1.len(), 2);
    assert_eq!(level.1[0].cl_ord_id, b"a1".to_vec());
    assert_eq!(level.1[1].cl_ord_id, b"a2".to_vec());
}

#[test]
fn test_upload_crossing_lines() {
    let payload = b"s1 IBM 50 101.25 Sell\nb1 IBM 50 101.25 Buy\n".to_vec();
    let out = upload(None, &payload, Strategy::Fifo).expect("upload succeeds");
    assert!(!out.fills.is_empty());
    for f in &out.fills {
        assert_eq!(f.qty, 50);
    }
    assert!(out.book.buy_orders.is_empty());
    assert!(out.book.sell_orders.is_empty());
}

#[test]
fn test_upload_empty_payload() {
    let out = upload(None, &Vec::new(), Strategy::Fifo).expect("empty upload succeeds");
    assert!(out.book.buy_orders.is_empty() && out.book.sell_orders.is_empty());
    assert!(out.fills.is_empty());
    assert!(out.content.is_empty());
}

#[test]
fn test_upload_skips_malformed_lines() {
    let payload = b"only four fields here\nc1 Y 7 3.50 Sell\nc2 Y x 3.50 Sell\n".to_vec();
    let out = upload(None, &payload, Strategy::Fifo).expect("upload succeeds");
    assert!(out.book.buy_orders.is_empty());
    assert_eq!(out.book.sell_orders.len(), 1);
    let level = &out.book.sell_orders[0];
    assert_eq!(level.1.len(), 1);
    assert_eq!(level.1[0].cl_ord_id, b"c1".to_vec());
    assert_eq!(level.0.price, 350);
    assert!(matches!(level.1[0].side, Side::Sell));
}

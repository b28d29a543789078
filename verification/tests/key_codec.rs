use market_web::errors::RequestError;
use market_web::key::{OrderIdentity, decode, encode, price_to_text};

fn id(symbol: &[u8], price: u64) -> OrderIdentity {
    OrderIdentity { symbol: symbol.to_vec(), price }
}

#[test]
fn test_price_text_forms() {
    assert_eq!(price_to_text(1000), b"10".to_vec());
    assert_eq!(price_to_text(1050), b"10.5".to_vec());
    assert_eq!(price_to_text(1025), b"10.25".to_vec());
    assert_eq!(price_to_text(5), b"0.05".to_vec());
    assert_eq!(price_to_text(0), b"0".to_vec());
}

#[test]
fn test_encode_basic() {
    assert_eq!(encode(&id(b"X", 1000)), b"X_10".to_vec());
    assert_eq!(encode(&id(b"IBM", 10125)), b"IBM_101.25".to_vec());
}

#[test]
fn test_decode_round_trip() {
    for &(sym, price) in
        &[(b"X".as_slice(), 1000u64), (b"IBM", 10125), (b"A", 5), (b"", 70), (b"ZZZZ", 99999)]
    {
        let k = encode(&id(sym, price));
        let back = decode(&k).expect("decodes");
        assert_eq!(back.symbol, sym.to_vec());
        assert_eq!(back.price, price);
    }
}

#[test]
fn test_decode_plain_forms() {
    assert_eq!(decode(&b"A_10".to_vec()).unwrap().price, 1000);
    assert_eq!(decode(&b"A_10.5".to_vec()).unwrap().price, 1050);
    assert_eq!(decode(&b"A_10.05".to_vec()).unwrap().price, 1005);
    assert_eq!(decode(&b"A_0.50".to_vec()).unwrap().price, 50);
}

#[test]
fn test_decode_no_separator() {
    assert_eq!(decode(&b"X10".to_vec()).unwrap_err(), RequestError::MalformedKey);
}

#[test]
fn test_decode_extra_separator() {
    assert_eq!(decode(&b"A_1_2".to_vec()).unwrap_err(), RequestError::MalformedKey);
}

#[test]
fn test_decode_bad_price() {
    assert_eq!(decode(&b"A_1.234".to_vec()).unwrap_err(), RequestError::MalformedKey);
    assert_eq!(decode(&b"A_x".to_vec()).unwrap_err(), RequestError::MalformedKey);
    assert_eq!(decode(&b"A_".to_vec()).unwrap_err(), RequestError::MalformedKey);
    assert_eq!(decode(&b"A_10.".to_vec()).unwrap_err(), RequestError::MalformedKey);
    assert_eq!(decode(&b"A_-5".to_vec()).unwrap_err(), RequestError::MalformedKey);
}

#[test]
fn test_decode_overflow() {
    assert_eq!(
        decode(&b"A_999999999999999999999".to_vec()).unwrap_err(),
        RequestError::MalformedKey
    );
}

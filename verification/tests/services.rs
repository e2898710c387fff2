use protohackers::chat::Content;
use protohackers::chat::Username;
use protohackers::prices::Message;
use protohackers::prices::ParseError;
use protohackers::prices::parse_message;
use protohackers::prime::PRIMES_TRIAL_DIVISION_LIMIT;
use protohackers::prime::Request;
use protohackers::prime::Response;

#[test]
fn username_rules() {
    let u = Username::new("ProtoMike718").unwrap();
    assert_eq!(u.get(), "ProtoMike718");
    assert_eq!(Username::new(""), Err("name empty"));
    assert_eq!(
        Username::new("bad name"),
        Err("name contains non-alphanumeric characters")
    );
    assert_eq!(
        Username::new("semi;colon"),
        Err("name contains non-alphanumeric characters")
    );
}

#[test]
fn content_carries_text_unchanged() {
    let c = Content::new("hello, world");
    assert_eq!(c.get(), "hello, world");
}

#[test]
fn prime_requests() {
    let r = Request { method: "isPrime".to_string(), number: Some(7) };
    assert!(r.method_is_valid());
    assert!(r.is_prime());
    let r = Request { method: "isPrime".to_string(), number: Some(8) };
    assert!(!r.is_prime());
    let r = Request { method: "isPrime".to_string(), number: Some(1) };
    assert!(!r.is_prime());
    let r = Request { method: "isPrime".to_string(), number: Some(2) };
    assert!(r.is_prime());
    // A number that was not a nonnegative integer is never prime.
    let r = Request { method: "isPrime".to_string(), number: None };
    assert!(!r.is_prime());
    // A number at or past the checker's safe limit is not a candidate.
    let r = Request { method: "isPrime".to_string(), number: Some(u64::MAX) };
    assert!(!r.is_prime());
    let r = Request { method: "isPrime".to_string(), number: Some(PRIMES_TRIAL_DIVISION_LIMIT) };
    assert!(!r.is_prime());
    let r = Request { method: "isOdd".to_string(), number: Some(7) };
    assert!(!r.method_is_valid());
}

#[test]
fn prime_response_names_its_method() {
    let resp = Response::new(true);
    assert_eq!(resp.method, "isPrime");
    assert!(resp.prime);
    let resp = Response::new(false);
    assert!(!resp.prime);
}

#[test]
fn price_messages_parse_exactly() {
    // 'I', timestamp 12345, price 101.
    let bytes = [0x49, 0x00, 0x00, 0x30, 0x39, 0x00, 0x00, 0x00, 0x65];
    assert_eq!(
        parse_message(&bytes),
        Ok(Message::Insert { timestamp: 12345, price: 101 })
    );
    // 'Q', mintime 1000, maxtime 100000.
    let bytes = [0x51, 0x00, 0x00, 0x03, 0xe8, 0x00, 0x01, 0x86, 0xa0];
    assert_eq!(
        parse_message(&bytes),
        Ok(Message::Query { mintime: 1000, maxtime: 100000 })
    );
    // A negative price comes as two's complement big-endian.
    let bytes = [0x49, 0x00, 0x00, 0x00, 0x00, 0xff, 0xff, 0xff, 0x9c];
    assert_eq!(
        Message::from_bytes(&bytes),
        Ok(Message::Insert { timestamp: 0, price: -100 })
    );
}

#[test]
fn price_messages_reject_bad_frames() {
    assert_eq!(parse_message(&[]), Err(ParseError::Truncated));
    assert_eq!(parse_message(&[0x58; 9]), Err(ParseError::BadType));
    assert_eq!(parse_message(&[0x49, 0x00, 0x00]), Err(ParseError::Truncated));
    assert_eq!(parse_message(&[0x49; 10]), Err(ParseError::TrailingData));
}

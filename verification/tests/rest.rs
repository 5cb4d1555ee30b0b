use hftbacktest::connector::binancefutures::ordermanager::{parse_bytes, parse_client_order_id};
use hftbacktest::connector::binancefutures::rest::{
    append_decimal, cancel_all_orders_body, cancel_order_body, cancel_orders_body, depth_query,
    modify_order_body, read_url, sign, submit_order_body, submit_orders_body, timed_body,
    timed_query, to_hex, write_url, OrderRequest, RequestError,
};
use hftbacktest::ty::{OrdType, Side, TimeInForce};

fn request(id: &str) -> OrderRequest {
    OrderRequest {
        client_order_id: id.to_string(),
        symbol: "SOLUSDT".to_string(),
        side: Side::Buy,
        price: "100.10".to_string(),
        qty: "1.00000".to_string(),
        order_type: OrdType::Limit,
        time_in_force: TimeInForce::GTX,
    }
}

fn decimal(n: i64) -> String {
    let mut s = String::new();
    append_decimal(&mut s, n);
    s
}

#[test]
fn signature_is_the_keyed_hash_in_hexadecimal() {
    assert_eq!(
        sign("Jefe", "what do ya want for nothing?"),
        "5bdcc146bf60754e6a042426089575c75a003f089d2739839dec58b964ec3843"
    );
    assert_eq!(
        sign("my secret and secure key", "input message"),
        "97d2a569059bbcd8ead4444ff99071f4c01d005bcefe0d3567e1be628e5fdcd9"
    );
    assert_ne!(sign("a", "b"), sign("b", "a"));
    assert_eq!(sign("", "").len(), 64);
}

#[test]
fn hexadecimal_has_two_lower_case_digits_for_each_byte() {
    assert_eq!(to_hex(&[]), "");
    assert_eq!(to_hex(&[0x00, 0x0f, 0xa0, 0xff, 0x7b]), "000fa0ff7b");
    assert_eq!(to_hex(&[0x12, 0x34, 0x56, 0x78, 0x9a, 0xbc, 0xde]), "123456789abcde");
}

#[test]
fn decimal_of_every_sign_and_size() {
    assert_eq!(decimal(0), "0");
    assert_eq!(decimal(7), "7");
    assert_eq!(decimal(10), "10");
    assert_eq!(decimal(-1), "-1");
    assert_eq!(decimal(1708000000123), "1708000000123");
    assert_eq!(decimal(i64::MAX), "9223372036854775807");
    assert_eq!(decimal(i64::MIN), "-9223372036854775808");
    let mut s = "t=".to_string();
    append_decimal(&mut s, -405);
    assert_eq!(s, "t=-405");
}

#[test]
fn query_and_body_carry_window_and_timestamp() {
    assert_eq!(timed_query("", 1234), "recvWindow=5000&timestamp=1234");
    assert_eq!(
        timed_query("symbol=SOLUSDT&limit=1000", 1234),
        "symbol=SOLUSDT&limit=1000&recvWindow=5000&timestamp=1234"
    );
    assert_eq!(timed_body(1234, "symbol=SOLUSDT"), "recvWindow=5000&timestamp=1234symbol=SOLUSDT");
    assert_eq!(timed_body(5, ""), "recvWindow=5000&timestamp=5");
}

#[test]
fn addresses_are_put_together_from_their_parts() {
    assert_eq!(
        read_url("https://fapi", "/fapi/v1/depth", "symbol=X&recvWindow=5000&timestamp=9", "ab12"),
        "https://fapi/fapi/v1/depth?symbol=X&recvWindow=5000&timestamp=9&signature=ab12"
    );
    assert_eq!(
        write_url("https://fapi", "/fapi/v1/order", 9, "ab12"),
        "https://fapi/fapi/v1/order?recvWindow=5000&timestamp=9&signature=ab12"
    );
}

#[test]
fn order_bodies_name_every_field() {
    assert_eq!(
        submit_order_body(&request("abc1")),
        "newClientOrderId=abc1&symbol=SOLUSDT&side=BUY&price=100.10&quantity=1.00000&type=LIMIT&timeInForce=GTX"
    );
    let mut sell = request("abc2");
    sell.side = Side::Sell;
    sell.order_type = OrdType::Market;
    sell.time_in_force = TimeInForce::IOC;
    assert_eq!(
        submit_order_body(&sell),
        "newClientOrderId=abc2&symbol=SOLUSDT&side=SELL&price=100.10&quantity=1.00000&type=MARKET&timeInForce=IOC"
    );
    assert_eq!(
        modify_order_body(&sell),
        "symbol=SOLUSDT&origClientOrderId=abc2&side=SELL&price=100.10&quantity=1.00000"
    );
    assert_eq!(cancel_order_body("SOLUSDT", "abc1"), "symbol=SOLUSDT&origClientOrderId=abc1");
    assert_eq!(cancel_all_orders_body("SOLUSDT"), "symbol=SOLUSDT");
    assert_eq!(depth_query("SOLUSDT"), "symbol=SOLUSDT&limit=1000");
    assert_eq!((TimeInForce::GTC.as_str(), TimeInForce::FOK.as_str()), ("GTC", "FOK"));
}

#[test]
fn batch_of_orders_is_a_list_of_at_most_five() {
    assert_eq!(submit_orders_body(&vec![]).unwrap(), "{\"batchOrders\":[]}");
    let one = "{\"newClientOrderId\":\"a\",\"symbol\":\"SOLUSDT\",\"side\":\"BUY\",\"price\":\"100.10\",\"quantity\":\"1.00000\",\"type\":\"LIMIT\",\"timeInForce\":\"GTX\"}";
    assert_eq!(
        submit_orders_body(&vec![request("a")]).unwrap(),
        format!("{{\"batchOrders\":[{}]}}", one)
    );
    let two = one.replace("\"a\"", "\"b\"");
    assert_eq!(
        submit_orders_body(&vec![request("a"), request("b")]).unwrap(),
        format!("{{\"batchOrders\":[{},{}]}}", one, two)
    );
    let five: Vec<OrderRequest> = (0..5).map(|_| request("a")).collect();
    assert!(submit_orders_body(&five).is_ok());
    let six: Vec<OrderRequest> = (0..6).map(|_| request("a")).collect();
    assert!(matches!(submit_orders_body(&six), Err(RequestError::InvalidRequest)));
}

#[test]
fn cancellation_of_several_orders_is_a_list_of_at_most_ten() {
    assert_eq!(
        cancel_orders_body("SOLUSDT", &vec![]).unwrap(),
        "{\"symbol\":\"SOLUSDT\",\"origClientOrderIdList\":[]}"
    );
    assert_eq!(
        cancel_orders_body("SOLUSDT", &vec!["a".to_string(), "b".to_string()]).unwrap(),
        "{\"symbol\":\"SOLUSDT\",\"origClientOrderIdList\":[\"a\",\"b\"]}"
    );
    let ten: Vec<String> = (0..10).map(|i| i.to_string()).collect();
    assert!(cancel_orders_body("S", &ten).is_ok());
    let eleven: Vec<String> = (0..11).map(|i| i.to_string()).collect();
    assert!(matches!(cancel_orders_body("S", &eleven), Err(RequestError::InvalidRequest)));
}

#[test]
fn client_order_id_is_the_number_behind_the_prefix() {
    assert_eq!(parse_client_order_id("bot42", "bot"), Some(42));
    assert_eq!(parse_client_order_id("7", ""), Some(7));
    assert_eq!(parse_client_order_id("bot007", "bot"), Some(7));
    assert_eq!(
        parse_client_order_id("x9223372036854775807", "x"),
        Some(i64::MAX)
    );
}

#[test]
fn client_order_id_without_prefix_or_number_is_refused() {
    assert_eq!(parse_client_order_id("bot", "bot"), None);
    assert_eq!(parse_client_order_id("web42", "bot"), None);
    assert_eq!(parse_client_order_id("bo", "bot"), None);
    assert_eq!(parse_client_order_id("bot4x2", "bot"), None);
    assert_eq!(parse_client_order_id("bot-42", "bot"), None);
    assert_eq!(parse_client_order_id("x9223372036854775808", "x"), None);
    assert_eq!(parse_bytes(b"ab12", b"ab"), Some(12));
}

//! The requests of the REST interface, as far as they are computed: the
//! signature, the query and the body of each request. Sending them is left
//! to the caller.

use crate::ty::{OrdType, Side, TimeInForce};
use hmac::{Hmac, Mac};
use sha2::Sha256;
use vstd::prelude::*;
use vstd::string::{StringExecFns, StringSliceAdditionalSpecFns};

verus! {

/// The HMAC-SHA256 code of `message` under `key`.
pub uninterp spec fn spec_hmac_sha256(key: Seq<u8>, message: Seq<u8>) -> Seq<u8>;

/// Computes the HMAC-SHA256 code of `message` under `key` with
/// `Hmac::<Sha256>`: `new_from_slice`, which takes a key of any length,
/// then `update` and `finalize`. The code is a function of key and message
/// alone and is 32 bytes long. Nothing else is claimed of it.
#[verifier::external_body]
fn hmac_sha256(key: &[u8], message: &[u8]) -> (code: Vec<u8>)
    ensures
        code@ == spec_hmac_sha256(key@, message@),
        code@.len() == 32,
{
    let mut mac = Hmac::<Sha256>::new_from_slice(key).unwrap();
    mac.update(message);
    mac.finalize().into_bytes().to_vec()
}

/// The character of a hexadecimal digit, in lower case.
pub open spec fn hex_digit(d: int) -> char {
    if d == 0 {
        '0'
    } else if d == 1 {
        '1'
    } else if d == 2 {
        '2'
    } else if d == 3 {
        '3'
    } else if d == 4 {
        '4'
    } else if d == 5 {
        '5'
    } else if d == 6 {
        '6'
    } else if d == 7 {
        '7'
    } else if d == 8 {
        '8'
    } else if d == 9 {
        '9'
    } else if d == 10 {
        'a'
    } else if d == 11 {
        'b'
    } else if d == 12 {
        'c'
    } else if d == 13 {
        'd'
    } else if d == 14 {
        'e'
    } else {
        'f'
    }
}

/// The bytes in hexadecimal: two lower-case digits for each byte, the high
/// one first.
pub open spec fn hex_of(bytes: Seq<u8>) -> Seq<char>
    decreases bytes.len(),
{
    if bytes.len() == 0 {
        Seq::empty()
    } else {
        hex_of(bytes.drop_last()).push(hex_digit(bytes.last() as int / 16)).push(
            hex_digit(bytes.last() as int % 16),
        )
    }
}

/// Two digits stand for each byte.
pub proof fn lemma_hex_len(bytes: Seq<u8>)
    ensures
        hex_of(bytes).len() == 2 * bytes.len(),
    decreases bytes.len(),
{
    if bytes.len() > 0 {
        lemma_hex_len(bytes.drop_last());
    }
}

/// One hexadecimal or decimal digit as a string.
fn digit_str(d: u8) -> (s: &'static str)
    requires
        d < 16,
    ensures
        s@ == seq![hex_digit(d as int)],
{
    proof {
        reveal_strlit("0");
        reveal_strlit("1");
        reveal_strlit("2");
        reveal_strlit("3");
        reveal_strlit("4");
        reveal_strlit("5");
        reveal_strlit("6");
        reveal_strlit("7");
        reveal_strlit("8");
        reveal_strlit("9");
        reveal_strlit("a");
        reveal_strlit("b");
        reveal_strlit("c");
        reveal_strlit("d");
        reveal_strlit("e");
        reveal_strlit("f");
    }
    let s = if d == 0 {
        "0"
    } else if d == 1 {
        "1"
    } else if d == 2 {
        "2"
    } else if d == 3 {
        "3"
    } else if d == 4 {
        "4"
    } else if d == 5 {
        "5"
    } else if d == 6 {
        "6"
    } else if d == 7 {
        "7"
    } else if d == 8 {
        "8"
    } else if d == 9 {
        "9"
    } else if d == 10 {
        "a"
    } else if d == 11 {
        "b"
    } else if d == 12 {
        "c"
    } else if d == 13 {
        "d"
    } else if d == 14 {
        "e"
    } else {
        "f"
    };
    assert(s@ =~= seq![hex_digit(d as int)]);
    s
}

/// The bytes in hexadecimal, in lower case.
pub fn to_hex(bytes: &[u8]) -> (hex: String)
    ensures
        hex@ == hex_of(bytes@),
        hex@.len() == 2 * bytes@.len(),
{
    let mut hex = String::new();
    let mut i: usize = 0;
    while i < bytes.len()
        invariant
            0 <= i <= bytes@.len(),
            hex@ == hex_of(bytes@.take(i as int)),
        decreases bytes@.len() - i,
    {
        let b = bytes[i];
        hex.append(digit_str(b / 16));
        hex.append(digit_str(b % 16));
        proof {
            let more = bytes@.take(i + 1);
            assert(more.drop_last() =~= bytes@.take(i as int));
            assert(more.last() == b);
            assert(hex@ =~= hex_of(more));
        }
        i = i + 1;
    }
    proof {
        assert(bytes@.take(i as int) =~= bytes@);
        lemma_hex_len(bytes@);
    }
    hex
}

/// The signature of a request: the HMAC-SHA256 code of `s` under `secret`,
/// in hexadecimal.
pub fn sign(secret: &str, s: &str) -> (signature: String)
    ensures
        signature@ == hex_of(spec_hmac_sha256(secret.spec_bytes(), s.spec_bytes())),
        signature@.len() == 64,
{
    let code = hmac_sha256(secret.as_bytes(), s.as_bytes());
    to_hex(code.as_slice())
}

/// Why a request was not made or did not succeed.
#[derive(Debug)]
pub enum RequestError {
    /// The request asks for more than the venue takes at once.
    InvalidRequest,
    /// The request could not be sent or its answer not be read.
    ReqError,
    /// The venue refused the order, with its code and message.
    OrderError(i64, String),
}

/// The decimal digits of a number.
pub open spec fn decimal_digits(n: nat) -> Seq<char>
    decreases n,
{
    if n < 10 {
        seq![hex_digit(n as int)]
    } else {
        decimal_digits(n / 10).push(hex_digit((n % 10) as int))
    }
}

/// A number in decimal, with a minus sign before a negative one.
pub open spec fn decimal_of(n: int) -> Seq<char> {
    if n < 0 {
        "-"@ + decimal_digits((-n) as nat)
    } else {
        decimal_digits(n as nat)
    }
}

/// Appends the decimal digits of `n`.
fn append_digits(s: &mut String, n: u64)
    ensures
        final(s)@ == old(s)@ + decimal_digits(n as nat),
    decreases n,
{
    if n >= 10 {
        append_digits(s, n / 10);
    }
    s.append(digit_str((n % 10) as u8));
    proof {
        if n >= 10 {
            assert(final(s)@ =~= old(s)@ + decimal_digits((n / 10) as nat).push(
                hex_digit((n % 10) as int),
            ));
        } else {
            assert(final(s)@ =~= old(s)@ + seq![hex_digit(n as int)]);
        }
    }
}

/// Appends `n` in decimal.
pub fn append_decimal(s: &mut String, n: i64)
    ensures
        final(s)@ == old(s)@ + decimal_of(n as int),
{
    if n < 0 {
        s.append("-");
        let magnitude: u64 = (-(n + 1)) as u64 + 1;
        append_digits(s, magnitude);
        assert(final(s)@ =~= old(s)@ + ("-"@ + decimal_digits((-n) as nat)));
    } else {
        append_digits(s, n as u64);
    }
}

/// The query of a signed request for reading: the caller's query, if any,
/// then the receive window and the timestamp.
pub open spec fn spec_timed_query(query: Seq<char>, time: int) -> Seq<char> {
    (if query.len() == 0 {
        query
    } else {
        query + "&"@
    }) + "recvWindow=5000&timestamp="@ + decimal_of(time)
}

/// The query of a signed request for reading, which is what is signed: the
/// caller's query, if any, then the receive window and the timestamp in
/// milliseconds.
pub fn timed_query(query: &str, time: i64) -> (q: String)
    ensures
        q@ == spec_timed_query(query@, time as int),
{
    let mut q = String::from_str(query);
    if !query.is_empty() {
        q.append("&");
    }
    q.append("recvWindow=5000&timestamp=");
    append_decimal(&mut q, time);
    q
}

/// What is signed of a request that carries a body: the receive window and
/// the timestamp in milliseconds, followed by the body.
pub fn timed_body(time: i64, body: &str) -> (q: String)
    ensures
        q@ == "recvWindow=5000&timestamp="@ + decimal_of(time as int) + body@,
{
    let mut q = String::from_str("recvWindow=5000&timestamp=");
    append_decimal(&mut q, time);
    q.append(body);
    q
}

/// The address of a signed request for reading.
pub fn read_url(url: &str, path: &str, query: &str, signature: &str) -> (u: String)
    ensures
        u@ == url@ + path@ + "?"@ + query@ + "&signature="@ + signature@,
{
    let mut u = String::from_str(url);
    u.append(path);
    u.append("?");
    u.append(query);
    u.append("&signature=");
    u.append(signature);
    u
}

/// The address of a signed request that carries a body.
pub fn write_url(url: &str, path: &str, time: i64, signature: &str) -> (u: String)
    ensures
        u@ == url@ + path@ + "?recvWindow=5000&timestamp="@ + decimal_of(time as int)
            + "&signature="@ + signature@,
{
    let mut u = String::from_str(url);
    u.append(path);
    u.append("?recvWindow=5000&timestamp=");
    append_decimal(&mut u, time);
    u.append("&signature=");
    u.append(signature);
    u
}

/// One order of a request. Price and quantity are the decimal figures that
/// the venue is to read.
pub struct OrderRequest {
    pub client_order_id: String,
    pub symbol: String,
    pub side: Side,
    pub price: String,
    pub qty: String,
    pub order_type: OrdType,
    pub time_in_force: TimeInForce,
}

impl OrderRequest {
    /// The order as the body of a submission.
    pub open spec fn form(&self) -> Seq<char> {
        "newClientOrderId="@ + self.client_order_id@ + "&symbol="@ + self.symbol@ + "&side="@
            + self.side.spec_as_str() + "&price="@ + self.price@ + "&quantity="@ + self.qty@
            + "&type="@ + self.order_type.spec_as_str() + "&timeInForce="@
            + self.time_in_force.spec_as_str()
    }

    /// The order as an item of a batch.
    pub open spec fn json(&self) -> Seq<char> {
        "{\"newClientOrderId\":\""@ + self.client_order_id@ + "\",\"symbol\":\""@ + self.symbol@
            + "\",\"side\":\""@ + self.side.spec_as_str() + "\",\"price\":\""@ + self.price@
            + "\",\"quantity\":\""@ + self.qty@ + "\",\"type\":\""@
            + self.order_type.spec_as_str() + "\",\"timeInForce\":\""@
            + self.time_in_force.spec_as_str() + "\"}"@
    }

    /// The order as the body of a modification.
    pub open spec fn modification(&self) -> Seq<char> {
        "symbol="@ + self.symbol@ + "&origClientOrderId="@ + self.client_order_id@ + "&side="@
            + self.side.spec_as_str() + "&price="@ + self.price@ + "&quantity="@ + self.qty@
    }

    /// Appends the order as an item of a batch.
    fn append_json(&self, body: &mut String)
        ensures
            final(body)@ == old(body)@ + self.json(),
    {
        body.append("{\"newClientOrderId\":\"");
        body.append(self.client_order_id.as_str());
        body.append("\",\"symbol\":\"");
        body.append(self.symbol.as_str());
        body.append("\",\"side\":\"");
        body.append(self.side.as_str());
        body.append("\",\"price\":\"");
        body.append(self.price.as_str());
        body.append("\",\"quantity\":\"");
        body.append(self.qty.as_str());
        body.append("\",\"type\":\"");
        body.append(self.order_type.as_str());
        body.append("\",\"timeInForce\":\"");
        body.append(self.time_in_force.as_str());
        body.append("\"}");
        assert(final(body)@ =~= old(body)@ + self.json());
    }
}

/// The body of the submission of one order.
pub fn submit_order_body(order: &OrderRequest) -> (body: String)
    ensures
        body@ == order.form(),
{
    let mut body = String::from_str("newClientOrderId=");
    body.append(order.client_order_id.as_str());
    body.append("&symbol=");
    body.append(order.symbol.as_str());
    body.append("&side=");
    body.append(order.side.as_str());
    body.append("&price=");
    body.append(order.price.as_str());
    body.append("&quantity=");
    body.append(order.qty.as_str());
    body.append("&type=");
    body.append(order.order_type.as_str());
    body.append("&timeInForce=");
    body.append(order.time_in_force.as_str());
    body
}

/// The body of the modification of one order: its symbol, id and side, and
/// the new price and quantity.
pub fn modify_order_body(order: &OrderRequest) -> (body: String)
    ensures
        body@ == order.modification(),
{
    let mut body = String::from_str("symbol=");
    body.append(order.symbol.as_str());
    body.append("&origClientOrderId=");
    body.append(order.client_order_id.as_str());
    body.append("&side=");
    body.append(order.side.as_str());
    body.append("&price=");
    body.append(order.price.as_str());
    body.append("&quantity=");
    body.append(order.qty.as_str());
    body
}

/// The body of the cancellation of one order.
pub fn cancel_order_body(symbol: &str, client_order_id: &str) -> (body: String)
    ensures
        body@ == "symbol="@ + symbol@ + "&origClientOrderId="@ + client_order_id@,
{
    let mut body = String::from_str("symbol=");
    body.append(symbol);
    body.append("&origClientOrderId=");
    body.append(client_order_id);
    body
}

/// The body of the cancellation of all orders of a symbol.
pub fn cancel_all_orders_body(symbol: &str) -> (body: String)
    ensures
        body@ == "symbol="@ + symbol@,
{
    let mut body = String::from_str("symbol=");
    body.append(symbol);
    body
}

/// The query for the book of a symbol, a thousand levels deep.
pub fn depth_query(symbol: &str) -> (query: String)
    ensures
        query@ == "symbol="@ + symbol@ + "&limit=1000"@,
{
    let mut query = String::from_str("symbol=");
    query.append(symbol);
    query.append("&limit=1000");
    query
}

/// The first `n` orders as items of a batch, with commas between them.
pub open spec fn batch_items(orders: Seq<OrderRequest>, n: int) -> Seq<char>
    decreases n,
{
    if n <= 0 {
        Seq::empty()
    } else if n == 1 {
        orders[0].json()
    } else {
        batch_items(orders, n - 1) + ","@ + orders[n - 1].json()
    }
}

/// The body of the submission of a batch of orders.
pub open spec fn spec_submit_orders_body(orders: Seq<OrderRequest>) -> Seq<char> {
    "{\"batchOrders\":["@ + batch_items(orders, orders.len() as int) + "]}"@
}

/// The body of the submission of a batch of orders. The venue takes five
/// orders at once: a larger batch is refused.
pub fn submit_orders_body(orders: &Vec<OrderRequest>) -> (r: Result<String, RequestError>)
    ensures
        orders@.len() > 5 ==> r is Err && r->Err_0 is InvalidRequest,
        orders@.len() <= 5 ==> r is Ok && r->Ok_0@ == spec_submit_orders_body(orders@),
{
    if orders.len() > 5 {
        return Err(RequestError::InvalidRequest);
    }
    let mut body = String::from_str("{\"batchOrders\":[");
    let mut i: usize = 0;
    while i < orders.len()
        invariant
            0 <= i <= orders@.len(),
            body@ == "{\"batchOrders\":["@ + batch_items(orders@, i as int),
        decreases orders@.len() - i,
    {
        if i > 0 {
            body.append(",");
        }
        orders[i].append_json(&mut body);
        proof {
            assert(body@ =~= "{\"batchOrders\":["@ + batch_items(orders@, i + 1));
        }
        i = i + 1;
    }
    body.append("]}");
    Ok(body)
}

/// The first `n` ids in quotes, with commas between them.
pub open spec fn quoted_ids(ids: Seq<String>, n: int) -> Seq<char>
    decreases n,
{
    if n <= 0 {
        Seq::empty()
    } else if n == 1 {
        "\""@ + ids[0]@ + "\""@
    } else {
        quoted_ids(ids, n - 1) + ","@ + "\""@ + ids[n - 1]@ + "\""@
    }
}

/// The body of the cancellation of several orders of a symbol.
pub open spec fn spec_cancel_orders_body(symbol: Seq<char>, ids: Seq<String>) -> Seq<char> {
    "{\"symbol\":\""@ + symbol + "\",\"origClientOrderIdList\":["@ + quoted_ids(
        ids,
        ids.len() as int,
    ) + "]}"@
}

/// The body of the cancellation of several orders of a symbol. The venue
/// takes ten ids at once: a longer list is refused.
pub fn cancel_orders_body(symbol: &str, client_order_ids: &Vec<String>) -> (r: Result<
    String,
    RequestError,
>)
    ensures
        client_order_ids@.len() > 10 ==> r is Err && r->Err_0 is InvalidRequest,
        client_order_ids@.len() <= 10 ==> r is Ok && r->Ok_0@ == spec_cancel_orders_body(
            symbol@,
            client_order_ids@,
        ),
{
    if client_order_ids.len() > 10 {
        return Err(RequestError::InvalidRequest);
    }
    let mut body = String::from_str("{\"symbol\":\"");
    body.append(symbol);
    body.append("\",\"origClientOrderIdList\":[");
    let ghost head = body@;
    let mut i: usize = 0;
    while i < client_order_ids.len()
        invariant
            0 <= i <= client_order_ids@.len(),
            head == "{\"symbol\":\""@ + symbol@ + "\",\"origClientOrderIdList\":["@,
            body@ == head + quoted_ids(client_order_ids@, i as int),
        decreases client_order_ids@.len() - i,
    {
        if i > 0 {
            body.append(",");
        }
        body.append("\"");
        body.append(client_order_ids[i].as_str());
        body.append("\"");
        proof {
            assert(body@ =~= head + quoted_ids(client_order_ids@, i + 1));
        }
        i = i + 1;
    }
    body.append("]}");
    Ok(body)
}

} // verus!

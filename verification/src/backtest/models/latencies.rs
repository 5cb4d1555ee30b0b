//! Latency models: the delay between a request leaving the strategy and
//! reaching the exchange, and between the exchange's answer and its arrival.

use crate::ty::Order;
use vstd::prelude::*;

verus! {

/// `now + latency`, held at the largest timestamp where the sum would pass
/// it: an entry due then is never delivered.
pub open spec fn spec_delivery_timestamp(now: i64, latency: i64) -> i64 {
    if now + latency > i64::MAX {
        i64::MAX
    } else if now + latency < i64::MIN {
        i64::MIN
    } else {
        (now + latency) as i64
    }
}

/// The timestamp at which something sent at `now` arrives after `latency`.
pub fn delivery_timestamp(now: i64, latency: i64) -> (t: i64)
    ensures
        t == spec_delivery_timestamp(now, latency),
        latency >= 0 ==> t >= now,
{
    match now.checked_add(latency) {
        Some(t) => t,
        None => if latency > 0 {
            i64::MAX
        } else {
            i64::MIN
        },
    }
}

/// A latency model: a pure function from the timestamp and the order to the
/// two delays, neither of which is negative.
pub trait LatencyModel<Q> {
    /// The delay from the strategy to the exchange.
    spec fn spec_entry(&self, timestamp: i64, order: Order<Q>) -> i64;

    /// The delay from the exchange back to the strategy.
    spec fn spec_response(&self, timestamp: i64, order: Order<Q>) -> i64;

    /// The delay from the strategy to the exchange.
    fn entry(&self, timestamp: i64, order: &Order<Q>) -> (d: i64)
        ensures
            d == self.spec_entry(timestamp, *order),
            d >= 0,
    ;

    /// The delay from the exchange back to the strategy.
    fn response(&self, timestamp: i64, order: &Order<Q>) -> (d: i64)
        ensures
            d == self.spec_response(timestamp, *order),
            d >= 0,
    ;
}

/// The same delay for every order: one value per direction.
pub struct ConstantLatency {
    entry_latency: i64,
    response_latency: i64,
}

impl ConstantLatency {
    #[verifier::type_invariant]
    spec fn inv(self) -> bool {
        self.entry_latency >= 0 && self.response_latency >= 0
    }

    /// The configured delay to the exchange.
    pub closed spec fn spec_entry_latency(&self) -> i64 {
        self.entry_latency
    }

    /// The configured delay back to the strategy.
    pub closed spec fn spec_response_latency(&self) -> i64 {
        self.response_latency
    }

    /// A model with the two given delays.
    pub fn new(entry_latency: i64, response_latency: i64) -> (m: Self)
        requires
            entry_latency >= 0,
            response_latency >= 0,
        ensures
            m.spec_entry_latency() == entry_latency,
            m.spec_response_latency() == response_latency,
    {
        ConstantLatency { entry_latency, response_latency }
    }
}

impl<Q> LatencyModel<Q> for ConstantLatency {
    open spec fn spec_entry(&self, timestamp: i64, order: Order<Q>) -> i64 {
        self.spec_entry_latency()
    }

    open spec fn spec_response(&self, timestamp: i64, order: Order<Q>) -> i64 {
        self.spec_response_latency()
    }

    fn entry(&self, timestamp: i64, order: &Order<Q>) -> (d: i64) {
        proof {
            use_type_invariant(self);
        }
        self.entry_latency
    }

    fn response(&self, timestamp: i64, order: &Order<Q>) -> (d: i64) {
        proof {
            use_type_invariant(self);
        }
        self.response_latency
    }
}

/// One sample of measured latency: when a request was sent, when the
/// exchange took it in, and when its response came back.
#[derive(Clone, Copy, Debug, PartialEq, Eq, Structural)]
pub struct OrderLatencyRow {
    pub req_timestamp: i64,
    pub exch_timestamp: i64,
    pub resp_timestamp: i64,
}

impl OrderLatencyRow {
    /// The delay from the strategy to the exchange in this sample.
    pub open spec fn entry(self) -> int {
        self.exch_timestamp - self.req_timestamp
    }

    /// The delay from the exchange back to the strategy in this sample.
    pub open spec fn response(self) -> int {
        self.resp_timestamp - self.exch_timestamp
    }
}

/// A series of samples that a model can work with: there is a sample, the
/// request timestamps rise from each sample to the next, and no delay is
/// negative or longer than a timestamp can hold.
pub open spec fn valid_latencies(rows: Seq<OrderLatencyRow>) -> bool {
    &&& rows.len() > 0
    &&& forall|i: int|
        0 <= i < rows.len() ==> 0 <= (#[trigger] rows[i]).entry() <= i64::MAX && 0
            <= rows[i].response() <= i64::MAX
    &&& forall|i: int, j: int|
        0 <= i < j < rows.len() ==> rows[i].req_timestamp < rows[j].req_timestamp
}

/// The value at `t` on the line from `v0` at `t0` to `v1` at `t1`, rounded
/// towards `v0`.
pub open spec fn interpolated(t: int, t0: int, v0: int, t1: int, v1: int) -> int {
    if v1 >= v0 {
        v0 + ((v1 - v0) * (t - t0)) / (t1 - t0)
    } else {
        v0 - ((v0 - v1) * (t - t0)) / (t1 - t0)
    }
}

/// The index of the last sample that was sent at or before `t`, and `-1`
/// where every sample was sent later.
pub open spec fn segment(rows: Seq<OrderLatencyRow>, t: i64) -> int
    decreases rows.len(),
{
    if rows.len() == 0 {
        -1
    } else if rows.last().req_timestamp <= t {
        rows.len() - 1
    } else {
        segment(rows.drop_last(), t)
    }
}

/// The delay at `t` between the samples around it: that of the first sample
/// before the series begins, that of the last sample from there on, and in
/// between the value on the line through the two samples around `t`.
pub open spec fn latency_at(
    rows: Seq<OrderLatencyRow>,
    t: i64,
    delay: spec_fn(OrderLatencyRow) -> int,
) -> int {
    let i = segment(rows, t);
    if i < 0 {
        delay(rows[0])
    } else if i >= rows.len() - 1 {
        delay(rows.last())
    } else {
        interpolated(
            t as int,
            rows[i].req_timestamp as int,
            delay(rows[i]),
            rows[i + 1].req_timestamp as int,
            delay(rows[i + 1]),
        )
    }
}

/// The segment of `t` starts at the last sample sent at or before `t`: the
/// next sample, if there is one, was sent later.
pub proof fn lemma_segment(rows: Seq<OrderLatencyRow>, t: i64)
    requires
        forall|i: int, j: int|
            0 <= i < j < rows.len() ==> rows[i].req_timestamp < rows[j].req_timestamp,
    ensures
        -1 <= segment(rows, t) < rows.len(),
        segment(rows, t) >= 0 ==> rows[segment(rows, t)].req_timestamp <= t,
        segment(rows, t) + 1 < rows.len() ==> t < rows[segment(rows, t) + 1].req_timestamp,
    decreases rows.len(),
{
    if rows.len() > 0 && rows.last().req_timestamp > t {
        let rest = rows.drop_last();
        assert forall|i: int, j: int| 0 <= i < j < rest.len() implies rest[i].req_timestamp
            < rest[j].req_timestamp by {
            assert(rest[i] == rows[i] && rest[j] == rows[j]);
        }
        lemma_segment(rest, t);
        let i = segment(rest, t);
        if i >= 0 {
            assert(rest[i] == rows[i]);
        }
        if i + 1 < rest.len() {
            assert(rest[i + 1] == rows[i + 1]);
        }
    }
}

/// A value on the line between two delays lies between them.
pub proof fn lemma_interpolated(t: int, t0: int, v0: int, t1: int, v1: int)
    requires
        t0 <= t < t1,
        0 <= v0,
        0 <= v1,
    ensures
        0 <= interpolated(t, t0, v0, t1, v1),
        interpolated(t, t0, v0, t1, v1) <= v0 || interpolated(t, t0, v0, t1, v1) <= v1,
{
    let span = t1 - t0;
    let part = t - t0;
    let rise = if v1 >= v0 {
        v1 - v0
    } else {
        v0 - v1
    };
    vstd::arithmetic::mul::lemma_mul_inequality(part, span, rise);
    vstd::arithmetic::mul::lemma_mul_is_commutative(part, rise);
    vstd::arithmetic::mul::lemma_mul_is_commutative(span, rise);
    vstd::arithmetic::mul::lemma_mul_nonnegative(rise, part);
    vstd::arithmetic::div_mod::lemma_div_is_ordered(rise * part, rise * span, span);
    vstd::arithmetic::div_mod::lemma_div_multiples_vanish(rise, span);
    vstd::arithmetic::div_mod::lemma_div_pos_is_pos(rise * part, span);
    assert(span * rise == rise * span);
    assert((rise * part) / span <= rise);
}

/// Delays read off a series of measured samples, on the line between the
/// two samples around the time of the request.
pub struct IntpOrderLatency {
    data: Vec<OrderLatencyRow>,
}

impl IntpOrderLatency {
    #[verifier::type_invariant]
    spec fn inv(self) -> bool {
        valid_latencies(self.data@)
    }

    /// The samples.
    pub closed spec fn rows(&self) -> Seq<OrderLatencyRow> {
        self.data@
    }

    /// Whether the rows are a series that a model can work with.
    pub fn is_valid(data: &Vec<OrderLatencyRow>) -> (b: bool)
        ensures
            b == valid_latencies(data@),
    {
        if data.len() == 0 {
            return false;
        }
        let mut i: usize = 0;
        while i < data.len()
            invariant
                0 <= i <= data@.len(),
                valid_latencies(data@.take(i as int)) || i == 0,
            decreases data@.len() - i,
        {
            let row = data[i];
            let ghost seen = data@.take(i as int);
            let ghost more = data@.take(i + 1);
            proof {
                assert(more.drop_last() =~= seen);
                assert(more[i as int] == row);
            }
            if row.req_timestamp > row.exch_timestamp || row.exch_timestamp > row.resp_timestamp {
                proof {
                    assert(data@[i as int] == row);
                }
                return false;
            }
            if row.exch_timestamp.checked_sub(row.req_timestamp).is_none()
                || row.resp_timestamp.checked_sub(row.exch_timestamp).is_none() {
                proof {
                    assert(data@[i as int] == row);
                }
                return false;
            }
            if i > 0 && data[i - 1].req_timestamp >= row.req_timestamp {
                return false;
            }
            proof {
                assert forall|a: int| 0 <= a < more.len() implies 0 <= (#[trigger] more[a]).entry()
                    <= i64::MAX && 0 <= more[a].response() <= i64::MAX by {
                    if a < i {
                        assert(more[a] == seen[a]);
                    }
                }
                assert forall|a: int, b: int| 0 <= a < b < more.len() implies more[a].req_timestamp
                    < more[b].req_timestamp by {
                    assert(more[a] == data@[a] && more[b] == data@[b]);
                    if b < i {
                        assert(seen[a] == data@[a] && seen[b] == data@[b]);
                    } else if a < i - 1 {
                        assert(seen[a] == data@[a] && seen[i - 1] == data@[i - 1]);
                    }
                }
            }
            i = i + 1;
        }
        proof {
            assert(data@.take(i as int) =~= data@);
        }
        true
    }

    /// A model over the given samples, or nothing where they are no series
    /// that a model can work with.
    pub fn new(data: Vec<OrderLatencyRow>) -> (m: Option<Self>)
        ensures
            m is Some <==> valid_latencies(data@),
            m is Some ==> m->0.rows() == data@,
    {
        if Self::is_valid(&data) {
            Some(IntpOrderLatency { data })
        } else {
            None
        }
    }

    /// The index of the last sample sent at or before `t`, counted from
    /// one: zero where every sample was sent later.
    fn locate(&self, t: i64) -> (n: usize)
        ensures
            n == segment(self.data@, t) + 1,
            n <= self.data@.len(),
    {
        let mut n: usize = self.data.len();
        assert(self.data@.take(n as int) =~= self.data@);
        while n > 0 && self.data[n - 1].req_timestamp > t
            invariant
                0 <= n <= self.data@.len(),
                segment(self.data@, t) == segment(self.data@.take(n as int), t),
            decreases n,
        {
            assert(self.data@.take(n as int).drop_last() =~= self.data@.take(n - 1));
            n = n - 1;
        }
        n
    }

    /// The value at `t` on the line from `v0` at `t0` to `v1` at `t1`.
    fn intp(t: i64, t0: i64, v0: i64, t1: i64, v1: i64) -> (v: i64)
        requires
            t0 <= t < t1,
            0 <= v0,
            0 <= v1,
        ensures
            v == interpolated(t as int, t0 as int, v0 as int, t1 as int, v1 as int),
            v >= 0,
    {
        let span: i128 = t1 as i128 - t0 as i128;
        let part: i128 = t as i128 - t0 as i128;
        proof {
            lemma_interpolated(t as int, t0 as int, v0 as int, t1 as int, v1 as int);
        }
        if v1 >= v0 {
            let rise: i128 = v1 as i128 - v0 as i128;
            assert(0 <= rise * part <= 0x7fff_ffff_ffff_ffff * 0xffff_ffff_ffff_ffff)
                by (nonlinear_arith)
                requires
                    0 <= rise <= 0x7fff_ffff_ffff_ffff,
                    0 <= part <= 0xffff_ffff_ffff_ffff,
            ;
            (v0 as i128 + (rise * part) / span) as i64
        } else {
            let fall: i128 = v0 as i128 - v1 as i128;
            assert(0 <= fall * part <= 0x7fff_ffff_ffff_ffff * 0xffff_ffff_ffff_ffff)
                by (nonlinear_arith)
                requires
                    0 <= fall <= 0x7fff_ffff_ffff_ffff,
                    0 <= part <= 0xffff_ffff_ffff_ffff,
            ;
            (v0 as i128 - (fall * part) / span) as i64
        }
    }
}

impl<Q> LatencyModel<Q> for IntpOrderLatency {
    open spec fn spec_entry(&self, timestamp: i64, order: Order<Q>) -> i64 {
        latency_at(self.rows(), timestamp, |r: OrderLatencyRow| r.entry()) as i64
    }

    open spec fn spec_response(&self, timestamp: i64, order: Order<Q>) -> i64 {
        latency_at(self.rows(), timestamp, |r: OrderLatencyRow| r.response()) as i64
    }

    fn entry(&self, timestamp: i64, order: &Order<Q>) -> (d: i64) {
        proof {
            use_type_invariant(self);
            lemma_segment(self.data@, timestamp);
        }
        let n = self.locate(timestamp);
        let last = self.data.len() - 1;
        if n == 0 {
            let row = self.data[0];
            row.exch_timestamp - row.req_timestamp
        } else if n - 1 >= last {
            let row = self.data[last];
            row.exch_timestamp - row.req_timestamp
        } else {
            let a = self.data[n - 1];
            let b = self.data[n];
            Self::intp(
                timestamp,
                a.req_timestamp,
                a.exch_timestamp - a.req_timestamp,
                b.req_timestamp,
                b.exch_timestamp - b.req_timestamp,
            )
        }
    }

    fn response(&self, timestamp: i64, order: &Order<Q>) -> (d: i64) {
        proof {
            use_type_invariant(self);
            lemma_segment(self.data@, timestamp);
        }
        let n = self.locate(timestamp);
        let last = self.data.len() - 1;
        if n == 0 {
            let row = self.data[0];
            row.resp_timestamp - row.exch_timestamp
        } else if n - 1 >= last {
            let row = self.data[last];
            row.resp_timestamp - row.exch_timestamp
        } else {
            let a = self.data[n - 1];
            let b = self.data[n];
            Self::intp(
                timestamp,
                a.req_timestamp,
                a.resp_timestamp - a.exch_timestamp,
                b.req_timestamp,
                b.resp_timestamp - b.exch_timestamp,
            )
        }
    }
}

} // verus!

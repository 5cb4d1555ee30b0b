//! Queue models: where a resting order stands among the quantity at its
//! price level.

use crate::depth::hashmapmarketdepth::HashMapMarketDepth;
use crate::depth::{level_qty, Book, MarketDepth};
use crate::ty::{Order, Side};
use vstd::prelude::*;

verus! {

/// A queue model keeps the queue position `q` of a resting order up to date
/// and says when the queue has moved past the order. Each operation is a
/// pure function of the order, the event and the book.
pub trait QueueModel<Q> {
    /// The position of an order that joins the book now.
    spec fn spec_new_order(&self, order: Order<Q>, book: Book) -> Q;

    /// The position after a trade of `qty` printed at the order's level.
    spec fn spec_trade(&self, order: Order<Q>, qty: u32, book: Book) -> Q;

    /// The position after the quantity at the order's level went from
    /// `prev_qty` to `new_qty`.
    spec fn spec_depth(&self, order: Order<Q>, prev_qty: u32, new_qty: u32, book: Book) -> Q;

    /// Whether the queue has moved past the order.
    spec fn spec_is_filled(&self, order: Order<Q>, book: Book) -> bool;

    /// Sets the position of an order that joins the book now.
    fn new_order(&self, order: &mut Order<Q>, depth: &HashMapMarketDepth)
        requires
            depth.wf(),
        ensures
            *final(order) == (Order {
                q: self.spec_new_order(*old(order), depth.book()),
                ..*old(order)
            }),
    ;

    /// Moves the position for a trade of `qty` at the order's level.
    fn trade(&self, order: &mut Order<Q>, qty: u32, depth: &HashMapMarketDepth)
        requires
            depth.wf(),
        ensures
            *final(order) == (Order {
                q: self.spec_trade(*old(order), qty, depth.book()),
                ..*old(order)
            }),
    ;

    /// Moves the position for a change of the quantity at the order's level.
    fn depth(&self, order: &mut Order<Q>, prev_qty: u32, new_qty: u32, depth: &HashMapMarketDepth)
        requires
            depth.wf(),
        ensures
            *final(order) == (Order {
                q: self.spec_depth(*old(order), prev_qty, new_qty, depth.book()),
                ..*old(order)
            }),
    ;

    /// Whether the queue has moved past the order.
    fn is_filled(&self, order: &Order<Q>, depth: &HashMapMarketDepth) -> (b: bool)
        requires
            depth.wf(),
        ensures
            b == self.spec_is_filled(*order, depth.book()),
    ;
}

/// The quantity resting at the order's own level and side.
pub open spec fn level_of<Q>(order: Order<Q>, book: Book) -> u32 {
    if order.side == Side::Buy {
        level_qty(book.bids, order.price_tick)
    } else {
        level_qty(book.asks, order.price_tick)
    }
}

/// `a - b`, held at the smallest value where the difference would pass it.
pub open spec fn spec_sub_qty(a: i64, b: u32) -> i64 {
    if a - b < i64::MIN {
        i64::MIN
    } else {
        (a - b) as i64
    }
}

/// `a - b`, held at the smallest value where the difference would pass it.
pub fn sub_qty(a: i64, b: u32) -> (r: i64)
    ensures
        r == spec_sub_qty(a, b),
{
    if a < i64::MIN + b as i64 {
        i64::MIN
    } else {
        a - b as i64
    }
}

/// The cautious model: the order joins behind everything at its level, only
/// trades move it forward, and it is filled once more than the quantity
/// ahead of it has traded. The position is the quantity still ahead.
pub struct RiskAverseQueueModel {}

impl RiskAverseQueueModel {
    /// The cautious model.
    pub fn new() -> Self {
        RiskAverseQueueModel {  }
    }
}

impl QueueModel<i64> for RiskAverseQueueModel {
    open spec fn spec_new_order(&self, order: Order<i64>, book: Book) -> i64 {
        level_of(order, book) as i64
    }

    open spec fn spec_trade(&self, order: Order<i64>, qty: u32, book: Book) -> i64 {
        spec_sub_qty(order.q, qty)
    }

    open spec fn spec_depth(&self, order: Order<i64>, prev_qty: u32, new_qty: u32,
        book: Book) -> i64 {
        if order.q <= new_qty {
            order.q
        } else {
            new_qty as i64
        }
    }

    open spec fn spec_is_filled(&self, order: Order<i64>, book: Book) -> bool {
        order.q < 0
    }

    fn new_order(&self, order: &mut Order<i64>, depth: &HashMapMarketDepth) {
        let front = if order.side == Side::Buy {
            depth.bid_qty_at_tick(order.price_tick)
        } else {
            depth.ask_qty_at_tick(order.price_tick)
        };
        order.q = front as i64;
    }

    fn trade(&self, order: &mut Order<i64>, qty: u32, depth: &HashMapMarketDepth) {
        order.q = sub_qty(order.q, qty);
    }

    fn depth(&self, order: &mut Order<i64>, prev_qty: u32, new_qty: u32,
        depth: &HashMapMarketDepth) {
        if order.q > new_qty as i64 {
            order.q = new_qty as i64;
        }
    }

    fn is_filled(&self, order: &Order<i64>, depth: &HashMapMarketDepth) -> (b: bool) {
        order.q < 0
    }
}

/// A queue position as the probabilistic model keeps it: the quantity
/// ahead of the order, and what has traded at its level since the level's
/// quantity last changed.
#[derive(Clone, Copy, Debug, PartialEq, Eq, Structural)]
pub struct QueuePos {
    pub front_q_qty: i64,
    pub cum_trade_qty: i64,
}

impl Default for QueuePos {
    fn default() -> (q: Self)
        ensures
            q == (QueuePos { front_q_qty: 0, cum_trade_qty: 0 }),
    {
        QueuePos { front_q_qty: 0, cum_trade_qty: 0 }
    }
}

/// A number held within the range of `i64`.
pub open spec fn clamped(x: int) -> i64 {
    if x > i64::MAX {
        i64::MAX
    } else if x < i64::MIN {
        i64::MIN
    } else {
        x as i64
    }
}

/// A number held within the range of `i64`.
pub fn clamp(x: i128) -> (r: i64)
    ensures
        r == clamped(x as int),
{
    if x > i64::MAX as i128 {
        i64::MAX
    } else if x < i64::MIN as i128 {
        i64::MIN
    } else {
        x as i64
    }
}

/// A quantity as a weight takes it: nothing below zero, and no more than a
/// level can hold.
pub open spec fn as_qty(x: int) -> int {
    if x < 0 {
        0
    } else if x > u32::MAX {
        u32::MAX as int
    } else {
        x
    }
}

/// How a decrease of the quantity at a level is split between the orders
/// ahead of a resting order and those behind it: by the weight of each of
/// the two quantities.
pub trait ProbQueueFunc {
    /// The weight of a quantity.
    spec fn spec_weight(&self, qty: u32) -> u64;

    /// The weight of a quantity.
    fn weight(&self, qty: u32) -> (w: u64)
        ensures
            w == self.spec_weight(qty),
    ;
}

/// The weight of a quantity is the quantity itself or its square.
pub struct PowerProbQueueFunc {
    square: bool,
}

impl PowerProbQueueFunc {
    /// Whether the weight is the square of the quantity.
    pub closed spec fn is_square(&self) -> bool {
        self.square
    }

    /// The power function with the exponent `n`, which is one or two.
    pub fn new(n: u32) -> (f: Option<Self>)
        ensures
            f is Some <==> n == 1 || n == 2,
            f is Some ==> f->0.is_square() == (n == 2),
    {
        if n == 1 {
            Some(PowerProbQueueFunc { square: false })
        } else if n == 2 {
            Some(PowerProbQueueFunc { square: true })
        } else {
            None
        }
    }
}

impl ProbQueueFunc for PowerProbQueueFunc {
    open spec fn spec_weight(&self, qty: u32) -> u64 {
        if self.is_square() {
            (qty * qty) as u64
        } else {
            qty as u64
        }
    }

    fn weight(&self, qty: u32) -> (w: u64) {
        if self.square {
            assert(0 <= qty * qty <= 0xffff_fffe_0000_0001) by (nonlinear_arith)
                requires
                    0 <= qty <= 0xffff_ffff,
            ;
            qty as u64 * qty as u64
        } else {
            qty as u64
        }
    }
}

/// The part of a decrease `chg` that came from behind the order, where
/// `front` is ahead of it and `back` behind: the share of the weight of
/// what is behind, rounded down, and all of it where neither side has
/// weight.
pub open spec fn from_behind(chg: int, front_weight: u64, back_weight: u64) -> int {
    if front_weight + back_weight == 0 {
        chg
    } else {
        (chg * back_weight) / (front_weight + back_weight)
    }
}

/// The probabilistic model. The order joins behind everything at its level.
/// A trade at the level takes its quantity from the front. Any other
/// decrease of the level is split between front and back by the weights of
/// the two; an increase joins at the back.
pub struct ProbQueueModel<P> {
    pub prob: P,
}

impl<P: ProbQueueFunc> ProbQueueModel<P> {
    /// The probabilistic model with the given weights.
    pub fn new(prob: P) -> (m: Self)
        ensures
            m.prob == prob,
    {
        ProbQueueModel { prob }
    }

    /// The position after the quantity of the level went from `prev_qty` to
    /// `new_qty`. What has traded since the last change is taken off the
    /// decrease, having moved the order already. What is left of the
    /// decrease is split: the part from ahead moves the order forward, and
    /// so does what the part from behind exceeds the quantity behind. The
    /// order never has more ahead of it than the level holds.
    pub open spec fn moved(&self, q: QueuePos, prev_qty: u32, new_qty: u32) -> QueuePos {
        let chg = prev_qty - new_qty - q.cum_trade_qty;
        let front = q.front_q_qty as int;
        if chg < 0 {
            QueuePos {
                front_q_qty: if front <= new_qty {
                    q.front_q_qty
                } else {
                    new_qty as i64
                },
                cum_trade_qty: 0,
            }
        } else {
            let back = prev_qty - front;
            let behind = from_behind(
                chg,
                self.prob.spec_weight(as_qty(front) as u32),
                self.prob.spec_weight(as_qty(back) as u32),
            );
            let est = front - (chg - behind) + if back - behind < 0 {
                back - behind
            } else {
                0
            };
            QueuePos {
                front_q_qty: if est <= new_qty {
                    clamped(est)
                } else {
                    new_qty as i64
                },
                cum_trade_qty: 0,
            }
        }
    }
}

impl<P: ProbQueueFunc> QueueModel<QueuePos> for ProbQueueModel<P> {
    open spec fn spec_new_order(&self, order: Order<QueuePos>, book: Book) -> QueuePos {
        QueuePos { front_q_qty: level_of(order, book) as i64, cum_trade_qty: 0 }
    }

    open spec fn spec_trade(&self, order: Order<QueuePos>, qty: u32, book: Book) -> QueuePos {
        QueuePos {
            front_q_qty: spec_sub_qty(order.q.front_q_qty, qty),
            cum_trade_qty: clamped(order.q.cum_trade_qty + qty),
        }
    }

    open spec fn spec_depth(
        &self,
        order: Order<QueuePos>,
        prev_qty: u32,
        new_qty: u32,
        book: Book,
    ) -> QueuePos {
        self.moved(order.q, prev_qty, new_qty)
    }

    open spec fn spec_is_filled(&self, order: Order<QueuePos>, book: Book) -> bool {
        order.q.front_q_qty < 0
    }

    fn new_order(&self, order: &mut Order<QueuePos>, depth: &HashMapMarketDepth) {
        let front = if order.side == Side::Buy {
            depth.bid_qty_at_tick(order.price_tick)
        } else {
            depth.ask_qty_at_tick(order.price_tick)
        };
        order.q = QueuePos { front_q_qty: front as i64, cum_trade_qty: 0 };
    }

    fn trade(&self, order: &mut Order<QueuePos>, qty: u32, depth: &HashMapMarketDepth) {
        order.q = QueuePos {
            front_q_qty: sub_qty(order.q.front_q_qty, qty),
            cum_trade_qty: clamp(order.q.cum_trade_qty as i128 + qty as i128),
        };
    }

    fn depth(&self, order: &mut Order<QueuePos>, prev_qty: u32, new_qty: u32,
        depth: &HashMapMarketDepth) {
        let front: i128 = order.q.front_q_qty as i128;
        let chg: i128 = prev_qty as i128 - new_qty as i128 - order.q.cum_trade_qty as i128;
        if chg < 0 {
            if front > new_qty as i128 {
                order.q = QueuePos { front_q_qty: new_qty as i64, cum_trade_qty: 0 };
            } else {
                order.q = QueuePos { front_q_qty: order.q.front_q_qty, cum_trade_qty: 0 };
            }
            return ;
        }
        let back: i128 = prev_qty as i128 - front;
        let front_weight = self.prob.weight(as_exec_qty(front));
        let back_weight = self.prob.weight(as_exec_qty(back));
        let total: u128 = front_weight as u128 + back_weight as u128;
        let behind: i128 = if total == 0 {
            chg
        } else {
            assert(0 <= chg * back_weight <= 0x1_0000_0000_0000_0000 * 0xffff_ffff_ffff_ffff)
                by (nonlinear_arith)
                requires
                    0 <= chg <= 0x1_0000_0000_0000_0000,
                    0 <= back_weight <= 0xffff_ffff_ffff_ffff,
            ;
            let share: u128 = (chg as u128 * back_weight as u128) / total;
            proof {
                vstd::arithmetic::div_mod::lemma_div_pos_is_pos(chg * back_weight, total as int);
                vstd::arithmetic::mul::lemma_mul_inequality(
                    back_weight as int,
                    total as int,
                    chg as int,
                );
                vstd::arithmetic::mul::lemma_mul_is_commutative(chg as int, back_weight as int);
                vstd::arithmetic::mul::lemma_mul_is_commutative(chg as int, total as int);
                vstd::arithmetic::div_mod::lemma_div_is_ordered(
                    chg * back_weight,
                    total * chg,
                    total as int,
                );
                vstd::arithmetic::div_mod::lemma_div_multiples_vanish(chg as int, total as int);
            }
            share as i128
        };
        let spill: i128 = if back - behind < 0 {
            back - behind
        } else {
            0
        };
        let est: i128 = front - (chg - behind) + spill;
        if est <= new_qty as i128 {
            order.q = QueuePos { front_q_qty: clamp(est), cum_trade_qty: 0 };
        } else {
            order.q = QueuePos { front_q_qty: new_qty as i64, cum_trade_qty: 0 };
        }
    }

    fn is_filled(&self, order: &Order<QueuePos>, depth: &HashMapMarketDepth) -> (b: bool) {
        order.q.front_q_qty < 0
    }
}

/// A quantity as a weight takes it: nothing below zero, and no more than a
/// level can hold.
fn as_exec_qty(x: i128) -> (q: u32)
    ensures
        q == as_qty(x as int),
{
    if x < 0 {
        0
    } else if x > u32::MAX as i128 {
        u32::MAX
    } else {
        x as u32
    }
}

} // verus!

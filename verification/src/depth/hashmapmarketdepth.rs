//! An order book kept in two hash maps.

use crate::depth::{
    asks_cleared, best_ask_of, best_bid_of, bids_cleared, is_max_tick, is_min_tick,
    lemma_best_ask_of, lemma_best_bid_of, valid_tick, Book, MarketDepth, INVALID_MAX,
    INVALID_MIN,
};
use crate::ty::{BUY, SELL};
use std::collections::HashMap;
use vstd::prelude::*;

verus! {

broadcast use vstd::std_specs::hash::group_hash_axioms;

/// An order book kept in two hash maps from tick to quantity. The best tick
/// of each side is cached, and so is the range in which levels have ever
/// been set, which bounds the search for a new best.
pub struct HashMapMarketDepth {
    tick_size: u64,
    lot_size: u64,
    bid_depth: HashMap<i32, u32>,
    ask_depth: HashMap<i32, u32>,
    best_bid_tick: i32,
    best_ask_tick: i32,
    low_bid_tick: i32,
    high_ask_tick: i32,
}

/// The highest level of `depth` strictly below `start`, where every level
/// lies at or above `end`.
fn depth_below(depth: &HashMap<i32, u32>, start: i32, end: i32) -> (r: i32)
    requires
        forall|k: i32| depth@.contains_key(k) ==> end <= k < start,
    ensures
        r == best_bid_of(depth@.dom()),
{
    let mut t: i64 = start as i64 - 1;
    while t >= end as i64
        invariant
            i32::MIN - 1 <= t < start,
            forall|k: i32| depth@.contains_key(k) ==> end <= k <= t,
        decreases t - end + 1,
    {
        let tick: i32 = t as i32;
        if depth.contains_key(&tick) {
            proof {
                assert(is_max_tick(depth@.dom(), tick));
                lemma_best_bid_of(depth@.dom());
            }
            return tick;
        }
        t = t - 1;
    }
    proof {
        lemma_best_bid_of(depth@.dom());
    }
    INVALID_MIN
}

/// The lowest level of `depth` strictly above `start`, where every level
/// lies at or below `end`.
fn depth_above(depth: &HashMap<i32, u32>, start: i32, end: i32) -> (r: i32)
    requires
        forall|k: i32| depth@.contains_key(k) ==> start < k <= end,
    ensures
        r == best_ask_of(depth@.dom()),
{
    let mut t: i64 = start as i64 + 1;
    while t <= end as i64
        invariant
            start < t <= i32::MAX + 1,
            forall|k: i32| depth@.contains_key(k) ==> t <= k <= end,
        decreases end - t + 1,
    {
        let tick: i32 = t as i32;
        if depth.contains_key(&tick) {
            proof {
                assert(is_min_tick(depth@.dom(), tick));
                lemma_best_ask_of(depth@.dom());
            }
            return tick;
        }
        t = t + 1;
    }
    proof {
        lemma_best_ask_of(depth@.dom());
    }
    INVALID_MAX
}

impl HashMapMarketDepth {
    /// An empty book.
    pub fn new(tick_size: u64, lot_size: u64) -> (d: Self)
        ensures
            d.wf(),
            d.book().bids == Map::<i32, u32>::empty(),
            d.book().asks == Map::<i32, u32>::empty(),
            d.spec_tick_size() == tick_size,
            d.spec_lot_size() == lot_size,
    {
        let d = HashMapMarketDepth {
            tick_size,
            lot_size,
            bid_depth: HashMap::new(),
            ask_depth: HashMap::new(),
            best_bid_tick: INVALID_MIN,
            best_ask_tick: INVALID_MAX,
            low_bid_tick: INVALID_MAX,
            high_ask_tick: INVALID_MIN,
        };
        proof {
            lemma_best_bid_of(d.bid_depth@.dom());
            lemma_best_ask_of(d.ask_depth@.dom());
        }
        d
    }
}

impl HashMapMarketDepth {
    /// Drops the bid levels from `clear_upto_tick` up to, but not through,
    /// the best ask.
    fn clear_bids(&mut self, clear_upto_tick: i32)
        requires
            old(self).wf(),
        ensures
            final(self).wf(),
            final(self).spec_tick_size() == old(self).spec_tick_size(),
            final(self).spec_lot_size() == old(self).spec_lot_size(),
            final(self).book().bids == old(self).book().cleared(BUY, clear_upto_tick).bids,
            final(self).book().asks == old(self).book().asks,
    {
        proof {
            lemma_best_bid_of(self.bid_depth@.dom());
        }
        let top: i64 = if self.best_bid_tick < self.best_ask_tick {
            self.best_bid_tick as i64
        } else {
            self.best_ask_tick as i64 - 1
        };
        let mut t: i64 = if clear_upto_tick < self.low_bid_tick {
            self.low_bid_tick as i64
        } else {
            clear_upto_tick as i64
        };
        assert(self.bid_depth@ =~= old(self).bid_depth@.restrict(
            Set::new(|k: i32| k < clear_upto_tick || k >= t),
        ));
        while t <= top
            invariant
                clear_upto_tick <= t,
                top < i32::MAX,
                top == if self.best_bid_tick < self.best_ask_tick {
                    self.best_bid_tick as int
                } else {
                    self.best_ask_tick - 1
                },
                t >= self.low_bid_tick || t >= clear_upto_tick,
                t > top ==> t == clear_upto_tick || t == self.low_bid_tick || t == top + 1,
                forall|k: i32| #[trigger]
                    old(self).bid_depth@.contains_key(k) ==> self.low_bid_tick <= k
                        <= self.best_bid_tick,
                self.best_bid_tick == old(self).best_bid_tick,
                self.low_bid_tick == old(self).low_bid_tick,
                self.ask_depth == old(self).ask_depth,
                self.best_ask_tick == old(self).best_ask_tick,
                self.high_ask_tick == old(self).high_ask_tick,
                self.tick_size == old(self).tick_size,
                self.lot_size == old(self).lot_size,
                self.bid_depth@ == old(self).bid_depth@.restrict(
                    Set::new(|k: i32| k < clear_upto_tick || k >= t),
                ),
            decreases top - t + 1,
        {
            let tick: i32 = t as i32;
            self.bid_depth.remove(&tick);
            t = t + 1;
            assert(self.bid_depth@ =~= old(self).bid_depth@.restrict(
                Set::new(|k: i32| k < clear_upto_tick || k >= t),
            ));
        }
        assert(self.bid_depth@ =~= bids_cleared(
            old(self).bid_depth@,
            clear_upto_tick,
            self.best_ask_tick,
        ));
        if self.best_bid_tick != INVALID_MIN && self.best_bid_tick >= self.best_ask_tick {
            proof {
                assert(is_max_tick(self.bid_depth@.dom(), self.best_bid_tick));
                lemma_best_bid_of(self.bid_depth@.dom());
            }
        } else {
            let start = if clear_upto_tick <= self.best_bid_tick {
                clear_upto_tick
            } else if self.best_bid_tick == INVALID_MIN {
                INVALID_MIN
            } else {
                self.best_bid_tick + 1
            };
            self.best_bid_tick = depth_below(&self.bid_depth, start, self.low_bid_tick);
            if self.best_bid_tick == INVALID_MIN {
                proof {
                    lemma_best_bid_of(self.bid_depth@.dom());
                    if exists|k: i32| self.bid_depth@.dom().contains(k) {
                        assert(self.bid_depth@.contains_key(best_bid_of(self.bid_depth@.dom())));
                    }
                }
                self.low_bid_tick = INVALID_MAX;
            }
        }
    }

    /// Drops the ask levels from `clear_upto_tick` down to, but not through,
    /// the best bid.
    fn clear_asks(&mut self, clear_upto_tick: i32)
        requires
            old(self).wf(),
        ensures
            final(self).wf(),
            final(self).spec_tick_size() == old(self).spec_tick_size(),
            final(self).spec_lot_size() == old(self).spec_lot_size(),
            final(self).book().asks == old(self).book().cleared(SELL, clear_upto_tick).asks,
            final(self).book().bids == old(self).book().bids,
    {
        proof {
            lemma_best_ask_of(self.ask_depth@.dom());
        }
        let bottom: i64 = if self.best_ask_tick > self.best_bid_tick {
            self.best_ask_tick as i64
        } else {
            self.best_bid_tick as i64 + 1
        };
        let mut t: i64 = if clear_upto_tick > self.high_ask_tick {
            self.high_ask_tick as i64
        } else {
            clear_upto_tick as i64
        };
        assert(self.ask_depth@ =~= old(self).ask_depth@.restrict(
            Set::new(|k: i32| k > clear_upto_tick || k <= t),
        ));
        while t >= bottom
            invariant
                t <= clear_upto_tick,
                bottom > i32::MIN,
                bottom == if self.best_ask_tick > self.best_bid_tick {
                    self.best_ask_tick as int
                } else {
                    self.best_bid_tick + 1
                },
                t < bottom ==> t == clear_upto_tick || t == self.high_ask_tick || t == bottom - 1,
                forall|k: i32| #[trigger]
                    old(self).ask_depth@.contains_key(k) ==> self.best_ask_tick <= k
                        <= self.high_ask_tick,
                self.best_ask_tick == old(self).best_ask_tick,
                self.high_ask_tick == old(self).high_ask_tick,
                self.bid_depth == old(self).bid_depth,
                self.best_bid_tick == old(self).best_bid_tick,
                self.low_bid_tick == old(self).low_bid_tick,
                self.tick_size == old(self).tick_size,
                self.lot_size == old(self).lot_size,
                self.ask_depth@ == old(self).ask_depth@.restrict(
                    Set::new(|k: i32| k > clear_upto_tick || k <= t),
                ),
            decreases t - bottom + 1,
        {
            let tick: i32 = t as i32;
            self.ask_depth.remove(&tick);
            t = t - 1;
            assert(self.ask_depth@ =~= old(self).ask_depth@.restrict(
                Set::new(|k: i32| k > clear_upto_tick || k <= t),
            ));
        }
        assert(self.ask_depth@ =~= asks_cleared(
            old(self).ask_depth@,
            clear_upto_tick,
            self.best_bid_tick,
        ));
        if self.best_ask_tick != INVALID_MAX && self.best_ask_tick <= self.best_bid_tick {
            proof {
                assert(is_min_tick(self.ask_depth@.dom(), self.best_ask_tick));
                lemma_best_ask_of(self.ask_depth@.dom());
            }
        } else {
            let start = if clear_upto_tick >= self.best_ask_tick {
                clear_upto_tick
            } else if self.best_ask_tick == INVALID_MAX {
                INVALID_MAX
            } else {
                self.best_ask_tick - 1
            };
            self.best_ask_tick = depth_above(&self.ask_depth, start, self.high_ask_tick);
            if self.best_ask_tick == INVALID_MAX {
                proof {
                    lemma_best_ask_of(self.ask_depth@.dom());
                    if exists|k: i32| self.ask_depth@.dom().contains(k) {
                        assert(self.ask_depth@.contains_key(best_ask_of(self.ask_depth@.dom())));
                    }
                }
                self.high_ask_tick = INVALID_MIN;
            }
        }
    }
}

impl MarketDepth for HashMapMarketDepth {
    closed spec fn wf(&self) -> bool {
        &&& forall|k: i32| #[trigger]
            self.bid_depth@.contains_key(k) ==> valid_tick(k) && self.bid_depth@[k] > 0
                && self.low_bid_tick <= k
        &&& forall|k: i32| #[trigger]
            self.ask_depth@.contains_key(k) ==> valid_tick(k) && self.ask_depth@[k] > 0 && k
                <= self.high_ask_tick
        &&& self.best_bid_tick == best_bid_of(self.bid_depth@.dom())
        &&& self.best_ask_tick == best_ask_of(self.ask_depth@.dom())
    }

    closed spec fn book(&self) -> Book {
        Book { bids: self.bid_depth@, asks: self.ask_depth@ }
    }

    closed spec fn spec_tick_size(&self) -> u64 {
        self.tick_size
    }

    closed spec fn spec_lot_size(&self) -> u64 {
        self.lot_size
    }

    proof fn lemma_book_ok(&self) {
    }

    fn update_bid_depth(&mut self, price_tick: i32, qty: u32, timestamp: i64) -> (r: (
        i32,
        i32,
        i32,
        u32,
        u32,
        i64,
    )) {
        let prev_best_bid_tick = self.best_bid_tick;
        let prev_qty = match self.bid_depth.get(&price_tick) {
            Some(q) => *q,
            None => 0,
        };
        proof {
            lemma_best_bid_of(self.bid_depth@.dom());
        }
        if qty == 0 {
            self.bid_depth.remove(&price_tick);
            if price_tick == self.best_bid_tick {
                self.best_bid_tick = depth_below(&self.bid_depth, price_tick, self.low_bid_tick);
                if self.best_bid_tick == INVALID_MIN {
                    proof {
                        lemma_best_bid_of(self.bid_depth@.dom());
                        if exists|k: i32| self.bid_depth@.dom().contains(k) {
                            assert(self.bid_depth@.contains_key(best_bid_of(self.bid_depth@.dom())));
                        }
                    }
                    self.low_bid_tick = INVALID_MAX;
                }
            } else {
                proof {
                    if old(self).bid_depth@.dom().contains(prev_best_bid_tick) {
                        assert(is_max_tick(self.bid_depth@.dom(), prev_best_bid_tick));
                    }
                    lemma_best_bid_of(self.bid_depth@.dom());
                }
            }
        } else {
            self.bid_depth.insert(price_tick, qty);
            if price_tick > self.best_bid_tick {
                self.best_bid_tick = price_tick;
            }
            if price_tick < self.low_bid_tick {
                self.low_bid_tick = price_tick;
            }
            proof {
                assert(self.bid_depth@.dom().contains(price_tick));
                assert(is_max_tick(self.bid_depth@.dom(), self.best_bid_tick));
                lemma_best_bid_of(self.bid_depth@.dom());
            }
        }
        (price_tick, prev_best_bid_tick, self.best_bid_tick, prev_qty, qty, timestamp)
    }

    fn update_ask_depth(&mut self, price_tick: i32, qty: u32, timestamp: i64) -> (r: (
        i32,
        i32,
        i32,
        u32,
        u32,
        i64,
    )) {
        let prev_best_ask_tick = self.best_ask_tick;
        let prev_qty = match self.ask_depth.get(&price_tick) {
            Some(q) => *q,
            None => 0,
        };
        proof {
            lemma_best_ask_of(self.ask_depth@.dom());
        }
        if qty == 0 {
            self.ask_depth.remove(&price_tick);
            if price_tick == self.best_ask_tick {
                self.best_ask_tick = depth_above(&self.ask_depth, price_tick, self.high_ask_tick);
                if self.best_ask_tick == INVALID_MAX {
                    proof {
                        lemma_best_ask_of(self.ask_depth@.dom());
                        if exists|k: i32| self.ask_depth@.dom().contains(k) {
                            assert(self.ask_depth@.contains_key(best_ask_of(self.ask_depth@.dom())));
                        }
                    }
                    self.high_ask_tick = INVALID_MIN;
                }
            } else {
                proof {
                    if old(self).ask_depth@.dom().contains(prev_best_ask_tick) {
                        assert(is_min_tick(self.ask_depth@.dom(), prev_best_ask_tick));
                    }
                    lemma_best_ask_of(self.ask_depth@.dom());
                }
            }
        } else {
            self.ask_depth.insert(price_tick, qty);
            if price_tick < self.best_ask_tick {
                self.best_ask_tick = price_tick;
            }
            if price_tick > self.high_ask_tick {
                self.high_ask_tick = price_tick;
            }
            proof {
                assert(self.ask_depth@.dom().contains(price_tick));
                assert(is_min_tick(self.ask_depth@.dom(), self.best_ask_tick));
                lemma_best_ask_of(self.ask_depth@.dom());
            }
        }
        (price_tick, prev_best_ask_tick, self.best_ask_tick, prev_qty, qty, timestamp)
    }

    fn clear_depth(&mut self, side: i64, clear_upto_tick: i32) {
        if side == BUY {
            self.clear_bids(clear_upto_tick);
        } else if side == SELL {
            self.clear_asks(clear_upto_tick);
        } else {
            self.bid_depth.clear();
            self.ask_depth.clear();
            self.best_bid_tick = INVALID_MIN;
            self.best_ask_tick = INVALID_MAX;
            self.low_bid_tick = INVALID_MAX;
            self.high_ask_tick = INVALID_MIN;
            proof {
                lemma_best_bid_of(self.bid_depth@.dom());
                lemma_best_ask_of(self.ask_depth@.dom());
            }
        }
    }

    fn best_bid_tick(&self) -> (t: i32) {
        self.best_bid_tick
    }

    fn best_ask_tick(&self) -> (t: i32) {
        self.best_ask_tick
    }

    fn bid_qty_at_tick(&self, price_tick: i32) -> (q: u32) {
        match self.bid_depth.get(&price_tick) {
            Some(q) => *q,
            None => 0,
        }
    }

    fn ask_qty_at_tick(&self, price_tick: i32) -> (q: u32) {
        match self.ask_depth.get(&price_tick) {
            Some(q) => *q,
            None => 0,
        }
    }

    fn tick_size(&self) -> (t: u64) {
        self.tick_size
    }

    fn lot_size(&self) -> (l: u64) {
        self.lot_size
    }
}

} // verus!

//! The order book: two sparse maps from price tick to resting quantity, and
//! the best tick of each side.

use vstd::prelude::*;

pub mod hashmapmarketdepth;

verus! {

/// The best bid tick of a book without bids.
pub const INVALID_MIN: i32 = -2147483648;

/// The best ask tick of a book without asks.
pub const INVALID_MAX: i32 = 2147483647;

/// A tick that can name a price level: the two extreme values are kept for
/// the empty-side markers.
pub open spec fn valid_tick(t: i32) -> bool {
    INVALID_MIN < t < INVALID_MAX
}

/// `t` is a level of `levels` and no level lies above it.
pub open spec fn is_max_tick(levels: Set<i32>, t: i32) -> bool {
    levels.contains(t) && forall|k: i32| levels.contains(k) ==> k <= t
}

/// `t` is a level of `levels` and no level lies below it.
pub open spec fn is_min_tick(levels: Set<i32>, t: i32) -> bool {
    levels.contains(t) && forall|k: i32| levels.contains(k) ==> t <= k
}

/// The highest level, or `INVALID_MIN` where there is none.
pub open spec fn best_bid_of(levels: Set<i32>) -> i32 {
    if exists|t: i32| is_max_tick(levels, t) {
        choose|t: i32| is_max_tick(levels, t)
    } else {
        INVALID_MIN
    }
}

/// The lowest level, or `INVALID_MAX` where there is none.
pub open spec fn best_ask_of(levels: Set<i32>) -> i32 {
    if exists|t: i32| is_min_tick(levels, t) {
        choose|t: i32| is_min_tick(levels, t)
    } else {
        INVALID_MAX
    }
}

/// A side after its level at `tick` was set to `qty`: a zero quantity
/// removes the level.
pub open spec fn set_level(side: Map<i32, u32>, tick: i32, qty: u32) -> Map<i32, u32> {
    if qty == 0 {
        side.remove(tick)
    } else {
        side.insert(tick, qty)
    }
}

/// The quantity resting at `tick`, zero where the side has no such level.
pub open spec fn level_qty(side: Map<i32, u32>, tick: i32) -> u32 {
    if side.contains_key(tick) {
        side[tick]
    } else {
        0
    }
}

/// The bids without the levels from `tick` up to, but not through, the
/// best ask.
pub open spec fn bids_cleared(side: Map<i32, u32>, tick: i32, best_ask: i32) -> Map<i32, u32> {
    side.restrict(Set::new(|k: i32| k < tick || k >= best_ask))
}

/// The asks without the levels from `tick` down to, but not through, the
/// best bid.
pub open spec fn asks_cleared(side: Map<i32, u32>, tick: i32, best_bid: i32) -> Map<i32, u32> {
    side.restrict(Set::new(|k: i32| k > tick || k <= best_bid))
}

/// The book as a mathematical value.
pub struct Book {
    pub bids: Map<i32, u32>,
    pub asks: Map<i32, u32>,
}

impl Book {
    /// Every level sits at a valid tick and holds a positive quantity.
    pub open spec fn ok(self) -> bool {
        &&& forall|k: i32| #[trigger]
            self.bids.contains_key(k) ==> valid_tick(k) && self.bids[k] > 0
        &&& forall|k: i32| #[trigger]
            self.asks.contains_key(k) ==> valid_tick(k) && self.asks[k] > 0
    }

    /// The highest bid tick, `INVALID_MIN` without bids.
    pub open spec fn best_bid(self) -> i32 {
        best_bid_of(self.bids.dom())
    }

    /// The lowest ask tick, `INVALID_MAX` without asks.
    pub open spec fn best_ask(self) -> i32 {
        best_ask_of(self.asks.dom())
    }

    /// The book after a clear on `side` at `tick`. A buy clear drops the bid
    /// levels from the tick up to, but not through, the best ask; a sell
    /// clear drops the ask levels from the tick down to, but not through,
    /// the best bid. Any other selector empties both sides.
    pub open spec fn cleared(self, side: i64, tick: i32) -> Book {
        if side == crate::ty::BUY {
            Book { bids: bids_cleared(self.bids, tick, self.best_ask()), asks: self.asks }
        } else if side == crate::ty::SELL {
            Book { bids: self.bids, asks: asks_cleared(self.asks, tick, self.best_bid()) }
        } else {
            Book { bids: Map::empty(), asks: Map::empty() }
        }
    }
}

/// A non-empty set of ticks has a highest element.
pub proof fn lemma_max_tick_exists(levels: Set<i32>, x: i32)
    requires
        levels.contains(x),
    ensures
        exists|t: i32| is_max_tick(levels, t),
    decreases i32::MAX - x,
{
    if forall|k: i32| levels.contains(k) ==> k <= x {
        assert(is_max_tick(levels, x));
    } else {
        let k = choose|k: i32| levels.contains(k) && k > x;
        lemma_max_tick_exists(levels, k);
    }
}

/// A non-empty set of ticks has a lowest element.
pub proof fn lemma_min_tick_exists(levels: Set<i32>, x: i32)
    requires
        levels.contains(x),
    ensures
        exists|t: i32| is_min_tick(levels, t),
    decreases x - i32::MIN,
{
    if forall|k: i32| levels.contains(k) ==> x <= k {
        assert(is_min_tick(levels, x));
    } else {
        let k = choose|k: i32| levels.contains(k) && k < x;
        lemma_min_tick_exists(levels, k);
    }
}

/// The best bid is the maximum of the levels, and the marker exactly where
/// there are none.
pub proof fn lemma_best_bid_of(levels: Set<i32>)
    ensures
        (forall|k: i32| !levels.contains(k)) ==> best_bid_of(levels) == INVALID_MIN,
        (exists|k: i32| levels.contains(k)) ==> is_max_tick(levels, best_bid_of(levels)),
        forall|t: i32| is_max_tick(levels, t) ==> best_bid_of(levels) == t,
{
    if exists|k: i32| levels.contains(k) {
        let k = choose|k: i32| levels.contains(k);
        lemma_max_tick_exists(levels, k);
    }
}

/// The best ask is the minimum of the levels, and the marker exactly where
/// there are none.
pub proof fn lemma_best_ask_of(levels: Set<i32>)
    ensures
        (forall|k: i32| !levels.contains(k)) ==> best_ask_of(levels) == INVALID_MAX,
        (exists|k: i32| levels.contains(k)) ==> is_min_tick(levels, best_ask_of(levels)),
        forall|t: i32| is_min_tick(levels, t) ==> best_ask_of(levels) == t,
{
    if exists|k: i32| levels.contains(k) {
        let k = choose|k: i32| levels.contains(k);
        lemma_min_tick_exists(levels, k);
    }
}

/// Dropping levels cannot raise the best bid: the best bid of a part of the
/// levels is the marker or lies at or below the best bid of all of them,
/// which is then no marker either.
pub proof fn lemma_best_bid_subset(part: Set<i32>, all: Set<i32>)
    requires
        part.subset_of(all),
        forall|k: i32| all.contains(k) ==> valid_tick(k),
    ensures
        best_bid_of(part) == INVALID_MIN || (best_bid_of(part) <= best_bid_of(all) && best_bid_of(
            all,
        ) != INVALID_MIN),
{
    lemma_best_bid_of(part);
    lemma_best_bid_of(all);
    if exists|k: i32| part.contains(k) {
        let k = choose|k: i32| part.contains(k);
        assert(all.contains(k));
        assert(all.contains(best_bid_of(part)));
        assert(all.contains(best_bid_of(all)));
    }
}

/// Dropping levels cannot lower the best ask: the best ask of a part of the
/// levels is the marker or lies at or above the best ask of all of them,
/// which is then no marker either.
pub proof fn lemma_best_ask_subset(part: Set<i32>, all: Set<i32>)
    requires
        part.subset_of(all),
        forall|k: i32| all.contains(k) ==> valid_tick(k),
    ensures
        best_ask_of(part) == INVALID_MAX || (best_ask_of(part) >= best_ask_of(all) && best_ask_of(
            all,
        ) != INVALID_MAX),
{
    lemma_best_ask_of(part);
    lemma_best_ask_of(all);
    if exists|k: i32| part.contains(k) {
        let k = choose|k: i32| part.contains(k);
        assert(all.contains(k));
        assert(all.contains(best_ask_of(part)));
        assert(all.contains(best_ask_of(all)));
    }
}

/// What the processors need of an order book.
pub trait MarketDepth: Sized {
    /// The representation is sound.
    spec fn wf(&self) -> bool;

    /// The levels of both sides.
    spec fn book(&self) -> Book;

    /// The configured tick size, in billionths of the quote unit.
    spec fn spec_tick_size(&self) -> u64;

    /// The configured lot size, in billionths of the base unit.
    spec fn spec_lot_size(&self) -> u64;

    /// A sound depth holds only valid ticks with positive quantities.
    proof fn lemma_book_ok(&self)
        requires
            self.wf(),
        ensures
            self.book().ok(),
    ;

    /// Sets the bid level at `price_tick` to `qty` and reports the tick, the
    /// best bid before and after, the quantity before and after, and the
    /// timestamp.
    fn update_bid_depth(&mut self, price_tick: i32, qty: u32, timestamp: i64) -> (r: (
        i32,
        i32,
        i32,
        u32,
        u32,
        i64,
    ))
        requires
            old(self).wf(),
            valid_tick(price_tick),
        ensures
            final(self).wf(),
            final(self).spec_tick_size() == old(self).spec_tick_size(),
            final(self).spec_lot_size() == old(self).spec_lot_size(),
            final(self).book().bids == set_level(old(self).book().bids, price_tick, qty),
            final(self).book().asks == old(self).book().asks,
            r == (
                price_tick,
                old(self).book().best_bid(),
                final(self).book().best_bid(),
                level_qty(old(self).book().bids, price_tick),
                qty,
                timestamp,
            ),
    ;

    /// Sets the ask level at `price_tick` to `qty` and reports the tick, the
    /// best ask before and after, the quantity before and after, and the
    /// timestamp.
    fn update_ask_depth(&mut self, price_tick: i32, qty: u32, timestamp: i64) -> (r: (
        i32,
        i32,
        i32,
        u32,
        u32,
        i64,
    ))
        requires
            old(self).wf(),
            valid_tick(price_tick),
        ensures
            final(self).wf(),
            final(self).spec_tick_size() == old(self).spec_tick_size(),
            final(self).spec_lot_size() == old(self).spec_lot_size(),
            final(self).book().asks == set_level(old(self).book().asks, price_tick, qty),
            final(self).book().bids == old(self).book().bids,
            r == (
                price_tick,
                old(self).book().best_ask(),
                final(self).book().best_ask(),
                level_qty(old(self).book().asks, price_tick),
                qty,
                timestamp,
            ),
    ;

    /// Drops the levels of one side up to a tick, or of both sides.
    fn clear_depth(&mut self, side: i64, clear_upto_tick: i32)
        requires
            old(self).wf(),
        ensures
            final(self).wf(),
            final(self).spec_tick_size() == old(self).spec_tick_size(),
            final(self).spec_lot_size() == old(self).spec_lot_size(),
            final(self).book().bids == old(self).book().cleared(side, clear_upto_tick).bids,
            final(self).book().asks == old(self).book().cleared(side, clear_upto_tick).asks,
    ;

    /// The highest bid tick, `INVALID_MIN` without bids.
    fn best_bid_tick(&self) -> (t: i32)
        requires
            self.wf(),
        ensures
            t == self.book().best_bid(),
    ;

    /// The lowest ask tick, `INVALID_MAX` without asks.
    fn best_ask_tick(&self) -> (t: i32)
        requires
            self.wf(),
        ensures
            t == self.book().best_ask(),
    ;

    /// The quantity resting on the bid side at `price_tick`.
    fn bid_qty_at_tick(&self, price_tick: i32) -> (q: u32)
        requires
            self.wf(),
        ensures
            q == level_qty(self.book().bids, price_tick),
    ;

    /// The quantity resting on the ask side at `price_tick`.
    fn ask_qty_at_tick(&self, price_tick: i32) -> (q: u32)
        requires
            self.wf(),
        ensures
            q == level_qty(self.book().asks, price_tick),
    ;

    /// The configured tick size, in billionths of the quote unit.
    fn tick_size(&self) -> (t: u64)
        ensures
            t == self.spec_tick_size(),
    ;

    /// The configured lot size, in billionths of the base unit.
    fn lot_size(&self) -> (l: u64)
        ensures
            l == self.spec_lot_size(),
    ;
}

/// In a sound book every level holds a positive quantity, the best bid is
/// the highest bid level and the best ask the lowest ask level, and a side
/// shows its marker exactly when it has no level.
pub proof fn lemma_best_ticks<MD: MarketDepth>(depth: &MD)
    requires
        depth.wf(),
    ensures
        forall|k: i32| #[trigger] depth.book().bids.contains_key(k) ==> depth.book().bids[k] > 0,
        forall|k: i32| #[trigger] depth.book().asks.contains_key(k) ==> depth.book().asks[k] > 0,
        depth.book().best_bid() == INVALID_MIN <==> forall|k: i32|
            !depth.book().bids.contains_key(k),
        depth.book().best_ask() == INVALID_MAX <==> forall|k: i32|
            !depth.book().asks.contains_key(k),
        depth.book().best_bid() != INVALID_MIN ==> is_max_tick(
            depth.book().bids.dom(),
            depth.book().best_bid(),
        ),
        depth.book().best_ask() != INVALID_MAX ==> is_min_tick(
            depth.book().asks.dom(),
            depth.book().best_ask(),
        ),
{
    depth.lemma_book_ok();
    let bids = depth.book().bids.dom();
    let asks = depth.book().asks.dom();
    lemma_best_bid_of(bids);
    lemma_best_ask_of(asks);
    if exists|k: i32| bids.contains(k) {
        assert(bids.contains(best_bid_of(bids)));
    }
    if exists|k: i32| asks.contains(k) {
        assert(asks.contains(best_ask_of(asks)));
    }
}

} // verus!

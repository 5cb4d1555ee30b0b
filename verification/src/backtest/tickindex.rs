//! The resting orders of one side, listed by price tick.

use crate::backtest::orderstore::{lemma_first_id, without_id};
use std::collections::HashMap;
use vstd::prelude::*;

verus! {

broadcast use vstd::std_specs::hash::group_hash_axioms;

/// For each price tick the ids of the orders that rest there, in the order
/// in which they were listed.
pub struct TickIndex {
    ticks: HashMap<i32, Vec<i64>>,
}

impl TickIndex {
    /// The ids listed at `tick`.
    pub closed spec fn ids_at(&self, tick: i32) -> Seq<i64> {
        if self.ticks@.contains_key(tick) {
            self.ticks@[tick]@
        } else {
            Seq::empty()
        }
    }

    /// An index without entries.
    pub fn new() -> (x: Self)
        ensures
            forall|t: i32| #[trigger] x.ids_at(t) == Seq::<i64>::empty(),
    {
        TickIndex { ticks: HashMap::new() }
    }

    /// The ids listed at `tick`.
    pub fn get(&self, tick: i32) -> (v: Vec<i64>)
        ensures
            v@ == self.ids_at(tick),
    {
        let mut v: Vec<i64> = Vec::new();
        match self.ticks.get(&tick) {
            Some(ids) => {
                let mut i: usize = 0;
                while i < ids.len()
                    invariant
                        0 <= i <= ids.len(),
                        v@ == ids@.take(i as int),
                    decreases ids.len() - i,
                {
                    v.push(ids[i]);
                    assert(v@ =~= ids@.take(i + 1));
                    i = i + 1;
                }
                assert(ids@.take(i as int) =~= ids@);
            },
            None => {},
        }
        v
    }

    /// Lists `order_id` at `tick`, behind the ids already there.
    pub fn add(&mut self, tick: i32, order_id: i64)
        ensures
            final(self).ids_at(tick) == old(self).ids_at(tick).push(order_id),
            forall|t: i32| t != tick ==> #[trigger] final(self).ids_at(t) == old(self).ids_at(t),
    {
        let mut ids = match self.ticks.remove(&tick) {
            Some(ids) => ids,
            None => Vec::new(),
        };
        ids.push(order_id);
        self.ticks.insert(tick, ids);
    }

    /// Strikes the first listing of `order_id` at `tick`.
    pub fn remove(&mut self, tick: i32, order_id: i64)
        ensures
            final(self).ids_at(tick) == without_id(old(self).ids_at(tick), order_id),
            forall|t: i32| t != tick ==> #[trigger] final(self).ids_at(t) == old(self).ids_at(t),
    {
        match self.ticks.remove(&tick) {
            Some(ids) => {
                let mut ids = ids;
                let ghost before = ids@;
                let mut i: usize = 0;
                while i < ids.len() && ids[i] != order_id
                    invariant
                        0 <= i <= ids.len(),
                        ids@ == before,
                        forall|j: int| 0 <= j < i ==> ids@[j] != order_id,
                    decreases ids.len() - i,
                {
                    i = i + 1;
                }
                proof {
                    lemma_first_id(before, order_id, i as int);
                }
                if i < ids.len() {
                    ids.remove(i);
                }
                if ids.len() > 0 {
                    self.ticks.insert(tick, ids);
                } else {
                    assert(without_id(before, order_id) =~= Seq::<i64>::empty());
                }
            },
            None => {
                proof {
                    lemma_first_id(Seq::<i64>::empty(), order_id, 0);
                }
            },
        }
    }
}

} // verus!

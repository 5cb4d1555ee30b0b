//! The orders that a processor holds, found by id and walked in the order
//! in which they came.

use crate::ty::{Order, Side};
use std::collections::HashMap;
use vstd::prelude::*;

verus! {

broadcast use vstd::std_specs::hash::group_hash_axioms;

/// The orders of one processor, filed by id. Beside the map the store
/// keeps the ids in the order in which they were put in: that is the order
/// in which it is walked, the same on every run.
pub struct OrderStore<Q> {
    orders: HashMap<i64, Order<Q>>,
    walk: Vec<i64>,
}

impl<Q: Copy> OrderStore<Q> {
    /// The orders by id.
    pub closed spec fn view(&self) -> Map<i64, Order<Q>> {
        self.orders@
    }

    /// The ids in the order in which the store is walked.
    pub closed spec fn ids(&self) -> Seq<i64> {
        self.walk@
    }

    /// The walk holds the ids of the map, each once, and each order is
    /// filed under its own id.
    pub closed spec fn wf(&self) -> bool {
        &&& self.walk@.no_duplicates()
        &&& forall|id: i64| #[trigger] self.orders@.contains_key(id) <==> self.walk@.contains(id)
        &&& forall|id: i64| #[trigger]
            self.orders@.contains_key(id) ==> self.orders@[id].order_id == id
    }

    /// The walk visits every id of the map once, and each order is filed
    /// under its own id.
    pub proof fn lemma_ids(&self)
        requires
            self.wf(),
        ensures
            self.ids().no_duplicates(),
            forall|id: i64| #[trigger] self@.contains_key(id) <==> self.ids().contains(id),
            forall|id: i64| #[trigger] self@.contains_key(id) ==> self@[id].order_id == id,
            forall|i: int| 0 <= i < self.ids().len()
                ==> self@.contains_key(#[trigger] self.ids()[i]),
    {
        assert forall|i: int| 0 <= i < self.ids().len() implies self@.contains_key(
            #[trigger] self.ids()[i],
        ) by {
            assert(self.walk@.contains(self.walk@[i]));
        }
    }

    /// An empty store.
    pub fn new() -> (s: Self)
        ensures
            s.wf(),
            s@ == Map::<i64, Order<Q>>::empty(),
            s.ids() == Seq::<i64>::empty(),
    {
        OrderStore { orders: HashMap::new(), walk: Vec::new() }
    }

    /// The number of orders.
    pub fn len(&self) -> (n: usize)
        ensures
            n == self.ids().len(),
    {
        self.walk.len()
    }

    /// The id at position `index` of the walk.
    pub fn id_at(&self, index: usize) -> (id: i64)
        requires
            index < self.ids().len(),
        ensures
            id == self.ids()[index as int],
    {
        self.walk[index]
    }

    /// The ids in the order in which the store is walked.
    pub fn order_ids(&self) -> (v: Vec<i64>)
        ensures
            v@ == self.ids(),
    {
        let mut v: Vec<i64> = Vec::new();
        let mut i: usize = 0;
        while i < self.walk.len()
            invariant
                0 <= i <= self.walk.len(),
                v@ == self.ids().take(i as int),
            decreases self.walk.len() - i,
        {
            v.push(self.walk[i]);
            assert(v@ =~= self.ids().take(i + 1));
            i = i + 1;
        }
        assert(self.ids().take(i as int) =~= self.ids());
        v
    }

    /// Whether an order with the given id is held.
    pub fn contains_key(&self, order_id: i64) -> (b: bool)
        ensures
            b == self@.contains_key(order_id),
    {
        self.orders.contains_key(&order_id)
    }

    /// The order with the given id.
    pub fn get(&self, order_id: i64) -> (r: Option<Order<Q>>)
        ensures
            r == if self@.contains_key(order_id) {
                Some(self@[order_id])
            } else {
                None
            },
    {
        match self.orders.get(&order_id) {
            Some(order) => Some(*order),
            None => None,
        }
    }

    /// Files `order` under its id. An order that was held under that id is
    /// replaced and handed back, and keeps its place in the walk; a new id
    /// goes to the end of the walk.
    pub fn insert(&mut self, order: Order<Q>) -> (r: Option<Order<Q>>)
        requires
            old(self).wf(),
        ensures
            final(self).wf(),
            final(self)@ == old(self)@.insert(order.order_id, order),
            r == if old(self)@.contains_key(order.order_id) {
                Some(old(self)@[order.order_id])
            } else {
                None
            },
            final(self).ids() == if old(self)@.contains_key(order.order_id) {
                old(self).ids()
            } else {
                old(self).ids().push(order.order_id)
            },
            final(self).ids().len() == old(self).ids().len() + if old(self)@.contains_key(
                order.order_id,
            ) {
                0int
            } else {
                1int
            },
    {
        let prev = self.orders.insert(order.order_id, order);
        if prev.is_none() {
            self.walk.push(order.order_id);
            proof {
                let s0 = old(self).walk@;
                let s1 = self.walk@;
                assert forall|a: int, b: int|
                    0 <= a < s1.len() && 0 <= b < s1.len() && a != b implies s1[a] != s1[b] by {
                    if a < s0.len() {
                        assert(s0.contains(s0[a]));
                    }
                    if b < s0.len() {
                        assert(s0.contains(s0[b]));
                    }
                }
                assert forall|id: i64| #[trigger]
                    self.orders@.contains_key(id) <==> s1.contains(id) by {
                    if s1.contains(id) {
                        let k = choose|k: int| 0 <= k < s1.len() && s1[k] == id;
                        if k < s0.len() {
                            assert(s0.contains(s0[k]));
                        }
                    }
                    if id == order.order_id {
                        assert(s1[s0.len() as int] == id);
                    } else if s0.contains(id) {
                        let k = choose|k: int| 0 <= k < s0.len() && s0[k] == id;
                        assert(s1[k] == id);
                    }
                }
            }
        }
        prev
    }

    /// Takes the order with the given id out and hands it back.
    pub fn remove(&mut self, order_id: i64) -> (r: Option<Order<Q>>)
        requires
            old(self).wf(),
        ensures
            final(self).wf(),
            final(self)@ == old(self)@.remove(order_id),
            r == if old(self)@.contains_key(order_id) {
                Some(old(self)@[order_id])
            } else {
                None
            },
            final(self).ids() == without_id(old(self).ids(), order_id),
            final(self).ids().len() == old(self).ids().len()
                - if old(self)@.contains_key(order_id) {
                1int
            } else {
                0int
            },
    {
        let prev = self.orders.remove(&order_id);
        let ghost before = self.walk@;
        let mut i: usize = 0;
        while i < self.walk.len() && self.walk[i] != order_id
            invariant
                0 <= i <= self.walk.len(),
                self.walk@ == before,
                forall|j: int| 0 <= j < i ==> before[j] != order_id,
            decreases self.walk.len() - i,
        {
            i = i + 1;
        }
        proof {
            lemma_first_id(before, order_id, i as int);
            lemma_without_id(before, order_id);
            if i < before.len() {
                assert(before.contains(before[i as int]));
            }
        }
        if i < self.walk.len() {
            self.walk.remove(i);
        }
        prev
    }
}

/// The position of the first occurrence of `id`, or the length of the
/// sequence where it does not occur.
pub open spec fn first_id(s: Seq<i64>, id: i64) -> int
    decreases s.len(),
{
    if s.len() == 0 {
        0
    } else if s[0] == id {
        0
    } else {
        1 + first_id(s.skip(1), id)
    }
}

/// The sequence without the first occurrence of `id`.
pub open spec fn without_id(s: Seq<i64>, id: i64) -> Seq<i64> {
    if first_id(s, id) < s.len() {
        s.remove(first_id(s, id))
    } else {
        s
    }
}

/// The first occurrence is the position before which the id does not occur.
pub proof fn lemma_first_id(s: Seq<i64>, id: i64, i: int)
    requires
        0 <= i <= s.len(),
        i < s.len() ==> s[i] == id,
        forall|j: int| 0 <= j < i ==> s[j] != id,
    ensures
        first_id(s, id) == i,
    decreases s.len(),
{
    if s.len() > 0 && s[0] != id {
        let t = s.skip(1);
        assert forall|j: int| 0 <= j < i - 1 implies t[j] != id by {
            assert(t[j] == s[j + 1]);
        }
        lemma_first_id(t, id, i - 1);
    }
}

/// What a sequence without repetition holds after an id was taken out.
pub proof fn lemma_without_id(s: Seq<i64>, id: i64)
    requires
        s.no_duplicates(),
    ensures
        without_id(s, id).no_duplicates(),
        forall|x: i64| #[trigger] without_id(s, id).contains(x) <==> s.contains(x) && x != id,
{
    lemma_first_id_bounds(s, id);
    let p = first_id(s, id);
    let r = without_id(s, id);
    if p < s.len() {
        assert forall|a: int, b: int| 0 <= a < r.len() && 0 <= b < r.len() && a != b implies r[a]
            != r[b] by {
            let a0 = if a < p { a } else { a + 1 };
            let b0 = if b < p { b } else { b + 1 };
            assert(r[a] == s[a0]);
            assert(r[b] == s[b0]);
        }
        assert forall|x: i64| #[trigger] r.contains(x) <==> s.contains(x) && x != id by {
            if r.contains(x) {
                let a = choose|a: int| 0 <= a < r.len() && r[a] == x;
                let a0 = if a < p { a } else { a + 1 };
                assert(r[a] == s[a0]);
            }
            if s.contains(x) && x != id {
                let a0 = choose|a0: int| 0 <= a0 < s.len() && s[a0] == x;
                let a = if a0 < p { a0 } else { a0 - 1 };
                assert(r[a] == s[a0]);
            }
        }
    } else {
        assert forall|x: i64| #[trigger] r.contains(x) <==> s.contains(x) && x != id by {
            if s.contains(x) {
                let a0 = choose|a0: int| 0 <= a0 < s.len() && s[a0] == x;
                assert(s[a0] != id);
            }
        }
    }
}

/// The first occurrence lies within the sequence or at its end, holds the
/// id, and nothing before it does.
pub proof fn lemma_first_id_bounds(s: Seq<i64>, id: i64)
    ensures
        0 <= first_id(s, id) <= s.len(),
        first_id(s, id) < s.len() ==> s[first_id(s, id)] == id,
        forall|j: int| 0 <= j < first_id(s, id) ==> s[j] != id,
    decreases s.len(),
{
    if s.len() > 0 && s[0] != id {
        let t = s.skip(1);
        lemma_first_id_bounds(t, id);
        assert forall|j: int| 0 <= j < first_id(s, id) implies s[j] != id by {
            if j > 0 {
                assert(t[j - 1] == s[j]);
            }
        }
    }
}

/// A sequence without the first occurrence of an id that it does not hold
/// is the sequence itself.
pub proof fn lemma_without_absent(s: Seq<i64>, id: i64)
    requires
        !s.contains(id),
    ensures
        without_id(s, id) == s,
{
    lemma_first_id_bounds(s, id);
    if first_id(s, id) < s.len() {
        assert(s.contains(s[first_id(s, id)]));
    }
}

/// Taking the last id of a sequence without repetition out of it leaves
/// what stood before it.
pub proof fn lemma_without_last(s: Seq<i64>, id: i64)
    requires
        !s.contains(id),
    ensures
        without_id(s.push(id), id) == s,
{
    let t = s.push(id);
    assert forall|j: int| 0 <= j < s.len() implies t[j] != id by {
        assert(t[j] == s[j]);
        assert(s.contains(s[j]));
    }
    lemma_first_id(t, id, s.len() as int);
    assert(t.remove(s.len() as int) =~= s);
}

/// Taking an id out of a sequence that ends with another id leaves that
/// other id at the end.
pub proof fn lemma_without_push(s: Seq<i64>, last: i64, id: i64)
    requires
        last != id,
    ensures
        without_id(s.push(last), id) == without_id(s, id).push(last),
{
    let t = s.push(last);
    lemma_first_id_bounds(s, id);
    let p = first_id(s, id);
    if p < s.len() {
        assert forall|j: int| 0 <= j < p implies t[j] != id by {
            assert(t[j] == s[j]);
        }
        assert(t[p] == s[p]);
        lemma_first_id(t, id, p);
        assert(t.remove(p) =~= s.remove(p).push(last));
    } else {
        assert forall|j: int| 0 <= j < t.len() implies t[j] != id by {
            if j < s.len() {
                assert(t[j] == s[j]);
            }
        }
        lemma_first_id(t, id, t.len() as int);
    }
}

/// The sequence without the first occurrence of each of the `gone` ids,
/// taken out one after the other.
pub open spec fn stripped(s: Seq<i64>, gone: Seq<i64>) -> Seq<i64>
    decreases gone.len(),
{
    if gone.len() == 0 {
        s
    } else {
        without_id(stripped(s, gone.drop_last()), gone.last())
    }
}

/// Of the ids, in their order, those of the orders of `side` at `tick`.
pub open spec fn pick<Q>(ids: Seq<i64>, orders: Map<i64, Order<Q>>, side: Side, tick: i32) -> Seq<
    i64,
>
    decreases ids.len(),
{
    if ids.len() == 0 {
        Seq::empty()
    } else {
        let rest = pick(ids.drop_last(), orders, side, tick);
        let id = ids.last();
        if orders.contains_key(id) && orders[id].side == side && orders[id].price_tick == tick {
            rest.push(id)
        } else {
            rest
        }
    }
}

/// What is picked are the ids of the orders of that side at that tick, and
/// none of them twice where no id occurs twice.
pub proof fn lemma_pick<Q>(ids: Seq<i64>, orders: Map<i64, Order<Q>>, side: Side, tick: i32)
    ensures
        forall|x: i64| #[trigger]
            pick(ids, orders, side, tick).contains(x) <==> ids.contains(x) && orders.contains_key(x)
                && orders[x].side == side && orders[x].price_tick == tick,
        ids.no_duplicates() ==> pick(ids, orders, side, tick).no_duplicates(),
    decreases ids.len(),
{
    let picked = pick(ids, orders, side, tick);
    if ids.len() > 0 {
        let rest_ids = ids.drop_last();
        let rest = pick(rest_ids, orders, side, tick);
        let id = ids.last();
        lemma_pick(rest_ids, orders, side, tick);
        let taken = orders.contains_key(id) && orders[id].side == side && orders[id].price_tick
            == tick;
        assert forall|x: i64| #[trigger]
            picked.contains(x) <==> ids.contains(x) && orders.contains_key(x) && orders[x].side
                == side && orders[x].price_tick == tick by {
            if rest_ids.contains(x) {
                let j = choose|j: int| 0 <= j < rest_ids.len() && rest_ids[j] == x;
                assert(ids[j] == x);
            }
            if ids.contains(x) && x != id {
                let j = choose|j: int| 0 <= j < ids.len() && ids[j] == x;
                assert(rest_ids[j] == x);
            }
            assert(ids[ids.len() - 1] == id);
            if taken {
                if rest.contains(x) {
                    let j = choose|j: int| 0 <= j < rest.len() && rest[j] == x;
                    assert(picked[j] == x);
                }
                assert(picked[rest.len() as int] == id);
                if picked.contains(x) && x != id {
                    let j = choose|j: int| 0 <= j < picked.len() && picked[j] == x;
                    assert(rest[j] == x);
                }
            }
        }
        if ids.no_duplicates() {
            assert(rest_ids.no_duplicates()) by {
                assert forall|a: int, b: int|
                    0 <= a < rest_ids.len() && 0 <= b < rest_ids.len() && a != b implies rest_ids[a]
                    != rest_ids[b] by {
                    assert(rest_ids[a] == ids[a] && rest_ids[b] == ids[b]);
                }
            }
            if taken {
                if rest.contains(id) {
                    let j = choose|j: int| 0 <= j < rest_ids.len() && rest_ids[j] == id;
                    assert(ids[j] == ids[ids.len() - 1]);
                }
                assert forall|a: int, b: int|
                    0 <= a < picked.len() && 0 <= b < picked.len() && a != b implies picked[a]
                    != picked[b] by {
                    if a < rest.len() {
                        assert(picked[a] == rest[a]);
                        assert(rest.contains(rest[a]));
                    }
                    if b < rest.len() {
                        assert(picked[b] == rest[b]);
                        assert(rest.contains(rest[b]));
                    }
                }
            }
        }
    }
}

/// What is picked depends only on which of the ids are orders of that side
/// at that tick.
pub proof fn lemma_pick_same<Q>(
    ids: Seq<i64>,
    one: Map<i64, Order<Q>>,
    other: Map<i64, Order<Q>>,
    side: Side,
    tick: i32,
)
    requires
        forall|i: int|
            0 <= i < ids.len() ==> ((one.contains_key(#[trigger] ids[i]) && one[ids[i]].side == side
                && one[ids[i]].price_tick == tick) <==> (other.contains_key(ids[i])
                && other[ids[i]].side == side && other[ids[i]].price_tick == tick)),
    ensures
        pick(ids, one, side, tick) == pick(ids, other, side, tick),
    decreases ids.len(),
{
    if ids.len() > 0 {
        let rest = ids.drop_last();
        assert forall|i: int| 0 <= i < rest.len() implies ((one.contains_key(#[trigger] rest[i])
            && one[rest[i]].side == side && one[rest[i]].price_tick == tick) <==> (
        other.contains_key(rest[i]) && other[rest[i]].side == side && other[rest[i]].price_tick
            == tick)) by {
            assert(rest[i] == ids[i]);
        }
        lemma_pick_same(rest, one, other, side, tick);
        assert(ids[ids.len() - 1] == ids.last());
    }
}

/// Taking an order out of the store takes its id out of what is picked.
pub proof fn lemma_pick_without<Q>(
    ids: Seq<i64>,
    orders: Map<i64, Order<Q>>,
    side: Side,
    tick: i32,
    gone: i64,
)
    requires
        ids.no_duplicates(),
    ensures
        pick(without_id(ids, gone), orders.remove(gone), side, tick) == without_id(
            pick(ids, orders, side, tick),
            gone,
        ),
    decreases ids.len(),
{
    let after = orders.remove(gone);
    if ids.len() == 0 {
        lemma_first_id(ids, gone, 0);
        lemma_first_id(Seq::<i64>::empty(), gone, 0);
    } else {
        let rest = ids.drop_last();
        let last = ids.last();
        assert(ids =~= rest.push(last));
        assert(rest.no_duplicates()) by {
            assert forall|a: int, b: int|
                0 <= a < rest.len() && 0 <= b < rest.len() && a != b implies rest[a] != rest[b] by {
                assert(rest[a] == ids[a] && rest[b] == ids[b]);
            }
        }
        assert(!rest.contains(last)) by {
            if rest.contains(last) {
                let j = choose|j: int| 0 <= j < rest.len() && rest[j] == last;
                assert(ids[j] == ids[ids.len() - 1]);
            }
        }
        lemma_pick(rest, orders, side, tick);
        let picked_rest = pick(rest, orders, side, tick);
        if last == gone {
            lemma_without_last(rest, gone);
            assert(without_id(ids, gone) == rest);
            // The id that left is not among the rest, so nothing changes there.
            lemma_pick_same(rest, orders, after, side, tick);
            assert(!picked_rest.contains(gone));
            if orders.contains_key(gone) && orders[gone].side == side && orders[gone].price_tick
                == tick {
                lemma_without_last(picked_rest, gone);
            } else {
                lemma_without_absent(picked_rest, gone);
            }
        } else {
            lemma_without_push(rest, last, gone);
            lemma_pick_without(rest, orders, side, tick, gone);
            let shorter = without_id(rest, gone);
            assert(without_id(ids, gone) == shorter.push(last));
            assert(shorter.push(last).drop_last() =~= shorter);
            if orders.contains_key(last) && orders[last].side == side && orders[last].price_tick
                == tick {
                lemma_without_push(picked_rest, last, gone);
            }
        }
    }
}

} // verus!

//! The order bus: orders in flight between the two processors, each with the
//! timestamp at which it is delivered.

use crate::ty::Order;
use vstd::prelude::*;

verus! {

/// Delivery timestamps never decrease along the sequence.
pub open spec fn sorted_by_delivery<Q>(s: Seq<(Order<Q>, i64)>) -> bool {
    forall|i: int, j: int| 0 <= i <= j < s.len() ==> s[i].1 <= s[j].1
}

/// Where an entry due at `timestamp` goes: behind every entry that is due
/// no later, so that entries due at the same time keep the order in which
/// they were appended.
pub open spec fn insert_pos<Q>(s: Seq<(Order<Q>, i64)>, timestamp: i64) -> int
    decreases s.len(),
{
    if s.len() == 0 {
        0
    } else if s.last().1 <= timestamp {
        s.len() as int
    } else {
        insert_pos(s.drop_last(), timestamp)
    }
}

/// The bus after `order`, due at `timestamp`, was appended.
pub open spec fn bus_append<Q>(s: Seq<(Order<Q>, i64)>, order: Order<Q>, timestamp: i64) -> Seq<
    (Order<Q>, i64),
> {
    s.insert(insert_pos(s, timestamp), (order, timestamp))
}

/// The insert position splits a sorted bus into the entries due no later
/// than `timestamp` and those due after it.
pub proof fn lemma_insert_pos<Q>(s: Seq<(Order<Q>, i64)>, timestamp: i64)
    requires
        sorted_by_delivery(s),
    ensures
        0 <= insert_pos(s, timestamp) <= s.len(),
        forall|i: int| 0 <= i < insert_pos(s, timestamp) ==> s[i].1 <= timestamp,
        forall|i: int| insert_pos(s, timestamp) <= i < s.len() ==> s[i].1 > timestamp,
    decreases s.len(),
{
    if s.len() > 0 && s.last().1 > timestamp {
        let t = s.drop_last();
        assert(sorted_by_delivery(t)) by {
            assert forall|i: int, j: int| 0 <= i <= j < t.len() implies t[i].1 <= t[j].1 by {
                assert(t[i] == s[i] && t[j] == s[j]);
            }
        }
        lemma_insert_pos(t, timestamp);
        assert forall|i: int| 0 <= i < insert_pos(s, timestamp) implies s[i].1 <= timestamp by {
            assert(t[i] == s[i]);
        }
        assert forall|i: int| insert_pos(s, timestamp) <= i < s.len() implies s[i].1
            > timestamp by {
            if i < t.len() {
                assert(t[i] == s[i]);
            }
        }
    }
}

/// Appending keeps the bus sorted.
pub proof fn lemma_bus_append_sorted<Q>(s: Seq<(Order<Q>, i64)>, order: Order<Q>, timestamp: i64)
    requires
        sorted_by_delivery(s),
    ensures
        sorted_by_delivery(bus_append(s, order, timestamp)),
{
    lemma_insert_pos(s, timestamp);
    let p = insert_pos(s, timestamp);
    let r = bus_append(s, order, timestamp);
    assert forall|i: int, j: int| 0 <= i <= j < r.len() implies r[i].1 <= r[j].1 by {
        if i < p {
            assert(r[i] == s[i]);
        } else if i > p {
            assert(r[i] == s[i - 1]);
        }
        if j < p {
            assert(r[j] == s[j]);
        } else if j > p {
            assert(r[j] == s[j - 1]);
        }
    }
}

/// The quantities of every order on the bus add up.
pub open spec fn all_consistent<Q>(s: Seq<(Order<Q>, i64)>) -> bool {
    forall|i: int| 0 <= i < s.len() ==> (#[trigger] s[i]).0.consistent()
}

/// An order whose quantities add up leaves the bus as sound as it was.
pub proof fn lemma_bus_append_consistent<Q>(
    s: Seq<(Order<Q>, i64)>,
    order: Order<Q>,
    timestamp: i64,
)
    requires
        sorted_by_delivery(s),
        all_consistent(s),
        order.consistent(),
    ensures
        all_consistent(bus_append(s, order, timestamp)),
{
    lemma_insert_pos(s, timestamp);
    let p = insert_pos(s, timestamp);
    let r = bus_append(s, order, timestamp);
    assert forall|i: int| 0 <= i < r.len() implies (#[trigger] r[i]).0.consistent() by {
        if i < p {
            assert(r[i] == s[i]);
        } else if i > p {
            assert(r[i] == s[i - 1]);
        }
    }
}

/// A queue of orders in flight, sorted by delivery timestamp.
pub struct OrderBus<Q> {
    order_list: Vec<(Order<Q>, i64)>,
}

impl<Q> OrderBus<Q> {
    /// The entries, the next to be delivered first.
    pub closed spec fn view(&self) -> Seq<(Order<Q>, i64)> {
        self.order_list@
    }

    /// The entries are sorted by delivery timestamp.
    pub open spec fn wf(&self) -> bool {
        sorted_by_delivery(self@)
    }

    /// The quantities of every order on the bus add up.
    pub open spec fn consistent(&self) -> bool {
        all_consistent(self@)
    }

    /// The delivery timestamp of the head, `i64::MAX` on an empty bus.
    pub open spec fn spec_frontmost_timestamp(&self) -> i64 {
        if self@.len() > 0 {
            self@[0].1
        } else {
            i64::MAX
        }
    }

    /// An empty bus.
    pub fn new() -> (b: Self)
        ensures
            b.wf(),
            b.consistent(),
            b@ == Seq::<(Order<Q>, i64)>::empty(),
    {
        OrderBus { order_list: Vec::new() }
    }

    /// The number of entries.
    pub fn len(&self) -> (n: usize)
        ensures
            n == self@.len(),
    {
        self.order_list.len()
    }

    /// The delivery timestamp of the head, if there is one.
    pub fn get_head_timestamp(&self) -> (t: Option<i64>)
        ensures
            t == if self@.len() > 0 {
                Some(self@[0].1)
            } else {
                None
            },
    {
        if self.order_list.len() > 0 {
            Some(self.order_list[0].1)
        } else {
            None
        }
    }

    /// The delivery timestamp of the head, `i64::MAX` on an empty bus.
    pub fn frontmost_timestamp(&self) -> (t: i64)
        ensures
            t == self.spec_frontmost_timestamp(),
    {
        if self.order_list.len() > 0 {
            self.order_list[0].1
        } else {
            i64::MAX
        }
    }

    /// Puts `order` on the bus, to be delivered at `timestamp`.
    pub fn append(&mut self, order: Order<Q>, timestamp: i64)
        requires
            old(self).wf(),
        ensures
            final(self).wf(),
            final(self)@ == bus_append(old(self)@, order, timestamp),
            final(self)@.len() == old(self)@.len() + 1,
            old(self).consistent() && order.consistent() ==> final(self).consistent(),
    {
        proof {
            if self.consistent() && order.consistent() {
                lemma_bus_append_consistent(self@, order, timestamp);
            }
        }
        let mut i: usize = self.order_list.len();
        assert(self@.take(i as int) =~= self@);
        while i > 0 && self.order_list[i - 1].1 > timestamp
            invariant
                0 <= i <= self.order_list.len(),
                self.order_list == old(self).order_list,
                insert_pos(self@, timestamp) == insert_pos(self@.take(i as int), timestamp),
            decreases i,
        {
            assert(self@.take(i as int).drop_last() =~= self@.take(i - 1));
            i = i - 1;
        }
        proof {
            lemma_bus_append_sorted(self@, order, timestamp);
        }
        self.order_list.insert(i, (order, timestamp));
    }

    /// Takes the entry at `index` off the bus and returns its order.
    pub fn remove(&mut self, index: usize) -> (order: Order<Q>)
        requires
            old(self).wf(),
            index < old(self)@.len(),
        ensures
            final(self).wf(),
            final(self)@ == old(self)@.remove(index as int),
            order == old(self)@[index as int].0,
            old(self).consistent() ==> final(self).consistent() && order.consistent(),
    {
        proof {
            if self.consistent() {
                let r = self@.remove(index as int);
                assert forall|i: int| 0 <= i < r.len() implies (#[trigger] r[i]).0.consistent() by {
                    if i < index {
                        assert(r[i] == self@[i]);
                    } else {
                        assert(r[i] == self@[i + 1]);
                    }
                }
            }
        }
        let entry = self.order_list.remove(index);
        entry.0
    }
}

} // verus!

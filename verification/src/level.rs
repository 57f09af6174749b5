//! A price level: the FIFO queue of resting orders at a single price, with a
//! cached total of their remaining quantities.
//!
//! The cached total always equals the sum over the queue; every operation
//! here preserves that equality, which is the per-level half of the book's
//! quantity-conservation invariant.

use vstd::prelude::*;


verus! {

/// A resting order as the book stores it.
#[derive(Debug, Clone, Copy, PartialEq, Eq, Structural)]
pub struct OrderEntry {
    pub order_id: u128,
    pub user_id: u128,
    pub price: u64,
    pub remaining_quantity: u64,
    pub sequence: u64,
}

/// Sum of the remaining quantities over a queue of entries.
pub open spec fn sum_remaining(s: Seq<OrderEntry>) -> int
    decreases s.len(),
{
    if s.len() == 0 {
        0
    } else {
        s[0].remaining_quantity + sum_remaining(s.drop_first())
    }
}

/// The sum over a queue is bounded by its length times the largest quantity
/// an entry can hold.
pub proof fn lemma_sum_bounds(s: Seq<OrderEntry>)
    ensures
        0 <= sum_remaining(s) <= s.len() * (u64::MAX as int),
    decreases s.len(),
{
    if s.len() == 0 {
    } else {
        lemma_sum_bounds(s.drop_first());
        assert(s.len() * (u64::MAX as int)
            == (u64::MAX as int) + (s.len() - 1) * (u64::MAX as int)) by (nonlinear_arith);
    }
}

/// Appending an entry adds its remaining quantity to the sum.
pub proof fn lemma_sum_push(s: Seq<OrderEntry>, e: OrderEntry)
    ensures
        sum_remaining(s.push(e)) == sum_remaining(s) + e.remaining_quantity,
    decreases s.len(),
{
    assert(s.push(e).len() == s.len() + 1);
    if s.len() == 0 {
        assert(s.push(e)[0] == e);
        assert(s.push(e).drop_first() =~= Seq::<OrderEntry>::empty());
        assert(sum_remaining(s.push(e))
            == s.push(e)[0].remaining_quantity + sum_remaining(s.push(e).drop_first()));
    } else {
        assert(s.push(e)[0] == s[0]);
        assert(s.push(e).drop_first() =~= s.drop_first().push(e));
        lemma_sum_push(s.drop_first(), e);
        assert(sum_remaining(s.push(e))
            == s.push(e)[0].remaining_quantity + sum_remaining(s.push(e).drop_first()));
    }
}

/// Removing an entry subtracts its remaining quantity from the sum.
pub proof fn lemma_sum_remove(s: Seq<OrderEntry>, i: int)
    requires
        0 <= i < s.len(),
    ensures
        sum_remaining(s.remove(i)) == sum_remaining(s) - s[i].remaining_quantity,
    decreases s.len(),
{
    if i == 0 {
        assert(s.remove(0) =~= s.drop_first());
    } else {
        assert(s.remove(i).drop_first() =~= s.drop_first().remove(i - 1));
        lemma_sum_remove(s.drop_first(), i - 1);
    }
}

/// Replacing an entry adjusts the sum by the difference of the quantities.
pub proof fn lemma_sum_update(s: Seq<OrderEntry>, i: int, e: OrderEntry)
    requires
        0 <= i < s.len(),
    ensures
        sum_remaining(s.update(i, e)) == sum_remaining(s) - s[i].remaining_quantity
            + e.remaining_quantity,
    decreases s.len(),
{
    if i == 0 {
        assert(s.update(0, e).drop_first() =~= s.drop_first());
    } else {
        assert(s.update(i, e).drop_first() =~= s.drop_first().update(i - 1, e));
        lemma_sum_update(s.drop_first(), i - 1, e);
    }
}

/// Index of the first entry with the given order id, or the length if none.
pub open spec fn find_entry(s: Seq<OrderEntry>, id: u128) -> int
    decreases s.len(),
{
    if s.len() == 0 {
        0
    } else if s[0].order_id == id {
        0
    } else {
        1 + find_entry(s.drop_first(), id)
    }
}

/// Whether some entry in the queue has the given order id.
pub open spec fn contains_entry(s: Seq<OrderEntry>, id: u128) -> bool {
    exists|i: int| 0 <= i < s.len() && s[i].order_id == id
}

/// `find_entry` names the position of the earliest entry with the id.
pub proof fn lemma_find_entry(s: Seq<OrderEntry>, id: u128, i: int)
    requires
        0 <= i <= s.len(),
        forall|k: int| 0 <= k < i ==> s[k].order_id != id,
        i < s.len() ==> s[i].order_id == id,
    ensures
        find_entry(s, id) == i,
    decreases i,
{
    if s.len() == 0 {
    } else if i == 0 {
    } else {
        let t = s.drop_first();
        assert(forall|k: int| 0 <= k < i - 1 ==> t[k] == s[k + 1] && t[k].order_id != id);
        lemma_find_entry(t, id, i - 1);
    }
}

/// When the queue holds the id, `find_entry` lands on its earliest entry.
pub proof fn lemma_find_entry_contains(s: Seq<OrderEntry>, id: u128)
    requires
        contains_entry(s, id),
    ensures
        0 <= find_entry(s, id) < s.len(),
        s[find_entry(s, id)].order_id == id,
        forall|k: int| 0 <= k < find_entry(s, id) ==> s[k].order_id != id,
    decreases s.len(),
{
    if s[0].order_id == id {
    } else {
        let t = s.drop_first();
        let j = choose|j: int| 0 <= j < s.len() && s[j].order_id == id;
        assert(t[j - 1].order_id == id);
        assert(contains_entry(t, id));
        lemma_find_entry_contains(t, id);
        assert(forall|k: int| 1 <= k < s.len() ==> s[k] == t[k - 1]);
    }
}

/// The FIFO queue of resting orders at one price. Time priority is exactly
/// the insertion order of `add`.
#[derive(Debug, Clone)]
pub struct Level {
    pub price: u64,
    pub orders: Vec<OrderEntry>,
    pub total_quantity: u128,
}

impl View for Level {
    type V = Seq<OrderEntry>;

    open spec fn view(&self) -> Seq<OrderEntry> {
        self.orders@
    }
}

impl Level {
    /// The cached total equals the sum over the queue, and every entry is at
    /// this level's price with a positive remaining quantity.
    pub open spec fn wf(&self) -> bool {
        &&& self.total_quantity == sum_remaining(self.orders@)
        &&& forall|i: int|
            0 <= i < self.orders@.len() ==> (#[trigger] self.orders@[i]).price == self.price
                && self.orders@[i].remaining_quantity > 0
    }

    pub fn new(price: u64) -> (l: Level)
        ensures
            l.wf(),
            l.price == price,
            l@ == Seq::<OrderEntry>::empty(),
    {
        Level { price, orders: Vec::new(), total_quantity: 0 }
    }

    pub fn is_empty(&self) -> (r: bool)
        ensures
            r == (self@.len() == 0),
    {
        self.orders.len() == 0
    }

    pub fn len(&self) -> (n: usize)
        ensures
            n == self@.len(),
    {
        self.orders.len()
    }

    /// Appends an entry at the tail and grows the cached total by its
    /// remaining quantity.
    pub fn add(&mut self, entry: OrderEntry)
        requires
            old(self).wf(),
            entry.price == old(self).price,
            entry.remaining_quantity > 0,
        ensures
            final(self).wf(),
            final(self).price == old(self).price,
            final(self)@ == old(self)@.push(entry),
            final(self).total_quantity == old(self).total_quantity
                + entry.remaining_quantity,
    {
        let n = self.orders.len();
        proof {
            lemma_sum_bounds(self.orders@);
            lemma_sum_push(self.orders@, entry);
            assert(n as int * (u64::MAX as int) + (u64::MAX as int)
                < 0x1_0000_0000_0000_0000_0000_0000_0000_0000) by (nonlinear_arith)
                requires n as int <= u64::MAX as int;
        }
        self.total_quantity = self.total_quantity + entry.remaining_quantity as u128;
        self.orders.push(entry);
    }

    /// A copy of the head entry, if any.
    pub fn peek_head(&self) -> (r: Option<OrderEntry>)
        ensures
            self@.len() == 0 ==> r is None,
            self@.len() > 0 ==> r == Some(self@[0]),
    {
        if self.orders.len() == 0 {
            None
        } else {
            Some(self.orders[0])
        }
    }

    /// Removes and returns the head entry, shrinking the cached total.
    pub fn pop_head(&mut self) -> (r: Option<OrderEntry>)
        requires
            old(self).wf(),
        ensures
            final(self).wf(),
            final(self).price == old(self).price,
            old(self)@.len() == 0 ==> r is None && final(self)@ == old(self)@,
            old(self)@.len() > 0 ==> r == Some(old(self)@[0])
                && final(self)@ == old(self)@.drop_first()
                && final(self).total_quantity == old(self).total_quantity
                    - old(self)@[0].remaining_quantity,
    {
        if self.orders.len() == 0 {
            None
        } else {
            proof {
                lemma_sum_remove(self.orders@, 0);
                lemma_sum_bounds(self.orders@.remove(0));
                assert(self.orders@.remove(0) =~= self.orders@.drop_first());
            }
            let e = self.orders.remove(0);
            self.total_quantity = self.total_quantity - e.remaining_quantity as u128;
            Some(e)
        }
    }

    /// Lowers the head entry's remaining quantity by `amount`, leaving it in
    /// place with a positive residual.
    pub fn reduce_head(&mut self, amount: u64)
        requires
            old(self).wf(),
            old(self)@.len() > 0,
            amount < old(self)@[0].remaining_quantity,
        ensures
            final(self).wf(),
            final(self).price == old(self).price,
            final(self)@ == old(self)@.update(
                0,
                OrderEntry {
                    remaining_quantity: (old(self)@[0].remaining_quantity - amount) as u64,
                    ..old(self)@[0]
                },
            ),
            final(self).total_quantity == old(self).total_quantity - amount,
    {
        let head = self.orders[0];
        let reduced = OrderEntry {
            remaining_quantity: head.remaining_quantity - amount,
            ..head
        };
        proof {
            lemma_sum_update(self.orders@, 0, reduced);
            lemma_sum_remove(self.orders@, 0);
            lemma_sum_bounds(self.orders@.remove(0));
        }
        self.orders.set(0, reduced);
        self.total_quantity = self.total_quantity - amount as u128;
    }

    /// Scans for the entry with the given order id; on a hit removes it and
    /// shrinks the cached total by its remaining quantity.
    pub fn remove_by_id(&mut self, id: u128) -> (r: Option<OrderEntry>)
        requires
            old(self).wf(),
        ensures
            final(self).wf(),
            final(self).price == old(self).price,
            r is Some <==> contains_entry(old(self)@, id),
            r is None ==> final(self)@ == old(self)@,
            r is Some ==> {
                let m = find_entry(old(self)@, id);
                &&& r == Some(old(self)@[m])
                &&& old(self)@[m].order_id == id
                &&& final(self)@ == old(self)@.remove(m)
                &&& final(self).total_quantity == old(self).total_quantity
                    - old(self)@[m].remaining_quantity
            },
    {
        let n = self.orders.len();
        let mut i: usize = 0;
        while i < n
            invariant
                i <= n,
                n == self.orders@.len(),
                self == old(self),
                self.wf(),
                forall|k: int| 0 <= k < i ==> self.orders@[k].order_id != id,
            decreases n - i,
        {
            if self.orders[i].order_id == id {
                proof {
                    lemma_find_entry(self.orders@, id, i as int);
                    lemma_sum_remove(self.orders@, i as int);
                    lemma_sum_bounds(self.orders@.remove(i as int));
                }
                let e = self.orders.remove(i);
                self.total_quantity = self.total_quantity - e.remaining_quantity as u128;
                return Some(e);
            }
            i = i + 1;
        }
        None
    }
}

} // verus!

use vstd::prelude::*;

use crate::error::EngineError;
use crate::order::LimitOrder;

verus! {

/// The sum of the sizes of a sequence of orders.
pub open spec fn sum_sizes(s: Seq<LimitOrder>) -> int
    decreases s.len(),
{
    if s.len() == 0 {
        0
    } else {
        sum_sizes(s.drop_last()) + s.last().size
    }
}

proof fn lemma_sum_sizes_nonneg(s: Seq<LimitOrder>)
    ensures
        sum_sizes(s) >= 0,
    decreases s.len(),
{
    if s.len() > 0 {
        lemma_sum_sizes_nonneg(s.drop_last());
    }
}

proof fn lemma_sum_sizes_update(s: Seq<LimitOrder>, i: int, o: LimitOrder)
    requires
        0 <= i < s.len(),
    ensures
        sum_sizes(s.update(i, o)) == sum_sizes(s) - s[i].size + o.size,
    decreases s.len(),
{
    if i < s.len() - 1 {
        assert(s.update(i, o).drop_last() =~= s.drop_last().update(i, o));
        lemma_sum_sizes_update(s.drop_last(), i, o);
    } else {
        assert(s.update(i, o).drop_last() =~= s.drop_last());
    }
}

proof fn lemma_sum_sizes_remove_first(s: Seq<LimitOrder>)
    requires
        s.len() > 0,
    ensures
        sum_sizes(s) == s[0].size + sum_sizes(s.remove(0)),
    decreases s.len(),
{
    if s.len() > 1 {
        assert(s.remove(0).drop_last() =~= s.drop_last().remove(0));
        lemma_sum_sizes_remove_first(s.drop_last());
    } else {
        assert(s.remove(0) =~= Seq::<LimitOrder>::empty());
    }
}

/// The orders resting at one price, oldest first, with their total size.
/// Held in memory: how the host persists the book is not this library's
/// concern.
pub struct Level {
    pub volume: u128,
    pub orders: Vec<LimitOrder>,
}

impl Level {
    /// The volume is the sum of the sizes of the orders held.
    pub open spec fn wf(&self) -> bool {
        self.volume == sum_sizes(self.orders@)
    }

    /// An empty level.
    pub fn new() -> (r: Self)
        ensures
            r.wf(),
            r.orders@.len() == 0,
            r.volume == 0,
    {
        Level { volume: 0, orders: Vec::new() }
    }

    /// The order at position `idx`, counted from the oldest; `NotFound` past
    /// the last one.
    pub fn get(&self, idx: u64) -> (r: Result<LimitOrder, EngineError>)
        ensures
            idx < self.orders@.len() ==> r == Ok::<LimitOrder, EngineError>(self.orders@[idx as int]),
            idx >= self.orders@.len() ==> r == Err::<LimitOrder, EngineError>(EngineError::NotFound),
    {
        let n = self.orders.len();
        if idx >= n as u64 {
            return Err(EngineError::NotFound);
        }
        Ok(self.orders[idx as usize].clone())
    }

    /// Whether the level holds no order.
    pub fn empty(&self) -> (r: bool)
        ensures
            r == (self.orders@.len() == 0),
    {
        self.orders.len() == 0
    }

    /// Appends `order` behind the others; fails with `Overflow`, changing
    /// nothing, when the volume would not fit in a `u128`.
    pub fn push(&mut self, order: LimitOrder) -> (r: Result<(), EngineError>)
        requires
            old(self).wf(),
        ensures
            final(self).wf(),
            old(self).volume + order.size <= u128::MAX ==> r is Ok
                && final(self).orders@ == old(self).orders@.push(order)
                && final(self).volume == old(self).volume + order.size,
            old(self).volume + order.size > u128::MAX ==> r == Err::<(), EngineError>(
                EngineError::Overflow,
            ) && *final(self) == *old(self),
    {
        if order.size > u128::MAX - self.volume {
            return Err(EngineError::Overflow);
        }
        self.volume = self.volume + order.size;
        self.orders.push(order);
        proof {
            assert(self.orders@.drop_last() =~= old(self).orders@);
        }
        Ok(())
    }

    /// The oldest order, left in place; `NotFound` when the level is empty.
    pub fn peek_front(&self) -> (r: Result<LimitOrder, EngineError>)
        ensures
            self.orders@.len() == 0 ==> r == Err::<LimitOrder, EngineError>(
                EngineError::NotFound,
            ),
            self.orders@.len() > 0 ==> r == Ok::<LimitOrder, EngineError>(self.orders@[0]),
    {
        if self.orders.len() == 0 {
            Err(EngineError::NotFound)
        } else {
            Ok(self.orders[0].clone())
        }
    }

    /// Removes and returns the oldest order; `NotFound`, changing nothing,
    /// when the level is empty.
    pub fn pop(&mut self) -> (r: Result<LimitOrder, EngineError>)
        requires
            old(self).wf(),
        ensures
            final(self).wf(),
            old(self).orders@.len() == 0 ==> r == Err::<LimitOrder, EngineError>(
                EngineError::NotFound,
            ) && *final(self) == *old(self),
            old(self).orders@.len() > 0 ==> r == Ok::<LimitOrder, EngineError>(
                old(self).orders@[0],
            ) && final(self).orders@ == old(self).orders@.remove(0) && final(self).volume
                == old(self).volume - old(self).orders@[0].size,
    {
        if self.orders.len() == 0 {
            return Err(EngineError::NotFound);
        }
        proof {
            lemma_sum_sizes_remove_first(self.orders@);
            lemma_sum_sizes_nonneg(self.orders@.remove(0));
        }
        let o = self.orders.remove(0);
        self.volume = self.volume - o.size;
        Ok(o)
    }

    /// Takes `amount` off the oldest order's size, in place; the order leaves
    /// the level when nothing of it remains. `NotFound` when the level is empty
    /// and `Underflow` when `amount` exceeds that size, changing nothing.
    pub fn reduce_front(&mut self, amount: u128) -> (r: Result<(), EngineError>)
        requires
            old(self).wf(),
        ensures
            final(self).wf(),
            old(self).orders@.len() == 0 ==> r == Err::<(), EngineError>(EngineError::NotFound)
                && *final(self) == *old(self),
            old(self).orders@.len() > 0 && amount > old(self).orders@[0].size ==> r == Err::<
                (),
                EngineError,
            >(EngineError::Underflow) && *final(self) == *old(self),
            old(self).orders@.len() > 0 && amount == old(self).orders@[0].size ==> r is Ok
                && final(self).orders@ == old(self).orders@.remove(0),
            old(self).orders@.len() > 0 && amount < old(self).orders@[0].size ==> r is Ok
                && final(self).orders@ == old(self).orders@.update(
                0,
                LimitOrder { size: (old(self).orders@[0].size - amount) as u128, ..old(self).orders@[0] },
            ),
            r is Ok ==> final(self).volume == old(self).volume - amount,
    {
        if self.orders.len() == 0 {
            return Err(EngineError::NotFound);
        }
        let mut front = self.orders[0].clone();
        if amount > front.size {
            return Err(EngineError::Underflow);
        }
        if amount == front.size {
            let _ = self.pop();
            return Ok(());
        }
        proof {
            lemma_sum_sizes_update(self.orders@, 0, LimitOrder { size: (front.size - amount) as u128, ..front });
            lemma_sum_sizes_nonneg(self.orders@.update(0, LimitOrder { size: (front.size - amount) as u128, ..front }));
        }
        front.size = front.size - amount;
        self.orders.set(0, front);
        self.volume = self.volume - amount;
        Ok(())
    }

    /// Removes the oldest order and hands it out locked, together with the
    /// settlement request it carries against taker `id_t` when it names a
    /// target; `NotFound`, changing nothing, when the level is empty.
    pub fn pop_for(&mut self, id_t: u128) -> (r: Result<(LimitOrder, Option<SettlementRequest>), EngineError>)
        requires
            old(self).wf(),
        ensures
            final(self).wf(),
            old(self).orders@.len() == 0 ==> r == Err::<(LimitOrder, Option<SettlementRequest>), EngineError>(
                EngineError::NotFound,
            ) && *final(self) == *old(self),
            old(self).orders@.len() > 0 ==> r is Ok && final(self).orders@ == old(self).orders@.remove(0)
                && final(self).volume == old(self).volume - old(self).orders@[0].size
                && r->Ok_0.0 == (LimitOrder { pending: true, ..old(self).orders@[0] })
                && r->Ok_0.1 == settlement_of(old(self).orders@[0], id_t),
    {
        match self.pop() {
            Err(e) => Err(e),
            Ok(o) => {
                let mut m = o;
                m.lock();
                let req = request_for(&m, id_t);
                Ok((m, req))
            },
        }
    }
}

/// A request to run a maker order's settlement target for one match.
pub struct SettlementRequest {
    pub target: String,
    pub maker_id: u128,
    pub taker_id: u128,
}

impl Clone for SettlementRequest {
    fn clone(&self) -> (r: Self)
        ensures
            r == *self,
    {
        SettlementRequest { target: self.target.clone(), maker_id: self.maker_id, taker_id: self.taker_id }
    }
}

/// The settlement a consumed maker order asks for when matched against
/// taker `id_t`: none when it names no target.
pub open spec fn settlement_of(m: LimitOrder, id_t: u128) -> Option<SettlementRequest> {
    if m.callable@.len() == 0 {
        None
    } else {
        Some(SettlementRequest { target: m.callable, maker_id: m.id, taker_id: id_t })
    }
}

/// The settlement request of maker `m` against taker `id_t`, if it names a target.
pub fn request_for(m: &LimitOrder, id_t: u128) -> (r: Option<SettlementRequest>)
    ensures
        r == settlement_of(*m, id_t),
{
    if m.callable.as_str().unicode_len() == 0 {
        None
    } else {
        Some(SettlementRequest { target: m.callable.clone(), maker_id: m.id, taker_id: id_t })
    }
}

} // verus!

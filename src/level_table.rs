use std::collections::HashMap;
use vstd::prelude::*;

use crate::error::EngineError;
use crate::level::{settlement_of, Level, SettlementRequest};
use crate::order::LimitOrder;

verus! {

broadcast use vstd::std_specs::hash::group_hash_axioms;

/// What one matching step did at a price level.
pub enum Step {
    /// The level holds no order: nothing happened.
    Skip,
    /// The oldest resting order was larger than the taker's remaining size:
    /// it lost `filled` of its size and stays in place.
    Partial { maker_id: u128, filled: u128 },
    /// The oldest resting order was consumed whole and left the level.
    Consumed { maker: LimitOrder, request: Option<SettlementRequest> },
}

/// One resting order a taker met during a scan.
pub struct Fill {
    pub price: u128,
    pub maker_id: u128,
    /// How much of the taker's size this met.
    pub size: u128,
    /// The maker order, locked, when it was consumed whole.
    pub maker: Option<LimitOrder>,
    /// The settlement a consumed maker asks for.
    pub request: Option<SettlementRequest>,
}

/// The total size met by a sequence of fills.
pub open spec fn fill_sum(fills: Seq<Fill>) -> int
    decreases fills.len(),
{
    if fills.len() == 0 {
        0
    } else {
        fill_sum(fills.drop_last()) + fills.last().size
    }
}

/// Whether a taker of `side` at `limit` trades with a level at `price`: a bid
/// at or above it, an ask at or below it.
pub open spec fn crosses(side: bool, limit: u128, price: u128) -> bool {
    if side {
        price <= limit
    } else {
        price >= limit
    }
}

/// Whether a taker of `side` reaches price `a` before price `b`: a bid scans
/// upwards from the lowest ask, an ask downwards from the highest bid.
pub open spec fn before(side: bool, a: u128, b: u128) -> bool {
    if side {
        a < b
    } else {
        a > b
    }
}

/// How a fill changed the orders of its level, from `old` to `new`, for taker `id_t`.
pub open spec fn fill_effect(old: Seq<LimitOrder>, new: Seq<LimitOrder>, f: Fill, id_t: u128) -> bool {
    &&& old.len() > 0
    &&& f.maker_id == old[0].id
    &&& match f.maker {
        Some(m) => {
            &&& m == (LimitOrder { pending: true, ..old[0] })
            &&& f.size == old[0].size
            &&& f.request == settlement_of(old[0], id_t)
            &&& new == old.remove(0)
        },
        None => {
            &&& old[0].size > f.size
            &&& f.request is None
            &&& new == old.update(0, LimitOrder { size: (old[0].size - f.size) as u128, ..old[0] })
        },
    }
}

/// One side of the book: the levels by price, and the lowest and highest
/// price at which a level was made (`min_level > max_level` while none was).
/// Held in memory, keyed by price; persisting it is left to the host.
pub struct LevelTable {
    pub table: HashMap<u128, Level>,
    pub table_side: bool,
    pub min_level: u128,
    pub max_level: u128,
}

impl Default for LevelTable {
    /// An empty table for asks.
    fn default() -> (r: Self)
        ensures
            r.wf(),
            r.table@.dom().len() == 0,
            r.table_side == false,
    {
        LevelTable::new(false)
    }
}

impl LevelTable {
    pub open spec fn wf(&self) -> bool {
        &&& forall|p: u128| #[trigger] self.table@.contains_key(p) ==> self.table@[p].wf()
        &&& self.table@.dom().len() == 0 ==> self.min_level == u128::MAX && self.max_level == 0
        &&& self.table@.dom().len() > 0 ==> {
            &&& self.table@.contains_key(self.min_level)
            &&& self.table@.contains_key(self.max_level)
            &&& forall|p: u128| #[trigger]
                self.table@.contains_key(p) ==> self.min_level <= p <= self.max_level
        }
        &&& self.table@.dom().finite()
    }

    /// What adding `o` did, from this table to `new`, with outcome `r`: an
    /// order of the other side changes nothing; otherwise `o` rests behind the
    /// orders at its price, no other level changes, and a new price widens the
    /// range; a volume that would overflow changes nothing.
    pub open spec fn added(&self, new: Self, o: LimitOrder, r: Result<(), EngineError>) -> bool {
        let overflow = self.table@.contains_key(o.price) && self.table@[o.price].volume + o.size > u128::MAX;
        &&& new.table_side == self.table_side
        &&& o.side != self.table_side ==> r is Ok && new.same(*self)
        &&& o.side == self.table_side && overflow ==> r == Err::<(), EngineError>(EngineError::Overflow)
        &&& r is Err ==> new.same(*self)
        &&& o.side == self.table_side && !overflow ==> {
            &&& r is Ok
            &&& new.table@ == self.table@.insert(o.price, new.table@[o.price])
            &&& new.orders_at(o.price) == self.orders_at(o.price).push(o)
            &&& self.table@.contains_key(o.price) ==> new.min_level == self.min_level && new.max_level == self.max_level
            &&& !self.table@.contains_key(o.price) && self.table@.dom().len() == 0 ==> new.min_level == o.price && new.max_level == o.price
            &&& !self.table@.contains_key(o.price) && self.table@.dom().len() > 0 ==> {
                &&& new.min_level == (if o.price < self.min_level { o.price } else { self.min_level })
                &&& new.max_level == (if o.price > self.max_level { o.price } else { self.max_level })
            }
        }
    }

    /// Both tables hold the same levels, side and price range.
    pub open spec fn same(&self, other: Self) -> bool {
        &&& self.table@ == other.table@
        &&& self.table_side == other.table_side
        &&& self.min_level == other.min_level
        &&& self.max_level == other.max_level
    }

    /// The orders resting at `price`, oldest first; none where no level was made.
    pub open spec fn orders_at(&self, price: u128) -> Seq<LimitOrder> {
        if self.table@.contains_key(price) {
            self.table@[price].orders@
        } else {
            Seq::empty()
        }
    }

    /// An empty table for bids (`side` holds) or asks.
    pub fn new(side: bool) -> (r: Self)
        ensures
            r.wf(),
            r.table@.dom().len() == 0,
            r.table_side == side,
    {
        LevelTable { table: HashMap::new(), table_side: side, min_level: u128::MAX, max_level: 0 }
    }

    /// Rests `o` behind the orders at its price, making the level (and widening
    /// the price range) when none was there. An order of the other side is
    /// ignored. Fails with `Overflow`, changing nothing, when the level's volume
    /// would not fit in a `u128`.
    pub fn add_order(&mut self, o: LimitOrder) -> (r: Result<(), EngineError>)
        requires
            old(self).wf(),
        ensures
            final(self).wf(),
            old(self).added(*final(self), o, r),
    {
        if o.side != self.table_side {
            return Ok(());
        }
        let price = o.price;
        match self.table.remove(&price) {
            Some(level) => {
                let mut level = level;
                assert(level == old(self).table@[price]);
                let pushed = level.push(o);
                self.table.insert(price, level);
                match pushed {
                    Ok(()) => {
                        proof {
                            assert(self.table@.dom() =~= old(self).table@.dom());
                            assert(self.table@ =~= old(self).table@.insert(price, self.table@[price]));
                        }
                        Ok(())
                    }
                    Err(e) => {
                        assert(self.table@ =~= old(self).table@);
                        Err(e)
                    },
                }
            },
            None => {
                let mut level = Level::new();
                let _ = level.push(o);
                proof {
                    assert(level.orders@ =~= Seq::<LimitOrder>::empty().push(o));
                }
                self.table.insert(price, level);
                proof {
                    assert(self.table@.dom() =~= old(self).table@.dom().insert(price));
                    assert(self.table@ =~= old(self).table@.insert(price, self.table@[price]));
                    if old(self).table@.dom().len() == 0 {
                        assert(old(self).table@.dom() =~= Set::<u128>::empty());
                    }
                }
                if self.min_level > self.max_level {
                    self.min_level = price;
                    self.max_level = price;
                } else {
                    if price > self.max_level {
                        self.max_level = price;
                    }
                    if price < self.min_level {
                        self.min_level = price;
                    }
                }
                Ok(())
            },
        }
    }

    /// The lowest price at which a level was made.
    pub fn get_min_level(&self) -> (r: u128)
        ensures
            r == self.min_level,
    {
        self.min_level
    }

    /// The highest price at which a level was made.
    pub fn get_max_level(&self) -> (r: u128)
        ensures
            r == self.max_level,
    {
        self.max_level
    }

    /// The level at `idx`; `NotFound` where none was made.
    pub fn get_level(&self, idx: u128) -> (r: Result<&Level, EngineError>)
        ensures
            self.table@.contains_key(idx) ==> r == Ok::<&Level, EngineError>(&self.table@[idx]),
            !self.table@.contains_key(idx) ==> r == Err::<&Level, EngineError>(
                EngineError::NotFound,
            ),
    {
        match self.table.get(&idx) {
            Some(l) => Ok(l),
            None => Err(EngineError::NotFound),
        }
    }

    /// Matches a taker with `remaining > 0` left, of id `id_t`, against the
    /// oldest order resting at `price`. A larger resting order loses
    /// `remaining` of its size in place; one no larger than `remaining` is
    /// consumed whole, leaves the level, and takes exactly its size off the
    /// level's volume. A missing or empty level is skipped. No other level
    /// changes.
    pub fn match_front(&mut self, price: u128, remaining: u128, id_t: u128) -> (r: Step)
        requires
            old(self).wf(),
            remaining > 0,
        ensures
            final(self).wf(),
            final(self).table_side == old(self).table_side,
            final(self).min_level == old(self).min_level,
            final(self).max_level == old(self).max_level,
            final(self).table@.dom() == old(self).table@.dom(),
            forall|q: u128| q != price ==> #[trigger] final(self).table@.get(q) == old(self).table@.get(q),
            old(self).orders_at(price).len() == 0 ==> r is Skip && final(self).same(*old(self)),
            old(self).orders_at(price).len() > 0 && old(self).orders_at(price)[0].size
                > remaining ==> r == (Step::Partial {
                maker_id: old(self).orders_at(price)[0].id,
                filled: remaining,
            }) && final(self).orders_at(price) == old(self).orders_at(price).update(
                0,
                LimitOrder {
                    size: (old(self).orders_at(price)[0].size - remaining) as u128,
                    ..old(self).orders_at(price)[0]
                },
            ) && final(self).table@[price].volume == old(self).table@[price].volume - remaining,
            old(self).orders_at(price).len() > 0 && old(self).orders_at(price)[0].size
                <= remaining ==> r == (Step::Consumed {
                maker: LimitOrder { pending: true, ..old(self).orders_at(price)[0] },
                request: settlement_of(old(self).orders_at(price)[0], id_t),
            }) && final(self).orders_at(price) == old(self).orders_at(price).remove(0)
                && final(self).table@[price].volume == old(self).table@[price].volume - old(self).orders_at(price)[0].size,
    {
        match self.table.remove(&price) {
            None => {
                assert(self.table@ =~= old(self).table@);
                Step::Skip
            },
            Some(level) => {
                let mut level = level;
                let front = match level.peek_front() {
                    Err(_) => {
                        self.table.insert(price, level);
                        proof {
                            assert(self.table@ =~= old(self).table@);
                        }
                        return Step::Skip;
                    },
                    Ok(f) => f,
                };
                let r = if front.size > remaining {
                    let _ = level.reduce_front(remaining);
                    Step::Partial { maker_id: front.id, filled: remaining }
                } else {
                    match level.pop_for(id_t) {
                        Ok((maker, request)) => Step::Consumed { maker, request },
                        Err(_) => Step::Skip,
                    }
                };
                self.table.insert(price, level);
                proof {
                    assert(self.table@.dom() =~= old(self).table@.dom());
                    assert(self.table@ =~= old(self).table@.insert(price, level));
                }
                r
            },
        }
    }

    /// Scans this table for a taker of the other side, id `id_t`, at price
    /// `limit` with `size` to fill: level by level from the best price, one
    /// resting order per level, while the price crosses and size remains.
    /// Returns what remains and the fills in the order they were made; only
    /// their levels change, and none comes after the size reached zero.
    pub fn sweep(&mut self, id_t: u128, side: bool, limit: u128, size: u128) -> (r: (
        u128,
        Vec<Fill>,
    ))
        requires
            old(self).wf(),
        ensures
            final(self).wf(),
            final(self).table_side == old(self).table_side,
            final(self).min_level == old(self).min_level,
            final(self).max_level == old(self).max_level,
            final(self).table@.dom() == old(self).table@.dom(),
            r.0 == size - fill_sum(r.1@),
            forall|k: int|
                0 <= k < r.1@.len() ==> fill_sum(#[trigger] r.1@.take(k)) < size,
            forall|k: int|
                0 <= k < r.1@.len() ==> {
                    &&& crosses(side, limit, #[trigger] r.1@[k].price)
                    &&& old(self).table@.contains_key(r.1@[k].price)
                    &&& fill_effect(
                        old(self).orders_at(r.1@[k].price),
                        final(self).orders_at(r.1@[k].price),
                        r.1@[k],
                        id_t,
                    )
                },
            forall|j: int, k: int|
                0 <= j < k < r.1@.len() ==> before(side, #[trigger] r.1@[j].price, #[trigger] r.1@[k].price),
            forall|q: u128|
                (forall|k: int| 0 <= k < r.1@.len() ==> #[trigger] r.1@[k].price != q) ==> #[trigger] final(self).table@.get(q)
                    == old(self).table@.get(q),
            forall|q: u128|
                (forall|k: int| 0 <= k < r.1@.len() ==> #[trigger] r.1@[k].price != q)
                    && old(self).min_level <= q <= old(self).max_level && crosses(side, limit, q)
                    && (r.0 > 0 || (r.1@.len() > 0 && before(side, q, r.1@.last().price)))
                    ==> #[trigger] old(self).orders_at(q).len() == 0,
    {
        let mut fills: Vec<Fill> = Vec::new();
        let mut remaining: u128 = size;
        if self.min_level > self.max_level {
            return (remaining, fills);
        }
        let end = if side {
            self.max_level
        } else {
            self.min_level
        };
        let mut p: u128 = if side {
            self.min_level
        } else {
            self.max_level
        };
        loop
            invariant_except_break
                self.min_level <= p <= self.max_level,
                forall|k: int| 0 <= k < fills@.len() ==> before(side, #[trigger] fills@[k].price, p),
                forall|q: u128|
                    (forall|k: int| 0 <= k < fills@.len() ==> #[trigger] fills@[k].price != q)
                        && self.min_level <= q <= self.max_level && crosses(side, limit, q)
                        && before(side, q, p) ==> #[trigger] old(self).orders_at(q).len() == 0,
            invariant
                self.wf(),
                self.table_side == old(self).table_side,
                self.min_level == old(self).min_level,
                self.max_level == old(self).max_level,
                self.table@.dom() == old(self).table@.dom(),
                end == (if side { self.max_level } else { self.min_level }),
                remaining == size - fill_sum(fills@),
                forall|k: int|
                    0 <= k < fills@.len() ==> fill_sum(#[trigger] fills@.take(k)) < size,
                forall|k: int|
                    0 <= k < fills@.len() ==> {
                        &&& crosses(side, limit, #[trigger] fills@[k].price)
                        &&& old(self).table@.contains_key(fills@[k].price)
                        &&& fill_effect(
                            old(self).orders_at(fills@[k].price),
                            self.orders_at(fills@[k].price),
                            fills@[k],
                            id_t,
                        )
                    },
                forall|j: int, k: int|
                    0 <= j < k < fills@.len() ==> before(side, #[trigger] fills@[j].price, #[trigger] fills@[k].price),
                forall|q: u128|
                    (forall|k: int| 0 <= k < fills@.len() ==> #[trigger] fills@[k].price != q) ==> #[trigger] self.table@.get(q)
                        == old(self).table@.get(q),
            ensures
                forall|q: u128|
                    (forall|k: int| 0 <= k < fills@.len() ==> #[trigger] fills@[k].price != q)
                        && self.min_level <= q <= self.max_level && crosses(side, limit, q)
                        && (remaining > 0 || (fills@.len() > 0 && before(side, q, fills@.last().price)))
                        ==> #[trigger] old(self).orders_at(q).len() == 0,
            decreases (if side { self.max_level - p } else { p - self.min_level }),
        {
            if remaining == 0 || !(if side { p <= limit } else { p >= limit }) {
                proof {
                    if fills@.len() > 0 {
                        assert(before(side, fills@[fills@.len() - 1].price, p));
                    }
                    assert forall|q: u128|
                        (forall|k: int| 0 <= k < fills@.len() ==> #[trigger] fills@[k].price != q)
                            && self.min_level <= q <= self.max_level && crosses(side, limit, q)
                            && (remaining > 0 || (fills@.len() > 0 && before(side, q, fills@.last().price)))
                        implies #[trigger] old(self).orders_at(q).len() == 0 by {
                        assert(before(side, q, p));
                    }
                }
                break;
            }
            let ghost pre = *self;
            let ghost fills0 = fills@;
            let step = self.match_front(p, remaining, id_t);
            proof {
                assert forall|k: int| 0 <= k < fills0.len() implies #[trigger] fills0[k].price != p by {
                    assert(before(side, fills0[k].price, p));
                }
                assert(fills0.take(fills0.len() as int) =~= fills0);
            }
            match step {
                Step::Skip => {},
                Step::Partial { maker_id, filled } => {
                    fills.push(Fill { price: p, maker_id, size: filled, maker: None, request: None });
                    remaining = 0;
                },
                Step::Consumed { maker, request } => {
                    let taken = maker.size;
                    let mid = maker.id;
                    fills.push(Fill { price: p, maker_id: mid, size: taken, maker: Some(maker), request });
                    remaining = remaining - taken;
                },
            }
            proof {
                if fills@.len() > fills0.len() {
                    assert(fills@.drop_last() =~= fills0);
                    assert forall|k: int| 0 <= k < fills@.len() implies fill_sum(#[trigger] fills@.take(k)) < size by {
                        if k < fills0.len() {
                            assert(fills@.take(k) =~= fills0.take(k));
                        } else {
                            assert(fills@.take(k) =~= fills0);
                        }
                    }
                } else {
                    assert(fills@ =~= fills0);
                }
                assert(pre.table@.get(p) == old(self).table@.get(p));
                assert(old(self).orders_at(p) == pre.orders_at(p));
                assert forall|k: int| 0 <= k < fills0.len() implies self.orders_at(#[trigger] fills0[k].price)
                    == pre.orders_at(fills0[k].price) by {
                    assert(self.table@.get(fills0[k].price) == pre.table@.get(fills0[k].price));
                }
                assert forall|k: int| 0 <= k < fills@.len() implies {
                    &&& crosses(side, limit, #[trigger] fills@[k].price)
                    &&& old(self).table@.contains_key(fills@[k].price)
                    &&& fill_effect(
                        old(self).orders_at(fills@[k].price),
                        self.orders_at(fills@[k].price),
                        fills@[k],
                        id_t,
                    )
                } by {
                    if k < fills0.len() {
                        assert(fills@[k] == fills0[k]);
                    }
                }
                assert forall|q: u128|
                    (forall|k: int| 0 <= k < fills@.len() ==> #[trigger] fills@[k].price != q) implies #[trigger] self.table@.get(q)
                        == old(self).table@.get(q) by {
                    assert forall|k: int| 0 <= k < fills0.len() implies #[trigger] fills0[k].price != q by {
                        assert(fills@[k] == fills0[k]);
                    }
                    if q != p {
                        assert(self.table@.get(q) == pre.table@.get(q));
                    } else if fills@.len() > fills0.len() {
                        assert(fills@[fills0.len() as int].price == p);
                    }
                }
                assert forall|q: u128|
                    (forall|k: int| 0 <= k < fills@.len() ==> #[trigger] fills@[k].price != q)
                        && self.min_level <= q <= self.max_level && crosses(side, limit, q)
                        && (before(side, q, p) || q == p) implies #[trigger] old(self).orders_at(q).len() == 0 by {
                    assert forall|k: int| 0 <= k < fills0.len() implies #[trigger] fills0[k].price != q by {
                        assert(fills@[k] == fills0[k]);
                    }
                    if q == p && fills@.len() > fills0.len() {
                        assert(fills@[fills0.len() as int].price == p);
                    }
                }
            }
            if p == end {
                proof {
                    assert forall|q: u128|
                        (forall|k: int| 0 <= k < fills@.len() ==> #[trigger] fills@[k].price != q)
                            && self.min_level <= q <= self.max_level && crosses(side, limit, q)
                            && (remaining > 0 || (fills@.len() > 0 && before(side, q, fills@.last().price)))
                        implies #[trigger] old(self).orders_at(q).len() == 0 by {
                        if remaining == 0 {
                            assert(before(side, fills@[fills@.len() - 1].price, p) || fills@[fills@.len() - 1].price == p);
                        }
                        assert(before(side, q, p) || q == p);
                    }
                }
                break;
            }
            p = if side {
                p + 1
            } else {
                p - 1
            };
        }
        (remaining, fills)
    }
}

} // verus!

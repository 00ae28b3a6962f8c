use std::collections::HashMap;
use vstd::prelude::*;

use crate::error::EngineError;
use crate::ledger::BalanceLedger;
use crate::level::SettlementRequest;
use crate::level_table::{fill_effect, fill_sum, before, crosses, Fill, LevelTable};
use crate::order::{id_of_digest, LimitOrder, ASK, BID};

verus! {

broadcast use vstd::std_specs::hash::group_hash_axioms;

/// Asset A in ledger operations.
pub const A: bool = true;

/// Asset B in ledger operations.
pub const B: bool = false;

/// Whether `a` is on the `order` side of `b`: `a <= b` when `order` holds,
/// `a >= b` when it does not.
pub fn cmp(a: u128, b: u128, order: bool) -> (r: bool)
    ensures
        r == (if order { a <= b } else { a >= b }),
{
    match order {
        true => a <= b,
        false => a >= b,
    }
}

/// The terminal report of a taker order: filled completely when nothing remains.
pub struct Finalization {
    pub taker_id: u128,
    pub remaining: u128,
}

impl Finalization {
    /// Whether the order was filled completely.
    pub fn complete(&self) -> (r: bool)
        ensures
            r == (self.remaining == 0),
    {
        self.remaining == 0
    }
}

/// What submitting one taker order did.
pub struct MatchReport {
    pub taker_id: u128,
    /// The taker's size that no resting order met.
    pub remaining: u128,
    /// The resting orders met, in scan order.
    pub fills: Vec<Fill>,
    /// The settlements to run, one per consumed maker that names a target.
    pub requests: Vec<SettlementRequest>,
    /// The size met by consumed makers without a target whose immediate
    /// settlement was refused; it counts as not filled.
    pub unsettled: u128,
    /// The report of the taker, when no settlement is outstanding.
    pub finalized: Option<Finalization>,
}

/// A match between a taker and a maker order: who pays whom, for which orders, on which side.
pub struct Trade {
    pub from: String,
    pub to: String,
    pub id_t: u128,
    pub it_m: u128,
    pub side: bool,
}

/// The settlement requests of a sequence of fills, in order.
pub open spec fn requests_of(fills: Seq<Fill>) -> Seq<SettlementRequest>
    decreases fills.len(),
{
    if fills.len() == 0 {
        Seq::empty()
    } else {
        match fills.last().request {
            Some(q) => requests_of(fills.drop_last()).push(q),
            None => requests_of(fills.drop_last()),
        }
    }
}

/// The size met by the fills that carry a settlement request.
pub open spec fn requested_sum(fills: Seq<Fill>) -> int
    decreases fills.len(),
{
    if fills.len() == 0 {
        0
    } else {
        requested_sum(fills.drop_last()) + if fills.last().request is Some {
            fills.last().size as int
        } else {
            0
        }
    }
}

proof fn lemma_fill_sum_prefix(fills: Seq<Fill>, k: int)
    requires
        0 <= k <= fills.len(),
    ensures
        0 <= fill_sum(fills.take(k)) <= fill_sum(fills),
    decreases fills.len(),
{
    if k < fills.len() {
        assert(fills.drop_last().take(k) =~= fills.take(k));
        lemma_fill_sum_prefix(fills.drop_last(), k);
    } else {
        assert(fills.take(k) =~= fills);
        if fills.len() > 0 {
            lemma_fill_sum_prefix(fills.drop_last(), k - 1);
            assert(fills.drop_last().take(k - 1) =~= fills.drop_last());
        }
    }
}

proof fn lemma_requested_le(fills: Seq<Fill>)
    ensures
        0 <= requested_sum(fills) <= fill_sum(fills),
    decreases fills.len(),
{
    if fills.len() > 0 {
        lemma_requested_le(fills.drop_last());
    }
}

proof fn lemma_no_requests(fills: Seq<Fill>)
    requires
        requests_of(fills).len() == 0,
    ensures
        requested_sum(fills) == 0,
    decreases fills.len(),
{
    if fills.len() > 0 {
        lemma_no_requests(fills.drop_last());
    }
}

/// `amount` of `asset` went from `from` to `to` between ledgers `l0` and `l1`,
/// and no other balance of that asset moved.
pub open spec fn moved(
    l0: BalanceLedger,
    l1: BalanceLedger,
    from: Seq<char>,
    to: Seq<char>,
    amount: nat,
    asset: bool,
) -> bool {
    &&& l1.balance(from, asset) == l0.balance(from, asset) - amount
    &&& l1.balance(to, asset) == l0.balance(to, asset) + amount
    &&& forall|x: Seq<char>|
        x != from && x != to ==> #[trigger] l1.balance(x, asset) == l0.balance(x, asset)
}

/// Whether the two transfers of settling maker `m` against taker `t` can be made.
pub open spec fn can_pay(l: BalanceLedger, t: LimitOrder, m: LimitOrder) -> bool {
    if t.side {
        l.balance(t.address@, A) >= m.size && l.balance(m.address@, B) >= m.price * m.size
    } else {
        l.balance(m.address@, A) >= m.size && l.balance(t.address@, B) >= m.price * m.size
    }
}

/// Whether settling maker `m` against taker `t` on ledger `l` goes through.
pub open spec fn settle_ok(l: BalanceLedger, t: LimitOrder, m: LimitOrder) -> bool {
    &&& m.price * m.size <= u128::MAX
    &&& t.address@ != m.address@
    &&& t.size >= m.size
    &&& can_pay(l, t, m)
}

/// Every crossing level of `t` in its price range that the fills did not
/// touch was empty, up to the last fill when nothing of the taker remains.
pub open spec fn swept_clean(t: LevelTable, fills: Seq<Fill>, side: bool, limit: u128, remaining: u128) -> bool {
    forall|q: u128|
        (forall|k: int| 0 <= k < fills.len() ==> #[trigger] fills[k].price != q)
            && t.min_level <= q <= t.max_level && crosses(side, limit, q)
            && (remaining > 0 || (fills.len() > 0 && before(side, q, fills.last().price)))
            ==> #[trigger] t.orders_at(q).len() == 0
}

/// The outcome of settling maker `id_m` against taker `id_t` on book `b`.
pub open spec fn settle_outcome(b: OrderBook, id_t: u128, id_m: u128, status: bool) -> Result<
    (),
    EngineError,
> {
    if !b.pending@.contains_key(id_t) || !b.pending@.contains_key(id_m) {
        Err(EngineError::NotFound)
    } else if !status {
        Ok(())
    } else {
        let t = b.pending@[id_t];
        let m = b.pending@[id_m];
        if m.price * m.size > u128::MAX {
            Err(EngineError::Overflow)
        } else if t.address@ == m.address@ {
            Err(EngineError::SelfTransfer)
        } else if t.size < m.size {
            Err(EngineError::Underflow)
        } else if !can_pay(b.ledger, t, m) {
            Err(EngineError::InsufficientBalance)
        } else {
            Ok(())
        }
    }
}

/// The records after settling maker `id_m` against taker `id_t`: the maker's
/// goes, and a successful settlement takes the maker's size off the taker's.
pub open spec fn settled_pending(p: Map<u128, LimitOrder>, id_t: u128, id_m: u128, status: bool) -> Map<
    u128,
    LimitOrder,
> {
    if status {
        p.remove(id_m).insert(id_t, LimitOrder { size: (p[id_t].size - p[id_m].size) as u128, ..p[id_t] })
    } else {
        p.remove(id_m)
    }
}

/// The balances after settling maker `m` against taker `t`, from `l0` to
/// `l1`. A successful settlement moves the maker's size of asset A and its
/// notional (price times size) of asset B in opposite directions, the taker
/// paying A when it bids and receiving A when it asks; a failed one moves
/// nothing.
pub open spec fn settled_ledger(l0: BalanceLedger, l1: BalanceLedger, t: LimitOrder, m: LimitOrder, status: bool) -> bool {
    if status {
        if t.side {
            &&& moved(l0, l1, t.address@, m.address@, m.size as nat, A)
            &&& moved(l0, l1, m.address@, t.address@, (m.price * m.size) as nat, B)
        } else {
            &&& moved(l0, l1, m.address@, t.address@, m.size as nat, A)
            &&& moved(l0, l1, t.address@, m.address@, (m.price * m.size) as nat, B)
        }
    } else {
        l1 == l0
    }
}

/// How a settlement that went through moved the book from `b0` to `b1`.
pub open spec fn settled(b0: OrderBook, b1: OrderBook, id_t: u128, id_m: u128, status: bool) -> bool {
    &&& b1.pending@ == settled_pending(b0.pending@, id_t, id_m, status)
    &&& settled_ledger(b0.ledger, b1.ledger, b0.pending@[id_t], b0.pending@[id_m], status)
}

/// What matching taker `order` did to the book, from `b0` to `b1`, with report
/// `r`: the other side swept from its best price (every crossing level that
/// was not met was empty, and no level is met after the size is used up),
/// its own side untouched, settlements requested for consumed makers that
/// name a target and made at once for the others, the taker's locked record
/// kept while a request is outstanding, and no other record touched.
pub open spec fn matched(b0: OrderBook, b1: OrderBook, order: LimitOrder, r: MatchReport) -> bool {
    &&& b1.ledger.total(A) == b0.ledger.total(A)
    &&& b1.ledger.total(B) == b0.ledger.total(B)
    &&& r.taker_id == order.id
    &&& r.remaining == order.size - fill_sum(r.fills@)
    &&& forall|k: int|
            0 <= k < r.fills@.len() ==> fill_sum(#[trigger] r.fills@.take(k)) < order.size
    &&& forall|k: int|
            0 <= k < r.fills@.len() ==> crosses(order.side, order.price, #[trigger] r.fills@[k].price)
    &&& forall|j: int, k: int|
            0 <= j < k < r.fills@.len() ==> before(order.side, #[trigger] r.fills@[j].price, #[trigger] r.fills@[k].price)
    &&& order.side ==> b1.bids == b0.bids && (forall|k: int|
            0 <= k < r.fills@.len() ==> fill_effect(
                b0.asks.orders_at(#[trigger] r.fills@[k].price),
                b1.asks.orders_at(r.fills@[k].price),
                r.fills@[k],
                order.id,
            )) && (forall|q: u128|
            (forall|k: int| 0 <= k < r.fills@.len() ==> #[trigger] r.fills@[k].price != q) ==> #[trigger] b1.asks.table@.get(q)
                == b0.asks.table@.get(q))
    &&& !order.side ==> b1.asks == b0.asks && (forall|k: int|
            0 <= k < r.fills@.len() ==> fill_effect(
                b0.bids.orders_at(#[trigger] r.fills@[k].price),
                b1.bids.orders_at(r.fills@[k].price),
                r.fills@[k],
                order.id,
            )) && (forall|q: u128|
            (forall|k: int| 0 <= k < r.fills@.len() ==> #[trigger] r.fills@[k].price != q) ==> #[trigger] b1.bids.table@.get(q)
                == b0.bids.table@.get(q))
    &&& order.side ==> swept_clean(b0.asks, r.fills@, order.side, order.price, r.remaining)
    &&& !order.side ==> swept_clean(b0.bids, r.fills@, order.side, order.price, r.remaining)
    &&& r.requests@ == requests_of(r.fills@)
    &&& r.remaining + r.unsettled + requested_sum(r.fills@) <= order.size
    &&& (r.fills@.len() == 1 && r.fills@[0].maker is Some && r.fills@[0].request is None
        && r.fills@[0].maker_id != order.id && !b0.pending@.contains_key(r.fills@[0].maker_id))
        ==> r.unsettled == (if settle_ok(b0.ledger, LimitOrder { pending: true, ..order }, r.fills@[0].maker->Some_0) {
            0
        } else {
            r.fills@[0].size
        })
    &&& (r.fills@.len() == 1 && r.fills@[0].maker is Some && r.fills@[0].request is None
        && r.fills@[0].maker_id != order.id && !b0.pending@.contains_key(r.fills@[0].maker_id)
        && r.fills@[0].size == order.size
        && settle_ok(b0.ledger, LimitOrder { pending: true, ..order }, r.fills@[0].maker->Some_0))
        ==> r.finalized == Some(Finalization { taker_id: order.id, remaining: 0 })
    &&& (r.fills@.len() == 1 && r.fills@[0].maker is Some && r.fills@[0].request is None
        && r.fills@[0].maker_id != order.id && !b0.pending@.contains_key(r.fills@[0].maker_id))
        ==> if settle_ok(b0.ledger, LimitOrder { pending: true, ..order }, r.fills@[0].maker->Some_0) {
            settled_ledger(b0.ledger, b1.ledger, LimitOrder { pending: true, ..order }, r.fills@[0].maker->Some_0, true)
        } else {
            b1.ledger == b0.ledger
        }
    &&& r.requests@.len() == 0 ==> r.finalized == Some(
        Finalization { taker_id: order.id, remaining: (r.remaining + r.unsettled) as u128 },
    ) && !b1.pending@.contains_key(order.id)
    &&& r.requests@.len() > 0 ==> r.finalized is None && b1.awaiting@.contains_key(order.id)
            && b1.awaiting@[order.id] == r.requests@.len()
            && b1.pending@.contains_key(order.id)
            && b1.pending@[order.id].size == r.remaining + r.unsettled + requested_sum(r.fills@)
    &&& r.requests@.len() > 0 ==> b1.pending@[order.id] == (LimitOrder { pending: true, size: b1.pending@[order.id].size, ..order })
    &&& forall|k: int| 0 <= k < r.fills@.len() && #[trigger] r.fills@[k].request is Some && r.fills@[k].maker_id != order.id ==> b1.pending@.contains_key(r.fills@[k].maker_id) && b1.pending@[r.fills@[k].maker_id].pending
    &&& forall|id: u128| id != order.id && (forall|k: int| 0 <= k < r.fills@.len() ==> #[trigger] r.fills@[k].maker_id != id) ==> #[trigger] b1.pending@.get(id) == b0.pending@.get(id)
}

/// A taker whose matching asked for one settlement waits for exactly that one
/// outcome: its record stays, locked, and one outcome is awaited, so the next
/// successful `on_execute` for it is its last and returns its report.
pub proof fn lemma_single_request_awaits_one(b0: OrderBook, b1: OrderBook, order: LimitOrder, r: MatchReport)
    requires
        matched(b0, b1, order, r),
        r.requests@.len() == 1,
    ensures
        r.finalized is None,
        b1.awaiting@.contains_key(order.id),
        b1.awaiting@[order.id] == 1,
        b1.pending@.contains_key(order.id),
        b1.pending@[order.id].pending,
{
}

/// The matching engine of one two-asset book.
pub struct OrderBook {
    pub ledger: BalanceLedger,
    pub token_a_id: String,
    pub token_b_id: String,
    /// The engine's own account: the one trusted source of notifications.
    pub engine_id: String,
    pub bids: LevelTable,
    pub asks: LevelTable,
    /// Orders taking part in a match whose settlement is not final.
    pub pending: HashMap<u128, LimitOrder>,
    /// Per taker, the settlements still outstanding.
    pub awaiting: HashMap<u128, usize>,
}

impl Default for OrderBook {
    fn default() -> (r: Self)
        ensures
            r.wf(),
            r.engine_id@.len() == 0,
            r.token_a_id@.len() == 0,
            r.token_b_id@.len() == 0,
            r.bids.table@.dom().len() == 0,
            r.asks.table@.dom().len() == 0,
    {
        OrderBook::new(String::new(), String::new(), String::new())
    }
}

impl OrderBook {
    pub open spec fn wf(&self) -> bool {
        &&& self.ledger.wf()
        &&& self.bids.wf()
        &&& self.asks.wf()
        &&& self.bids.table_side == BID
        &&& self.asks.table_side == ASK
    }

    /// An empty book trading `token_a` against `token_b`, run by account `engine`.
    pub fn new(engine: String, token_a: String, token_b: String) -> (r: Self)
        ensures
            r.wf(),
            r.engine_id == engine,
            r.token_a_id == token_a,
            r.token_b_id == token_b,
            r.bids.table@.dom().len() == 0,
            r.asks.table@.dom().len() == 0,
            r.pending@.dom().len() == 0,
            r.awaiting@.dom().len() == 0,
            forall|x: Seq<char>, asset: bool| r.ledger.balance(x, asset) == 0,
    {
        OrderBook {
            ledger: BalanceLedger::new(),
            token_a_id: token_a,
            token_b_id: token_b,
            engine_id: engine,
            bids: LevelTable::new(BID),
            asks: LevelTable::new(ASK),
            pending: HashMap::new(),
            awaiting: HashMap::new(),
        }
    }

    /// Moves `value` of asset A (`token` holds) or B from `from` to `to`.
    pub fn internal_transfer(&mut self, from: &String, to: &String, value: u128, token: bool) -> (r:
        Result<(), EngineError>)
        requires
            old(self).wf(),
        ensures
            final(self).wf(),
            final(self).bids == old(self).bids,
            final(self).asks == old(self).asks,
            final(self).pending == old(self).pending,
            final(self).awaiting == old(self).awaiting,
            from@ == to@ ==> r == Err::<(), EngineError>(EngineError::SelfTransfer),
            from@ != to@ && old(self).ledger.balance(from@, token) < value ==> r == Err::<
                (),
                EngineError,
            >(EngineError::InsufficientBalance),
            from@ != to@ && old(self).ledger.balance(from@, token) >= value ==> r is Ok,
            r is Err ==> final(self).ledger == old(self).ledger,
            r is Ok ==> moved(old(self).ledger, final(self).ledger, from@, to@, value as nat, token),
            forall|x: Seq<char>, other: bool|
                other != token ==> final(self).ledger.balance(x, other) == old(self).ledger.balance(
                    x,
                    other,
                ),
            final(self).ledger.total(A) == old(self).ledger.total(A),
            final(self).ledger.total(B) == old(self).ledger.total(B),
    {
        self.ledger.transfer(from, to, value, token)
    }

    /// Credits `amount` to `sender`: of asset A when `account_id` is token A's
    /// account, of asset B otherwise. `Overflow`, changing nothing, when that
    /// asset's total would not fit in a `u128`.
    pub fn internal_token_deposit(&mut self, sender: &String, account_id: &String, amount: u128) -> (r:
        Result<(), EngineError>)
        requires
            old(self).wf(),
        ensures
            final(self).wf(),
            final(self).bids == old(self).bids,
            final(self).asks == old(self).asks,
            final(self).pending == old(self).pending,
            final(self).awaiting == old(self).awaiting,
            ({
                let asset = account_id@ == old(self).token_a_id@;
                &&& old(self).ledger.total(asset) + amount > u128::MAX ==> r == Err::<
                    (),
                    EngineError,
                >(EngineError::Overflow) && final(self).ledger == old(self).ledger
                &&& old(self).ledger.total(asset) + amount <= u128::MAX ==> r is Ok && final(self).ledger.balance(sender@, asset) == old(self).ledger.balance(sender@, asset)
                    + amount
                &&& forall|x: Seq<char>, other: bool|
                    (x != sender@ || other != asset) ==> final(self).ledger.balance(x, other)
                        == old(self).ledger.balance(x, other)
            }),
    {
        let asset = *account_id == self.token_a_id;
        self.ledger.deposit(sender, amount, asset)
    }

    /// Sets `address_a`'s balance of asset A and `address_b`'s of asset B to
    /// 1_000_000_000 each, as far as the totals allow.
    pub fn test_fill(&mut self, address_a: &String, address_b: &String)
        requires
            old(self).wf(),
        ensures
            final(self).wf(),
            final(self).bids == old(self).bids,
            final(self).asks == old(self).asks,
            final(self).pending == old(self).pending,
            final(self).awaiting == old(self).awaiting,
            old(self).ledger.total(A) - old(self).ledger.balance(address_a@, A) + 1_000_000_000
                <= u128::MAX ==> final(self).ledger.balance(address_a@, A) == 1_000_000_000,
            old(self).ledger.total(B) - old(self).ledger.balance(address_b@, B) + 1_000_000_000
                <= u128::MAX ==> final(self).ledger.balance(address_b@, B) == 1_000_000_000,
            forall|x: Seq<char>| x != address_a@ ==> final(self).ledger.balance(x, A) == old(self).ledger.balance(x, A),
            forall|x: Seq<char>| x != address_b@ ==> final(self).ledger.balance(x, B) == old(self).ledger.balance(x, B),
    {
        let _ = self.ledger.set_balance(address_a, 1_000_000_000, A);
        let _ = self.ledger.set_balance(address_b, 1_000_000_000, B);
    }

    /// Rests `o` on its own side of the book, as `LevelTable::add_order` does.
    pub fn push_order(&mut self, o: LimitOrder) -> (r: Result<(), EngineError>)
        requires
            old(self).wf(),
        ensures
            final(self).wf(),
            final(self).ledger == old(self).ledger,
            final(self).pending == old(self).pending,
            final(self).awaiting == old(self).awaiting,
            o.side ==> final(self).asks == old(self).asks && old(self).bids.added(final(self).bids, o, r),
            !o.side ==> final(self).bids == old(self).bids && old(self).asks.added(final(self).asks, o, r),
    {
        match o.side {
            true => self.bids.add_order(o),
            false => self.asks.add_order(o),
        }
    }

    /// Settles maker `id_m` against taker `id_t`: with `status`, the two
    /// transfers and the taker's record; in any case the maker's record goes.
    /// Fails as `settle_outcome` says, changing nothing.
    fn settle(&mut self, id_t: u128, id_m: u128, status: bool) -> (r: Result<(), EngineError>)
        requires
            old(self).wf(),
        ensures
            final(self).wf(),
            final(self).bids == old(self).bids,
            final(self).asks == old(self).asks,
            final(self).awaiting == old(self).awaiting,
            final(self).engine_id == old(self).engine_id,
            final(self).token_a_id == old(self).token_a_id,
            final(self).ledger.total(A) == old(self).ledger.total(A),
            final(self).ledger.total(B) == old(self).ledger.total(B),
            r == settle_outcome(*old(self), id_t, id_m, status),
            r is Err ==> final(self).ledger == old(self).ledger && final(self).pending@ == old(
                self).pending@,
            r is Ok ==> settled(*old(self), *final(self), id_t, id_m, status),
    {
        let t = match self.pending.get(&id_t) {
            Some(t) => t.clone(),
            None => {
                return Err(EngineError::NotFound);
            },
        };
        let m = match self.pending.get(&id_m) {
            Some(m) => m.clone(),
            None => {
                return Err(EngineError::NotFound);
            },
        };
        if status {
            if m.price != 0 && m.size > u128::MAX / m.price {
                proof {
                    assert(m.price * m.size > u128::MAX) by (nonlinear_arith)
                        requires
                            m.price > 0,
                            m.size > u128::MAX / m.price,
                    ;
                }
                return Err(EngineError::Overflow);
            }
            proof {
                assert(m.price * m.size <= u128::MAX) by (nonlinear_arith)
                    requires
                        m.price == 0 || m.size <= u128::MAX / m.price,
                ;
            }
            let notional = m.price * m.size;
            if t.address == m.address {
                return Err(EngineError::SelfTransfer);
            }
            if t.size < m.size {
                return Err(EngineError::Underflow);
            }
            let (a_from, a_to, b_from, b_to) = if t.side {
                (&t.address, &m.address, &m.address, &t.address)
            } else {
                (&m.address, &t.address, &t.address, &m.address)
            };
            if self.ledger.balance_of(a_from, A) < m.size || self.ledger.balance_of(b_from, B)
                < notional {
                return Err(EngineError::InsufficientBalance);
            }
            let _ = self.ledger.transfer(a_from, a_to, m.size, A);
            let _ = self.ledger.transfer(b_from, b_to, notional, B);
            self.pending.remove(&id_m);
            let t2 = LimitOrder { size: t.size - m.size, ..t };
            self.pending.insert(id_t, t2);
            proof {
                assert(self.pending@ =~= old(self).pending@.remove(id_m).insert(
                    id_t,
                    LimitOrder { size: (t.size - m.size) as u128, ..t },
                ));
            }
        } else {
            self.pending.remove(&id_m);
        }
        Ok(())
    }

    /// A settlement outcome for maker `id_m` of taker `id_t`, delivered by
    /// `caller`. Only the engine's own account is heard (`Unauthorized`
    /// otherwise); then it settles as `settle_outcome` and `settled` say, and
    /// when it was the taker's last outstanding settlement, the taker's record
    /// goes and its report is returned. A failure changes nothing.
    pub fn on_execute(&mut self, caller: &String, id_t: u128, id_m: u128, status: bool) -> (r:
        Result<Option<Finalization>, EngineError>)
        requires
            old(self).wf(),
        ensures
            final(self).wf(),
            final(self).bids == old(self).bids,
            final(self).asks == old(self).asks,
            final(self).ledger.total(A) == old(self).ledger.total(A),
            final(self).ledger.total(B) == old(self).ledger.total(B),
            caller@ != old(self).engine_id@ ==> r == Err::<Option<Finalization>, EngineError>(
                EngineError::Unauthorized,
            ),
            caller@ == old(self).engine_id@ && settle_outcome(*old(self), id_t, id_m, status) is Err
                ==> r == Err::<Option<Finalization>, EngineError>(
                settle_outcome(*old(self), id_t, id_m, status)->Err_0,
            ),
            r is Err ==> final(self).ledger == old(self).ledger && final(self).pending@ == old(
                self).pending@ && final(self).awaiting@ == old(self).awaiting@,
            r is Ok ==> caller@ == old(self).engine_id@ && settle_outcome(*old(self), id_t, id_m, status) is Ok,
            r is Ok ==> ({
                let last = id_t != id_m && old(self).awaiting@.contains_key(id_t) && old(self).awaiting@[id_t] <= 1;
                let t = old(self).pending@[id_t];
                let m = old(self).pending@[id_m];
                let left = if status { (t.size - m.size) as u128 } else { t.size };
                let p1 = settled_pending(old(self).pending@, id_t, id_m, status);
                &&& last ==> r == Ok::<Option<Finalization>, EngineError>(Some(Finalization { taker_id: id_t, remaining: left }))
                &&& !last ==> r == Ok::<Option<Finalization>, EngineError>(None)
                &&& settled_ledger(old(self).ledger, final(self).ledger, t, m, status)
                &&& last ==> final(self).pending@ == p1.remove(id_t)
                    && final(self).awaiting@ == old(self).awaiting@.remove(id_t)
                &&& !last ==> final(self).pending@ == p1
                &&& !last && id_t != id_m && old(self).awaiting@.contains_key(id_t) ==> final(self).awaiting@
                    == old(self).awaiting@.insert(id_t, (old(self).awaiting@[id_t] - 1) as usize)
                &&& (id_t == id_m || !old(self).awaiting@.contains_key(id_t)) ==> final(self).awaiting@
                    == old(self).awaiting@
            }),
    {
        if *caller != self.engine_id {
            return Err(EngineError::Unauthorized);
        }
        match self.settle(id_t, id_m, status) {
            Err(e) => Err(e),
            Ok(()) => {
                if id_t == id_m {
                    return Ok(None);
                }
                let count = match self.awaiting.get(&id_t) {
                    Some(c) => *c,
                    None => {
                        return Ok(None);
                    },
                };
                if count > 1 {
                    self.awaiting.insert(id_t, count - 1);
                    return Ok(None);
                }
                self.awaiting.remove(&id_t);
                match self.pending.remove(&id_t) {
                    Some(t) => Ok(Some(Finalization { taker_id: id_t, remaining: t.size })),
                    None => Ok(None),
                }
            },
        }
    }

    /// The report of taker `id_t`, requested by `caller`: only the engine's
    /// own account is heard (`Unauthorized`), and `NotFound` when no record of
    /// the taker is held. The taker's record goes.
    pub fn order_finalization(&mut self, caller: &String, id_t: u128) -> (r: Result<
        Finalization,
        EngineError,
    >)
        requires
            old(self).wf(),
        ensures
            final(self).wf(),
            final(self).bids == old(self).bids,
            final(self).asks == old(self).asks,
            final(self).ledger == old(self).ledger,
            caller@ != old(self).engine_id@ ==> r == Err::<Finalization, EngineError>(
                EngineError::Unauthorized,
            ),
            caller@ == old(self).engine_id@ && !old(self).pending@.contains_key(id_t) ==> r
                == Err::<Finalization, EngineError>(EngineError::NotFound),
            caller@ == old(self).engine_id@ && old(self).pending@.contains_key(id_t) ==> r
                == Ok::<Finalization, EngineError>(
                Finalization { taker_id: id_t, remaining: old(self).pending@[id_t].size },
            ) && final(self).pending@ == old(self).pending@.remove(id_t) && final(self).awaiting@
                == old(self).awaiting@.remove(id_t),
            r is Err ==> final(self).pending@ == old(self).pending@ && final(self).awaiting@
                == old(self).awaiting@,
    {
        if *caller != self.engine_id {
            return Err(EngineError::Unauthorized);
        }
        match self.pending.remove(&id_t) {
            None => {
                proof {
                    assert(self.pending@ =~= old(self).pending@);
                }
                Err(EngineError::NotFound)
            },
            Some(t) => {
                self.awaiting.remove(&id_t);
                Ok(Finalization { taker_id: id_t, remaining: t.size })
            },
        }
    }

    /// Matches taker `order` against the other side of the book. The taker is
    /// locked and recorded; the other side is swept from its best price
    /// (see `LevelTable::sweep`), and its side of the book is left alone. Each
    /// consumed maker is recorded; one naming a target yields a settlement
    /// request, one naming none is settled at once, and a partly consumed maker
    /// takes its fill off the taker's record. With no request outstanding the
    /// taker's record goes and its report is returned; otherwise the book
    /// awaits as many outcomes as there are requests. Totals of both assets
    /// are kept.
    #[verifier::rlimit(40)]
    pub fn try_match(&mut self, order: LimitOrder) -> (r: MatchReport)
        requires
            old(self).wf(),
        ensures
            final(self).wf(),
            matched(*old(self), *final(self), order, r),
    {
        let mut order = order;
        order.lock();
        let id_t = order.id;
        self.pending.insert(id_t, order.clone());
        let (remaining, fills) = if order.side {
            self.asks.sweep(id_t, order.side, order.price, order.size)
        } else {
            self.bids.sweep(id_t, order.side, order.price, order.size)
        };
        let ghost bids1 = self.bids;
        let ghost asks1 = self.asks;
        let ghost fs = fills@;
        let mut requests: Vec<SettlementRequest> = Vec::new();
        let mut unsettled: u128 = 0;
        let mut i: usize = 0;
        proof {
            assert(fs.take(0) =~= Seq::<Fill>::empty());
            lemma_fill_sum_prefix(fs, fs.len() as int);
        }
        while i < fills.len()
            invariant
                self.wf(),
                self.bids == bids1,
                self.asks == asks1,
                self.awaiting == old(self).awaiting,
                self.ledger.total(A) == old(self).ledger.total(A),
                self.ledger.total(B) == old(self).ledger.total(B),
                fills@ == fs,
                i <= fs.len(),
                remaining == order.size - fill_sum(fs),
                forall|k: int|
                    0 <= k < fs.len() ==> fill_effect(
                        (if order.side { old(self).asks } else { old(self).bids }).orders_at(#[trigger] fs[k].price),
                        (if order.side { asks1 } else { bids1 }).orders_at(fs[k].price),
                        fs[k],
                        id_t,
                    ),
                requests@ == requests_of(fs.take(i as int)),
                unsettled + requested_sum(fs.take(i as int)) <= fill_sum(fs.take(i as int)),
                self.pending@.contains_key(id_t),
                self.pending@[id_t].size + fill_sum(fs.take(i as int)) == order.size + unsettled
                    + requested_sum(fs.take(i as int)),
                i == 0 ==> self.ledger == old(self).ledger && self.pending@ == old(self).pending@.insert(id_t, order)
                    && unsettled == 0,
                self.pending@[id_t] == (LimitOrder { size: self.pending@[id_t].size, ..order }),
                forall|j: int|
                    0 <= j < i && #[trigger] fs[j].request is Some && fs[j].maker_id != id_t
                        ==> self.pending@.contains_key(fs[j].maker_id) && self.pending@[fs[j].maker_id].pending,
                forall|id: u128|
                    id != id_t && (forall|k: int| 0 <= k < fs.len() ==> #[trigger] fs[k].maker_id != id)
                        ==> #[trigger] self.pending@.get(id) == old(self).pending@.get(id),
                fs.len() == 1 && i == 1 && fs[0].maker is Some && fs[0].request is None
                    && fs[0].maker_id != id_t && !old(self).pending@.contains_key(fs[0].maker_id) ==> if settle_ok(
                    old(self).ledger,
                    order,
                    fs[0].maker->Some_0,
                ) {
                    settled_ledger(old(self).ledger, self.ledger, order, fs[0].maker->Some_0, true)
                } else {
                    self.ledger == old(self).ledger
                },
                fs.len() == 1 && i == 1 && fs[0].maker is Some && fs[0].request is None
                    && fs[0].maker_id != id_t && !old(self).pending@.contains_key(fs[0].maker_id) ==> unsettled == (if settle_ok(
                    old(self).ledger,
                    order,
                    fs[0].maker->Some_0,
                ) {
                    0
                } else {
                    fs[0].size
                }),
            decreases fs.len() - i,
        {
            let ghost p0 = self.pending@;
            proof {
                assert(fs.take(i as int + 1).drop_last() =~= fs.take(i as int));
                assert(fs.take(i as int + 1).last() == fs[i as int]);
                lemma_fill_sum_prefix(fs, i as int + 1);
                lemma_requested_le(fs.take(i as int));
                assert(fill_effect(
                    (if order.side { old(self).asks } else { old(self).bids }).orders_at(fs[i as int].price),
                    (if order.side { asks1 } else { bids1 }).orders_at(fs[i as int].price),
                    fs[i as int],
                    id_t,
                ));
            }
            let size = fills[i].size;
            match &fills[i].maker {
                None => {
                    let t = match self.pending.get(&id_t) {
                        Some(t) => t.clone(),
                        None => {
                            return MatchReport {
                                taker_id: id_t,
                                remaining,
                                fills,
                                requests,
                                unsettled,
                                finalized: None,
                            };
                        },
                    };
                    let t2 = LimitOrder { size: t.size - size, ..t };
                    self.pending.insert(id_t, t2);
                },
                Some(m) => {
                    let mid = m.id;
                    match &fills[i].request {
                        Some(q) => {
                            if mid != id_t {
                                self.pending.insert(mid, m.clone());
                            }
                            requests.push(q.clone());
                        },
                        None => {
                            if mid == id_t || self.pending.contains_key(&mid) {
                                unsettled = unsettled + size;
                            } else {
                                self.pending.insert(mid, m.clone());
                                proof {
                                    if i == 0 {
                                        assert(self.pending@[id_t] == order);
                                    }
                                    assert(self.pending@[mid] == *m);
                                }
                                match self.settle(id_t, mid, true) {
                                    Ok(()) => {},
                                    Err(_) => {
                                        self.pending.remove(&mid);
                                        unsettled = unsettled + size;
                                    },
                                }
                            }
                        },
                    }
                },
            }
            proof {
                assert forall|id: u128|
                    id != id_t && (forall|k: int| 0 <= k < fs.len() ==> #[trigger] fs[k].maker_id != id)
                    implies #[trigger] self.pending@.get(id) == old(self).pending@.get(id) by {
                    assert(fs[i as int].maker_id != id);
                    assert(p0.get(id) == old(self).pending@.get(id));
                    assert(self.pending@.get(id) == p0.get(id));
                }
            }
            i = i + 1;
        }
        proof {
            assert(fs.take(fs.len() as int) =~= fs);
            if fs.len() == 1 {
                assert(fs.drop_last() =~= Seq::<Fill>::empty());
                assert(fill_sum(fs) == fs[0].size);
                if fs[0].request is None {
                    assert(fs.last() == fs[0]);
                    assert(requests_of(fs) == requests_of(fs.drop_last()));
                    assert(requests_of(Seq::<Fill>::empty()) =~= Seq::<SettlementRequest>::empty());
                    assert(requests_of(fs) =~= Seq::<SettlementRequest>::empty());
                }
            }
        }
        if requests.len() == 0 {
            proof {
                lemma_no_requests(fs);
            }
            let ghost p_end = self.pending@;
            let left = match self.pending.remove(&id_t) {
                Some(t) => t.size,
                None => 0,
            };
            proof {
                assert forall|id: u128|
                    id != id_t && (forall|k: int| 0 <= k < fs.len() ==> #[trigger] fs[k].maker_id != id)
                    implies #[trigger] self.pending@.get(id) == old(self).pending@.get(id) by {
                    assert(p_end.get(id) == old(self).pending@.get(id));
                }
            }
            MatchReport {
                taker_id: id_t,
                remaining,
                fills,
                requests,
                unsettled,
                finalized: Some(Finalization { taker_id: id_t, remaining: left }),
            }
        } else {
            self.awaiting.insert(id_t, requests.len());
            MatchReport { taker_id: id_t, remaining, fills, requests, unsettled, finalized: None }
        }
    }

    /// Builds the order of `owner` placed at `timestamp`, its id taken from
    /// `digest` (the hash of `LimitOrder::key_bytes`), and matches it as
    /// `try_match` does. Whatever of it is not met does not rest on the book.
    pub fn send_order(
        &mut self,
        side: bool,
        price: u128,
        size: u128,
        callable: String,
        timestamp: i128,
        owner: String,
        digest: &Vec<u8>,
    ) -> (r: MatchReport)
        requires
            old(self).wf(),
            digest@.len() >= 16,
        ensures
            final(self).wf(),
            r.taker_id as nat == id_of_digest(digest@),
            matched(
                *old(self),
                *final(self),
                LimitOrder {
                    timestamp,
                    address: owner,
                    callable,
                    id: r.taker_id,
                    side,
                    price,
                    size,
                    status: false,
                    pending: false,
                },
                r,
            ),
    {
        let o = LimitOrder::new(timestamp, callable, side, price, size, owner, digest);
        self.try_match(o)
    }

    /// Matches `o` as `try_match` does.
    pub fn send_order_raw(&mut self, o: LimitOrder) -> (r: MatchReport)
        requires
            old(self).wf(),
        ensures
            final(self).wf(),
            matched(*old(self), *final(self), o, r),
    {
        self.try_match(o)
    }

    /// The record of order `id` while it takes part in an unsettled match.
    pub fn get_pending(&self, id: u128) -> (r: Option<LimitOrder>)
        ensures
            self.pending@.contains_key(id) ==> r == Some(self.pending@[id]),
            !self.pending@.contains_key(id) ==> r is None,
    {
        match self.pending.get(&id) {
            Some(o) => Some(o.clone()),
            None => None,
        }
    }
}

} // verus!

use crate::fixed::Fixed;
use crate::matching::{
    decremented, has_id, ids_disjoint, ids_distinct, lemma_decremented_ids, lemma_decremented_wf,
    lemma_ids_disjoint, lemma_placed_ids, lemma_placed_wf, lemma_sweep_basic, lemma_sweep_ids,
    placed, rank, side_wf, sweep, with_remaining,
};
use crate::order::{
    has_priority, precedes, price_crosses, validate, validation, Order, Side, Trade,
    ValidationError,
};
use vstd::prelude::*;

verus! {

/// Why an order could not be placed in the book.
#[derive(Clone, Copy, Debug, PartialEq, Eq, Structural)]
pub enum BookError {
    /// Nothing of the order remains to rest.
    EmptyOrder,
}

/// Why an incoming order was not processed.
#[derive(Clone, Copy, Debug, PartialEq, Eq, Structural)]
pub enum SubmitError {
    Invalid(ValidationError),
    /// The book cannot number the trades this order might make, or hold it.
    CapacityExhausted,
}

/// The resting orders of one instrument, bids and asks each kept in priority
/// order (best first), and the number the next trade will carry.
pub struct OrderBook {
    bids: Vec<Order>,
    asks: Vec<Order>,
    next_trade_sequence: u64,
}

/// Takes `q` from the order at `index`, removing it when nothing remains.
fn decrement_at(v: &mut Vec<Order>, index: usize, q: u64)
    requires
        index < old(v)@.len(),
        q <= old(v)@[index as int].remaining_quantity.units,
    ensures
        final(v)@ == decremented(old(v)@, index as int, q as int),
{
    let o = v[index];
    if q == o.remaining_quantity.units {
        v.remove(index);
    } else {
        let left = Order { remaining_quantity: Fixed { units: o.remaining_quantity.units - q }, ..o };
        v.set(index, left);
    }
}

proof fn lemma_rank_at(side: Side, s: Seq<Order>, o: Order, i: int)
    requires
        0 <= i <= s.len(),
        forall|j: int| 0 <= j < i ==> !precedes(side, o, #[trigger] s[j]),
        i == s.len() || precedes(side, o, s[i]),
    ensures
        rank(side, s, o) == i,
    decreases i,
{
    if i > 0 {
        assert(!precedes(side, o, s[0]));
        let t = s.drop_first();
        assert forall|j: int| 0 <= j < i - 1 implies !precedes(side, o, #[trigger] t[j]) by {
            assert(t[j] == s[j + 1]);
        }
        lemma_rank_at(side, t, o, i - 1);
    }
}

/// Inserts `o` after every order of `v` that it does not precede.
fn insert_sorted(v: &mut Vec<Order>, side: Side, o: Order)
    requires
        old(v)@.len() < usize::MAX,
    ensures
        final(v)@ == placed(side, old(v)@, o),
{
    let mut i: usize = 0;
    while i < v.len()
        invariant
            i <= v@.len(),
            v@.len() < usize::MAX,
            forall|j: int| 0 <= j < i ==> !precedes(side, o, #[trigger] v@[j]),
        ensures
            i <= v@.len(),
            forall|j: int| 0 <= j < i ==> !precedes(side, o, #[trigger] v@[j]),
            i == v@.len() || precedes(side, o, v@[i as int]),
        decreases v@.len() - i,
    {
        if has_priority(side, &o, &v[i]) {
            break;
        }
        i = i + 1;
    }
    proof {
        lemma_rank_at(side, v@, o, i as int);
    }
    v.insert(i, o);
}

/// Crosses `taker` against `makers` until it is filled or no resting order
/// crosses; trades are numbered from `next_seq`.
fn sweep_side(makers: &mut Vec<Order>, taker: Order, next_seq: u64) -> (r: (Vec<Trade>, Order, u64))
    requires
        taker.remaining_quantity.units > 0 ==> next_seq + old(makers)@.len() <= u64::MAX,
    ensures
        final(makers)@ == sweep(old(makers)@, taker, next_seq as int).0,
        r.0@ == sweep(old(makers)@, taker, next_seq as int).1,
        r.1 == sweep(old(makers)@, taker, next_seq as int).2,
        r.2 == next_seq + r.0@.len(),
{
    let ghost res = sweep(makers@, taker, next_seq as int);
    let mut trades: Vec<Trade> = Vec::new();
    let mut t = taker;
    let mut seq = next_seq;
    loop
        invariant
            sweep(makers@, t, seq as int).0 == res.0,
            trades@ + sweep(makers@, t, seq as int).1 == res.1,
            sweep(makers@, t, seq as int).2 == res.2,
            t.remaining_quantity.units > 0 ==> seq + makers@.len() <= u64::MAX,
            seq == next_seq + trades@.len(),
        ensures
            makers@ == res.0,
            trades@ == res.1,
            t == res.2,
            seq == next_seq + trades@.len(),
        decreases makers@.len(), t.remaining_quantity.units,
    {
        if t.remaining_quantity.units == 0 || makers.len() == 0 {
            assert(trades@ + Seq::<Trade>::empty() == trades@);
            break;
        }
        let m = makers[0];
        if !price_crosses(t.side, t.price, m.price) {
            assert(trades@ + Seq::<Trade>::empty() == trades@);
            break;
        }
        let q = if t.remaining_quantity.units <= m.remaining_quantity.units {
            t.remaining_quantity.units
        } else {
            m.remaining_quantity.units
        };
        let trade = Trade {
            maker_id: m.id,
            taker_id: t.id,
            price: m.price,
            quantity: Fixed { units: q },
            sequence: seq,
        };
        let ghost before = trades@;
        let ghost tail = sweep(
            decremented(makers@, 0, q as int),
            with_remaining(t, t.remaining_quantity.units - q),
            seq + 1,
        ).1;
        trades.push(trade);
        decrement_at(makers, 0, q);
        t = Order { remaining_quantity: Fixed { units: t.remaining_quantity.units - q }, ..t };
        seq = seq + 1;
        assert(before + (seq![trade] + tail) == before.push(trade) + tail);
    }
    (trades, t, seq)
}

impl OrderBook {
    /// The resting orders of `side`, best first.
    pub closed spec fn orders(self, side: Side) -> Seq<Order> {
        match side {
            Side::Buy => self.bids@,
            Side::Sell => self.asks@,
        }
    }

    /// The sequence number of the next trade.
    pub closed spec fn next_sequence(self) -> u64 {
        self.next_trade_sequence
    }

    /// `after` is `before` once `order` has been processed, with `trades` made.
    pub open spec fn processed(before: OrderBook, after: OrderBook, order: Order, trades: Seq<Trade>) -> bool {
        let (rest, made, left) = sweep(
            before.orders(order.side.flip()),
            order,
            before.next_sequence() as int,
        );
        &&& trades == made
        &&& after.orders(order.side.flip()) == rest
        &&& after.orders(order.side) == if left.remaining_quantity.units > 0 {
            placed(order.side, before.orders(order.side), left)
        } else {
            before.orders(order.side)
        }
        &&& after.next_sequence() == before.next_sequence() + made.len()
    }

    /// There is room to number every trade `order` can make and to rest it.
    pub open spec fn has_room(self, order: Order) -> bool {
        &&& self.next_sequence() + self.orders(order.side.flip()).len() <= u64::MAX
        &&& self.orders(order.side).len() < usize::MAX
    }

    /// The book holds the same orders and trade number as `other`.
    pub open spec fn same_as(self, other: OrderBook) -> bool {
        &&& self.orders(Side::Buy) == other.orders(Side::Buy)
        &&& self.orders(Side::Sell) == other.orders(Side::Sell)
        &&& self.next_sequence() == other.next_sequence()
    }

    /// Both sides are well-formed, and no two resting orders share an id.
    pub open spec fn wf(self) -> bool {
        &&& side_wf(Side::Buy, self.orders(Side::Buy))
        &&& side_wf(Side::Sell, self.orders(Side::Sell))
        &&& ids_distinct(self.orders(Side::Buy))
        &&& ids_distinct(self.orders(Side::Sell))
        &&& ids_disjoint(self.orders(Side::Buy), self.orders(Side::Sell))
    }

    /// Some resting order has the id `id`.
    pub open spec fn holds_id(self, id: u64) -> bool {
        has_id(self.orders(Side::Buy), id) || has_id(self.orders(Side::Sell), id)
    }

    /// Processing a validated order with a new id keeps the book well-formed,
    /// and keeps an uncrossed book uncrossed.
    pub proof fn lemma_processed_wf(before: OrderBook, after: OrderBook, order: Order, trades: Seq<Trade>)
        requires
            before.wf(),
            order.valid(),
            !before.holds_id(order.id),
            OrderBook::processed(before, after, order, trades),
        ensures
            after.wf(),
            !before.crossed() ==> !after.crossed(),
    {
        let seq = before.next_sequence() as int;
        let opp = before.orders(order.side.flip());
        let own = before.orders(order.side);
        lemma_sweep_basic(opp, order, seq);
        lemma_sweep_ids(opp, order, seq);
        let left = sweep(opp, order, seq).2;
        let rest = sweep(opp, order, seq).0;
        let mine = after.orders(order.side);
        lemma_ids_disjoint(before.orders(Side::Buy), before.orders(Side::Sell));
        lemma_ids_disjoint(own, opp);
        lemma_ids_disjoint(opp, own);
        assert(forall|id: u64| has_id(own, id) ==> !has_id(opp, id));
        if left.remaining_quantity.units > 0 {
            lemma_placed_wf(order.side, own, left);
            lemma_placed_ids(order.side, own, left);
        }
        assert(forall|id: u64| has_id(mine, id) ==> has_id(own, id) || id == order.id);
        assert(forall|id: u64| has_id(mine, id) ==> !has_id(rest, id));
        lemma_ids_disjoint(mine, rest);
        lemma_ids_disjoint(rest, mine);
        lemma_ids_disjoint(after.orders(Side::Buy), after.orders(Side::Sell));
        assert(after.orders(order.side.flip().flip()) == mine);
    }

    /// Whether some resting order has the id `id`.
    pub fn holds(&self, id: u64) -> (r: bool)
        ensures
            r == self.holds_id(id),
    {
        let mut i: usize = 0;
        while i < self.bids.len()
            invariant
                i <= self.bids@.len(),
                forall|j: int| 0 <= j < i ==> (#[trigger] self.bids@[j]).id != id,
            decreases self.bids@.len() - i,
        {
            if self.bids[i].id == id {
                return true;
            }
            i = i + 1;
        }
        let mut i: usize = 0;
        while i < self.asks.len()
            invariant
                i <= self.asks@.len(),
                forall|j: int| 0 <= j < i ==> (#[trigger] self.asks@[j]).id != id,
                forall|j: int| 0 <= j < self.bids@.len() ==> (#[trigger] self.bids@[j]).id != id,
            decreases self.asks@.len() - i,
        {
            if self.asks[i].id == id {
                return true;
            }
            i = i + 1;
        }
        false
    }

    /// Both sides hold orders and the best bid is not below the best ask.
    pub open spec fn crossed(self) -> bool {
        let b = self.orders(Side::Buy);
        let a = self.orders(Side::Sell);
        b.len() > 0 && a.len() > 0 && b[0].price.units >= a[0].price.units
    }

    pub fn new() -> (r: OrderBook)
        ensures
            r.wf(),
            r.orders(Side::Buy) == Seq::<Order>::empty(),
            r.orders(Side::Sell) == Seq::<Order>::empty(),
            r.next_sequence() == 0,
            !r.crossed(),
    {
        OrderBook { bids: Vec::new(), asks: Vec::new(), next_trade_sequence: 0 }
    }

    /// The highest-priority resting order of `side`.
    pub fn best(&self, side: Side) -> (r: Option<&Order>)
        ensures
            r is Some <==> self.orders(side).len() > 0,
            r is Some ==> *r->0 == self.orders(side)[0],
    {
        let v = match side {
            Side::Buy => &self.bids,
            Side::Sell => &self.asks,
        };
        if v.len() == 0 {
            None
        } else {
            Some(&v[0])
        }
    }

    /// Number of resting orders on `side`.
    pub fn len(&self, side: Side) -> (r: usize)
        ensures
            r == self.orders(side).len(),
    {
        match side {
            Side::Buy => self.bids.len(),
            Side::Sell => self.asks.len(),
        }
    }

    /// The resting order at `index` in `side`'s priority order.
    pub fn order_at(&self, side: Side, index: usize) -> (r: Order)
        requires
            index < self.orders(side).len(),
        ensures
            r == self.orders(side)[index as int],
    {
        match side {
            Side::Buy => self.bids[index],
            Side::Sell => self.asks[index],
        }
    }

    pub fn next_trade_sequence(&self) -> (r: u64)
        ensures
            r == self.next_sequence(),
    {
        self.next_trade_sequence
    }

    /// Whether the best bid is at or above the best ask.
    pub fn is_crossed(&self) -> (r: bool)
        ensures
            r == self.crossed(),
    {
        self.bids.len() > 0 && self.asks.len() > 0 && self.bids[0].price.units
            >= self.asks[0].price.units
    }

    /// Takes `quantity` from the resting order at `index` of `side`; the order
    /// leaves the book when nothing of it remains.
    pub fn decrement(&mut self, side: Side, index: usize, quantity: Fixed)
        requires
            old(self).wf(),
            index < old(self).orders(side).len(),
            quantity.units <= old(self).orders(side)[index as int].remaining_quantity.units,
        ensures
            final(self).wf(),
            final(self).orders(side) == decremented(
                old(self).orders(side),
                index as int,
                quantity.units as int,
            ),
            final(self).orders(side.flip()) == old(self).orders(side.flip()),
            final(self).next_sequence() == old(self).next_sequence(),
    {
        proof {
            lemma_decremented_wf(side, self.orders(side), index as int, quantity.units as int);
        }
        match side {
            Side::Buy => decrement_at(&mut self.bids, index, quantity.units),
            Side::Sell => decrement_at(&mut self.asks, index, quantity.units),
        }
    }

    /// Places `order` among the resting orders of its side, behind every order
    /// with at least its priority. An order with nothing left is refused.
    pub fn insert_resting(&mut self, order: Order) -> (r: Result<(), BookError>)
        requires
            old(self).wf(),
            order.valid(),
            !old(self).holds_id(order.id),
            old(self).orders(order.side).len() < usize::MAX,
        ensures
            final(self).wf(),
            order.remaining_quantity.units == 0 ==> r == Err::<(), _>(BookError::EmptyOrder)
                && final(self).orders(order.side) == old(self).orders(order.side),
            order.remaining_quantity.units > 0 ==> r is Ok && final(self).orders(order.side)
                == placed(order.side, old(self).orders(order.side), order),
            final(self).orders(order.side.flip()) == old(self).orders(order.side.flip()),
            final(self).next_sequence() == old(self).next_sequence(),
    {
        if order.remaining_quantity.units == 0 {
            return Err(BookError::EmptyOrder);
        }
        proof {
            let own = self.orders(order.side);
            let other = self.orders(order.side.flip());
            lemma_placed_wf(order.side, own, order);
            lemma_placed_ids(order.side, own, order);
            lemma_ids_disjoint(self.orders(Side::Buy), self.orders(Side::Sell));
            lemma_ids_disjoint(own, other);
            lemma_ids_disjoint(placed(order.side, own, order), other);
            lemma_ids_disjoint(other, placed(order.side, own, order));
        }
        match order.side {
            Side::Buy => insert_sorted(&mut self.bids, Side::Buy, order),
            Side::Sell => insert_sorted(&mut self.asks, Side::Sell, order),
        }
        Ok(())
    }

    /// Processes an incoming order: crosses it against the best resting
    /// orders of the other side, each trade at the resting order's price, until
    /// it is filled or nothing crosses; what is left of it then rests.
    pub fn add_order(&mut self, order: Order) -> (r: Vec<Trade>)
        requires
            old(self).wf(),
            validation(order) is Ok,
            !old(self).holds_id(order.id),
            old(self).has_room(order),
        ensures
            final(self).wf(),
            Self::processed(*old(self), *final(self), order, r@),
            !old(self).crossed() ==> !final(self).crossed(),
    {
        let ghost before = *self;
        proof {
            lemma_sweep_basic(self.orders(order.side.flip()), order, self.next_sequence() as int);
        }
        let (trades, left, seq) = match order.side {
            Side::Buy => sweep_side(&mut self.asks, order, self.next_trade_sequence),
            Side::Sell => sweep_side(&mut self.bids, order, self.next_trade_sequence),
        };
        self.next_trade_sequence = seq;
        if left.remaining_quantity.units > 0 {
            proof {
                lemma_placed_wf(order.side, self.orders(order.side), left);
            }
            match order.side {
                Side::Buy => insert_sorted(&mut self.bids, Side::Buy, left),
                Side::Sell => insert_sorted(&mut self.asks, Side::Sell, left),
            }
        }
        proof {
            Self::lemma_processed_wf(before, *self, order, trades@);
        }
        trades
    }

    /// Validates an incoming order and, when it passes, its id is not already
    /// resting and the book has room, processes it. A refused order leaves the book as it was.
    pub fn submit(&mut self, order: Order) -> (r: Result<Vec<Trade>, SubmitError>)
        requires
            old(self).wf(),
        ensures
            final(self).wf(),
            validation(order) matches Err(e) ==> r == Err::<Vec<Trade>, _>(SubmitError::Invalid(e)),
            validation(order) is Ok && old(self).holds_id(order.id) ==> r == Err::<Vec<Trade>, _>(
                SubmitError::Invalid(ValidationError::DuplicateId),
            ),
            validation(order) is Ok && !old(self).holds_id(order.id) && !old(self).has_room(order)
                ==> r == Err::<Vec<Trade>, _>(SubmitError::CapacityExhausted),
            r is Err ==> final(self).same_as(*old(self)),
            r matches Ok(trades) ==> validation(order) is Ok && !old(self).holds_id(order.id)
                && old(self).has_room(order) && Self::processed(
                *old(self),
                *final(self),
                order,
                trades@,
            ),
            validation(order) is Ok && !old(self).holds_id(order.id) && old(self).has_room(order)
                ==> r is Ok,
            !old(self).crossed() ==> !final(self).crossed(),
    {
        match validate(&order) {
            Err(e) => {
                return Err(SubmitError::Invalid(e));
            },
            Ok(()) => {},
        }
        if self.holds(order.id) {
            return Err(SubmitError::Invalid(ValidationError::DuplicateId));
        }
        let room = match order.side {
            Side::Buy => self.asks.len() as u64 <= u64::MAX - self.next_trade_sequence
                && self.bids.len() < usize::MAX,
            Side::Sell => self.bids.len() as u64 <= u64::MAX - self.next_trade_sequence
                && self.asks.len() < usize::MAX,
        };
        if !room {
            return Err(SubmitError::CapacityExhausted);
        }
        Ok(self.add_order(order))
    }
}

} // verus!

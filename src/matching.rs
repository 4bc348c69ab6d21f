use crate::fixed::Fixed;
use crate::order::{crosses, precedes, Order, Side, Trade};
use vstd::prelude::*;

verus! {

/// Each order of `s` is at least as good as every later one on `side`.
pub open spec fn sorted_by(side: Side, s: Seq<Order>) -> bool {
    forall|i: int, j: int| 0 <= i < j < s.len() ==> !precedes(side, #[trigger] s[j], #[trigger] s[i])
}

/// What one side of a well-formed book holds: orders of that side, each with
/// something left to trade and no more than it started with, kept in priority.
pub open spec fn side_wf(side: Side, s: Seq<Order>) -> bool {
    &&& sorted_by(side, s)
    &&& forall|i: int|
        0 <= i < s.len() ==> {
            &&& (#[trigger] s[i]).side == side
            &&& s[i].remaining_quantity.units > 0
            &&& s[i].valid()
        }
}

/// `o` with its remaining quantity replaced.
pub open spec fn with_remaining(o: Order, units: int) -> Order {
    Order { remaining_quantity: Fixed { units: units as u64 }, ..o }
}

/// A side after taking `q` from the order at `index`: the order leaves when
/// nothing of it remains.
pub open spec fn decremented(s: Seq<Order>, index: int, q: int) -> Seq<Order> {
    if q == s[index].remaining_quantity.units {
        s.remove(index)
    } else {
        s.update(index, with_remaining(s[index], s[index].remaining_quantity.units - q))
    }
}

/// Where `o` goes on `side`: after every order that it does not precede.
pub open spec fn rank(side: Side, s: Seq<Order>, o: Order) -> nat
    decreases s.len(),
{
    if s.len() == 0 || precedes(side, o, s[0]) {
        0
    } else {
        1 + rank(side, s.drop_first(), o)
    }
}

/// `s` with `o` inserted at its place in priority.
pub open spec fn placed(side: Side, s: Seq<Order>, o: Order) -> Seq<Order> {
    s.insert(rank(side, s, o) as int, o)
}

/// Crosses `taker` against the resting orders `makers`, best first, with trades
/// numbered from `seq`. Gives what is left of `makers`, the trades in the order
/// they happen, and the taker with what remains of it.
pub open spec fn sweep(makers: Seq<Order>, taker: Order, seq: int) -> (Seq<Order>, Seq<Trade>, Order)
    decreases makers.len(), taker.remaining_quantity.units,
{
    if taker.remaining_quantity.units == 0 || makers.len() == 0 || !crosses(
        taker.side,
        taker.price.units,
        makers[0].price.units,
    ) {
        (makers, Seq::empty(), taker)
    } else {
        let m = makers[0];
        let q = if taker.remaining_quantity.units <= m.remaining_quantity.units {
            taker.remaining_quantity.units
        } else {
            m.remaining_quantity.units
        };
        let trade = Trade {
            maker_id: m.id,
            taker_id: taker.id,
            price: m.price,
            quantity: Fixed { units: q },
            sequence: seq as u64,
        };
        let rest = sweep(
            decremented(makers, 0, q as int),
            with_remaining(taker, taker.remaining_quantity.units - q),
            seq + 1,
        );
        (rest.0, seq![trade] + rest.1, rest.2)
    }
}

proof fn lemma_rank_bounds(side: Side, s: Seq<Order>, o: Order)
    ensures
        rank(side, s, o) <= s.len(),
        forall|j: int| 0 <= j < rank(side, s, o) ==> !precedes(side, o, #[trigger] s[j]),
        rank(side, s, o) < s.len() ==> precedes(side, o, s[rank(side, s, o) as int]),
    decreases s.len(),
{
    if s.len() > 0 && !precedes(side, o, s[0]) {
        let t = s.drop_first();
        lemma_rank_bounds(side, t, o);
        assert forall|j: int| 0 <= j < rank(side, s, o) implies !precedes(side, o, #[trigger] s[j]) by {
            if j > 0 {
                assert(s[j] == t[j - 1]);
            }
        }
    }
}

/// Inserting an order of the side, with something left to trade, keeps the side
/// well-formed.
pub proof fn lemma_placed_wf(side: Side, s: Seq<Order>, o: Order)
    requires
        side_wf(side, s),
        o.side == side,
        o.remaining_quantity.units > 0,
        o.valid(),
    ensures
        side_wf(side, placed(side, s, o)),
        placed(side, s, o).len() == s.len() + 1,
        placed(side, s, o)[0] == (if rank(side, s, o) == 0 { o } else { s[0] }),
{
    lemma_rank_bounds(side, s, o);
    let k = rank(side, s, o) as int;
    let p = placed(side, s, o);
    assert forall|i: int, j: int| 0 <= i < j < p.len() implies !precedes(side, #[trigger] p[j], #[trigger] p[i]) by {
        if j < k {
            assert(p[i] == s[i] && p[j] == s[j]);
        } else if j == k {
            assert(p[i] == s[i]);
        } else if i < k {
            assert(p[i] == s[i] && p[j] == s[j - 1]);
        } else if i == k {
            assert(p[j] == s[j - 1]);
            assert(!precedes(side, s[j - 1], s[k]) || j - 1 == k);
        } else {
            assert(p[i] == s[i - 1] && p[j] == s[j - 1]);
        }
    }
}

/// Taking part of a resting order's quantity keeps the side well-formed.
pub proof fn lemma_decremented_wf(side: Side, s: Seq<Order>, index: int, q: int)
    requires
        side_wf(side, s),
        0 <= index < s.len(),
        0 <= q <= s[index].remaining_quantity.units,
    ensures
        side_wf(side, decremented(s, index, q)),
{
    let d = decremented(s, index, q);
    if q == s[index].remaining_quantity.units {
        assert forall|i: int, j: int| 0 <= i < j < d.len() implies !precedes(side, #[trigger] d[j], #[trigger] d[i]) by {
            let i0 = if i < index { i } else { i + 1 };
            let j0 = if j < index { j } else { j + 1 };
            assert(d[i] == s[i0] && d[j] == s[j0]);
        }
        assert forall|i: int| 0 <= i < d.len() implies {
            &&& (#[trigger] d[i]).side == side
            &&& d[i].remaining_quantity.units > 0
            &&& d[i].valid()
        } by {
            let i0 = if i < index { i } else { i + 1 };
            assert(d[i] == s[i0]);
        }
    } else {
        assert forall|i: int, j: int| 0 <= i < j < d.len() implies !precedes(side, #[trigger] d[j], #[trigger] d[i]) by {
            assert(precedes(side, d[j], d[i]) == precedes(side, s[j], s[i]));
        }
        assert forall|i: int| 0 <= i < d.len() implies {
            &&& (#[trigger] d[i]).side == side
            &&& d[i].remaining_quantity.units > 0
            &&& d[i].valid()
        } by {
            assert(s[i].side == side);
        }
    }
}

/// What a sweep leaves behind: a well-formed side whose best order is no better
/// than before, and a taker that stopped for a reason.
pub proof fn lemma_sweep_basic(makers: Seq<Order>, taker: Order, seq: int)
    requires
        side_wf(taker.side.flip(), makers),
    ensures
        ({
            let (rest, trades, left) = sweep(makers, taker, seq);
            &&& side_wf(taker.side.flip(), rest)
            &&& rest.len() <= makers.len()
            &&& left == with_remaining(taker, left.remaining_quantity.units as int)
            &&& left.remaining_quantity.units <= taker.remaining_quantity.units
            &&& left.remaining_quantity.units == 0 || rest.len() == 0 || !crosses(
                taker.side,
                taker.price.units,
                rest[0].price.units,
            )
            &&& rest.len() > 0 ==> makers.len() > 0 && !precedes(
                taker.side.flip(),
                rest[0],
                makers[0],
            )
        }),
    decreases makers.len(), taker.remaining_quantity.units,
{
    if taker.remaining_quantity.units == 0 || makers.len() == 0 || !crosses(
        taker.side,
        taker.price.units,
        makers[0].price.units,
    ) {
    } else {
        let m = makers[0];
        let q = if taker.remaining_quantity.units <= m.remaining_quantity.units {
            taker.remaining_quantity.units
        } else {
            m.remaining_quantity.units
        };
        let d = decremented(makers, 0, q as int);
        let t2 = with_remaining(taker, taker.remaining_quantity.units - q);
        lemma_decremented_wf(taker.side.flip(), makers, 0, q as int);
        lemma_sweep_basic(d, t2, seq + 1);
        let rest = sweep(d, t2, seq + 1).0;
        if rest.len() > 0 {
            if q == m.remaining_quantity.units {
                assert(d[0] == makers[1]);
                assert(!precedes(taker.side.flip(), makers[1], makers[0]));
            } else {
                assert(!precedes(taker.side.flip(), d[0], makers[0]));
            }
        }
    }
}

/// The sum of the quantities of `trades`.
pub open spec fn total_quantity(trades: Seq<Trade>) -> int
    decreases trades.len(),
{
    if trades.len() == 0 {
        0
    } else {
        trades[0].quantity.units + total_quantity(trades.drop_first())
    }
}

/// How many resting orders a sweep filled completely and took out.
pub open spec fn filled_count(makers: Seq<Order>, taker: Order, seq: int) -> int {
    makers.len() - sweep(makers, taker, seq).0.len()
}

/// The shape of a sweep: the i-th trade is against the i-th best resting
/// order; all but possibly the last fill their resting order, which leaves;
/// a last partial fill leaves that order at the front with less; the rest of
/// the side is untouched.
#[verifier::rlimit(40)]
pub proof fn lemma_sweep_shape(makers: Seq<Order>, taker: Order, seq: int)
    requires
        side_wf(taker.side.flip(), makers),
    ensures
        ({
            let (rest, trades, left) = sweep(makers, taker, seq);
            let k = filled_count(makers, taker, seq);
            &&& 0 <= k <= trades.len() <= k + 1
            &&& trades.len() <= makers.len()
            &&& forall|i: int|
                0 <= i < trades.len() ==> {
                    &&& (#[trigger] trades[i]).maker_id == makers[i].id
                    &&& trades[i].taker_id == taker.id
                    &&& trades[i].price == makers[i].price
                    &&& trades[i].sequence == (seq + i) as u64
                    &&& 0 < trades[i].quantity.units <= makers[i].remaining_quantity.units
                    &&& crosses(taker.side, taker.price.units, makers[i].price.units)
                }
            &&& forall|i: int|
                0 <= i < k ==> (#[trigger] trades[i]).quantity == makers[i].remaining_quantity
            &&& trades.len() == k + 1 ==> rest.len() > 0 && rest[0] == with_remaining(
                makers[k],
                makers[k].remaining_quantity.units - trades[k].quantity.units,
            ) && trades[k].quantity.units < makers[k].remaining_quantity.units
            &&& trades.len() == k ==> rest.len() == 0 || rest[0] == makers[k]
            &&& forall|j: int| 0 < j < rest.len() ==> #[trigger] rest[j] == makers[k + j]
            &&& total_quantity(trades) + left.remaining_quantity.units
                == taker.remaining_quantity.units
        }),
    decreases makers.len(), taker.remaining_quantity.units,
{
    if taker.remaining_quantity.units == 0 || makers.len() == 0 || !crosses(
        taker.side,
        taker.price.units,
        makers[0].price.units,
    ) {
    } else {
        let m = makers[0];
        let q = if taker.remaining_quantity.units <= m.remaining_quantity.units {
            taker.remaining_quantity.units
        } else {
            m.remaining_quantity.units
        };
        let d = decremented(makers, 0, q as int);
        let t2 = with_remaining(taker, taker.remaining_quantity.units - q);
        lemma_decremented_wf(taker.side.flip(), makers, 0, q as int);
        lemma_sweep_shape(d, t2, seq + 1);
        let (rest, trades, left) = sweep(makers, taker, seq);
        let tail = sweep(d, t2, seq + 1).1;
        assert(trades.drop_first() == tail);
        if q == m.remaining_quantity.units {
            assert forall|i: int| 0 < i < makers.len() implies #[trigger] makers[i] == d[i - 1] by {}
            assert forall|i: int| 0 <= i < trades.len() implies {
                &&& (#[trigger] trades[i]).maker_id == makers[i].id
                &&& trades[i].taker_id == taker.id
                &&& trades[i].price == makers[i].price
                &&& trades[i].sequence == (seq + i) as u64
                &&& 0 < trades[i].quantity.units <= makers[i].remaining_quantity.units
                &&& crosses(taker.side, taker.price.units, makers[i].price.units)
            } by {
                if i > 0 {
                    assert(trades[i] == tail[i - 1]);
                    assert(makers[i] == d[i - 1]);
                }
            }
            let k = filled_count(makers, taker, seq);
            assert forall|i: int| 0 <= i < k implies (#[trigger] trades[i]).quantity
                == makers[i].remaining_quantity by {
                if i > 0 {
                    assert(trades[i] == tail[i - 1]);
                    assert(makers[i] == d[i - 1]);
                }
            }
            if trades.len() == k + 1 {
                assert(trades[k] == tail[k - 1]);
                assert(makers[k] == d[k - 1]);
            }
            if trades.len() == k && rest.len() > 0 {
                assert(makers[k] == d[k - 1]);
            }
            assert forall|j: int| 0 < j < rest.len() implies #[trigger] rest[j] == makers[k + j] by {
                assert(makers[k + j] == d[k - 1 + j]);
            }
        } else {
            assert(trades == seq![trades[0]]);
        }
    }
}

/// No two orders of `s` share an id.
pub open spec fn ids_distinct(s: Seq<Order>) -> bool {
    forall|i: int, j: int| 0 <= i < j < s.len() ==> (#[trigger] s[i]).id != (#[trigger] s[j]).id
}

/// Some order of `s` has the id `id`.
pub open spec fn has_id(s: Seq<Order>, id: u64) -> bool {
    exists|i: int| 0 <= i < s.len() && (#[trigger] s[i]).id == id
}

/// Inserting an order whose id is new keeps ids distinct, and adds just that id.
pub proof fn lemma_placed_ids(side: Side, s: Seq<Order>, o: Order)
    requires
        ids_distinct(s),
        !has_id(s, o.id),
    ensures
        ids_distinct(placed(side, s, o)),
        forall|id: u64| has_id(placed(side, s, o), id) <==> (has_id(s, id) || id == o.id),
{
    lemma_rank_bounds(side, s, o);
    let k = rank(side, s, o) as int;
    let p = placed(side, s, o);
    assert forall|i: int, j: int| 0 <= i < j < p.len() implies (#[trigger] p[i]).id
        != (#[trigger] p[j]).id by {
        if i < k && j < k {
            assert(p[i] == s[i] && p[j] == s[j]);
        } else if i < k && j == k {
            assert(p[i] == s[i]);
        } else if i < k {
            assert(p[i] == s[i] && p[j] == s[j - 1]);
        } else if i == k {
            assert(p[j] == s[j - 1]);
        } else {
            assert(p[i] == s[i - 1] && p[j] == s[j - 1]);
        }
    }
    assert forall|id: u64| has_id(p, id) <==> (has_id(s, id) || id == o.id) by {
        if has_id(p, id) {
            let i = choose|i: int| 0 <= i < p.len() && (#[trigger] p[i]).id == id;
            if i < k {
                assert(p[i] == s[i]);
            } else if i > k {
                assert(p[i] == s[i - 1]);
            }
        }
        if has_id(s, id) {
            let i = choose|i: int| 0 <= i < s.len() && (#[trigger] s[i]).id == id;
            if i < k {
                assert(p[i] == s[i]);
            } else {
                assert(p[i + 1] == s[i]);
            }
        }
        if id == o.id {
            assert(p[k] == o);
        }
    }
}

/// Taking quantity from a resting order keeps the ids distinct and adds none.
pub proof fn lemma_decremented_ids(s: Seq<Order>, index: int, q: int)
    requires
        ids_distinct(s),
        0 <= index < s.len(),
    ensures
        ids_distinct(decremented(s, index, q)),
        forall|id: u64| has_id(decremented(s, index, q), id) ==> has_id(s, id),
{
    let d = decremented(s, index, q);
    if q == s[index].remaining_quantity.units {
        assert forall|i: int, j: int| 0 <= i < j < d.len() implies (#[trigger] d[i]).id
            != (#[trigger] d[j]).id by {
            let i0 = if i < index { i } else { i + 1 };
            let j0 = if j < index { j } else { j + 1 };
            assert(d[i] == s[i0] && d[j] == s[j0]);
        }
        assert forall|id: u64| has_id(d, id) implies has_id(s, id) by {
            let i = choose|i: int| 0 <= i < d.len() && (#[trigger] d[i]).id == id;
            let i0 = if i < index { i } else { i + 1 };
            assert(d[i] == s[i0]);
        }
    } else {
        assert forall|i: int, j: int| 0 <= i < j < d.len() implies (#[trigger] d[i]).id
            != (#[trigger] d[j]).id by {
            assert(d[i].id == s[i].id && d[j].id == s[j].id);
        }
        assert forall|id: u64| has_id(d, id) implies has_id(s, id) by {
            let i = choose|i: int| 0 <= i < d.len() && (#[trigger] d[i]).id == id;
            assert(d[i].id == s[i].id);
        }
    }
}

/// A sweep keeps the ids of what it leaves distinct and adds none; the order
/// at position `j` of what is left is the one that stood `filled_count`
/// places further back.
pub proof fn lemma_sweep_ids(makers: Seq<Order>, taker: Order, seq: int)
    requires
        side_wf(taker.side.flip(), makers),
        ids_distinct(makers),
    ensures
        ({
            let rest = sweep(makers, taker, seq).0;
            let k = filled_count(makers, taker, seq);
            &&& ids_distinct(rest)
            &&& forall|j: int|
                0 <= j < rest.len() ==> (#[trigger] rest[j]).id == makers[k + j].id
            &&& forall|id: u64| has_id(rest, id) ==> has_id(makers, id)
        }),
{
    lemma_sweep_shape(makers, taker, seq);
    lemma_sweep_basic(makers, taker, seq);
    let rest = sweep(makers, taker, seq).0;
    let k = filled_count(makers, taker, seq);
    assert forall|j: int| 0 <= j < rest.len() implies (#[trigger] rest[j]).id == makers[k + j].id by {
        if j > 0 {
            assert(rest[j] == makers[k + j]);
        }
    }
    assert forall|i: int, j: int| 0 <= i < j < rest.len() implies (#[trigger] rest[i]).id
        != (#[trigger] rest[j]).id by {
        assert(rest[i].id == makers[k + i].id);
        assert(rest[j].id == makers[k + j].id);
    }
    assert forall|id: u64| has_id(rest, id) implies has_id(makers, id) by {
        let i = choose|i: int| 0 <= i < rest.len() && (#[trigger] rest[i]).id == id;
        assert(rest[i].id == makers[k + i].id);
    }
}

/// No order of `a` shares its id with an order of `b`.
pub open spec fn ids_disjoint(a: Seq<Order>, b: Seq<Order>) -> bool {
    forall|i: int, j: int|
        0 <= i < a.len() && 0 <= j < b.len() ==> (#[trigger] a[i]).id != (#[trigger] b[j]).id
}

pub proof fn lemma_ids_disjoint(a: Seq<Order>, b: Seq<Order>)
    ensures
        ids_disjoint(a, b) <==> forall|id: u64| has_id(a, id) ==> !has_id(b, id),
{
    if ids_disjoint(a, b) {
        assert forall|id: u64| has_id(a, id) implies !has_id(b, id) by {
            let i = choose|i: int| 0 <= i < a.len() && (#[trigger] a[i]).id == id;
            if has_id(b, id) {
                let j = choose|j: int| 0 <= j < b.len() && (#[trigger] b[j]).id == id;
                assert(a[i].id != b[j].id);
            }
        }
    }
    if forall|id: u64| has_id(a, id) ==> !has_id(b, id) {
        assert forall|i: int, j: int| 0 <= i < a.len() && 0 <= j < b.len() implies (#[trigger] a[i]).id
            != (#[trigger] b[j]).id by {
            assert(has_id(a, a[i].id));
            assert(has_id(b, b[j].id));
        }
    }
}

} // verus!

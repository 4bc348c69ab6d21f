use crate::book::OrderBook;
use crate::matching::{
    has_id, lemma_sweep_ids, lemma_sweep_basic, lemma_sweep_shape, placed, sweep, total_quantity,
    with_remaining,
};
use crate::order::{crosses, precedes, Order, Trade};
use vstd::prelude::*;

verus! {

/// Processing an order never leaves the book crossed, and never leaves a
/// resting order with nothing to trade: starting from an empty book, after
/// every processed order the best bid stays below the best ask.
pub proof fn lemma_never_crossed(before: OrderBook, after: OrderBook, order: Order, trades: Seq<Trade>)
    requires
        before.wf(),
        order.valid(),
        !before.holds_id(order.id),
        !before.crossed(),
        OrderBook::processed(before, after, order, trades),
    ensures
        after.wf(),
        !after.crossed(),
{
    OrderBook::lemma_processed_wf(before, after, order, trades);
}

/// Quantity is conserved by processing an order. The incoming order trades no
/// more than it has left, and what it did not trade is what rests of it. The
/// i-th trade is the only one against the i-th best resting order, for a
/// positive quantity no larger than either order's original quantity; each
/// resting order that trades either gives up exactly its remaining quantity
/// and leaves the book, or stays at the front with its remaining quantity
/// reduced by exactly the trade's quantity; every other resting order is
/// unchanged. As resting ids are distinct, a trade names by its maker id only
/// the order at its own position, so between the incoming order and any one
/// resting order at most one trade passes, and an order that was filled no
/// longer rests under its id.
pub proof fn lemma_quantity_conservation(
    before: OrderBook,
    after: OrderBook,
    order: Order,
    trades: Seq<Trade>,
)
    requires
        before.wf(),
        order.valid(),
        OrderBook::processed(before, after, order, trades),
    ensures
        ({
            let makers = before.orders(order.side.flip());
            let rest = after.orders(order.side.flip());
            let own = before.orders(order.side);
            let total = total_quantity(trades);
            let k = makers.len() - rest.len();
            &&& total <= order.remaining_quantity.units
            &&& total < order.remaining_quantity.units ==> after.orders(order.side) == placed(
                order.side,
                own,
                with_remaining(order, order.remaining_quantity.units - total),
            )
            &&& total == order.remaining_quantity.units ==> after.orders(order.side) == own
            &&& 0 <= k <= trades.len() <= k + 1
            &&& forall|i: int|
                0 <= i < trades.len() ==> {
                    &&& (#[trigger] trades[i]).maker_id == makers[i].id
                    &&& trades[i].taker_id == order.id
                    &&& 0 < trades[i].quantity.units
                    &&& trades[i].quantity.units <= makers[i].original_quantity.units
                    &&& trades[i].quantity.units <= order.original_quantity.units
                }
            &&& forall|i: int|
                0 <= i < k ==> (#[trigger] trades[i]).quantity == makers[i].remaining_quantity
            &&& k < trades.len() ==> rest[0] == with_remaining(
                makers[k],
                makers[k].remaining_quantity.units - trades[k].quantity.units,
            )
            &&& forall|j: int|
                0 <= j < rest.len() && k + j >= trades.len() ==> #[trigger] rest[j] == makers[k + j]
            &&& forall|t: int, i: int|
                0 <= t < trades.len() && 0 <= i < makers.len() && (#[trigger] trades[t]).maker_id
                    == (#[trigger] makers[i]).id ==> t == i
            &&& forall|i: int| 0 <= i < k ==> !has_id(rest, (#[trigger] makers[i]).id)
        }),
{
    let makers = before.orders(order.side.flip());
    let seq = before.next_sequence() as int;
    lemma_sweep_basic(makers, order, seq);
    lemma_sweep_shape(makers, order, seq);
    lemma_ids_by_position(makers, order, seq);
    let trades0 = sweep(makers, order, seq).1;
    assert forall|i: int| 0 <= i < trades.len() implies trades[i].quantity.units
        <= order.remaining_quantity.units by {
        lemma_total_bounds(trades0, i);
    }
}

/// With distinct ids on the resting side, an id names one position: a trade
/// names the order at its own position, and a filled order's id is gone.
proof fn lemma_ids_by_position(makers: Seq<Order>, taker: Order, seq: int)
    requires
        crate::matching::side_wf(taker.side.flip(), makers),
        crate::matching::ids_distinct(makers),
    ensures
        ({
            let (rest, trades, left) = sweep(makers, taker, seq);
            let k = makers.len() - rest.len();
            &&& forall|t: int, i: int|
                0 <= t < trades.len() && 0 <= i < makers.len() && (#[trigger] trades[t]).maker_id
                    == (#[trigger] makers[i]).id ==> t == i
            &&& forall|i: int| 0 <= i < k ==> !has_id(rest, (#[trigger] makers[i]).id)
        }),
{
    lemma_sweep_shape(makers, taker, seq);
    lemma_sweep_ids(makers, taker, seq);
    let (rest, trades, left) = sweep(makers, taker, seq);
    let k = makers.len() - rest.len();
    assert forall|t: int, i: int|
        0 <= t < trades.len() && 0 <= i < makers.len() && (#[trigger] trades[t]).maker_id
            == (#[trigger] makers[i]).id implies t == i by {
        assert(trades[t].maker_id == makers[t].id);
    }
    assert forall|i: int| 0 <= i < k implies !has_id(rest, (#[trigger] makers[i]).id) by {
        if has_id(rest, makers[i].id) {
            let j = choose|j: int| 0 <= j < rest.len() && (#[trigger] rest[j]).id == makers[i].id;
            assert(rest[j].id == makers[k + j].id);
        }
    }
}

proof fn lemma_total_bounds(trades: Seq<Trade>, i: int)
    requires
        0 <= i < trades.len(),
    ensures
        trades[i].quantity.units <= total_quantity(trades),
    decreases trades.len(),
{
    lemma_total_nonnegative(trades.drop_first());
    if i > 0 {
        lemma_total_bounds(trades.drop_first(), i - 1);
    }
}

proof fn lemma_total_nonnegative(trades: Seq<Trade>)
    ensures
        total_quantity(trades) >= 0,
    decreases trades.len(),
{
    if trades.len() > 0 {
        lemma_total_nonnegative(trades.drop_first());
    }
}

/// Price-time priority: of two resting orders at one price, the earlier
/// arrival stands ahead of the later one, and an incoming order takes
/// anything from the later one only after it has filled the earlier one
/// completely and taken it out of the book: every trade with the later one
/// comes after the earlier one's last trade, and by then no order with the
/// earlier one's id rests.
pub proof fn lemma_time_priority(
    before: OrderBook,
    after: OrderBook,
    order: Order,
    trades: Seq<Trade>,
    i: int,
    j: int,
)
    requires
        before.wf(),
        OrderBook::processed(before, after, order, trades),
        0 <= i < before.orders(order.side.flip()).len(),
        0 <= j < before.orders(order.side.flip()).len(),
        before.orders(order.side.flip())[i].price == before.orders(order.side.flip())[j].price,
        before.orders(order.side.flip())[i].sequence < before.orders(order.side.flip())[j].sequence,
    ensures
        i < j,
        ({
            let makers = before.orders(order.side.flip());
            let rest = after.orders(order.side.flip());
            &&& forall|t: int| 0 <= t < trades.len() ==> #[trigger] trades[t].maker_id == makers[t].id
            &&& j < trades.len() ==> {
                &&& trades[i].quantity == makers[i].remaining_quantity
                &&& i < makers.len() - rest.len()
            }
            &&& forall|t: int|
                0 <= t < trades.len() && (#[trigger] trades[t]).maker_id == makers[j].id ==> {
                    &&& t == j
                    &&& i < t
                    &&& trades[i].maker_id == makers[i].id
                    &&& trades[i].quantity == makers[i].remaining_quantity
                    &&& !has_id(rest, makers[i].id)
                }
        }),
{
    let makers = before.orders(order.side.flip());
    let seq = before.next_sequence() as int;
    lemma_sweep_shape(makers, order, seq);
    lemma_ids_by_position(makers, order, seq);
    if j <= i {
        assert(!precedes(order.side.flip(), makers[i], makers[j]) || i == j);
    }
}

/// Every trade is at the price of the resting order it is against, whatever the
/// incoming order's limit, and that price is within the incoming limit; the
/// resting order that a trade's maker id names has that price.
pub proof fn lemma_maker_price(before: OrderBook, after: OrderBook, order: Order, trades: Seq<Trade>)
    requires
        before.wf(),
        OrderBook::processed(before, after, order, trades),
    ensures
        forall|i: int|
            0 <= i < trades.len() ==> {
                &&& (#[trigger] trades[i]).maker_id == before.orders(order.side.flip())[i].id
                &&& trades[i].price == before.orders(order.side.flip())[i].price
                &&& trades[i].taker_id == order.id
                &&& crosses(order.side, order.price.units, trades[i].price.units)
            },
        forall|i: int, m: int|
            0 <= i < trades.len() && 0 <= m < before.orders(order.side.flip()).len() && (
            #[trigger] trades[i]).maker_id == (#[trigger] before.orders(order.side.flip())[m]).id
                ==> trades[i].price == before.orders(order.side.flip())[m].price,
{
    lemma_sweep_shape(before.orders(order.side.flip()), order, before.next_sequence() as int);
    lemma_ids_by_position(before.orders(order.side.flip()), order, before.next_sequence() as int);
}

} // verus!

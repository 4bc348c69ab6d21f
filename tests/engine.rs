use order_book::{
    has_priority, price_crosses, validate, BookError, Fixed, Order, OrderBook, Side, SubmitError,
    Trade, ValidationError,
};
use std::cmp::Ordering;

const ONE: u64 = 100_000_000;

fn qty(units: u64) -> Fixed {
    Fixed::from_units(units)
}

fn whole(n: u64) -> Fixed {
    Fixed::from_units(n * ONE)
}

fn sell(id: u64, price: u64, quantity: u64, sequence: u64) -> Order {
    Order::new(id, Side::Sell, whole(price), qty(quantity), sequence)
}

fn buy(id: u64, price: u64, quantity: u64, sequence: u64) -> Order {
    Order::new(id, Side::Buy, whole(price), qty(quantity), sequence)
}

/// (id, price in whole units, remaining units) of each resting order of `side`.
fn side_of(book: &OrderBook, side: Side) -> Vec<(u64, u64, u64)> {
    let mut out = Vec::new();
    for i in 0..book.len(side) {
        let o = book.order_at(side, i);
        out.push((o.id, o.price.units / ONE, o.remaining_quantity.units));
    }
    out
}

fn trade(maker_id: u64, taker_id: u64, price: u64, quantity: u64, sequence: u64) -> Trade {
    Trade { maker_id, taker_id, price: whole(price), quantity: qty(quantity), sequence }
}

#[test]
fn scenario_sell_rests_on_empty_book() {
    let mut book = OrderBook::new();
    let trades = book.submit(sell(1, 50000, ONE, 1)).unwrap();
    assert!(trades.is_empty());
    assert_eq!(side_of(&book, Side::Sell), vec![(1, 50000, ONE)]);
    assert!(side_of(&book, Side::Buy).is_empty());
}

#[test]
fn scenario_lower_bid_does_not_cross() {
    let mut book = OrderBook::new();
    book.submit(sell(1, 50000, ONE, 1)).unwrap();
    let trades = book.submit(buy(2, 49000, ONE, 2)).unwrap();
    assert!(trades.is_empty());
    assert_eq!(side_of(&book, Side::Buy), vec![(2, 49000, ONE)]);
    assert_eq!(side_of(&book, Side::Sell), vec![(1, 50000, ONE)]);
    assert!(!book.is_crossed());
}

fn book_after_second_scenario() -> OrderBook {
    let mut book = OrderBook::new();
    book.submit(sell(1, 50000, ONE, 1)).unwrap();
    book.submit(buy(2, 49000, ONE, 2)).unwrap();
    book
}

#[test]
fn scenario_aggressive_bid_sweeps_ask_and_rests() {
    let mut book = book_after_second_scenario();
    let trades = book.submit(buy(3, 51000, 2 * ONE, 3)).unwrap();
    assert_eq!(trades, vec![trade(1, 3, 50000, ONE, 0)]);
    assert_eq!(side_of(&book, Side::Buy), vec![(3, 51000, ONE), (2, 49000, ONE)]);
    assert!(side_of(&book, Side::Sell).is_empty());
    assert!(!book.is_crossed());
}

#[test]
fn scenario_sell_at_equal_price_fills_partly_against_bid() {
    let mut book = book_after_second_scenario();
    book.submit(buy(3, 51000, 2 * ONE, 3)).unwrap();
    let trades = book.submit(sell(4, 51000, ONE / 2, 4)).unwrap();
    assert_eq!(trades, vec![trade(3, 4, 51000, ONE / 2, 1)]);
    assert_eq!(side_of(&book, Side::Buy), vec![(3, 51000, ONE / 2), (2, 49000, ONE)]);
    assert!(side_of(&book, Side::Sell).is_empty());
    assert_eq!(book.next_trade_sequence(), 2);
}

#[test]
fn scenario_zero_price_rejected_without_change() {
    let mut book = book_after_second_scenario();
    let r = book.submit(Order::new(5, Side::Buy, whole(0), whole(1), 5));
    assert_eq!(r, Err(SubmitError::Invalid(ValidationError::NonPositivePrice)));
    assert_eq!(side_of(&book, Side::Buy), vec![(2, 49000, ONE)]);
    assert_eq!(side_of(&book, Side::Sell), vec![(1, 50000, ONE)]);
    assert_eq!(book.next_trade_sequence(), 0);
}

#[test]
fn zero_quantity_rejected() {
    let mut book = OrderBook::new();
    let r = book.submit(Order::new(1, Side::Sell, whole(10), whole(0), 1));
    assert_eq!(r, Err(SubmitError::Invalid(ValidationError::NonPositiveQuantity)));
    assert_eq!(book.len(Side::Sell), 0);
}

#[test]
fn partially_filled_order_rejected() {
    let mut o = sell(1, 10, ONE, 1);
    o.remaining_quantity = qty(ONE / 2);
    assert_eq!(validate(&o), Err(ValidationError::PartiallyFilled));
    let mut book = OrderBook::new();
    assert_eq!(book.submit(o), Err(SubmitError::Invalid(ValidationError::PartiallyFilled)));
}

#[test]
fn valid_order_passes_validation() {
    assert_eq!(validate(&buy(1, 10, ONE, 1)), Ok(()));
}

#[test]
fn insert_resting_refuses_empty_order() {
    let mut book = OrderBook::new();
    let mut o = buy(1, 10, ONE, 1);
    o.remaining_quantity = qty(0);
    assert_eq!(book.insert_resting(o), Err(BookError::EmptyOrder));
    assert_eq!(book.len(Side::Buy), 0);
    assert_eq!(book.insert_resting(buy(2, 10, ONE, 2)), Ok(()));
    assert_eq!(side_of(&book, Side::Buy), vec![(2, 10, ONE)]);
}

#[test]
fn earlier_sell_at_same_price_fills_first() {
    let mut book = OrderBook::new();
    book.submit(sell(20, 100, ONE, 2)).unwrap();
    book.submit(sell(10, 100, ONE, 1)).unwrap();
    // arrival order in the book follows sequence, not submission of ids
    assert_eq!(side_of(&book, Side::Sell), vec![(10, 100, ONE), (20, 100, ONE)]);
    let trades = book.submit(buy(30, 100, ONE + ONE / 2, 3)).unwrap();
    assert_eq!(trades, vec![trade(10, 30, 100, ONE, 0), trade(20, 30, 100, ONE / 2, 1)]);
    assert_eq!(side_of(&book, Side::Sell), vec![(20, 100, ONE / 2)]);
}

#[test]
fn partial_fill_of_level_leaves_later_order_untouched() {
    let mut book = OrderBook::new();
    book.submit(sell(1, 100, ONE, 1)).unwrap();
    book.submit(sell(2, 100, ONE, 2)).unwrap();
    let trades = book.submit(buy(3, 100, ONE / 4, 3)).unwrap();
    assert_eq!(trades, vec![trade(1, 3, 100, ONE / 4, 0)]);
    assert_eq!(side_of(&book, Side::Sell), vec![(1, 100, 3 * ONE / 4), (2, 100, ONE)]);
}

#[test]
fn trades_execute_at_maker_price() {
    let mut book = OrderBook::new();
    book.submit(sell(1, 90, ONE, 1)).unwrap();
    book.submit(sell(2, 95, ONE, 2)).unwrap();
    let trades = book.submit(buy(3, 120, 2 * ONE, 3)).unwrap();
    assert_eq!(trades, vec![trade(1, 3, 90, ONE, 0), trade(2, 3, 95, ONE, 1)]);
    let trades = book.submit(buy(4, 80, ONE, 4)).unwrap();
    assert!(trades.is_empty());
    let trades = book.submit(sell(5, 10, ONE, 5)).unwrap();
    assert_eq!(trades, vec![trade(4, 5, 80, ONE, 2)]);
}

#[test]
fn aggressive_order_sweeps_levels_and_rests_remainder() {
    let mut book = OrderBook::new();
    book.submit(buy(1, 100, ONE, 1)).unwrap();
    book.submit(buy(2, 99, ONE, 2)).unwrap();
    book.submit(buy(3, 98, ONE, 3)).unwrap();
    let trades = book.submit(sell(4, 99, 3 * ONE, 4)).unwrap();
    assert_eq!(trades, vec![trade(1, 4, 100, ONE, 0), trade(2, 4, 99, ONE, 1)]);
    assert_eq!(side_of(&book, Side::Buy), vec![(3, 98, ONE)]);
    assert_eq!(side_of(&book, Side::Sell), vec![(4, 99, ONE)]);
    assert!(!book.is_crossed());
}

#[test]
fn quantity_is_conserved_across_trades() {
    let mut book = OrderBook::new();
    book.submit(sell(1, 10, 3 * ONE, 1)).unwrap();
    book.submit(sell(2, 11, 2 * ONE, 2)).unwrap();
    let trades = book.submit(buy(3, 11, 4 * ONE, 3)).unwrap();
    let total: u64 = trades.iter().map(|t| t.quantity.units).sum();
    assert_eq!(total, 4 * ONE);
    assert_eq!(side_of(&book, Side::Sell), vec![(2, 11, ONE)]);
    assert!(book.len(Side::Buy) == 0);
    for t in &trades {
        assert!(t.quantity.units > 0);
    }
}

#[test]
fn book_never_crossed_and_never_holds_empty_orders() {
    let mut book = OrderBook::new();
    let mut seq: u64 = 0;
    for round in 0..40u64 {
        seq += 1;
        let side = if round % 3 == 0 { Side::Sell } else { Side::Buy };
        let price = 90 + (round * 7) % 21;
        let quantity = ONE / 2 + (round % 4) * ONE / 4;
        let o = Order::new(seq, side, whole(price), qty(quantity), seq);
        book.submit(o).unwrap();
        assert!(!book.is_crossed());
        for s in [Side::Buy, Side::Sell] {
            for i in 0..book.len(s) {
                assert!(book.order_at(s, i).remaining_quantity.units > 0);
            }
        }
    }
}

#[test]
fn decrement_removes_exhausted_order() {
    let mut book = OrderBook::new();
    book.insert_resting(sell(1, 10, ONE, 1)).unwrap();
    book.insert_resting(sell(2, 11, ONE, 2)).unwrap();
    book.decrement(Side::Sell, 0, qty(ONE / 2));
    assert_eq!(side_of(&book, Side::Sell), vec![(1, 10, ONE / 2), (2, 11, ONE)]);
    book.decrement(Side::Sell, 0, qty(ONE / 2));
    assert_eq!(side_of(&book, Side::Sell), vec![(2, 11, ONE)]);
}

#[test]
fn best_is_highest_priority() {
    let mut book = OrderBook::new();
    assert!(book.best(Side::Buy).is_none());
    book.insert_resting(buy(1, 10, ONE, 1)).unwrap();
    book.insert_resting(buy(2, 12, ONE, 2)).unwrap();
    book.insert_resting(buy(3, 12, ONE, 3)).unwrap();
    assert_eq!(book.best(Side::Buy).unwrap().id, 2);
    assert!(book.best(Side::Sell).is_none());
}

#[test]
fn crossed_book_is_reported() {
    let mut book = OrderBook::new();
    book.insert_resting(buy(1, 12, ONE, 1)).unwrap();
    book.insert_resting(sell(2, 11, ONE, 2)).unwrap();
    assert!(book.is_crossed());
}

#[test]
fn equal_price_and_sequence_keep_arrival_order() {
    let mut book = OrderBook::new();
    book.insert_resting(sell(1, 10, ONE, 7)).unwrap();
    book.insert_resting(sell(2, 10, ONE, 7)).unwrap();
    assert_eq!(side_of(&book, Side::Sell), vec![(1, 10, ONE), (2, 10, ONE)]);
}

#[test]
fn priority_comparison_depends_on_side() {
    let a = buy(1, 10, ONE, 1);
    let b = buy(2, 11, ONE, 2);
    assert_eq!(a.priority_cmp(&b), Ordering::Greater);
    assert_eq!(b.priority_cmp(&a), Ordering::Less);
    let c = sell(3, 10, ONE, 3);
    let d = sell(4, 11, ONE, 4);
    assert_eq!(c.priority_cmp(&d), Ordering::Less);
    let e = sell(5, 10, ONE, 5);
    assert_eq!(c.priority_cmp(&e), Ordering::Less);
    assert_eq!(c.priority_cmp(&c), Ordering::Equal);
    assert!(has_priority(Side::Sell, &c, &e));
    assert!(!has_priority(Side::Sell, &e, &c));
}

#[test]
fn crossing_boundary_is_inclusive() {
    assert!(price_crosses(Side::Buy, whole(10), whole(10)));
    assert!(price_crosses(Side::Sell, whole(10), whole(10)));
    assert!(!price_crosses(Side::Buy, whole(9), whole(10)));
    assert!(!price_crosses(Side::Sell, whole(11), whole(10)));
}

#[test]
fn duplicate_resting_id_rejected() {
    let mut book = OrderBook::new();
    book.submit(sell(1, 100, ONE, 1)).unwrap();
    assert!(book.holds(1));
    assert!(!book.holds(2));
    let r = book.submit(buy(1, 90, ONE, 2));
    assert_eq!(r, Err(SubmitError::Invalid(ValidationError::DuplicateId)));
    assert_eq!(side_of(&book, Side::Sell), vec![(1, 100, ONE)]);
    assert_eq!(book.len(Side::Buy), 0);
}

#[test]
fn filled_id_may_be_used_again() {
    let mut book = OrderBook::new();
    book.submit(sell(1, 100, ONE, 1)).unwrap();
    book.submit(buy(2, 100, ONE, 2)).unwrap();
    assert!(!book.holds(1));
    assert!(book.submit(sell(1, 100, ONE, 3)).is_ok());
}

#[test]
fn add_order_with_validated_order_rests_remainder() {
    let mut book = OrderBook::new();
    book.insert_resting(sell(1, 10, ONE, 1)).unwrap();
    let trades = book.add_order(buy(2, 10, 2 * ONE, 2));
    assert_eq!(trades, vec![trade(1, 2, 10, ONE, 0)]);
    assert_eq!(side_of(&book, Side::Buy), vec![(2, 10, ONE)]);
    assert_eq!(book.len(Side::Sell), 0);
}

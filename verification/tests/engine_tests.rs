use kobara_ob::{
    BookError, Decimal, MatchingEngine, Order, OrderBook, OrderStatus, OrderType, Side, Timestamp,
    Trade, TxnHistory,
};
use std::cmp::Ordering;

fn dec(mantissa: i64, scale: u32) -> Decimal {
    Decimal::try_new(mantissa, scale).unwrap()
}

fn limit(id: u64, price: i64, quantity: i64, side: Side) -> Order {
    Order::new(id, dec(price, 0), dec(quantity, 0), side, OrderType::Limit)
}

fn market(id: u64, quantity: i64, side: Side) -> Order {
    Order::new(id, dec(0, 0), dec(quantity, 0), side, OrderType::Market)
}

#[test]
fn new_order_is_pending_with_all_remaining() {
    let order = limit(7, 100, 10, Side::Bid);
    assert_eq!(order.id, 7);
    assert_eq!(order.remaining_quantity, order.quantity);
    assert_eq!(order.status, OrderStatus::Pending);
    assert_eq!(order.derived_status(), OrderStatus::Pending);
    assert!(order.is_restable());
}

#[test]
fn with_timestamp_keeps_the_timestamp() {
    let at = Timestamp { seconds: 12, nanos: 34 };
    let order =
        Order::with_timestamp(1, dec(5, 0), dec(6, 0), Side::Ask, OrderType::Market, at);
    assert_eq!(order.timestamp, at);
    assert_eq!(order.side, Side::Ask);
    assert_eq!(order.order_type, OrderType::Market);
    assert!(!order.is_restable());
}

#[test]
fn derived_status_follows_remaining() {
    let mut order = limit(1, 100, 10, Side::Bid);
    order.remaining_quantity = dec(4, 0);
    assert_eq!(order.derived_status(), OrderStatus::PartiallyFilled);
    order.remaining_quantity = dec(0, 0);
    assert_eq!(order.derived_status(), OrderStatus::Filled);
    order.remaining_quantity = dec(10, 0);
    assert_eq!(order.derived_status(), OrderStatus::Pending);
}

#[test]
fn order_priority_compares_price_then_time() {
    let early = Timestamp { seconds: 1, nanos: 0 };
    let late = Timestamp { seconds: 1, nanos: 5 };
    let bid_high = Order::with_timestamp(1, dec(101, 0), dec(1, 0), Side::Bid, OrderType::Limit, late);
    let bid_low = Order::with_timestamp(2, dec(100, 0), dec(1, 0), Side::Bid, OrderType::Limit, early);
    assert_eq!(bid_high.cmp(&bid_low), Ordering::Less);
    assert_eq!(bid_low.cmp(&bid_high), Ordering::Greater);
    let ask_high = Order::with_timestamp(3, dec(101, 0), dec(1, 0), Side::Ask, OrderType::Limit, early);
    let ask_low = Order::with_timestamp(4, dec(100, 0), dec(1, 0), Side::Ask, OrderType::Limit, late);
    assert_eq!(ask_low.cmp(&ask_high), Ordering::Less);
    assert_eq!(ask_high.cmp(&ask_low), Ordering::Greater);
    let first = Order::with_timestamp(5, dec(100, 0), dec(1, 0), Side::Bid, OrderType::Limit, early);
    let second = Order::with_timestamp(6, dec(1000, 1), dec(1, 0), Side::Bid, OrderType::Limit, late);
    assert_eq!(first.cmp(&second), Ordering::Less);
    assert_eq!(second.cmp(&first), Ordering::Greater);
    assert_eq!(first.cmp(&first), Ordering::Equal);
    assert_eq!(first.partial_cmp(&second), Some(Ordering::Less));
    assert!(first < second);
}

#[test]
fn timestamps_compare_by_seconds_then_nanos() {
    let a = Timestamp { seconds: 1, nanos: 999 };
    let b = Timestamp { seconds: 2, nanos: 0 };
    let c = Timestamp { seconds: 2, nanos: 1 };
    assert!(a.is_before(&b));
    assert!(b.is_before(&c));
    assert!(!c.is_before(&b));
    assert!(!b.is_before(&b));
    assert_eq!(a.compare(&b), Ordering::Less);
    assert_eq!(c.compare(&b), Ordering::Greater);
    assert_eq!(b.compare(&b), Ordering::Equal);
}

#[test]
fn clock_reading_is_a_plausible_instant() {
    let first = Timestamp::now();
    let second = Timestamp::now();
    assert!(first.nanos < 2_000_000_000);
    assert!(second.nanos < 2_000_000_000);
    assert!(first.seconds > 1_600_000_000);
    assert!(!second.is_before(&first));
}

#[test]
fn sides_are_opposite() {
    assert_eq!(Side::Bid.other(), Side::Ask);
    assert_eq!(Side::Ask.other(), Side::Bid);
}

#[test]
fn empty_book_has_no_best_prices() {
    let book = OrderBook::new();
    assert_eq!(book.best_bid(), None);
    assert_eq!(book.best_ask(), None);
    assert_eq!(book.get_best_opposite_price(Side::Bid), None);
    assert_eq!(book.get_best_opposite_price(Side::Ask), None);
    assert_eq!(book.get_order_status(1), None);
    assert!(book.orders_at_price(dec(100, 0), Side::Bid).is_empty());
    let (bids, asks) = book.get_order_book(10).unwrap();
    assert!(bids.is_empty());
    assert!(asks.is_empty());
}

#[test]
fn default_book_is_empty() {
    let book = OrderBook::default();
    assert_eq!(book.best_bid(), None);
    assert_eq!(book.best_ask(), None);
    assert_eq!(book.get_order_status(1), None);
}

#[test]
fn best_opposite_price_looks_across_the_book() {
    let mut book = OrderBook::new();
    book.place_order(limit(1, 98, 10, Side::Bid));
    book.place_order(limit(2, 99, 10, Side::Bid));
    book.place_order(limit(3, 101, 10, Side::Ask));
    book.place_order(limit(4, 102, 10, Side::Ask));
    assert_eq!(book.get_best_opposite_price(Side::Bid), Some(dec(101, 0)));
    assert_eq!(book.get_best_opposite_price(Side::Ask), Some(dec(99, 0)));
}

#[test]
fn book_place_does_not_match() {
    let mut book = OrderBook::new();
    book.place_order(limit(1, 100, 10, Side::Bid));
    let ask = book.place_order(limit(2, 90, 10, Side::Ask));
    assert_eq!(ask.status, OrderStatus::Pending);
    assert_eq!(book.best_bid(), Some(dec(100, 0)));
    assert_eq!(book.best_ask(), Some(dec(90, 0)));
}

#[test]
fn book_rejects_a_known_id_and_keeps_the_first_order() {
    let mut book = OrderBook::new();
    let first = book.place_order(limit(1, 100, 10, Side::Bid));
    let second = book.place_order(limit(1, 101, 20, Side::Ask));
    assert_eq!(second, first);
    assert_eq!(book.best_ask(), None);
    assert_eq!(book.best_bid(), Some(dec(100, 0)));
    assert_eq!(book.orders_at_price(dec(100, 0), Side::Bid).len(), 1);
}

#[test]
fn book_records_but_does_not_rest_an_order_that_may_not_rest() {
    let mut book = OrderBook::new();
    let placed = book.place_order(market(1, 10, Side::Bid));
    assert_eq!(placed.order_type, OrderType::Market);
    assert_eq!(book.best_bid(), None);
    assert_eq!(book.get_order_status(1), Some(&placed));
    let mut filled = limit(2, 100, 10, Side::Ask);
    filled.remaining_quantity = dec(0, 0);
    filled.status = OrderStatus::Filled;
    book.place_order(filled);
    assert_eq!(book.best_ask(), None);
    assert_eq!(book.get_order_status(2), Some(&filled));
}

#[test]
fn orders_at_price_are_in_arrival_order() {
    let mut book = OrderBook::new();
    book.place_order(limit(1, 100, 10, Side::Bid));
    book.place_order(limit(2, 101, 10, Side::Bid));
    book.place_order(limit(3, 100, 20, Side::Bid));
    book.place_order(limit(4, 100, 30, Side::Bid));
    let queue = book.orders_at_price(dec(1000, 1), Side::Bid);
    assert_eq!(queue.len(), 3);
    assert_eq!(queue[0].id, 1);
    assert_eq!(queue[1].id, 3);
    assert_eq!(queue[2].id, 4);
    assert!(book.orders_at_price(dec(100, 0), Side::Ask).is_empty());
    assert!(book.orders_at_price(dec(99, 0), Side::Bid).is_empty());
}

#[test]
fn remove_order_takes_the_order_out_and_prunes_the_level() {
    let mut book = OrderBook::new();
    let a = book.place_order(limit(1, 100, 10, Side::Bid));
    book.place_order(limit(2, 100, 10, Side::Bid));
    book.place_order(limit(3, 99, 10, Side::Bid));
    assert_eq!(book.remove_order(1), Some(a));
    assert_eq!(book.get_order_status(1), None);
    assert_eq!(book.orders_at_price(dec(100, 0), Side::Bid).len(), 1);
    assert!(book.remove_order(2).is_some());
    assert_eq!(book.best_bid(), Some(dec(99, 0)));
    assert!(book.remove_order(3).is_some());
    assert_eq!(book.best_bid(), None);
    assert_eq!(book.remove_order(3), None);
    assert_eq!(book.remove_order(42), None);
}

#[test]
fn snapshot_sums_each_level_best_first() {
    let mut book = OrderBook::new();
    book.place_order(limit(1, 100, 10, Side::Bid));
    book.place_order(limit(2, 100, 5, Side::Bid));
    book.place_order(limit(3, 99, 7, Side::Bid));
    book.place_order(limit(4, 101, 1, Side::Ask));
    book.place_order(limit(5, 103, 2, Side::Ask));
    book.place_order(limit(6, 102, 3, Side::Ask));
    let (bids, asks) = book.get_order_book(10).unwrap();
    assert_eq!(bids, vec![(dec(100, 0), dec(15, 0)), (dec(99, 0), dec(7, 0))]);
    assert_eq!(
        asks,
        vec![(dec(101, 0), dec(1, 0)), (dec(102, 0), dec(3, 0)), (dec(103, 0), dec(2, 0))]
    );
    let (bids, asks) = book.get_order_book(1).unwrap();
    assert_eq!(bids, vec![(dec(100, 0), dec(15, 0))]);
    assert_eq!(asks, vec![(dec(101, 0), dec(1, 0))]);
    let (bids, asks) = book.get_order_book(0).unwrap();
    assert!(bids.is_empty());
    assert!(asks.is_empty());
}

#[test]
fn snapshot_reports_the_whole_total_of_a_large_level() {
    let mut book = OrderBook::new();
    let half = dec(90_000_000_000, 0);
    book.place_order(Order::new(1, dec(100, 0), half, Side::Bid, OrderType::Limit));
    book.place_order(Order::new(2, dec(100, 0), half, Side::Bid, OrderType::Limit));
    let (bids, _) = book.get_order_book(1).unwrap();
    assert_eq!(bids, vec![(dec(100, 0), dec(180_000_000_000, 0))]);
}

#[test]
fn snapshot_fails_where_a_total_cannot_be_held() {
    let mut book = OrderBook::new();
    let large = dec(100_000_000_000, 0);
    book.place_order(Order::new(1, dec(100, 0), large, Side::Bid, OrderType::Limit));
    book.place_order(Order::new(2, dec(100, 0), large, Side::Bid, OrderType::Limit));
    book.place_order(Order::new(3, dec(99, 0), large, Side::Bid, OrderType::Limit));
    book.place_order(Order::new(4, dec(101, 0), large, Side::Ask, OrderType::Limit));
    assert_eq!(book.get_order_book(1), Err(BookError::TotalTooLarge));
    assert_eq!(book.get_order_book(5), Err(BookError::TotalTooLarge));
    assert!(book.get_order_book(0).is_ok());
    book.remove_order(2);
    let (bids, asks) = book.get_order_book(5).unwrap();
    assert_eq!(bids, vec![(dec(100, 0), large), (dec(99, 0), large)]);
    assert_eq!(asks, vec![(dec(101, 0), large)]);
}

#[test]
fn snapshot_looks_no_deeper_than_asked() {
    let mut book = OrderBook::new();
    let large = dec(100_000_000_000, 0);
    book.place_order(Order::new(1, dec(100, 0), large, Side::Bid, OrderType::Limit));
    book.place_order(Order::new(2, dec(99, 0), large, Side::Bid, OrderType::Limit));
    book.place_order(Order::new(3, dec(99, 0), large, Side::Bid, OrderType::Limit));
    let (bids, _) = book.get_order_book(1).unwrap();
    assert_eq!(bids, vec![(dec(100, 0), large)]);
    assert_eq!(book.get_order_book(2), Err(BookError::TotalTooLarge));
    let mut engine = MatchingEngine::new();
    engine.place_order(Order::new(1, dec(100, 0), large, Side::Ask, OrderType::Limit));
    engine.place_order(Order::new(2, dec(100, 0), large, Side::Ask, OrderType::Limit));
    assert_eq!(engine.get_order_book(3), Err(BookError::TotalTooLarge));
}

#[test]
fn fill_front_trades_with_the_oldest_order_at_the_best_price() {
    let mut book = OrderBook::new();
    book.place_order(limit(1, 100, 10, Side::Ask));
    book.place_order(limit(2, 99, 4, Side::Ask));
    book.place_order(limit(3, 99, 6, Side::Ask));
    let mut taker = limit(9, 100, 5, Side::Bid);
    let trade = book.fill_front(&mut taker);
    assert_eq!(trade.maker_order_id, 2);
    assert_eq!(trade.taker_order_id, 9);
    assert_eq!(trade.price, dec(99, 0));
    assert_eq!(trade.quantity, dec(4, 0));
    assert_eq!(trade.side, Side::Bid);
    assert_eq!(taker.remaining_quantity, dec(1, 0));
    assert_eq!(book.get_order_status(2).unwrap().status, OrderStatus::Filled);
    let trade = book.fill_front(&mut taker);
    assert_eq!(trade.maker_order_id, 3);
    assert_eq!(trade.quantity, dec(1, 0));
    assert_eq!(taker.remaining_quantity, dec(0, 0));
    let maker = book.get_order_status(3).unwrap();
    assert_eq!(maker.status, OrderStatus::PartiallyFilled);
    assert_eq!(maker.remaining_quantity, dec(5, 0));
    assert_eq!(book.orders_at_price(dec(99, 0), Side::Ask).len(), 1);
}

#[test]
fn record_order_files_without_resting() {
    let mut book = OrderBook::new();
    let mut done = limit(1, 100, 10, Side::Bid);
    done.status = OrderStatus::Cancelled;
    book.record_order(done);
    assert_eq!(book.get_order_status(1), Some(&done));
    assert_eq!(book.best_bid(), None);
}

#[test]
fn engine_starts_empty() {
    let engine = MatchingEngine::new();
    assert_eq!(engine.best_bid(), None);
    assert_eq!(engine.best_ask(), None);
    assert!(engine.get_trade_history(None).is_empty());
    assert!(engine.get_trade_history(Some(5)).is_empty());
    assert_eq!(engine.get_order_status(1), None);
}

#[test]
fn should_match_follows_the_limit() {
    let ask = limit(1, 100, 10, Side::Ask);
    assert!(MatchingEngine::should_match(&ask, dec(100, 0)));
    assert!(MatchingEngine::should_match(&ask, dec(101, 0)));
    assert!(!MatchingEngine::should_match(&ask, dec(99, 0)));
    let bid = limit(2, 100, 10, Side::Bid);
    assert!(MatchingEngine::should_match(&bid, dec(100, 0)));
    assert!(MatchingEngine::should_match(&bid, dec(99, 0)));
    assert!(!MatchingEngine::should_match(&bid, dec(101, 0)));
    let any = market(3, 10, Side::Bid);
    assert!(MatchingEngine::should_match(&any, dec(1_000_000, 0)));
}

#[test]
fn update_order_status_follows_remaining() {
    let mut order = limit(1, 100, 10, Side::Bid);
    assert_eq!(MatchingEngine::update_order_status(&order), OrderStatus::Pending);
    order.remaining_quantity = dec(3, 0);
    assert_eq!(MatchingEngine::update_order_status(&order), OrderStatus::PartiallyFilled);
    order.remaining_quantity = dec(0, 0);
    assert_eq!(MatchingEngine::update_order_status(&order), OrderStatus::Filled);
}

#[test]
fn match_at_price_level_stops_at_the_level() {
    let mut book = OrderBook::new();
    book.place_order(limit(1, 100, 4, Side::Ask));
    book.place_order(limit(2, 100, 4, Side::Ask));
    book.place_order(limit(3, 101, 4, Side::Ask));
    let mut taker = limit(9, 105, 20, Side::Bid);
    let trades = MatchingEngine::match_at_price_level(&mut book, &mut taker, dec(100, 0));
    assert_eq!(trades.len(), 2);
    assert_eq!(trades[0].maker_order_id, 1);
    assert_eq!(trades[1].maker_order_id, 2);
    assert_eq!(taker.remaining_quantity, dec(12, 0));
    assert_eq!(book.best_ask(), Some(dec(101, 0)));
}

#[test]
fn match_at_price_level_with_nothing_left_makes_no_trade() {
    let mut book = OrderBook::new();
    book.place_order(limit(1, 100, 4, Side::Ask));
    book.place_order(limit(2, 100, 4, Side::Ask));
    let mut taker = limit(9, 105, 0, Side::Bid);
    let trades = MatchingEngine::match_at_price_level(&mut book, &mut taker, dec(100, 0));
    assert!(trades.is_empty());
    assert_eq!(taker.remaining_quantity, dec(0, 0));
    let queue = book.orders_at_price(dec(100, 0), Side::Ask);
    assert_eq!(queue.len(), 2);
    assert_eq!(queue[0].remaining_quantity, dec(4, 0));
    assert_eq!(book.get_order_status(1).unwrap().status, OrderStatus::Pending);
}

#[test]
fn match_at_price_level_ends_with_the_order_filled_or_the_level_gone() {
    let mut book = OrderBook::new();
    book.place_order(limit(1, 100, 4, Side::Ask));
    book.place_order(limit(2, 100, 4, Side::Ask));
    let mut small = limit(8, 100, 5, Side::Bid);
    let trades = MatchingEngine::match_at_price_level(&mut book, &mut small, dec(100, 0));
    assert_eq!(trades.len(), 2);
    assert_eq!(trades[0].quantity, dec(4, 0));
    assert_eq!(trades[1].quantity, dec(1, 0));
    assert_eq!(small.remaining_quantity, dec(0, 0));
    assert_eq!(book.best_ask(), Some(dec(100, 0)));
    let mut large = limit(9, 100, 5, Side::Bid);
    let trades = MatchingEngine::match_at_price_level(&mut book, &mut large, dec(100, 0));
    assert_eq!(trades.len(), 1);
    assert_eq!(trades[0].price, dec(100, 0));
    assert_eq!(trades[0].taker_order_id, 9);
    assert_eq!(trades[0].side, Side::Bid);
    assert_eq!(large.remaining_quantity, dec(2, 0));
    assert_eq!(book.best_ask(), None);
}

#[test]
fn limit_order_that_does_not_cross_rests() {
    let mut engine = MatchingEngine::new();
    engine.place_order(limit(1, 101, 10, Side::Ask));
    let bid = engine.place_order(limit(2, 100, 10, Side::Bid));
    assert_eq!(bid.status, OrderStatus::Pending);
    assert_eq!(bid.remaining_quantity, dec(10, 0));
    assert!(engine.get_trade_history(None).is_empty());
    assert_eq!(engine.best_bid(), Some(dec(100, 0)));
    assert_eq!(engine.best_ask(), Some(dec(101, 0)));
}

#[test]
fn trade_is_at_the_makers_price() {
    let mut engine = MatchingEngine::new();
    engine.place_order(limit(1, 100, 10, Side::Ask));
    let bid = engine.place_order(limit(2, 105, 10, Side::Bid));
    assert_eq!(bid.status, OrderStatus::Filled);
    let trades = engine.get_trade_history(None);
    assert_eq!(trades.len(), 1);
    assert_eq!(trades[0].price, dec(100, 0));
    assert_eq!(trades[0].side, Side::Bid);
    assert_eq!(engine.best_ask(), None);
    assert_eq!(engine.best_bid(), None);
}

#[test]
fn remainder_of_a_limit_order_rests_with_its_timestamp() {
    let mut engine = MatchingEngine::new();
    engine.place_order(limit(1, 100, 4, Side::Ask));
    let at = Timestamp { seconds: 77, nanos: 5 };
    let bid = Order::with_timestamp(2, dec(100, 0), dec(10, 0), Side::Bid, OrderType::Limit, at);
    let placed = engine.place_order(bid);
    assert_eq!(placed.status, OrderStatus::PartiallyFilled);
    assert_eq!(placed.remaining_quantity, dec(6, 0));
    assert_eq!(placed.quantity, dec(10, 0));
    assert_eq!(placed.timestamp, at);
    let resting = engine.orders_at_price(dec(100, 0), Side::Bid);
    assert_eq!(resting.len(), 1);
    assert_eq!(resting[0], placed);
    assert_eq!(engine.get_order_status(2), Some(&placed));
}

#[test]
fn makers_are_recorded_as_the_match_left_them() {
    let mut engine = MatchingEngine::new();
    engine.place_order(limit(1, 100, 10, Side::Bid));
    engine.place_order(limit(2, 100, 10, Side::Bid));
    engine.place_order(limit(3, 100, 15, Side::Ask));
    let first = engine.get_order_status(1).unwrap();
    assert_eq!(first.status, OrderStatus::Filled);
    assert_eq!(first.remaining_quantity, dec(0, 0));
    let second = engine.get_order_status(2).unwrap();
    assert_eq!(second.status, OrderStatus::PartiallyFilled);
    assert_eq!(second.remaining_quantity, dec(5, 0));
    let taker = engine.get_order_status(3).unwrap();
    assert_eq!(taker.status, OrderStatus::Filled);
    let queue = engine.orders_at_price(dec(100, 0), Side::Bid);
    assert_eq!(queue.len(), 1);
    assert_eq!(queue[0].id, 2);
    assert_eq!(queue[0].remaining_quantity, dec(5, 0));
}

#[test]
fn fills_never_exceed_the_incoming_quantity() {
    let mut engine = MatchingEngine::new();
    engine.place_order(limit(1, 100, 7, Side::Ask));
    engine.place_order(limit(2, 101, 7, Side::Ask));
    engine.place_order(limit(3, 102, 7, Side::Ask));
    let placed = engine.place_order(limit(4, 101, 12, Side::Bid));
    let trades = engine.get_trade_history(None);
    assert_eq!(trades.len(), 2);
    assert_eq!(trades[0].quantity, dec(7, 0));
    assert_eq!(trades[1].quantity, dec(5, 0));
    assert_eq!(placed.remaining_quantity, dec(0, 0));
    assert_eq!(engine.get_order_status(2).unwrap().remaining_quantity, dec(2, 0));
    assert_eq!(engine.get_order_status(3).unwrap().remaining_quantity, dec(7, 0));
}

#[test]
fn limit_order_stops_at_its_limit() {
    let mut engine = MatchingEngine::new();
    engine.place_order(limit(1, 100, 5, Side::Ask));
    engine.place_order(limit(2, 102, 5, Side::Ask));
    let placed = engine.place_order(limit(3, 101, 10, Side::Bid));
    assert_eq!(placed.status, OrderStatus::PartiallyFilled);
    assert_eq!(placed.remaining_quantity, dec(5, 0));
    assert_eq!(engine.best_bid(), Some(dec(101, 0)));
    assert_eq!(engine.best_ask(), Some(dec(102, 0)));
    assert_eq!(engine.get_trade_history(None).len(), 1);
}

#[test]
fn market_order_without_liquidity_stays_pending_and_does_not_rest() {
    let mut engine = MatchingEngine::new();
    let placed = engine.place_order(market(1, 5, Side::Bid));
    assert_eq!(placed.status, OrderStatus::Pending);
    assert_eq!(placed.remaining_quantity, dec(5, 0));
    assert_eq!(engine.best_bid(), None);
    assert_eq!(engine.best_ask(), None);
    assert_eq!(engine.get_order_status(1), Some(&placed));
    assert!(engine.get_trade_history(None).is_empty());
    let (bids, asks) = engine.get_order_book(10).unwrap();
    assert!(bids.is_empty());
    assert!(asks.is_empty());
}

#[test]
fn market_order_with_too_little_liquidity_is_partially_filled_and_does_not_rest() {
    let mut engine = MatchingEngine::new();
    engine.place_order(limit(1, 100, 10, Side::Ask));
    engine.place_order(limit(2, 250, 2, Side::Ask));
    let placed = engine.place_order(market(3, 15, Side::Bid));
    assert_eq!(placed.status, OrderStatus::PartiallyFilled);
    assert_eq!(placed.remaining_quantity, dec(3, 0));
    assert_eq!(engine.best_ask(), None);
    assert_eq!(engine.best_bid(), None);
    assert_eq!(engine.get_order_status(3), Some(&placed));
    let trades = engine.get_trade_history(None);
    assert_eq!(trades.len(), 2);
    assert_eq!(trades[0].price, dec(100, 0));
    assert_eq!(trades[1].price, dec(250, 0));
    assert_eq!(engine.cancel_order(3), None);
}

#[test]
fn order_for_nothing_is_filled_at_once() {
    let mut engine = MatchingEngine::new();
    engine.place_order(limit(1, 100, 10, Side::Ask));
    let placed = engine.place_order(limit(2, 100, 0, Side::Bid));
    assert_eq!(placed.status, OrderStatus::Filled);
    assert_eq!(engine.best_bid(), None);
    assert!(engine.get_trade_history(None).is_empty());
}

#[test]
fn engine_turns_a_known_id_away() {
    let mut engine = MatchingEngine::new();
    let first = engine.place_order(limit(1, 100, 10, Side::Bid));
    let again = engine.place_order(limit(1, 90, 10, Side::Ask));
    assert_eq!(again, first);
    assert!(engine.get_trade_history(None).is_empty());
    assert_eq!(engine.best_ask(), None);
    assert_eq!(engine.best_bid(), Some(dec(100, 0)));
}

#[test]
fn cancel_takes_a_resting_order_out() {
    let mut engine = MatchingEngine::new();
    engine.place_order(limit(1, 100, 10, Side::Bid));
    engine.place_order(limit(2, 100, 4, Side::Ask));
    let cancelled = engine.cancel_order(1).unwrap();
    assert_eq!(cancelled.status, OrderStatus::Cancelled);
    assert_eq!(cancelled.remaining_quantity, dec(6, 0));
    assert_eq!(engine.best_bid(), None);
    assert_eq!(engine.get_order_status(1), Some(&cancelled));
    assert_eq!(engine.cancel_order(1), None);
}

#[test]
fn cancel_fails_for_filled_and_unknown_orders() {
    let mut engine = MatchingEngine::new();
    engine.place_order(limit(1, 100, 10, Side::Bid));
    engine.place_order(limit(2, 100, 10, Side::Ask));
    assert_eq!(engine.cancel_order(1), None);
    assert_eq!(engine.cancel_order(2), None);
    assert_eq!(engine.cancel_order(99), None);
    assert_eq!(engine.get_order_status(1).unwrap().status, OrderStatus::Filled);
}

#[test]
fn cancelled_order_no_longer_trades() {
    let mut engine = MatchingEngine::new();
    engine.place_order(limit(1, 100, 10, Side::Bid));
    engine.place_order(limit(2, 100, 10, Side::Bid));
    engine.cancel_order(1);
    engine.place_order(limit(3, 100, 10, Side::Ask));
    let trades = engine.get_trade_history(None);
    assert_eq!(trades.len(), 1);
    assert_eq!(trades[0].maker_order_id, 2);
}

#[test]
fn asks_fill_lowest_price_first() {
    let mut engine = MatchingEngine::new();
    engine.place_order(limit(1, 103, 1, Side::Ask));
    engine.place_order(limit(2, 101, 1, Side::Ask));
    engine.place_order(limit(3, 102, 1, Side::Ask));
    engine.place_order(market(4, 3, Side::Bid));
    let trades = engine.get_trade_history(None);
    assert_eq!(trades.len(), 3);
    assert_eq!(trades[0].maker_order_id, 2);
    assert_eq!(trades[1].maker_order_id, 3);
    assert_eq!(trades[2].maker_order_id, 1);
}

#[test]
fn equal_prices_at_different_scales_share_a_level() {
    let mut engine = MatchingEngine::new();
    engine.place_order(Order::new(1, dec(1000, 1), dec(1, 0), Side::Bid, OrderType::Limit));
    engine.place_order(Order::new(2, dec(100, 0), dec(1, 0), Side::Bid, OrderType::Limit));
    let (bids, _) = engine.get_order_book(10).unwrap();
    assert_eq!(bids.len(), 1);
    assert_eq!(bids[0].1, dec(2, 0));
    engine.place_order(market(3, 2, Side::Ask));
    let trades = engine.get_trade_history(None);
    assert_eq!(trades[0].maker_order_id, 1);
    assert_eq!(trades[1].maker_order_id, 2);
}

#[test]
fn trades_of_one_placement_are_recorded_together() {
    let mut engine = MatchingEngine::new();
    engine.place_order(limit(1, 100, 1, Side::Bid));
    engine.place_order(limit(2, 100, 1, Side::Bid));
    engine.place_order(limit(3, 100, 1, Side::Bid));
    assert_eq!(engine.get_trade_history(None).len(), 0);
    engine.place_order(limit(4, 100, 3, Side::Ask));
    assert_eq!(engine.get_trade_history(None).len(), 3);
    let newest = engine.get_trade_history(Some(1));
    assert_eq!(newest.len(), 1);
    assert_eq!(newest[0].maker_order_id, 3);
}

#[test]
fn trade_new_keeps_its_fields() {
    let trade = Trade::new(1, 2, dec(100, 0), dec(5, 0), Side::Ask);
    assert_eq!(trade.maker_order_id, 1);
    assert_eq!(trade.taker_order_id, 2);
    assert_eq!(trade.price, dec(100, 0));
    assert_eq!(trade.quantity, dec(5, 0));
    assert_eq!(trade.side, Side::Ask);
}

#[test]
fn history_reads_both_ways() {
    let mut history = TxnHistory::new();
    assert_eq!(history.len(), 0);
    for i in 1..=4 {
        history.add_trade(Trade::new(i, 100 + i, dec(100, 0), dec(1, 0), Side::Bid));
    }
    history.add_trades(&vec![
        Trade::new(5, 105, dec(100, 0), dec(1, 0), Side::Bid),
        Trade::new(6, 106, dec(100, 0), dec(1, 0), Side::Bid),
    ]);
    assert_eq!(history.len(), 6);
    let all = history.get_trades();
    let ids: Vec<u64> = all.iter().map(|t| t.maker_order_id).collect();
    assert_eq!(ids, vec![1, 2, 3, 4, 5, 6]);
    let recent = history.get_recent_trades(2);
    let ids: Vec<u64> = recent.iter().map(|t| t.maker_order_id).collect();
    assert_eq!(ids, vec![6, 5]);
    assert_eq!(history.get_recent_trades(0).len(), 0);
    assert_eq!(history.get_recent_trades(100).len(), 6);
    assert_eq!(history.get_recent_trades(100)[5].maker_order_id, 1);
}

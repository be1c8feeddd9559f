use kobara_ob::nif;
use kobara_ob::service::{
    encode_side, encode_status, encode_type, levels_response, order_response, parse_request,
    trade_response, trades_response,
};
use kobara_ob::{
    Decimal, MatchingEngine, NifError, NifOrder, Order, OrderBookService, OrderRequest,
    OrderStatus, OrderType, ServiceError, Side, Timestamp, Trade,
};

fn request(id: u64, price: &str, quantity: &str, side: i32, order_type: i32) -> OrderRequest {
    OrderRequest {
        id,
        price: price.to_string(),
        quantity: quantity.to_string(),
        side,
        order_type,
    }
}

fn text_order(id: u64, price: &str, quantity: &str, side: &str, order_type: &str) -> NifOrder {
    NifOrder {
        id,
        price: price.to_string(),
        quantity: quantity.to_string(),
        remaining_quantity: quantity.to_string(),
        side: side.to_string(),
        order_type: order_type.to_string(),
        status: "pending".to_string(),
    }
}

#[test]
fn codes_stand_for_the_variants() {
    assert_eq!(encode_side(Side::Bid), 0);
    assert_eq!(encode_side(Side::Ask), 1);
    assert_eq!(encode_type(OrderType::Limit), 0);
    assert_eq!(encode_type(OrderType::Market), 1);
    assert_eq!(encode_status(OrderStatus::Pending), 0);
    assert_eq!(encode_status(OrderStatus::PartiallyFilled), 1);
    assert_eq!(encode_status(OrderStatus::Filled), 2);
    assert_eq!(encode_status(OrderStatus::Cancelled), 3);
}

#[test]
fn parse_request_reads_an_order() {
    let at = Timestamp { seconds: 5, nanos: 6 };
    let order = parse_request(&request(9, "100.50", "2.5", 0, 0), at).unwrap();
    assert_eq!(order.id, 9);
    assert_eq!(order.price, Decimal::try_new(10050, 2).unwrap());
    assert_eq!(order.quantity, Decimal::try_new(25, 1).unwrap());
    assert_eq!(order.remaining_quantity, order.quantity);
    assert_eq!(order.side, Side::Bid);
    assert_eq!(order.order_type, OrderType::Limit);
    assert_eq!(order.status, OrderStatus::Pending);
    assert_eq!(order.timestamp, at);
    let other = parse_request(&request(9, "1", "1", 1, 1), at).unwrap();
    assert_eq!(other.side, Side::Ask);
    assert_eq!(other.order_type, OrderType::Market);
    let odd = parse_request(&request(9, "1", "1", 7, -3), at).unwrap();
    assert_eq!(odd.side, Side::Ask);
    assert_eq!(odd.order_type, OrderType::Market);
}

#[test]
fn parse_request_names_the_bad_field() {
    let at = Timestamp { seconds: 0, nanos: 0 };
    assert_eq!(parse_request(&request(1, "x", "1", 0, 0), at), Err(ServiceError::InvalidPrice));
    assert_eq!(parse_request(&request(1, "1", "y", 0, 0), at), Err(ServiceError::InvalidQuantity));
    assert_eq!(parse_request(&request(1, "x", "y", 0, 0), at), Err(ServiceError::InvalidPrice));
    assert_eq!(
        parse_request(&request(1, "0.123456789", "1", 0, 0), at),
        Err(ServiceError::InvalidPrice)
    );
}

#[test]
fn order_response_writes_the_order_out() {
    let at = Timestamp { seconds: 5, nanos: 6 };
    let mut order = Order::with_timestamp(
        3,
        Decimal::try_new(1000, 1).unwrap(),
        Decimal::try_new(100, 1).unwrap(),
        Side::Ask,
        OrderType::Limit,
        at,
    );
    order.remaining_quantity = Decimal::try_new(40, 1).unwrap();
    order.status = OrderStatus::PartiallyFilled;
    let response = order_response(&order);
    assert_eq!(response.id, 3);
    assert_eq!(response.price, "100.0");
    assert_eq!(response.quantity, "10.0");
    assert_eq!(response.remaining_quantity, "4.0");
    assert_eq!(response.side, 1);
    assert_eq!(response.order_type, 0);
    assert_eq!(response.status, 1);
    assert_eq!(response.timestamp_seconds, 5);
    assert_eq!(response.timestamp_nanos, 6);
}

#[test]
fn trade_response_writes_the_trade_out() {
    let trade = Trade {
        maker_order_id: 1,
        taker_order_id: 2,
        price: Decimal::try_new(995, 1).unwrap(),
        quantity: Decimal::try_new(3, 0).unwrap(),
        side: Side::Bid,
        timestamp: Timestamp { seconds: 8, nanos: 9 },
    };
    let response = trade_response(&trade);
    assert_eq!(response.maker_order_id, 1);
    assert_eq!(response.taker_order_id, 2);
    assert_eq!(response.price, "99.5");
    assert_eq!(response.quantity, "3");
    assert_eq!(response.side, 0);
    assert_eq!(response.timestamp_seconds, 8);
    assert_eq!(response.timestamp_nanos, 9);
    let list = trades_response(&vec![trade, trade]);
    assert_eq!(list.trades.len(), 2);
    assert_eq!(list.trades[1], response);
}

#[test]
fn levels_response_writes_rows_out() {
    let rows = vec![
        (Decimal::try_new(1000, 1).unwrap(), Decimal::try_new(15, 0).unwrap()),
        (Decimal::try_new(99, 0).unwrap(), Decimal::try_new(75, 1).unwrap()),
    ];
    let levels = levels_response(&rows);
    assert_eq!(levels.len(), 2);
    assert_eq!(levels[0].price, "100.0");
    assert_eq!(levels[0].quantity, "15");
    assert_eq!(levels[1].price, "99");
    assert_eq!(levels[1].quantity, "7.5");
}

#[test]
fn service_places_and_reports() {
    let mut service = OrderBookService::new(MatchingEngine::new());
    let resting = service.place_order(&request(1, "100.0", "10.0", 0, 0)).unwrap();
    assert_eq!(resting.status, 0);
    assert_eq!(resting.remaining_quantity, "10.0");
    let taker = service.place_order(&request(2, "100.0", "4.0", 1, 0)).unwrap();
    assert_eq!(taker.status, 2);
    assert_eq!(taker.remaining_quantity, "0.0");
    let status = service.get_order_status(1).unwrap();
    assert_eq!(status.status, 1);
    assert_eq!(status.remaining_quantity, "6.0");
    assert_eq!(status.price, "100.0");
    let book = service.get_order_book(5).unwrap();
    assert_eq!(book.bids.len(), 1);
    assert_eq!(book.bids[0].price, "100.0");
    assert_eq!(book.bids[0].quantity, "6.0");
    assert!(book.asks.is_empty());
    let history = service.get_trade_history(10);
    assert_eq!(history.trades.len(), 1);
    assert_eq!(history.trades[0].maker_order_id, 1);
    assert_eq!(history.trades[0].taker_order_id, 2);
    assert_eq!(history.trades[0].price, "100.0");
    assert_eq!(history.trades[0].quantity, "4.0");
    assert_eq!(history.trades[0].side, 1);
    assert!(service.get_trade_history(0).trades.is_empty());
}

#[test]
fn service_turns_bad_requests_down() {
    let mut service = OrderBookService::new(MatchingEngine::new());
    assert_eq!(
        service.place_order(&request(1, "abc", "1", 0, 0)),
        Err(ServiceError::InvalidPrice)
    );
    assert_eq!(
        service.place_order(&request(1, "1", "", 0, 0)),
        Err(ServiceError::InvalidQuantity)
    );
    assert_eq!(service.get_order_status(1), Err(ServiceError::NotFound));
    assert!(service.get_order_book(5).unwrap().bids.is_empty());
}

#[test]
fn service_reports_a_total_that_cannot_be_held() {
    let mut service = OrderBookService::new(MatchingEngine::new());
    service.place_order(&request(1, "100", "100000000000", 0, 0)).unwrap();
    let book = service.get_order_book(5).unwrap();
    assert_eq!(book.bids[0].quantity, "100000000000");
    service.place_order(&request(2, "100", "100000000000", 0, 0)).unwrap();
    assert_eq!(service.get_order_book(5), Err(ServiceError::TotalTooLarge));
    assert!(service.get_order_book(0).is_ok());
    let mut book = MatchingEngine::new();
    nif::place_order(&mut book, &text_order(1, "100", "100000000000", "ask", "limit")).unwrap();
    nif::place_order(&mut book, &text_order(2, "100", "100000000000", "ask", "limit")).unwrap();
    assert_eq!(nif::get_order_book(&book, 1), Err(NifError::TotalTooLarge));
}

#[test]
fn service_cancels() {
    let mut service = OrderBookService::new(MatchingEngine::new());
    service.place_order(&request(1, "100", "10", 0, 0)).unwrap();
    let cancelled = service.cancel_order(1).unwrap();
    assert_eq!(cancelled.status, 3);
    assert_eq!(cancelled.remaining_quantity, "10");
    assert_eq!(service.cancel_order(1), Err(ServiceError::NotFound));
    assert_eq!(service.cancel_order(2), Err(ServiceError::NotFound));
    assert_eq!(service.get_order_status(1).unwrap().status, 3);
    assert!(service.get_order_book(5).unwrap().bids.is_empty());
}

#[test]
fn text_order_is_written_from_an_order() {
    let mut order = Order::new(
        4,
        Decimal::try_new(1000, 1).unwrap(),
        Decimal::try_new(100, 1).unwrap(),
        Side::Bid,
        OrderType::Market,
    );
    order.remaining_quantity = Decimal::try_new(25, 1).unwrap();
    order.status = OrderStatus::PartiallyFilled;
    let text = NifOrder::from_order(order);
    assert_eq!(text.id, 4);
    assert_eq!(text.price, "100.0");
    assert_eq!(text.quantity, "10.0");
    assert_eq!(text.remaining_quantity, "2.5");
    assert_eq!(text.side, "bid");
    assert_eq!(text.order_type, "market");
    assert_eq!(text.status, "partially_filled");
    let via_from: NifOrder = order.into();
    assert_eq!(via_from, text);
    order.side = Side::Ask;
    order.order_type = OrderType::Limit;
    order.status = OrderStatus::Filled;
    let other = NifOrder::from_order(order);
    assert_eq!(other.side, "ask");
    assert_eq!(other.order_type, "limit");
    assert_eq!(other.status, "filled");
    order.status = OrderStatus::Pending;
    assert_eq!(NifOrder::from_order(order).status, "pending");
    order.status = OrderStatus::Cancelled;
    assert_eq!(NifOrder::from_order(order).status, "cancelled");
}

#[test]
fn text_order_is_read_into_an_order() {
    let at = Timestamp { seconds: 1, nanos: 2 };
    let order = text_order(5, "99.5", "3", "ask", "market").to_order(at).unwrap();
    assert_eq!(order.id, 5);
    assert_eq!(order.price, Decimal::try_new(995, 1).unwrap());
    assert_eq!(order.quantity, Decimal::try_new(3, 0).unwrap());
    assert_eq!(order.remaining_quantity, order.quantity);
    assert_eq!(order.side, Side::Ask);
    assert_eq!(order.order_type, OrderType::Market);
    assert_eq!(order.status, OrderStatus::Pending);
    assert_eq!(order.timestamp, at);
    let bid = text_order(5, "99.5", "3", "bid", "limit").to_order(at).unwrap();
    assert_eq!(bid.side, Side::Bid);
    assert_eq!(bid.order_type, OrderType::Limit);
}

#[test]
fn text_order_with_a_bad_field_is_turned_down() {
    let at = Timestamp { seconds: 1, nanos: 2 };
    assert_eq!(text_order(1, "x", "3", "ask", "limit").to_order(at), Err(NifError::BadArg));
    assert_eq!(text_order(1, "1", "x", "ask", "limit").to_order(at), Err(NifError::BadArg));
    assert_eq!(text_order(1, "1", "3", "buy", "limit").to_order(at), Err(NifError::BadArg));
    assert_eq!(text_order(1, "1", "3", "ask", "stop").to_order(at), Err(NifError::BadArg));
    assert_eq!(text_order(1, "1", "3", "Bid", "limit").to_order(at), Err(NifError::BadArg));
}

#[test]
fn text_form_operations_go_through_the_engine() {
    let mut book = MatchingEngine::new();
    let resting = nif::place_order(&mut book, &text_order(1, "100.0", "10.0", "bid", "limit")).unwrap();
    assert_eq!(resting.status, "pending");
    let taker = nif::place_order(&mut book, &text_order(2, "100.0", "4.0", "ask", "limit")).unwrap();
    assert_eq!(taker.status, "filled");
    assert_eq!(taker.remaining_quantity, "0.0");
    assert_eq!(
        nif::place_order(&mut book, &text_order(3, "100.0", "4.0", "sell", "limit")),
        Err(NifError::BadArg)
    );
    let status = nif::get_order_status(&book, 1).unwrap();
    assert_eq!(status.status, "partially_filled");
    assert_eq!(status.remaining_quantity, "6.0");
    assert_eq!(nif::get_order_status(&book, 3), None);
    let (bids, asks) = nif::get_order_book(&book, 3).unwrap();
    assert_eq!(bids, vec![("100.0".to_string(), "6.0".to_string())]);
    assert!(asks.is_empty());
    let rows = nif::rows_text(&vec![(
        Decimal::try_new(5, 1).unwrap(),
        Decimal::try_new(7, 0).unwrap(),
    )]);
    assert_eq!(rows, vec![("0.5".to_string(), "7".to_string())]);
}

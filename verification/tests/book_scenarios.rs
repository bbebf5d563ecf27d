use matching_engine::models::{Order, OrderSide, OrderStatus, OrderType, Trade, TradeStatus};
use matching_engine::order_engine::{trade_between, OrderBook};

const INSTRUMENT: u128 = 1;

fn limit(id: u128, side: OrderSide, price: u128, quantity: u128) -> Order {
    Order {
        id,
        broker_id: id + 1000,
        instrument_id: INSTRUMENT,
        order_type: OrderType::LIMIT,
        side,
        status: OrderStatus::PENDING,
        price: Some(price),
        original_quantity: quantity,
        remaining_quantity: quantity,
        created_at: 0,
        updated_at: 0,
    }
}

fn market(id: u128, side: OrderSide, quantity: u128) -> Order {
    Order {
        id,
        broker_id: id + 1000,
        instrument_id: INSTRUMENT,
        order_type: OrderType::MARKET,
        side,
        status: OrderStatus::PENDING,
        price: None,
        original_quantity: quantity,
        remaining_quantity: quantity,
        created_at: 0,
        updated_at: 0,
    }
}

fn ask_ids(book: &OrderBook) -> Vec<u128> {
    (0..book.ask_count()).map(|i| book.ask_at(i).id).collect()
}

fn bid_ids(book: &OrderBook) -> Vec<u128> {
    (0..book.bid_count()).map(|i| book.bid_at(i).id).collect()
}

fn assert_book_valid(book: &OrderBook) {
    if let (Some(bid), Some(ask)) = (book.best_bid(), book.best_ask()) {
        assert!(bid < ask);
    }
    for i in 0..book.ask_count() {
        let o = book.ask_at(i);
        assert_eq!(book.get_order(o.id), Some(o));
        assert!(o.status == OrderStatus::PENDING || o.status == OrderStatus::PARTIAL);
        assert!(o.remaining_quantity > 0);
        if i > 0 {
            assert!(book.ask_at(i - 1).price <= o.price);
        }
    }
    for i in 0..book.bid_count() {
        let o = book.bid_at(i);
        assert_eq!(book.get_order(o.id), Some(o));
        assert!(o.status == OrderStatus::PENDING || o.status == OrderStatus::PARTIAL);
        assert!(o.remaining_quantity > 0);
        if i > 0 {
            assert!(book.bid_at(i - 1).price >= o.price);
        }
    }
}

#[test]
fn new_book_is_empty() {
    let book = OrderBook::new(42);
    assert_eq!(book.instrument_id(), 42);
    assert_eq!(book.bid_count(), 0);
    assert_eq!(book.ask_count(), 0);
    assert_eq!(book.best_bid(), None);
    assert_eq!(book.best_ask(), None);
    assert_eq!(book.get_order(7), None);
}

#[test]
fn full_match_single_price() {
    let mut book = OrderBook::new(INSTRUMENT);
    assert!(book.add_order(limit(2, OrderSide::SELL, 100, 10)).is_empty());
    let trades = book.add_order(limit(4, OrderSide::BUY, 100, 10));
    assert_eq!(trades.len(), 1);
    let t = trades[0];
    assert_eq!((t.price, t.quantity), (100, 10));
    assert_eq!((t.buyer_order_id, t.seller_order_id), (4, 2));
    assert_eq!((t.buyer_broker_id, t.seller_broker_id), (1004, 1002));
    assert_eq!(t.instrument_id, INSTRUMENT);
    assert_eq!(t.status, TradeStatus::PENDING_SETTLEMENT);
    assert_eq!(t.settlement_time, None);
    assert_eq!(book.get_order(2).unwrap().status, OrderStatus::FILLED);
    assert_eq!(book.get_order(2).unwrap().remaining_quantity, 0);
    assert_eq!(book.get_order(4).unwrap().status, OrderStatus::FILLED);
    assert_eq!(book.get_order(4).unwrap().remaining_quantity, 0);
    assert_eq!(book.ask_count(), 0);
    assert_eq!(book.bid_count(), 0);
}

#[test]
fn partial_match_leaves_maker_resting() {
    let mut book = OrderBook::new(INSTRUMENT);
    book.add_order(limit(2, OrderSide::SELL, 100, 10));
    let trades = book.add_order(limit(4, OrderSide::BUY, 100, 5));
    assert_eq!(trades.len(), 1);
    assert_eq!((trades[0].price, trades[0].quantity), (100, 5));
    assert_eq!(book.get_order(4).unwrap().status, OrderStatus::FILLED);
    let maker = book.get_order(2).unwrap();
    assert_eq!(maker.status, OrderStatus::PARTIAL);
    assert_eq!(maker.remaining_quantity, 5);
    assert_eq!(ask_ids(&book), vec![2]);
    assert_eq!(book.ask_at(0), maker);
    assert_eq!(book.bid_count(), 0);
    assert_book_valid(&book);
}

#[test]
fn market_order_fills_in_full() {
    let mut book = OrderBook::new(INSTRUMENT);
    book.add_order(limit(2, OrderSide::SELL, 100, 10));
    let trades = book.add_order(market(4, OrderSide::BUY, 10));
    assert_eq!(trades.len(), 1);
    assert_eq!((trades[0].price, trades[0].quantity), (100, 10));
    assert_eq!(book.get_order(2).unwrap().status, OrderStatus::FILLED);
    assert_eq!(book.get_order(4).unwrap().status, OrderStatus::FILLED);
    assert_eq!(book.ask_count() + book.bid_count(), 0);
}

#[test]
fn walks_the_book_best_price_first() {
    let mut book = OrderBook::new(INSTRUMENT);
    book.add_order(limit(6, OrderSide::SELL, 101, 5));
    book.add_order(limit(2, OrderSide::SELL, 100, 5));
    assert_eq!(ask_ids(&book), vec![2, 6]);
    let trades = book.add_order(limit(4, OrderSide::BUY, 101, 10));
    assert_eq!(trades.len(), 2);
    assert_eq!((trades[0].price, trades[0].quantity, trades[0].seller_order_id), (100, 5, 2));
    assert_eq!((trades[1].price, trades[1].quantity, trades[1].seller_order_id), (101, 5, 6));
    assert_eq!(book.get_order(4).unwrap().status, OrderStatus::FILLED);
    assert_eq!(book.ask_count() + book.bid_count(), 0);
}

#[test]
fn cancel_resting_order() {
    let mut book = OrderBook::new(INSTRUMENT);
    book.add_order(limit(9, OrderSide::SELL, 100, 10));
    let cancelled = book.cancel_order(9).unwrap();
    assert_eq!(cancelled.status, OrderStatus::CANCELLED);
    assert_eq!(cancelled.remaining_quantity, 10);
    assert_eq!(book.ask_count(), 0);
    assert_eq!(book.get_order(9), Some(cancelled));
}

#[test]
fn cancel_partially_filled_resting_order() {
    let mut book = OrderBook::new(INSTRUMENT);
    book.add_order(limit(8, OrderSide::SELL, 100, 10));
    let trades = book.add_order(limit(9, OrderSide::BUY, 100, 6));
    assert_eq!(trades.len(), 1);
    assert_eq!(trades[0].quantity, 6);
    let cancelled = book.cancel_order(8).unwrap();
    assert_eq!(cancelled.status, OrderStatus::CANCELLED);
    assert_eq!(cancelled.remaining_quantity, 4);
    assert_eq!(book.ask_count(), 0);
}

#[test]
fn cancel_after_full_match_returns_nothing() {
    let mut book = OrderBook::new(INSTRUMENT);
    book.add_order(limit(8, OrderSide::SELL, 100, 10));
    book.add_order(limit(9, OrderSide::BUY, 100, 10));
    let before = (book.get_order(8), book.get_order(9));
    assert_eq!(book.cancel_order(8), None);
    assert_eq!(book.cancel_order(9), None);
    assert_eq!((book.get_order(8), book.get_order(9)), before);
}

#[test]
fn market_order_against_empty_book_is_rejected() {
    let mut book = OrderBook::new(INSTRUMENT);
    let trades = book.add_order(market(4, OrderSide::BUY, 10));
    assert!(trades.is_empty());
    let order = book.get_order(4).unwrap();
    assert_eq!(order.status, OrderStatus::REJECTED);
    assert_eq!(order.remaining_quantity, 10);
    assert_eq!(book.ask_count() + book.bid_count(), 0);
    assert_eq!(book.cancel_order(4), None);
}

#[test]
fn market_order_short_of_liquidity_keeps_its_trades() {
    let mut book = OrderBook::new(INSTRUMENT);
    book.add_order(limit(2, OrderSide::BUY, 99, 4));
    book.add_order(limit(3, OrderSide::BUY, 98, 3));
    let trades = book.add_order(market(4, OrderSide::SELL, 10));
    assert_eq!(trades.len(), 2);
    assert_eq!((trades[0].price, trades[0].quantity, trades[0].buyer_order_id), (99, 4, 2));
    assert_eq!((trades[1].price, trades[1].quantity, trades[1].buyer_order_id), (98, 3, 3));
    assert_eq!(trades[0].seller_order_id, 4);
    let order = book.get_order(4).unwrap();
    assert_eq!(order.status, OrderStatus::REJECTED);
    assert_eq!(order.remaining_quantity, 3);
    assert_eq!(book.bid_count(), 0);
    assert_eq!(book.ask_count(), 0);
}

#[test]
fn limit_order_rests_on_empty_book() {
    let mut book = OrderBook::new(INSTRUMENT);
    let trades = book.add_order(limit(5, OrderSide::BUY, 50, 7));
    assert!(trades.is_empty());
    assert_eq!(bid_ids(&book), vec![5]);
    assert_eq!(book.best_bid(), Some(50));
    assert_eq!(book.best_ask(), None);
    let order = book.get_order(5).unwrap();
    assert_eq!(order.status, OrderStatus::PENDING);
    assert_eq!(order.remaining_quantity, 7);
}

#[test]
fn incoming_status_is_reset_to_pending() {
    let mut book = OrderBook::new(INSTRUMENT);
    let mut order = limit(5, OrderSide::BUY, 50, 7);
    order.status = OrderStatus::CANCELLED;
    book.add_order(order);
    assert_eq!(book.get_order(5).unwrap().status, OrderStatus::PENDING);
    assert_eq!(bid_ids(&book), vec![5]);
}

#[test]
fn residual_of_limit_order_rests_as_partial() {
    let mut book = OrderBook::new(INSTRUMENT);
    book.add_order(limit(2, OrderSide::SELL, 100, 4));
    book.add_order(limit(3, OrderSide::SELL, 105, 4));
    let trades = book.add_order(limit(4, OrderSide::BUY, 102, 10));
    assert_eq!(trades.len(), 1);
    assert_eq!((trades[0].price, trades[0].quantity), (100, 4));
    let order = book.get_order(4).unwrap();
    assert_eq!(order.status, OrderStatus::PARTIAL);
    assert_eq!(order.remaining_quantity, 6);
    assert_eq!(bid_ids(&book), vec![4]);
    assert_eq!(ask_ids(&book), vec![3]);
    assert_eq!(book.best_bid(), Some(102));
    assert_eq!(book.best_ask(), Some(105));
    assert_book_valid(&book);
}

#[test]
fn same_side_price_joins_the_queue_without_crossing() {
    let mut book = OrderBook::new(INSTRUMENT);
    book.add_order(limit(2, OrderSide::SELL, 100, 4));
    let trades = book.add_order(limit(3, OrderSide::SELL, 100, 6));
    assert!(trades.is_empty());
    assert_eq!(ask_ids(&book), vec![2, 3]);
}

#[test]
fn trade_price_is_the_maker_price() {
    let mut book = OrderBook::new(INSTRUMENT);
    book.add_order(limit(2, OrderSide::SELL, 100, 4));
    let trades = book.add_order(limit(4, OrderSide::BUY, 105, 4));
    assert_eq!(trades.len(), 1);
    assert_eq!(trades[0].price, 100);

    book.add_order(limit(6, OrderSide::BUY, 90, 4));
    let trades = book.add_order(limit(7, OrderSide::SELL, 80, 4));
    assert_eq!(trades.len(), 1);
    assert_eq!(trades[0].price, 90);
    assert_eq!((trades[0].buyer_order_id, trades[0].seller_order_id), (6, 7));
}

#[test]
fn time_priority_within_a_price() {
    let mut book = OrderBook::new(INSTRUMENT);
    book.add_order(limit(10, OrderSide::SELL, 100, 3));
    book.add_order(limit(11, OrderSide::SELL, 101, 3));
    book.add_order(limit(12, OrderSide::SELL, 100, 3));
    book.add_order(limit(13, OrderSide::SELL, 99, 3));
    book.add_order(limit(14, OrderSide::SELL, 100, 3));
    assert_eq!(ask_ids(&book), vec![13, 10, 12, 14, 11]);
    let trades = book.add_order(limit(20, OrderSide::BUY, 100, 8));
    let sellers: Vec<u128> = trades.iter().map(|t| t.seller_order_id).collect();
    let quantities: Vec<u128> = trades.iter().map(|t| t.quantity).collect();
    let prices: Vec<u128> = trades.iter().map(|t| t.price).collect();
    assert_eq!(sellers, vec![13, 10, 12]);
    assert_eq!(quantities, vec![3, 3, 2]);
    assert_eq!(prices, vec![99, 100, 100]);
    assert_eq!(ask_ids(&book), vec![12, 14, 11]);
    assert_eq!(book.ask_at(0).remaining_quantity, 1);
    assert_eq!(book.ask_at(0).status, OrderStatus::PARTIAL);
    assert_book_valid(&book);
}

#[test]
fn price_priority_on_the_bid_side() {
    let mut book = OrderBook::new(INSTRUMENT);
    book.add_order(limit(10, OrderSide::BUY, 100, 3));
    book.add_order(limit(11, OrderSide::BUY, 102, 3));
    book.add_order(limit(12, OrderSide::BUY, 101, 3));
    book.add_order(limit(13, OrderSide::BUY, 102, 3));
    assert_eq!(bid_ids(&book), vec![11, 13, 12, 10]);
    let trades = book.add_order(limit(20, OrderSide::SELL, 101, 20));
    let buyers: Vec<u128> = trades.iter().map(|t| t.buyer_order_id).collect();
    let prices: Vec<u128> = trades.iter().map(|t| t.price).collect();
    assert_eq!(buyers, vec![11, 13, 12]);
    assert_eq!(prices, vec![102, 102, 101]);
    assert_eq!(bid_ids(&book), vec![10]);
    assert_eq!(ask_ids(&book), vec![20]);
    assert_eq!(book.get_order(20).unwrap().remaining_quantity, 11);
    assert_eq!(book.get_order(20).unwrap().status, OrderStatus::PARTIAL);
    assert_book_valid(&book);
}

#[test]
fn quantity_is_conserved() {
    let mut book = OrderBook::new(INSTRUMENT);
    book.add_order(limit(10, OrderSide::SELL, 100, 7));
    book.add_order(limit(11, OrderSide::SELL, 101, 9));
    let resting_before: u128 = (0..book.ask_count()).map(|i| book.ask_at(i).remaining_quantity).sum();
    let trades = book.add_order(limit(20, OrderSide::BUY, 101, 12));
    let traded: u128 = trades.iter().map(|t| t.quantity).sum();
    let resting_after: u128 = (0..book.ask_count()).map(|i| book.ask_at(i).remaining_quantity).sum();
    assert_eq!(traded, 12);
    assert_eq!(resting_before - resting_after, traded);
    assert_eq!(book.get_order(20).unwrap().remaining_quantity, 12 - traded);
    assert_eq!(book.get_order(10).unwrap().remaining_quantity, 0);
    assert_eq!(book.get_order(11).unwrap().remaining_quantity, 4);
}

#[test]
fn terminal_orders_never_change() {
    let mut book = OrderBook::new(INSTRUMENT);
    book.add_order(limit(1, OrderSide::SELL, 100, 5));
    book.add_order(limit(2, OrderSide::BUY, 100, 5));
    book.add_order(market(3, OrderSide::BUY, 5));
    book.add_order(limit(4, OrderSide::SELL, 100, 5));
    book.cancel_order(4);
    let filled = book.get_order(1).unwrap();
    let rejected = book.get_order(3).unwrap();
    let cancelled = book.get_order(4).unwrap();
    assert_eq!(filled.status, OrderStatus::FILLED);
    assert_eq!(rejected.status, OrderStatus::REJECTED);
    assert_eq!(cancelled.status, OrderStatus::CANCELLED);
    book.add_order(limit(5, OrderSide::SELL, 100, 5));
    book.add_order(limit(6, OrderSide::BUY, 101, 8));
    book.cancel_order(1);
    book.cancel_order(3);
    book.cancel_order(6);
    assert_eq!(book.get_order(1), Some(filled));
    assert_eq!(book.get_order(3), Some(rejected));
    assert_eq!(book.get_order(4), Some(cancelled));
}

#[test]
fn cancel_twice_is_a_no_op() {
    let mut book = OrderBook::new(INSTRUMENT);
    book.add_order(limit(1, OrderSide::BUY, 100, 5));
    book.add_order(limit(2, OrderSide::BUY, 100, 5));
    assert!(book.cancel_order(1).is_some());
    let view = (bid_ids(&book), book.get_order(1), book.get_order(2));
    assert_eq!(book.cancel_order(1), None);
    assert_eq!((bid_ids(&book), book.get_order(1), book.get_order(2)), view);
    assert_eq!(bid_ids(&book), vec![2]);
}

#[test]
fn cancel_unknown_order_returns_nothing() {
    let mut book = OrderBook::new(INSTRUMENT);
    book.add_order(limit(1, OrderSide::BUY, 100, 5));
    assert_eq!(book.cancel_order(99), None);
    assert_eq!(bid_ids(&book), vec![1]);
}

#[test]
fn cancel_keeps_the_order_of_the_others() {
    let mut book = OrderBook::new(INSTRUMENT);
    book.add_order(limit(1, OrderSide::SELL, 100, 5));
    book.add_order(limit(2, OrderSide::SELL, 100, 5));
    book.add_order(limit(3, OrderSide::SELL, 100, 5));
    book.add_order(limit(4, OrderSide::SELL, 101, 5));
    assert!(book.cancel_order(2).is_some());
    assert_eq!(ask_ids(&book), vec![1, 3, 4]);
    assert_book_valid(&book);
}

#[test]
fn book_is_never_crossed_at_rest() {
    let mut book = OrderBook::new(INSTRUMENT);
    book.add_order(limit(1, OrderSide::SELL, 100, 5));
    assert_book_valid(&book);
    book.add_order(limit(2, OrderSide::BUY, 99, 5));
    assert_book_valid(&book);
    book.add_order(limit(3, OrderSide::BUY, 100, 2));
    assert_book_valid(&book);
    book.add_order(limit(4, OrderSide::SELL, 99, 9));
    assert_book_valid(&book);
    assert_eq!(book.best_bid(), None);
    assert_eq!(book.best_ask(), Some(99));
    book.cancel_order(4);
    assert_book_valid(&book);
}

#[test]
fn same_broker_on_both_sides_trades() {
    let mut book = OrderBook::new(INSTRUMENT);
    let mut sell = limit(1, OrderSide::SELL, 100, 5);
    let mut buy = limit(2, OrderSide::BUY, 100, 5);
    sell.broker_id = 77;
    buy.broker_id = 77;
    book.add_order(sell);
    let trades = book.add_order(buy);
    assert_eq!(trades.len(), 1);
    assert_eq!((trades[0].buyer_broker_id, trades[0].seller_broker_id), (77, 77));
}

#[test]
fn trades_of_one_submission_have_distinct_ids() {
    let mut book = OrderBook::new(INSTRUMENT);
    book.add_order(limit(1, OrderSide::SELL, 100, 5));
    book.add_order(limit(2, OrderSide::SELL, 100, 5));
    let trades = book.add_order(limit(3, OrderSide::BUY, 100, 10));
    assert_eq!(trades.len(), 2);
    assert_ne!(trades[0].id, trades[1].id);
    assert!(trades[0].execution_time > 0);
    assert!(trades[0].execution_time <= trades[1].execution_time);
}

#[test]
fn trade_between_assigns_buyer_and_seller_by_side() {
    let taker = limit(1, OrderSide::SELL, 100, 5);
    let maker = limit(2, OrderSide::BUY, 101, 9);
    let t = trade_between(INSTRUMENT, &taker, &maker, 101, 5, 555, 123456);
    assert_eq!(
        t,
        Trade {
            id: 555,
            instrument_id: INSTRUMENT,
            buyer_order_id: 2,
            seller_order_id: 1,
            buyer_broker_id: 1002,
            seller_broker_id: 1001,
            price: 101,
            quantity: 5,
            execution_time: 123456,
            status: TradeStatus::PENDING_SETTLEMENT,
            settlement_time: None,
        }
    );
}

#[test]
fn level_holds_its_orders_in_arrival_order() {
    let mut book = OrderBook::new(INSTRUMENT);
    book.add_order(limit(1, OrderSide::SELL, 100, 5));
    book.add_order(limit(2, OrderSide::SELL, 101, 5));
    book.add_order(limit(3, OrderSide::SELL, 100, 7));
    book.add_order(limit(4, OrderSide::BUY, 99, 2));
    let at_100: Vec<u128> = book.level_at(OrderSide::SELL, 100).iter().map(|o| o.id).collect();
    let at_101: Vec<u128> = book.level_at(OrderSide::SELL, 101).iter().map(|o| o.id).collect();
    assert_eq!(at_100, vec![1, 3]);
    assert_eq!(at_101, vec![2]);
    assert!(book.level_at(OrderSide::SELL, 99).is_empty());
    assert_eq!(book.level_at(OrderSide::BUY, 99), vec![book.get_order(4).unwrap()]);
    book.add_order(limit(5, OrderSide::BUY, 100, 5));
    let at_100: Vec<u128> = book.level_at(OrderSide::SELL, 100).iter().map(|o| o.id).collect();
    assert_eq!(at_100, vec![3]);
    book.cancel_order(3);
    assert!(book.level_at(OrderSide::SELL, 100).is_empty());
    assert_eq!(book.best_ask(), Some(101));
}

#[test]
fn accepts_only_well_formed_new_orders() {
    let mut book = OrderBook::new(INSTRUMENT);
    assert!(book.accepts(&limit(1, OrderSide::BUY, 100, 5)));
    assert!(book.accepts(&market(2, OrderSide::SELL, 5)));

    let mut other_instrument = limit(3, OrderSide::BUY, 100, 5);
    other_instrument.instrument_id = INSTRUMENT + 1;
    assert!(!book.accepts(&other_instrument));

    let mut no_price = limit(4, OrderSide::BUY, 100, 5);
    no_price.price = None;
    assert!(!book.accepts(&no_price));
    assert!(!book.accepts(&limit(5, OrderSide::BUY, 0, 5)));

    let mut priced_market = market(6, OrderSide::BUY, 5);
    priced_market.price = Some(100);
    assert!(!book.accepts(&priced_market));

    assert!(!book.accepts(&limit(7, OrderSide::BUY, 100, 0)));
    let mut overfull = limit(8, OrderSide::BUY, 100, 5);
    overfull.remaining_quantity = 6;
    assert!(!book.accepts(&overfull));
    let mut part_left = limit(9, OrderSide::BUY, 100, 5);
    part_left.remaining_quantity = 3;
    assert!(book.accepts(&part_left));

    book.add_order(limit(1, OrderSide::BUY, 100, 5));
    assert!(!book.accepts(&limit(1, OrderSide::SELL, 200, 5)));
}

#[test]
fn limit_order_with_nothing_remaining_is_filed_as_filled() {
    let mut book = OrderBook::new(INSTRUMENT);
    book.add_order(limit(1, OrderSide::BUY, 100, 5));
    let mut spent = limit(2, OrderSide::SELL, 100, 10);
    spent.remaining_quantity = 0;
    let trades = book.add_order(spent);
    assert!(trades.is_empty());
    assert_eq!(book.get_order(2).unwrap().status, OrderStatus::FILLED);
    assert_eq!(book.ask_count(), 0);
    assert_eq!(bid_ids(&book), vec![1]);
    assert_eq!(book.cancel_order(2), None);
}

#[test]
fn large_amounts_match_exactly() {
    let mut book = OrderBook::new(INSTRUMENT);
    let big: u128 = 79_228_162_514_264_337_593_543_950_335;
    book.add_order(limit(1, OrderSide::SELL, big, big));
    let trades = book.add_order(limit(2, OrderSide::BUY, big, big - 1));
    assert_eq!(trades.len(), 1);
    assert_eq!((trades[0].price, trades[0].quantity), (big, big - 1));
    assert_eq!(book.get_order(1).unwrap().remaining_quantity, 1);
    assert_eq!(book.get_order(1).unwrap().status, OrderStatus::PARTIAL);
}

//! The order book: two ladders of resting orders and the directory of every
//! order the book has seen, with submission and cancellation.

use vstd::prelude::*;
use std::collections::HashMap;
use crate::models::{Order, OrderSide, OrderStatus, OrderType, Trade, TradeStatus};
use crate::book_model::{
    acceptable, after_fill, at_price, book_wf, cancellable, cancelled, cancelled_order, crosses,
    directory_after, enqueue, file_order, fill_front, is_open, ladder, level, limit_of,
    match_against, matched, matching, not_crossed, other_side, outranks, price_of, queue_position,
    records, rest_order, resting_ok, submitted, terminal_kept, trade_of, BookState, Fill,
};
use crate::book_proofs::{
    lemma_cancel_wf, lemma_file_order_wf, lemma_fill_front_wf, lemma_rest_order_wf,
};

verus! {

broadcast use vstd::std_specs::hash::group_hash_axioms;

/// The book of one instrument.
///
/// Each ladder holds its resting orders in priority order, the next to trade
/// first; the directory holds the latest view of every order submitted.
#[derive(Debug)]
pub struct OrderBook {
    instrument_id: u128,
    bids: Vec<Order>,
    asks: Vec<Order>,
    orders: HashMap<u128, Order>,
}

impl View for OrderBook {
    type V = BookState;

    closed spec fn view(&self) -> BookState {
        BookState {
            instrument: self.instrument_id,
            bids: self.bids@,
            asks: self.asks@,
            directory: self.orders@,
        }
    }
}

/// Draws a random identifier with `uuid::Uuid::new_v4` and hands out its
/// 128-bit value (`Uuid::as_u128`). Nothing is claimed of the value drawn.
#[verifier::external_body]
fn random_id() -> (id: u128) {
    uuid::Uuid::new_v4().as_u128()
}

/// Reads the clock with `chrono::Utc::now` and hands out the instant as
/// milliseconds since the Unix epoch (`DateTime::timestamp_millis`). Nothing
/// is claimed of the instant read.
#[verifier::external_body]
fn now_millis() -> (t: i64) {
    chrono::Utc::now().timestamp_millis()
}

/// Builds the trade of `quantity` units at `price` between the incoming
/// `order` and the resting `matched_order`, under the identifier and the
/// execution time given.
pub fn trade_between(
    instrument_id: u128,
    order: &Order,
    matched_order: &Order,
    price: u128,
    quantity: u128,
    id: u128,
    execution_time: i64,
) -> (t: Trade)
    ensures
        t == trade_of(instrument_id, *order, *matched_order, price, quantity, id, execution_time),
{
    let incoming_buys = match order.side {
        OrderSide::BUY => true,
        OrderSide::SELL => false,
    };
    Trade {
        id,
        instrument_id,
        buyer_order_id: if incoming_buys {
            order.id
        } else {
            matched_order.id
        },
        seller_order_id: if incoming_buys {
            matched_order.id
        } else {
            order.id
        },
        buyer_broker_id: if incoming_buys {
            order.broker_id
        } else {
            matched_order.broker_id
        },
        seller_broker_id: if incoming_buys {
            matched_order.broker_id
        } else {
            order.broker_id
        },
        price,
        quantity,
        execution_time,
        status: TradeStatus::PENDING_SETTLEMENT,
        settlement_time: None,
    }
}

/// The price a resting order stands at.
fn resting_price(o: &Order) -> (p: u128)
    ensures
        p == price_of(*o),
{
    match o.price {
        Some(p) => p,
        None => 0,
    }
}

/// Whether price `a` is strictly better than `b` on the ladder of `side`.
fn price_outranks(side: OrderSide, a: u128, b: u128) -> (r: bool)
    ensures
        r == outranks(side, a, b),
{
    match side {
        OrderSide::BUY => a > b,
        OrderSide::SELL => a < b,
    }
}

/// Puts `order` on the ladder `l` of `side`, behind every order whose price
/// is as good as its own.
fn insert_by_priority(l: &mut Vec<Order>, side: OrderSide, order: Order)
    ensures
        final(l)@ == enqueue(old(l)@, side, order),
{
    let price = resting_price(&order);
    let mut i: usize = l.len();
    proof {
        assert(l@.subrange(0, i as int) =~= l@);
    }
    while i > 0 && price_outranks(side, price, resting_price(&l[i - 1]))
        invariant
            i <= l.len(),
            price == price_of(order),
            queue_position(l@, side, price) == queue_position(l@.subrange(0, i as int), side, price),
        decreases i,
    {
        proof {
            assert(l@.subrange(0, i as int).drop_last() =~= l@.subrange(0, i - 1));
        }
        i -= 1;
    }
    l.insert(i, order);
}

/// The place of the order filed under `id` on the ladder `l`, if it is there.
fn position_of(l: &Vec<Order>, id: u128) -> (r: Option<usize>)
    ensures
        match r {
            Some(i) => i < l.len() && l[i as int].id == id,
            None => forall|j: int| 0 <= j < l.len() ==> (#[trigger] l[j]).id != id,
        },
{
    let mut i: usize = 0;
    while i < l.len()
        invariant
            i <= l.len(),
            forall|j: int| 0 <= j < i ==> (#[trigger] l[j]).id != id,
        decreases l.len() - i,
    {
        if l[i].id == id {
            return Some(i);
        }
        i += 1;
    }
    None
}

impl OrderBook {
    /// The invariant of a book at rest.
    pub open spec fn wf(&self) -> bool {
        book_wf(self@)
    }

    /// An empty book for the instrument `instrument_id`.
    pub fn new(instrument_id: u128) -> (book: Self)
        ensures
            book.wf(),
            book@ == (BookState {
                instrument: instrument_id,
                bids: Seq::empty(),
                asks: Seq::empty(),
                directory: Map::empty(),
            }),
    {
        Self { instrument_id, bids: Vec::new(), asks: Vec::new(), orders: HashMap::new() }
    }

    /// The best ask: the lowest price on offer and the order that trades
    /// next at it.
    fn get_best_ask(&self) -> (best: Option<(u128, Order)>)
        ensures
            best == (if self@.asks.len() > 0 && self@.asks[0].price is Some {
                Some((price_of(self@.asks[0]), self@.asks[0]))
            } else {
                None
            }),
    {
        if self.asks.len() > 0 {
            let order = self.asks[0];
            match order.price {
                Some(price) => Some((price, order)),
                None => None,
            }
        } else {
            None
        }
    }

    /// The best bid: the highest price bid and the order that trades next
    /// at it.
    fn get_best_bid(&self) -> (best: Option<(u128, Order)>)
        ensures
            best == (if self@.bids.len() > 0 && self@.bids[0].price is Some {
                Some((price_of(self@.bids[0]), self@.bids[0]))
            } else {
                None
            }),
    {
        if self.bids.len() > 0 {
            let order = self.bids[0];
            match order.price {
                Some(price) => Some((price, order)),
                None => None,
            }
        } else {
            None
        }
    }

    /// Whether an incoming limit order of `side` at `order_price` may trade
    /// against a resting order at `book_price`.
    fn prices_match(&self, side: OrderSide, order_price: u128, book_price: u128) -> (r: bool)
        ensures
            r == crosses(side, Some(order_price), book_price),
    {
        match side {
            OrderSide::BUY => order_price >= book_price,
            OrderSide::SELL => order_price <= book_price,
        }
    }

    /// Records a crossing of `quantity` units at `price` as a trade with a
    /// fresh identifier and the current time.
    fn create_trade(&self, order: &Order, matched_order: &Order, price: u128, quantity: u128) -> (t:
        Trade)
        ensures
            t == trade_of(
                self@.instrument,
                *order,
                *matched_order,
                price,
                quantity,
                t.id,
                t.execution_time,
            ),
    {
        let id = random_id();
        let execution_time = now_millis();
        trade_between(
            self.instrument_id,
            order,
            matched_order,
            price,
            quantity,
            id,
            execution_time,
        )
    }

    /// Takes `trade_quantity` units from `matched_order`, the best order
    /// opposite an incoming order of `side`: the order leaves the ladder if
    /// nothing remains of it, and its directory entry is refreshed.
    fn update_matched_order(&mut self, matched_order: &Order, trade_quantity: u128, side: OrderSide)
        requires
            old(self).wf(),
            ladder(old(self)@, other_side(side)).len() > 0,
            *matched_order == ladder(old(self)@, other_side(side))[0],
            trade_quantity <= matched_order.remaining_quantity,
        ensures
            final(self).wf(),
            final(self)@ == fill_front(old(self)@, side, trade_quantity),
    {
        let mut updated_order = *matched_order;
        updated_order.remaining_quantity = matched_order.remaining_quantity - trade_quantity;
        updated_order.status = if updated_order.remaining_quantity == 0 {
            OrderStatus::FILLED
        } else {
            OrderStatus::PARTIAL
        };
        proof {
            lemma_fill_front_wf(self@, side, trade_quantity);
            assert(updated_order == after_fill(*matched_order, trade_quantity));
        }
        match side {
            OrderSide::BUY => {
                if updated_order.remaining_quantity == 0 {
                    self.asks.remove(0);
                    proof {
                        assert(old(self)@.asks.remove(0) =~= old(self)@.asks.drop_first());
                    }
                } else {
                    self.asks.set(0, updated_order);
                }
            },
            OrderSide::SELL => {
                if updated_order.remaining_quantity == 0 {
                    self.bids.remove(0);
                    proof {
                        assert(old(self)@.bids.remove(0) =~= old(self)@.bids.drop_first());
                    }
                } else {
                    self.bids.set(0, updated_order);
                }
            },
        }
        self.orders.insert(updated_order.id, updated_order);
    }

    /// Crosses `order` against the opposite ladder, best order first, until
    /// nothing remains of it, the ladder is empty or its best price is out
    /// of reach. Pushes one trade per crossing and returns the order with
    /// what remains of it.
    fn match_incoming(&mut self, order: Order, trades: &mut Vec<Trade>) -> (done: Order)
        requires
            old(self).wf(),
            !old(self)@.directory.contains_key(order.id),
        ensures
            final(self).wf(),
            final(self)@ == matched(old(self)@, order),
            !final(self)@.directory.contains_key(order.id),
            done == (Order { remaining_quantity: matching(old(self)@, order).remaining, ..order }),
            done.remaining_quantity <= order.remaining_quantity,
            done.remaining_quantity > 0 && ladder(final(self)@, other_side(order.side)).len() > 0
                ==> !crosses(
                order.side,
                limit_of(order),
                price_of(ladder(final(self)@, other_side(order.side))[0]),
            ),
            final(trades)@.len() == old(trades)@.len() + matching(old(self)@, order).fills.len(),
            forall|i: int| 0 <= i < old(trades)@.len() ==> final(trades)@[i] == old(trades)@[i],
            forall|i: int|
                0 <= i < matching(old(self)@, order).fills.len() ==> records(
                    #[trigger] final(trades)@[old(trades)@.len() + i],
                    matching(old(self)@, order).fills[i],
                    order,
                    old(self)@.instrument,
                ),
            terminal_kept(old(self)@.directory, final(self)@.directory),
    {
        let side = order.side;
        let limit = match order.order_type {
            OrderType::LIMIT => order.price,
            OrderType::MARKET => None,
        };
        let mut remaining = order.remaining_quantity;
        let ghost s0 = self@;
        let ghost t0 = trades@;
        let ghost opp = other_side(side);
        let ghost full = matching(s0, order);
        let ghost mut fills: Seq<Fill> = Seq::empty();
        proof {
            assert(fills + full.fills =~= full.fills);
        }
        loop
            invariant
                self.wf(),
                side == order.side,
                opp == other_side(side),
                limit == limit_of(order),
                s0.instrument == self@.instrument,
                ladder(self@, side) == ladder(s0, side),
                !self@.directory.contains_key(order.id),
                remaining <= order.remaining_quantity,
                full == matching(s0, order),
                full.fills == fills + match_against(ladder(self@, opp), side, limit, remaining).fills,
                full.rest == match_against(ladder(self@, opp), side, limit, remaining).rest,
                full.remaining == match_against(
                    ladder(self@, opp),
                    side,
                    limit,
                    remaining,
                ).remaining,
                self@.directory == directory_after(s0.directory, fills),
                trades@.len() == t0.len() + fills.len(),
                forall|i: int| 0 <= i < t0.len() ==> trades@[i] == t0[i],
                forall|i: int|
                    0 <= i < fills.len() ==> records(
                        #[trigger] trades@[t0.len() + i],
                        fills[i],
                        order,
                        s0.instrument,
                    ),
                terminal_kept(s0.directory, self@.directory),
            ensures
                remaining == 0 || ladder(self@, opp).len() == 0 || !crosses(
                    side,
                    limit,
                    price_of(ladder(self@, opp)[0]),
                ),
            decreases ladder(self@, opp).len() + (if remaining > 0 { 1int } else { 0int }),
        {
            if remaining == 0 {
                break;
            }
            let best = match side {
                OrderSide::BUY => self.get_best_ask(),
                OrderSide::SELL => self.get_best_bid(),
            };
            proof {
                if ladder(self@, opp).len() > 0 {
                    assert(resting_ok(ladder(self@, opp)[0], opp, self@.instrument));
                }
            }
            match best {
                None => {
                    break;
                },
                Some((best_price, matched_order)) => {
                    let reachable = match limit {
                        Some(price) => self.prices_match(side, price, best_price),
                        None => true,
                    };
                    if !reachable {
                        break;
                    }
                    let trade_quantity = if remaining <= matched_order.remaining_quantity {
                        remaining
                    } else {
                        matched_order.remaining_quantity
                    };
                    let taker = Order { remaining_quantity: remaining, ..order };
                    let trade = self.create_trade(&taker, &matched_order, best_price, trade_quantity);
                    trades.push(trade);
                    let ghost before = self@;
                    let ghost l = ladder(before, opp);
                    let ghost fill = Fill { maker: matched_order, quantity: trade_quantity };
                    let ghost cur = match_against(l, side, limit, remaining);
                    self.update_matched_order(&matched_order, trade_quantity, side);
                    proof {
                        assert(before.directory.contains_key(matched_order.id));
                        assert(before.directory[matched_order.id] == matched_order);
                        let next = match_against(
                            ladder(self@, opp),
                            side,
                            limit,
                            (remaining - trade_quantity) as u128,
                        );
                        assert(cur.fills =~= seq![fill] + next.fills);
                        assert(fills.push(fill) + next.fills =~= fills + cur.fills);
                        assert(fills.push(fill).drop_last() =~= fills);
                        assert(fills.push(fill).last() == fill);
                        fills = fills.push(fill);
                    }
                    remaining = remaining - trade_quantity;
                },
            }
        }
        Order { remaining_quantity: remaining, ..order }
    }

    /// Files `order`, whose matching is over, in the directory; if it is a
    /// limit order with quantity left, rests it on its own ladder first.
    fn settle(&mut self, order: Order)
        requires
            old(self).wf(),
            !old(self)@.directory.contains_key(order.id),
            order.remaining_quantity <= order.original_quantity,
            order.instrument_id == old(self)@.instrument,
            order.order_type == OrderType::LIMIT ==> order.price is Some,
            order.status == OrderStatus::FILLED <==> order.remaining_quantity == 0,
            order.remaining_quantity > 0 ==> (if order.order_type == OrderType::LIMIT {
                is_open(order.status)
            } else {
                !is_open(order.status)
            }),
            order.remaining_quantity > 0 && ladder(old(self)@, other_side(order.side)).len() > 0
                ==> !crosses(
                order.side,
                limit_of(order),
                price_of(ladder(old(self)@, other_side(order.side))[0]),
            ),
        ensures
            final(self).wf(),
            final(self)@ == (if order.order_type == OrderType::LIMIT && order.remaining_quantity
                > 0 {
                rest_order(old(self)@, order)
            } else {
                file_order(old(self)@, order)
            }),
    {
        let rests = match order.order_type {
            OrderType::LIMIT => order.remaining_quantity > 0,
            OrderType::MARKET => false,
        };
        if rests {
            proof {
                lemma_rest_order_wf(self@, order);
            }
            match order.side {
                OrderSide::BUY => insert_by_priority(&mut self.bids, OrderSide::BUY, order),
                OrderSide::SELL => insert_by_priority(&mut self.asks, OrderSide::SELL, order),
            }
        } else {
            proof {
                lemma_file_order_wf(self@, order);
            }
        }
        self.orders.insert(order.id, order);
    }

    /// Matches a limit order and rests what remains of it at its own price.
    fn process_limit_order(&mut self, order: Order, trades: &mut Vec<Trade>)
        requires
            old(self).wf(),
            acceptable(old(self)@, order),
            order.order_type == OrderType::LIMIT,
        ensures
            final(self).wf(),
            final(self)@ == submitted(old(self)@, order),
            final(trades)@.len() == old(trades)@.len() + matching(old(self)@, order).fills.len(),
            forall|i: int| 0 <= i < old(trades)@.len() ==> final(trades)@[i] == old(trades)@[i],
            forall|i: int|
                0 <= i < matching(old(self)@, order).fills.len() ==> records(
                    #[trigger] final(trades)@[old(trades)@.len() + i],
                    matching(old(self)@, order).fills[i],
                    order,
                    old(self)@.instrument,
                ),
            terminal_kept(old(self)@.directory, final(self)@.directory),
    {
        let before = trades.len();
        let mut order = self.match_incoming(order, trades);
        order.status = if order.remaining_quantity == 0 {
            OrderStatus::FILLED
        } else if trades.len() == before {
            OrderStatus::PENDING
        } else {
            OrderStatus::PARTIAL
        };
        self.settle(order);
    }

    /// Matches a market order and rejects what the book cannot fill.
    fn process_market_order(&mut self, order: Order, trades: &mut Vec<Trade>)
        requires
            old(self).wf(),
            acceptable(old(self)@, order),
            order.order_type == OrderType::MARKET,
        ensures
            final(self).wf(),
            final(self)@ == submitted(old(self)@, order),
            final(trades)@.len() == old(trades)@.len() + matching(old(self)@, order).fills.len(),
            forall|i: int| 0 <= i < old(trades)@.len() ==> final(trades)@[i] == old(trades)@[i],
            forall|i: int|
                0 <= i < matching(old(self)@, order).fills.len() ==> records(
                    #[trigger] final(trades)@[old(trades)@.len() + i],
                    matching(old(self)@, order).fills[i],
                    order,
                    old(self)@.instrument,
                ),
            terminal_kept(old(self)@.directory, final(self)@.directory),
    {
        let mut order = self.match_incoming(order, trades);
        order.status = if order.remaining_quantity == 0 {
            OrderStatus::FILLED
        } else {
            OrderStatus::REJECTED
        };
        self.settle(order);
    }

    /// Whether the book can take `order`: it names this book's instrument,
    /// its identifier is new to the book, its quantity is positive and not
    /// less than what remains of it, and it carries a positive price exactly
    /// if it is a limit order.
    pub fn accepts(&self, order: &Order) -> (ok: bool)
        ensures
            ok == acceptable(self@, *order),
    {
        let priced = match order.order_type {
            OrderType::LIMIT => match order.price {
                Some(price) => price > 0,
                None => false,
            },
            OrderType::MARKET => order.price.is_none(),
        };
        priced && order.instrument_id == self.instrument_id && !self.orders.contains_key(&order.id)
            && 0 < order.original_quantity && order.remaining_quantity <= order.original_quantity
    }

    /// Submits `order` to the book and returns the trades it produces, in
    /// the order in which they were made.
    ///
    /// The order is matched against the opposite ladder by price-time
    /// priority, each trade at the resting order's price. What remains of a
    /// limit order rests at its own price; what remains of a market order is
    /// rejected. Whatever status the order comes with, it enters as PENDING.
    pub fn add_order(&mut self, order: Order) -> (trades: Vec<Trade>)
        requires
            old(self).wf(),
            acceptable(old(self)@, order),
        ensures
            final(self).wf(),
            not_crossed(final(self)@),
            final(self)@ == submitted(old(self)@, order),
            trades@.len() == matching(old(self)@, order).fills.len(),
            forall|i: int|
                0 <= i < trades@.len() ==> records(
                    #[trigger] trades@[i],
                    matching(old(self)@, order).fills[i],
                    order,
                    old(self)@.instrument,
                ),
            terminal_kept(old(self)@.directory, final(self)@.directory),
    {
        let mut trades = Vec::new();
        let mut order = order;
        order.status = OrderStatus::PENDING;
        match order.order_type {
            OrderType::LIMIT => self.process_limit_order(order, &mut trades),
            OrderType::MARKET => self.process_market_order(order, &mut trades),
        }
        proof {
            let fills = matching(old(self)@, order).fills;
            assert forall|i: int| 0 <= i < trades@.len() implies records(
                #[trigger] trades@[i],
                fills[i],
                order,
                old(self)@.instrument,
            ) by {
                assert(trades@[i] == trades@[0 + i]);
            }
        }
        trades
    }

    /// Takes the open order filed under `order_id` off the book and returns
    /// it as cancelled, with its unfilled quantity. For an identifier that
    /// is unknown, or whose order has come to its end, nothing changes and
    /// nothing is returned.
    pub fn cancel_order(&mut self, order_id: u128) -> (r: Option<Order>)
        requires
            old(self).wf(),
        ensures
            final(self).wf(),
            not_crossed(final(self)@),
            final(self)@ == cancelled(old(self)@, order_id),
            r == (if cancellable(old(self)@, order_id) {
                Some(cancelled_order(old(self)@.directory[order_id]))
            } else {
                None
            }),
            !cancellable(old(self)@, order_id) ==> final(self)@ == old(self)@,
            terminal_kept(old(self)@.directory, final(self)@.directory),
    {
        let order = match self.orders.get(&order_id) {
            Some(order) => *order,
            None => {
                return None;
            },
        };
        match order.status {
            OrderStatus::PENDING | OrderStatus::PARTIAL => {},
            _ => {
                return None;
            },
        }
        let found = match order.side {
            OrderSide::BUY => position_of(&self.bids, order_id),
            OrderSide::SELL => position_of(&self.asks, order_id),
        };
        proof {
            let l = ladder(self@, order.side);
            assert(l.contains(order));
            let at = l.index_of(order);
            assert(l[at].id == order_id);
            if let Some(pos) = found {
                assert(pos == at) by {
                    if pos < at {
                        assert(l[pos as int].id != l[at].id);
                    } else if at < pos {
                        assert(l[at].id != l[pos as int].id);
                    }
                }
            }
            lemma_cancel_wf(self@, order_id);
        }
        match found {
            Some(pos) => {
                match order.side {
                    OrderSide::BUY => {
                        self.bids.remove(pos);
                    },
                    OrderSide::SELL => {
                        self.asks.remove(pos);
                    },
                }
                let mut updated_order = order;
                updated_order.status = OrderStatus::CANCELLED;
                self.orders.insert(order_id, updated_order);
                Some(updated_order)
            },
            None => None,
        }
    }

    /// The instrument this book trades.
    pub fn instrument_id(&self) -> (id: u128)
        ensures
            id == self@.instrument,
    {
        self.instrument_id
    }

    /// The latest view of the order filed under `order_id`, if the book has
    /// seen it.
    pub fn get_order(&self, order_id: u128) -> (r: Option<Order>)
        ensures
            r == (if self@.directory.contains_key(order_id) {
                Some(self@.directory[order_id])
            } else {
                None
            }),
    {
        match self.orders.get(&order_id) {
            Some(order) => Some(*order),
            None => None,
        }
    }

    /// The number of orders resting on the bid ladder.
    pub fn bid_count(&self) -> (n: usize)
        ensures
            n == self@.bids.len(),
    {
        self.bids.len()
    }

    /// The number of orders resting on the ask ladder.
    pub fn ask_count(&self) -> (n: usize)
        ensures
            n == self@.asks.len(),
    {
        self.asks.len()
    }

    /// The bid at place `i` in priority order; place 0 trades next.
    pub fn bid_at(&self, i: usize) -> (order: Order)
        requires
            i < self@.bids.len(),
        ensures
            order == self@.bids[i as int],
    {
        self.bids[i]
    }

    /// The ask at place `i` in priority order; place 0 trades next.
    pub fn ask_at(&self, i: usize) -> (order: Order)
        requires
            i < self@.asks.len(),
        ensures
            order == self@.asks[i as int],
    {
        self.asks[i]
    }

    /// The price level of `price` on the ladder of `side`: the orders that
    /// rest there at that price, the earliest first.
    pub fn level_at(&self, side: OrderSide, price: u128) -> (orders: Vec<Order>)
        ensures
            orders@ == level(ladder(self@, side), price),
    {
        let l = match side {
            OrderSide::BUY => &self.bids,
            OrderSide::SELL => &self.asks,
        };
        let mut orders: Vec<Order> = Vec::new();
        let mut i: usize = 0;
        proof {
            reveal(Seq::filter);
            assert(l@.subrange(0, 0) =~= Seq::<Order>::empty());
        }
        while i < l.len()
            invariant
                i <= l.len(),
                orders@ == l@.subrange(0, i as int).filter(at_price(price)),
            decreases l.len() - i,
        {
            proof {
                reveal(Seq::filter);
                assert(l@.subrange(0, i + 1).drop_last() =~= l@.subrange(0, i as int));
            }
            if resting_price(&l[i]) == price {
                orders.push(l[i]);
            }
            i += 1;
        }
        proof {
            assert(l@.subrange(0, i as int) =~= l@);
        }
        orders
    }

    /// The highest price bid, if any order rests on the bid ladder.
    pub fn best_bid(&self) -> (price: Option<u128>)
        requires
            self.wf(),
        ensures
            price == (if self@.bids.len() > 0 {
                Some(price_of(self@.bids[0]))
            } else {
                None
            }),
    {
        proof {
            if self@.bids.len() > 0 {
                assert(resting_ok(ladder(self@, OrderSide::BUY)[0], OrderSide::BUY, self@.instrument));
            }
        }
        match self.get_best_bid() {
            Some((price, _)) => Some(price),
            None => None,
        }
    }

    /// The lowest price on offer, if any order rests on the ask ladder.
    pub fn best_ask(&self) -> (price: Option<u128>)
        requires
            self.wf(),
        ensures
            price == (if self@.asks.len() > 0 {
                Some(price_of(self@.asks[0]))
            } else {
                None
            }),
    {
        proof {
            if self@.asks.len() > 0 {
                assert(resting_ok(
                    ladder(self@, OrderSide::SELL)[0],
                    OrderSide::SELL,
                    self@.instrument,
                ));
            }
        }
        match self.get_best_ask() {
            Some((price, _)) => Some(price),
            None => None,
        }
    }
}

} // verus!

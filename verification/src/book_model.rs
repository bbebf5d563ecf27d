//! The mathematical model of an order book and of its two operations.
//!
//! A ladder is a sequence of resting orders in priority order: the order that
//! trades next stands first. Orders of one price stand together, the earliest
//! first, so a price level is a run of the sequence and is never empty.

use vstd::prelude::*;
use crate::models::{Order, OrderSide, OrderStatus, OrderType, Trade, TradeStatus};

verus! {

/// What a book holds: both ladders in priority order and the directory.
pub ghost struct BookState {
    pub instrument: u128,
    pub bids: Seq<Order>,
    pub asks: Seq<Order>,
    pub directory: Map<u128, Order>,
}

/// One crossing: the resting order as it stood before, and the quantity taken.
pub ghost struct Fill {
    pub maker: Order,
    pub quantity: u128,
}

/// The outcome of matching an incoming quantity against a ladder.
pub ghost struct MatchOutcome {
    pub fills: Seq<Fill>,
    pub rest: Seq<Order>,
    pub remaining: u128,
}

/// The price an order rests at (zero for an order without a price).
pub open spec fn price_of(o: Order) -> u128 {
    match o.price {
        Some(p) => p,
        None => 0,
    }
}

/// PENDING and PARTIAL orders can still trade or be cancelled.
pub open spec fn is_open(status: OrderStatus) -> bool {
    status == OrderStatus::PENDING || status == OrderStatus::PARTIAL
}

/// FILLED, CANCELLED and REJECTED orders never change again.
pub open spec fn is_terminal(status: OrderStatus) -> bool {
    !is_open(status)
}

/// Every order that has come to its end in `before` stands unchanged in
/// `after`.
pub open spec fn terminal_kept(before: Map<u128, Order>, after: Map<u128, Order>) -> bool {
    forall|k: u128| #[trigger]
        before.contains_key(k) && is_terminal(before[k].status) ==> after.contains_key(k)
            && after[k] == before[k]
}

/// The price limit an incoming order matches under: its price for a limit
/// order, none for a market order.
pub open spec fn limit_of(order: Order) -> Option<u128> {
    if order.order_type == OrderType::LIMIT {
        order.price
    } else {
        None
    }
}

/// Whether an incoming order of `side` under `limit` may trade at `book_price`.
pub open spec fn crosses(side: OrderSide, limit: Option<u128>, book_price: u128) -> bool {
    match limit {
        None => true,
        Some(p) => if side == OrderSide::BUY {
            p >= book_price
        } else {
            p <= book_price
        },
    }
}

/// Whether price `a` is strictly better than price `b` for orders resting on
/// `side`: higher for bids, lower for asks.
pub open spec fn outranks(side: OrderSide, a: u128, b: u128) -> bool {
    if side == OrderSide::BUY {
        a > b
    } else {
        a < b
    }
}

pub open spec fn other_side(side: OrderSide) -> OrderSide {
    if side == OrderSide::BUY {
        OrderSide::SELL
    } else {
        OrderSide::BUY
    }
}

/// The ladder on which orders of `side` rest.
pub open spec fn ladder(s: BookState, side: OrderSide) -> Seq<Order> {
    if side == OrderSide::BUY {
        s.bids
    } else {
        s.asks
    }
}

/// The state with the ladder of `side` and the directory replaced.
pub open spec fn with_ladder(
    s: BookState,
    side: OrderSide,
    l: Seq<Order>,
    directory: Map<u128, Order>,
) -> BookState {
    if side == OrderSide::BUY {
        BookState { instrument: s.instrument, bids: l, asks: s.asks, directory }
    } else {
        BookState { instrument: s.instrument, bids: s.bids, asks: l, directory }
    }
}

/// A resting order after `q` of its remaining quantity has traded.
pub open spec fn after_fill(o: Order, q: u128) -> Order {
    Order {
        remaining_quantity: (o.remaining_quantity - q) as u128,
        status: if o.remaining_quantity == q {
            OrderStatus::FILLED
        } else {
            OrderStatus::PARTIAL
        },
        ..o
    }
}

/// Matches `remaining` units of an incoming order of `side` under `limit`
/// against the ladder `opp`, best order first. Each resting order at the
/// front is consumed whole while the incoming quantity covers it; the first
/// one that it does not cover is reduced and stays at the front.
pub open spec fn match_against(
    opp: Seq<Order>,
    side: OrderSide,
    limit: Option<u128>,
    remaining: u128,
) -> MatchOutcome
    decreases opp.len(),
{
    if remaining == 0 || opp.len() == 0 || !crosses(side, limit, price_of(opp[0])) {
        MatchOutcome { fills: Seq::empty(), rest: opp, remaining }
    } else if opp[0].remaining_quantity <= remaining {
        let q = opp[0].remaining_quantity;
        let later = match_against(opp.drop_first(), side, limit, (remaining - q) as u128);
        MatchOutcome {
            fills: seq![Fill { maker: opp[0], quantity: q }] + later.fills,
            rest: later.rest,
            remaining: later.remaining,
        }
    } else {
        MatchOutcome {
            fills: seq![Fill { maker: opp[0], quantity: remaining }],
            rest: opp.update(0, after_fill(opp[0], remaining)),
            remaining: 0,
        }
    }
}

/// The directory once every maker of `fills` has had its entry refreshed.
pub open spec fn directory_after(directory: Map<u128, Order>, fills: Seq<Fill>) -> Map<u128, Order>
    decreases fills.len(),
{
    if fills.len() == 0 {
        directory
    } else {
        let f = fills.last();
        directory_after(directory, fills.drop_last()).insert(
            f.maker.id,
            after_fill(f.maker, f.quantity),
        )
    }
}

/// Whether one of `fills` takes from the order filed under `id`.
pub open spec fn touches(fills: Seq<Fill>, id: u128) -> bool {
    exists|i: int| 0 <= i < fills.len() && (#[trigger] fills[i]).maker.id == id
}

/// The sum of the quantities of `fills`.
pub open spec fn filled_quantity(fills: Seq<Fill>) -> int
    decreases fills.len(),
{
    if fills.len() == 0 {
        0
    } else {
        fills[0].quantity + filled_quantity(fills.drop_first())
    }
}

/// The sum of the remaining quantities of the orders of a ladder.
pub open spec fn resting_quantity(l: Seq<Order>) -> int
    decreases l.len(),
{
    if l.len() == 0 {
        0
    } else {
        l[0].remaining_quantity + resting_quantity(l.drop_first())
    }
}

/// The status an incoming order ends with.
pub open spec fn final_status(order_type: OrderType, remaining: u128, fills: nat) -> OrderStatus {
    if remaining == 0 {
        OrderStatus::FILLED
    } else if order_type == OrderType::MARKET {
        OrderStatus::REJECTED
    } else if fills == 0 {
        OrderStatus::PENDING
    } else {
        OrderStatus::PARTIAL
    }
}

/// The incoming order as the directory records it after matching.
pub open spec fn settled(order: Order, m: MatchOutcome) -> Order {
    Order {
        remaining_quantity: m.remaining,
        status: final_status(order.order_type, m.remaining, m.fills.len()),
        ..order
    }
}

/// Only a limit order with quantity left rests on the book.
pub open spec fn rests(order: Order) -> bool {
    order.order_type == OrderType::LIMIT && order.remaining_quantity > 0
}

/// Where an order at `price` joins the ladder `l` of `side`: before the
/// orders that its price strictly outranks, behind all others.
pub open spec fn queue_position(l: Seq<Order>, side: OrderSide, price: u128) -> nat
    decreases l.len(),
{
    if l.len() == 0 {
        0
    } else if outranks(side, price, price_of(l.last())) {
        queue_position(l.drop_last(), side, price)
    } else {
        l.len()
    }
}

/// The ladder `l` of `side` with `order` resting on it.
pub open spec fn enqueue(l: Seq<Order>, side: OrderSide, order: Order) -> Seq<Order> {
    l.insert(queue_position(l, side, price_of(order)) as int, order)
}

/// The test that picks the orders resting at `price`.
pub open spec fn at_price(price: u128) -> spec_fn(Order) -> bool {
    |o: Order| price_of(o) == price
}

/// The price level of `price` on the ladder `l`: the orders resting at that
/// price, the earliest first.
pub open spec fn level(l: Seq<Order>, price: u128) -> Seq<Order> {
    l.filter(at_price(price))
}

/// The outcome of matching `order` against the ladder opposite to it.
pub open spec fn matching(s: BookState, order: Order) -> MatchOutcome {
    match_against(
        ladder(s, other_side(order.side)),
        order.side,
        limit_of(order),
        order.remaining_quantity,
    )
}

/// The book after `q` units have been taken from the best order opposite an
/// incoming order of side `taker`.
pub open spec fn fill_front(s: BookState, taker: OrderSide, q: u128) -> BookState {
    let opp = other_side(taker);
    let l = ladder(s, opp);
    let front = l[0];
    with_ladder(
        s,
        opp,
        if q == front.remaining_quantity {
            l.drop_first()
        } else {
            l.update(0, after_fill(front, q))
        },
        s.directory.insert(front.id, after_fill(front, q)),
    )
}

/// The book with `o` resting on its side's ladder and filed in the directory.
pub open spec fn rest_order(s: BookState, o: Order) -> BookState {
    with_ladder(s, o.side, enqueue(ladder(s, o.side), o.side, o), s.directory.insert(o.id, o))
}

/// The book with `o` filed in the directory only.
pub open spec fn file_order(s: BookState, o: Order) -> BookState {
    BookState { directory: s.directory.insert(o.id, o), ..s }
}

/// The book once `order` has been matched against the opposite ladder, and
/// before it is itself filed.
pub open spec fn matched(s: BookState, order: Order) -> BookState {
    with_ladder(
        s,
        other_side(order.side),
        matching(s, order).rest,
        directory_after(s.directory, matching(s, order).fills),
    )
}

/// The book after `order` has been submitted to it: the order is matched
/// against the opposite ladder; what remains of a limit order rests on its
/// own ladder; the order is filed as it was settled.
pub open spec fn submitted(s: BookState, order: Order) -> BookState {
    let done = settled(order, matching(s, order));
    if rests(done) {
        rest_order(matched(s, order), done)
    } else {
        file_order(matched(s, order), done)
    }
}

/// The trade that records `quantity` units at `price` between the incoming
/// `order` and the resting `matched_order`.
pub open spec fn trade_of(
    instrument: u128,
    order: Order,
    matched_order: Order,
    price: u128,
    quantity: u128,
    id: u128,
    execution_time: i64,
) -> Trade {
    Trade {
        id,
        instrument_id: instrument,
        buyer_order_id: if order.side == OrderSide::BUY {
            order.id
        } else {
            matched_order.id
        },
        seller_order_id: if order.side == OrderSide::SELL {
            order.id
        } else {
            matched_order.id
        },
        buyer_broker_id: if order.side == OrderSide::BUY {
            order.broker_id
        } else {
            matched_order.broker_id
        },
        seller_broker_id: if order.side == OrderSide::SELL {
            order.broker_id
        } else {
            matched_order.broker_id
        },
        price,
        quantity,
        execution_time,
        status: TradeStatus::PENDING_SETTLEMENT,
        settlement_time: None,
    }
}

/// Whether trade `t` records fill `f` of the incoming order `taker`: it
/// carries the maker's price and the fill's quantity. The trade's identifier
/// and execution time are not constrained.
pub open spec fn records(t: Trade, f: Fill, taker: Order, instrument: u128) -> bool {
    t == trade_of(instrument, taker, f.maker, price_of(f.maker), f.quantity, t.id, t.execution_time)
}

/// Whether a cancel of `id` takes an order off the book.
pub open spec fn cancellable(s: BookState, id: u128) -> bool {
    s.directory.contains_key(id) && is_open(s.directory[id].status)
}

/// The order `o` marked as cancelled.
pub open spec fn cancelled_order(o: Order) -> Order {
    Order { status: OrderStatus::CANCELLED, ..o }
}

/// The book after a cancel of `id`.
pub open spec fn cancelled(s: BookState, id: u128) -> BookState {
    if cancellable(s, id) {
        let o = s.directory[id];
        let l = ladder(s, o.side);
        with_ladder(
            s,
            o.side,
            l.remove(l.index_of(o)),
            s.directory.insert(id, cancelled_order(o)),
        )
    } else {
        s
    }
}

/// What holds of every order that rests on the ladder of `side`.
pub open spec fn resting_ok(o: Order, side: OrderSide, instrument: u128) -> bool {
    &&& o.side == side
    &&& o.order_type == OrderType::LIMIT
    &&& o.price is Some
    &&& is_open(o.status)
    &&& 0 < o.remaining_quantity <= o.original_quantity
    &&& o.instrument_id == instrument
}

/// A ladder is in priority order when no order is outranked by a later one.
pub open spec fn in_priority_order(l: Seq<Order>, side: OrderSide) -> bool {
    forall|i: int, j: int|
        0 <= i < j < l.len() ==> !outranks(side, price_of(#[trigger] l[j]), price_of(#[trigger] l[i]))
}

/// No identifier occurs twice on a ladder.
pub open spec fn distinct_ids(l: Seq<Order>) -> bool {
    forall|i: int, j: int| 0 <= i < j < l.len() ==> (#[trigger] l[i]).id != (#[trigger] l[j]).id
}

/// The ladder of `side` is valid within the book `s`.
pub open spec fn ladder_wf(s: BookState, side: OrderSide) -> bool {
    let l = ladder(s, side);
    &&& forall|i: int| 0 <= i < l.len() ==> resting_ok(#[trigger] l[i], side, s.instrument)
    &&& forall|i: int|
        0 <= i < l.len() ==> s.directory.contains_key((#[trigger] l[i]).id) && s.directory[l[i].id]
            == l[i]
    &&& distinct_ids(l)
    &&& in_priority_order(l, side)
}

/// Every directory entry is filed under its own identifier, is filled
/// exactly when nothing remains of it, and rests on its side's ladder if it
/// is still open.
pub open spec fn directory_wf(s: BookState) -> bool {
    forall|k: u128| #[trigger]
        s.directory.contains_key(k) ==> {
            let o = s.directory[k];
            &&& o.id == k
            &&& o.remaining_quantity <= o.original_quantity
            &&& (o.status == OrderStatus::FILLED <==> o.remaining_quantity == 0)
            &&& (is_open(o.status) ==> ladder(s, o.side).contains(o))
        }
}

/// The best bid is below the best ask whenever both exist.
pub open spec fn not_crossed(s: BookState) -> bool {
    s.bids.len() > 0 && s.asks.len() > 0 ==> price_of(s.bids[0]) < price_of(s.asks[0])
}

/// The invariant of a book at rest.
pub open spec fn book_wf(s: BookState) -> bool {
    &&& ladder_wf(s, OrderSide::BUY)
    &&& ladder_wf(s, OrderSide::SELL)
    &&& directory_wf(s)
    &&& not_crossed(s)
}

/// What a submitted order must satisfy.
pub open spec fn acceptable(s: BookState, order: Order) -> bool {
    &&& order.instrument_id == s.instrument
    &&& !s.directory.contains_key(order.id)
    &&& 0 < order.original_quantity
    &&& order.remaining_quantity <= order.original_quantity
    &&& match order.order_type {
        OrderType::LIMIT => order.price is Some && price_of(order) > 0,
        OrderType::MARKET => order.price is None,
    }
}

} // verus!

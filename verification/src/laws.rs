//! What holds of every book: laws of matching, resting and cancelling,
//! stated over the model and proved from its definitions.

use vstd::prelude::*;
use crate::models::{Order, OrderSide, Trade};
use crate::book_model::{
    acceptable, after_fill, at_price, book_wf, cancellable, cancelled, crosses, directory_after,
    enqueue, file_order, fill_front, filled_quantity, in_priority_order, is_open, ladder,
    ladder_wf, level, limit_of, match_against, matched, matching, not_crossed, other_side,
    outranks, price_of, queue_position, records, rest_order, resting_ok, resting_quantity, rests,
    settled, submitted, terminal_kept, touches, BookState, Fill,
};
use crate::book_proofs::{
    lemma_cancel_wf, lemma_file_order_wf, lemma_fill_front_wf, lemma_queue_position,
    lemma_rest_order_wf,
};

verus! {

/// Quantity is conserved. Matching takes from the incoming order exactly
/// what the fills give it, and takes from the ladder exactly the same; each
/// fill takes from its maker no more than the maker had, and leaves it with
/// exactly that much less.
pub proof fn lemma_quantity_conserved(
    opp: Seq<Order>,
    side: OrderSide,
    limit: Option<u128>,
    remaining: u128,
)
    ensures
        match_against(opp, side, limit, remaining).remaining + filled_quantity(
            match_against(opp, side, limit, remaining).fills,
        ) == remaining,
        resting_quantity(match_against(opp, side, limit, remaining).rest) + filled_quantity(
            match_against(opp, side, limit, remaining).fills,
        ) == resting_quantity(opp),
        forall|i: int|
            0 <= i < match_against(opp, side, limit, remaining).fills.len() ==> {
                let f = #[trigger] match_against(opp, side, limit, remaining).fills[i];
                &&& f.maker.remaining_quantity > 0 ==> f.quantity > 0
                &&& f.quantity <= f.maker.remaining_quantity
                &&& after_fill(f.maker, f.quantity).remaining_quantity == f.maker.remaining_quantity
                    - f.quantity
            },
    decreases opp.len(),
{
    let m = match_against(opp, side, limit, remaining);
    if remaining == 0 || opp.len() == 0 || !crosses(side, limit, price_of(opp[0])) {
    } else if opp[0].remaining_quantity <= remaining {
        let q = opp[0].remaining_quantity;
        let later = match_against(opp.drop_first(), side, limit, (remaining - q) as u128);
        lemma_quantity_conserved(opp.drop_first(), side, limit, (remaining - q) as u128);
        assert(m.fills.drop_first() =~= later.fills);
        assert(m.fills[0].quantity == q);
        assert(filled_quantity(m.fills) == q + filled_quantity(later.fills));
        assert(resting_quantity(opp) == q + resting_quantity(opp.drop_first()));
        assert forall|i: int| 0 <= i < m.fills.len() implies ({
            let f = #[trigger] m.fills[i];
            &&& f.maker.remaining_quantity > 0 ==> f.quantity > 0
            &&& f.quantity <= f.maker.remaining_quantity
            &&& after_fill(f.maker, f.quantity).remaining_quantity == f.maker.remaining_quantity
                - f.quantity
        }) by {
            if i > 0 {
                assert(m.fills[i] == later.fills[i - 1]);
            }
        }
    } else {
        assert(m.fills.drop_first() =~= Seq::<Fill>::empty());
        assert(filled_quantity(m.fills.drop_first()) == 0);
        assert(filled_quantity(m.fills) == remaining);
        assert(m.rest.drop_first() =~= opp.drop_first());
        assert(resting_quantity(m.rest) == m.rest[0].remaining_quantity + resting_quantity(
            opp.drop_first(),
        ));
        assert(resting_quantity(opp) == opp[0].remaining_quantity + resting_quantity(
            opp.drop_first(),
        ));
    }
}

/// Matching walks the ladder from its front. The fills take the orders of
/// the ladder one by one in queue order, and what is left of the ladder
/// keeps its order: so at one price the earliest order always trades first.
pub proof fn lemma_fills_follow_queue(
    opp: Seq<Order>,
    side: OrderSide,
    limit: Option<u128>,
    remaining: u128,
)
    ensures
        match_against(opp, side, limit, remaining).fills.len() <= opp.len(),
        match_against(opp, side, limit, remaining).rest.len() <= opp.len(),
        forall|i: int|
            0 <= i < match_against(opp, side, limit, remaining).fills.len() ==> (
            #[trigger] match_against(opp, side, limit, remaining).fills[i]).maker == opp[i],
        forall|j: int|
            0 <= j < match_against(opp, side, limit, remaining).rest.len() ==> (
            #[trigger] match_against(opp, side, limit, remaining).rest[j]).id == opp[opp.len()
                - match_against(opp, side, limit, remaining).rest.len() + j].id,
        opp.len() - match_against(opp, side, limit, remaining).rest.len() <= match_against(
            opp,
            side,
            limit,
            remaining,
        ).fills.len() <= opp.len() - match_against(opp, side, limit, remaining).rest.len() + 1,
    decreases opp.len(),
{
    let m = match_against(opp, side, limit, remaining);
    if remaining == 0 || opp.len() == 0 || !crosses(side, limit, price_of(opp[0])) {
    } else if opp[0].remaining_quantity <= remaining {
        let q = opp[0].remaining_quantity;
        let tail = opp.drop_first();
        let later = match_against(tail, side, limit, (remaining - q) as u128);
        lemma_fills_follow_queue(tail, side, limit, (remaining - q) as u128);
        assert forall|i: int| 0 <= i < m.fills.len() implies (#[trigger] m.fills[i]).maker
            == opp[i] by {
            if i > 0 {
                assert(m.fills[i] == later.fills[i - 1]);
                assert(tail[i - 1] == opp[i]);
            }
        }
        assert forall|j: int| 0 <= j < m.rest.len() implies (#[trigger] m.rest[j]).id == opp[opp.len()
            - m.rest.len() + j].id by {
            assert(m.rest[j] == later.rest[j]);
            assert(tail[tail.len() - later.rest.len() + j] == opp[opp.len() - m.rest.len() + j]);
        }
    } else {
    }
}

/// Price priority. On a ladder in priority order, no order that is present
/// when a fill is made has a better price than the fill's maker.
pub proof fn lemma_price_priority(
    opp: Seq<Order>,
    side: OrderSide,
    limit: Option<u128>,
    remaining: u128,
)
    requires
        in_priority_order(opp, other_side(side)),
    ensures
        forall|i: int, j: int|
            0 <= i < match_against(opp, side, limit, remaining).fills.len() && i <= j < opp.len()
                ==> !outranks(
                other_side(side),
                price_of(#[trigger] opp[j]),
                price_of((#[trigger] match_against(opp, side, limit, remaining).fills[i]).maker),
            ),
{
    let m = match_against(opp, side, limit, remaining);
    lemma_fills_follow_queue(opp, side, limit, remaining);
    assert forall|i: int, j: int| 0 <= i < m.fills.len() && i <= j < opp.len() implies !outranks(
        other_side(side),
        price_of(#[trigger] opp[j]),
        price_of((#[trigger] m.fills[i]).maker),
    ) by {
        assert(m.fills[i].maker == opp[i]);
        if i < j {
            assert(!outranks(other_side(side), price_of(opp[j]), price_of(opp[i])));
        }
    }
}

/// A trade is made at the maker's price and for the fill's quantity,
/// whatever price the incoming order named.
pub proof fn lemma_trade_at_maker_price(t: Trade, f: Fill, taker: Order, instrument: u128)
    requires
        records(t, f, taker, instrument),
    ensures
        t.price == price_of(f.maker),
        t.quantity == f.quantity,
{
}

/// Time priority on arrival. An order that joins a ladder in priority order
/// stands behind every order of its own price, and the orders that were
/// there keep their places relative to one another.
pub proof fn lemma_joins_behind_equal_price(l: Seq<Order>, side: OrderSide, order: Order)
    requires
        in_priority_order(l, side),
    ensures
        queue_position(l, side, price_of(order)) <= l.len(),
        enqueue(l, side, order)[queue_position(l, side, price_of(order)) as int] == order,
        enqueue(l, side, order).len() == l.len() + 1,
        forall|i: int|
            0 <= i < l.len() && price_of(#[trigger] l[i]) == price_of(order) ==> i
                < queue_position(l, side, price_of(order)),
        forall|i: int|
            0 <= i < l.len() ==> #[trigger] l[i] == enqueue(l, side, order)[if i < queue_position(
                l,
                side,
                price_of(order),
            ) {
                i
            } else {
                i + 1
            }],
{
    let pos = queue_position(l, side, price_of(order)) as int;
    lemma_queue_position(l, side, price_of(order));
    l.insert_ensures(pos, order);
    assert forall|i: int| 0 <= i < l.len() && price_of(#[trigger] l[i]) == price_of(
        order,
    ) implies i < pos by {
        if i >= pos {
            assert(outranks(side, price_of(order), price_of(l[i])));
        }
    }
}

/// An order that joins a ladder in priority order goes to the tail of the
/// level of its own price, and every other level stays as it was.
pub proof fn lemma_joins_tail_of_level(l: Seq<Order>, side: OrderSide, order: Order, price: u128)
    requires
        in_priority_order(l, side),
    ensures
        level(enqueue(l, side, order), price) == (if price == price_of(order) {
            level(l, price).push(order)
        } else {
            level(l, price)
        }),
{
    let pos = queue_position(l, side, price_of(order)) as int;
    lemma_queue_position(l, side, price_of(order));
    let before = l.subrange(0, pos);
    let behind = l.subrange(pos, l.len() as int);
    let pred = at_price(price);
    assert(l =~= before + behind);
    assert(enqueue(l, side, order) =~= before.push(order) + behind);
    Seq::filter_distributes_over_add(before, behind, pred);
    Seq::filter_distributes_over_add(before.push(order), behind, pred);
    assert(before.push(order).drop_last() =~= before);
    assert(before.push(order).filter(pred) == (if pred(order) {
        before.filter(pred).push(order)
    } else {
        before.filter(pred)
    })) by {
        reveal(Seq::filter);
    }
    if price == price_of(order) {
        assert(behind.all(|o: Order| !pred(o))) by {
            assert forall|i: int| 0 <= i < behind.len() implies !pred(#[trigger] behind[i]) by {
                assert(behind[i] == l[pos + i]);
                assert(outranks(side, price_of(order), price_of(l[pos + i])));
            }
        }
        behind.lemma_all_neg_filter_empty(pred);
        assert(behind.filter(pred) =~= Seq::<Order>::empty());
        assert(before.filter(pred).push(order) + behind.filter(pred) =~= (before.filter(pred)
            + behind.filter(pred)).push(order));
    }
}

/// A valid book is not crossed: the best bid is below the best ask.
pub proof fn lemma_book_not_crossed(s: BookState)
    requires
        book_wf(s),
        s.bids.len() > 0,
        s.asks.len() > 0,
    ensures
        price_of(s.bids[0]) < price_of(s.asks[0]),
{
}

/// Every order resting on a valid book is filed in the directory as it
/// rests, open and with quantity left.
pub proof fn lemma_resting_orders_filed(s: BookState, side: OrderSide, i: int)
    requires
        book_wf(s),
        0 <= i < ladder(s, side).len(),
    ensures
        s.directory.contains_key(ladder(s, side)[i].id),
        s.directory[ladder(s, side)[i].id] == ladder(s, side)[i],
        is_open(ladder(s, side)[i].status),
        ladder(s, side)[i].remaining_quantity > 0,
{
    let l = ladder(s, side);
    if side == OrderSide::BUY {
        assert(ladder_wf(s, OrderSide::BUY));
    } else {
        assert(ladder_wf(s, OrderSide::SELL));
    }
    assert(resting_ok(l[i], side, s.instrument));
}

/// An order that has come to its end, or that the book does not know,
/// cannot be cancelled: the book stays as it is. After a cancel the order is
/// at its end, so a second cancel changes nothing.
pub proof fn lemma_cancel_idempotent(s: BookState, id: u128)
    ensures
        !cancellable(s, id) ==> cancelled(s, id) == s,
        !cancellable(cancelled(s, id), id),
        cancelled(cancelled(s, id), id) == cancelled(s, id),
{
}

/// Refreshing the directory for a first fill and then for the others gives
/// the directory of all the fills.
pub proof fn lemma_directory_after_first(directory: Map<u128, Order>, f: Fill, fills: Seq<Fill>)
    ensures
        directory_after(directory, seq![f] + fills) == directory_after(
            directory.insert(f.maker.id, after_fill(f.maker, f.quantity)),
            fills,
        ),
    decreases fills.len(),
{
    let all = seq![f] + fills;
    if fills.len() == 0 {
        assert(all.drop_last() =~= Seq::<Fill>::empty());
        assert(directory_after(directory, all.drop_last()) == directory);
    } else {
        assert(all.drop_last() =~= seq![f] + fills.drop_last());
        assert(all.last() == fills.last());
        lemma_directory_after_first(directory, f, fills.drop_last());
    }
}

/// Refreshing the directory for fills of different makers files each maker
/// as its fill leaves it, and leaves every other entry alone.
pub proof fn lemma_directory_after_pointwise(directory: Map<u128, Order>, fills: Seq<Fill>)
    requires
        forall|i: int, j: int|
            0 <= i < j < fills.len() ==> (#[trigger] fills[i]).maker.id != (
            #[trigger] fills[j]).maker.id,
    ensures
        forall|i: int|
            0 <= i < fills.len() ==> directory_after(directory, fills).contains_key(
                (#[trigger] fills[i]).maker.id,
            ) && directory_after(directory, fills)[fills[i].maker.id] == after_fill(
                fills[i].maker,
                fills[i].quantity,
            ),
        forall|k: u128|
            !#[trigger] touches(fills, k) ==> (directory_after(directory, fills).contains_key(k)
                <==> directory.contains_key(k)) && directory_after(directory, fills)[k]
                == directory[k],
    decreases fills.len(),
{
    if fills.len() > 0 {
        let earlier = fills.drop_last();
        let f = fills.last();
        let after = directory_after(directory, fills);
        assert forall|i: int, j: int| 0 <= i < j < earlier.len() implies (
        #[trigger] earlier[i]).maker.id != (#[trigger] earlier[j]).maker.id by {
            assert(earlier[i] == fills[i] && earlier[j] == fills[j]);
        }
        lemma_directory_after_pointwise(directory, earlier);
        assert forall|i: int| 0 <= i < fills.len() implies after.contains_key(
            (#[trigger] fills[i]).maker.id,
        ) && after[fills[i].maker.id] == after_fill(fills[i].maker, fills[i].quantity) by {
            if i < earlier.len() {
                assert(earlier[i] == fills[i]);
                assert(fills[i].maker.id != fills[fills.len() - 1].maker.id);
            }
        }
        assert forall|k: u128| !#[trigger] touches(fills, k) implies (after.contains_key(k)
            <==> directory.contains_key(k)) && after[k] == directory[k] by {
            assert(fills[fills.len() - 1].maker.id != k);
            if touches(earlier, k) {
                let i = choose|i: int| 0 <= i < earlier.len() && (#[trigger] earlier[i]).maker.id == k;
                assert(fills[i].maker.id == k);
            }
        }
    }
}

/// The directory after a submission. The incoming order is filed as it was
/// settled; each resting order it traded with is filed as its fill left it;
/// every other entry is as it was before.
pub proof fn lemma_directory_update(s: BookState, order: Order)
    requires
        book_wf(s),
        acceptable(s, order),
    ensures
        submitted(s, order).directory.contains_key(order.id),
        submitted(s, order).directory[order.id] == settled(order, matching(s, order)),
        forall|i: int|
            0 <= i < matching(s, order).fills.len() ==> submitted(s, order).directory.contains_key(
                (#[trigger] matching(s, order).fills[i]).maker.id,
            ) && submitted(s, order).directory[matching(s, order).fills[i].maker.id] == after_fill(
                matching(s, order).fills[i].maker,
                matching(s, order).fills[i].quantity,
            ),
        forall|k: u128|
            k != order.id && !#[trigger] touches(matching(s, order).fills, k) ==> (submitted(
                s,
                order,
            ).directory.contains_key(k) <==> s.directory.contains_key(k)) && submitted(
                s,
                order,
            ).directory[k] == s.directory[k],
{
    let opp_side = other_side(order.side);
    let opp = ladder(s, opp_side);
    let m = matching(s, order);
    lemma_fills_follow_queue(opp, order.side, limit_of(order), order.remaining_quantity);
    assert(ladder_wf(s, opp_side));
    assert forall|i: int, j: int| 0 <= i < j < m.fills.len() implies (
    #[trigger] m.fills[i]).maker.id != (#[trigger] m.fills[j]).maker.id by {
        assert(m.fills[i].maker == opp[i] && m.fills[j].maker == opp[j]);
        assert(opp[i].id != opp[j].id);
    }
    lemma_directory_after_pointwise(s.directory, m.fills);
    assert forall|i: int| 0 <= i < m.fills.len() implies (#[trigger] m.fills[i]).maker.id
        != order.id by {
        assert(m.fills[i].maker == opp[i]);
        assert(s.directory.contains_key(opp[i].id));
    }
}

/// Matching keeps a valid book valid. It leaves the incoming order's own
/// ladder and every order that has come to its end as they were, files
/// nothing under the incoming order's identifier, and stops only when the
/// order is used up or no price within its reach is left.
pub proof fn lemma_matching_keeps_valid(s: BookState, order: Order)
    requires
        book_wf(s),
        !s.directory.contains_key(order.id),
    ensures
        book_wf(matched(s, order)),
        !matched(s, order).directory.contains_key(order.id),
        terminal_kept(s.directory, matched(s, order).directory),
        ladder(matched(s, order), order.side) == ladder(s, order.side),
        matching(s, order).remaining <= order.remaining_quantity,
        matching(s, order).remaining > 0 && matching(s, order).rest.len() > 0 ==> !crosses(
            order.side,
            limit_of(order),
            price_of(matching(s, order).rest[0]),
        ),
    decreases ladder(s, other_side(order.side)).len(),
{
    let side = order.side;
    let opp = ladder(s, other_side(side));
    let remaining = order.remaining_quantity;
    if remaining == 0 || opp.len() == 0 || !crosses(side, limit_of(order), price_of(opp[0])) {
        assert(matched(s, order) == s);
    } else {
        let front = opp[0];
        assert(resting_ok(front, other_side(side), s.instrument));
        assert(s.directory.contains_key(front.id) && s.directory[front.id] == front);
        let q = if front.remaining_quantity <= remaining {
            front.remaining_quantity
        } else {
            remaining
        };
        let stepped = fill_front(s, side, q);
        lemma_fill_front_wf(s, side, q);
        assert(terminal_kept(s.directory, stepped.directory));
        if front.remaining_quantity <= remaining {
            let rest_of_order = Order { remaining_quantity: (remaining - q) as u128, ..order };
            assert(ladder(stepped, other_side(side)) == opp.drop_first());
            assert(matching(stepped, rest_of_order) == match_against(
                opp.drop_first(),
                side,
                limit_of(order),
                (remaining - q) as u128,
            ));
            lemma_matching_keeps_valid(stepped, rest_of_order);
            lemma_directory_after_first(
                s.directory,
                Fill { maker: front, quantity: q },
                matching(stepped, rest_of_order).fills,
            );
            assert(matched(s, order) == matched(stepped, rest_of_order));
        } else {
            let only = seq![Fill { maker: front, quantity: q }];
            assert(only.drop_last() =~= Seq::<Fill>::empty());
            assert(directory_after(s.directory, only.drop_last()) == s.directory);
            assert(directory_after(s.directory, only) == stepped.directory);
            assert(matched(s, order) == stepped);
        }
    }
}

/// Submitting an acceptable order keeps a valid book valid: the result is
/// not crossed, every resting order is filed as it rests, and every order
/// that had come to its end before is unchanged.
pub proof fn lemma_submit_keeps_valid(s: BookState, order: Order)
    requires
        book_wf(s),
        acceptable(s, order),
    ensures
        book_wf(submitted(s, order)),
        not_crossed(submitted(s, order)),
        terminal_kept(s.directory, submitted(s, order).directory),
{
    let m = matching(s, order);
    let mid = matched(s, order);
    let done = settled(order, m);
    lemma_matching_keeps_valid(s, order);
    if rests(done) {
        assert(ladder(mid, other_side(order.side)) == m.rest);
        lemma_rest_order_wf(mid, done);
        assert(submitted(s, order) == rest_order(mid, done));
    } else {
        lemma_file_order_wf(mid, done);
        assert(submitted(s, order) == file_order(mid, done));
    }
}

/// Cancelling keeps a valid book valid, and leaves every order that had
/// come to its end before unchanged.
pub proof fn lemma_cancel_keeps_valid(s: BookState, id: u128)
    requires
        book_wf(s),
    ensures
        book_wf(cancelled(s, id)),
        not_crossed(cancelled(s, id)),
        terminal_kept(s.directory, cancelled(s, id).directory),
{
    if cancellable(s, id) {
        lemma_cancel_wf(s, id);
    }
}

} // verus!

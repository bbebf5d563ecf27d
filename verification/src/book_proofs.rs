//! Proofs that each step of matching, resting and cancelling keeps the
//! invariant of the book.

use vstd::prelude::*;
use crate::models::{Order, OrderSide, OrderStatus};
use crate::book_model::{
    book_wf, cancellable, cancelled, crosses, distinct_ids, file_order, fill_front,
    in_priority_order, is_open, ladder, ladder_wf, not_crossed, other_side, outranks, price_of,
    queue_position, rest_order, resting_ok, BookState,
};

verus! {

/// An order resting on one ladder has an identifier that no order on the
/// other ladder has.
pub proof fn lemma_ladders_disjoint(s: BookState, i: int, j: int)
    requires
        book_wf(s),
        0 <= i < s.bids.len(),
        0 <= j < s.asks.len(),
    ensures
        s.bids[i].id != s.asks[j].id,
{
    assert(ladder(s, OrderSide::BUY)[i] == s.bids[i]);
    assert(ladder(s, OrderSide::SELL)[j] == s.asks[j]);
    assert(resting_ok(s.bids[i], OrderSide::BUY, s.instrument));
    assert(resting_ok(s.asks[j], OrderSide::SELL, s.instrument));
    assert(s.directory[s.bids[i].id] == s.bids[i]);
    assert(s.directory[s.asks[j].id] == s.asks[j]);
}

/// Taking quantity from the best opposite order keeps the book valid.
pub proof fn lemma_fill_front_wf(s: BookState, taker: OrderSide, q: u128)
    requires
        book_wf(s),
        ladder(s, other_side(taker)).len() > 0,
        q <= ladder(s, other_side(taker))[0].remaining_quantity,
    ensures
        book_wf(fill_front(s, taker, q)),
{
    let opp = other_side(taker);
    let l = ladder(s, opp);
    let own = ladder(s, taker);
    let front = l[0];
    let next = fill_front(s, taker, q);
    let next_l = ladder(next, opp);
    let next_d = next.directory;
    let full = q == front.remaining_quantity;
    assert(ladder(next, taker) == own);
    assert(resting_ok(front, opp, s.instrument));
    assert(s.directory.contains_key(front.id) && s.directory[front.id] == front);
    assert forall|i: int| 0 <= i < next_l.len() implies resting_ok(#[trigger] next_l[i], opp, next.instrument)
        && next_d.contains_key(next_l[i].id) && next_d[next_l[i].id] == next_l[i] by {
        if full {
            assert(next_l[i] == l[i + 1]);
            assert(l[0].id != l[i + 1].id);
        } else if i > 0 {
            assert(next_l[i] == l[i]);
            assert(l[0].id != l[i].id);
        }
    }
    assert(distinct_ids(next_l)) by {
        assert forall|i: int, j: int| 0 <= i < j < next_l.len() implies (#[trigger] next_l[i]).id != (
        #[trigger] next_l[j]).id by {
            if full {
                assert(l[i + 1].id != l[j + 1].id);
            } else {
                assert(l[i].id != l[j].id);
            }
        }
    }
    assert(in_priority_order(next_l, opp)) by {
        assert forall|i: int, j: int| 0 <= i < j < next_l.len() implies !outranks(
            opp,
            price_of(#[trigger] next_l[j]),
            price_of(#[trigger] next_l[i]),
        ) by {
            if full {
                assert(!outranks(opp, price_of(l[j + 1]), price_of(l[i + 1])));
            } else {
                assert(!outranks(opp, price_of(l[j]), price_of(l[i])));
            }
        }
    }
    assert forall|i: int| 0 <= i < own.len() implies resting_ok(
        #[trigger] own[i],
        taker,
        next.instrument,
    ) && next_d.contains_key(own[i].id) && next_d[own[i].id] == own[i] by {
        if taker == OrderSide::BUY {
            lemma_ladders_disjoint(s, i, 0);
        } else {
            lemma_ladders_disjoint(s, 0, i);
        }
    }
    assert(ladder_wf(next, opp));
    assert(ladder_wf(next, taker));
    assert forall|k: u128| #[trigger] next_d.contains_key(k) implies ({
        let o = next_d[k];
        &&& o.id == k
        &&& o.remaining_quantity <= o.original_quantity
        &&& (o.status == OrderStatus::FILLED <==> o.remaining_quantity == 0)
        &&& (is_open(o.status) ==> ladder(next, o.side).contains(o))
    }) by {
        let o = next_d[k];
        if k == front.id {
            if !full {
                assert(next_l[0] == o);
            }
        } else {
            assert(s.directory.contains_key(k));
            if is_open(o.status) {
                let lo = ladder(s, o.side);
                assert(lo.contains(o));
                let i = lo.index_of(o);
                if o.side == opp {
                    assert(i != 0);
                    if full {
                        assert(next_l[i - 1] == o);
                    } else {
                        assert(next_l[i] == o);
                    }
                } else {
                    assert(ladder(next, o.side)[i] == o);
                }
            }
        }
    }
    assert(not_crossed(next)) by {
        if next.bids.len() > 0 && next.asks.len() > 0 {
            if full {
                assert(next_l[0] == l[1]);
                assert(!outranks(opp, price_of(l[1]), price_of(l[0])));
            } else {
                assert(price_of(next_l[0]) == price_of(l[0]));
            }
        }
    }
}

/// The queue position splits a ladder in priority order: the new price
/// outranks no order before the position and every order from it on.
pub proof fn lemma_queue_position(l: Seq<Order>, side: OrderSide, price: u128)
    requires
        in_priority_order(l, side),
    ensures
        queue_position(l, side, price) <= l.len(),
        forall|i: int|
            0 <= i < queue_position(l, side, price) ==> !outranks(
                side,
                price,
                price_of(#[trigger] l[i]),
            ),
        forall|i: int|
            queue_position(l, side, price) <= i < l.len() ==> outranks(
                side,
                price,
                price_of(#[trigger] l[i]),
            ),
    decreases l.len(),
{
    if l.len() == 0 {
    } else if outranks(side, price, price_of(l.last())) {
        let front = l.drop_last();
        assert forall|i: int, j: int| 0 <= i < j < front.len() implies !outranks(
            side,
            price_of(#[trigger] front[j]),
            price_of(#[trigger] front[i]),
        ) by {
            assert(!outranks(side, price_of(l[j]), price_of(l[i])));
        }
        lemma_queue_position(front, side, price);
        assert forall|i: int| 0 <= i < queue_position(l, side, price) implies !outranks(
            side,
            price,
            price_of(#[trigger] l[i]),
        ) by {
            assert(l[i] == front[i]);
        }
        assert forall|i: int| queue_position(l, side, price) <= i < l.len() implies outranks(
            side,
            price,
            price_of(#[trigger] l[i]),
        ) by {
            if i < front.len() {
                assert(l[i] == front[i]);
            }
        }
    } else {
        let last = l.len() - 1;
        assert forall|i: int| 0 <= i < l.len() implies !outranks(
            side,
            price,
            price_of(#[trigger] l[i]),
        ) by {
            if i < last {
                assert(!outranks(side, price_of(l[last]), price_of(l[i])));
            }
        }
    }
}

/// Filing an order that has come to its end keeps the book valid.
pub proof fn lemma_file_order_wf(s: BookState, o: Order)
    requires
        book_wf(s),
        !s.directory.contains_key(o.id),
        !is_open(o.status),
        o.remaining_quantity <= o.original_quantity,
        o.status == OrderStatus::FILLED <==> o.remaining_quantity == 0,
    ensures
        book_wf(file_order(s, o)),
{
    let next = file_order(s, o);
    assert forall|k: u128| #[trigger] next.directory.contains_key(k) implies ({
        let e = next.directory[k];
        &&& e.id == k
        &&& e.remaining_quantity <= e.original_quantity
        &&& (e.status == OrderStatus::FILLED <==> e.remaining_quantity == 0)
        &&& (is_open(e.status) ==> ladder(next, e.side).contains(e))
    }) by {
        if k != o.id {
            assert(s.directory.contains_key(k));
        }
    }
    assert(ladder(next, OrderSide::BUY) == ladder(s, OrderSide::BUY));
    assert(ladder(next, OrderSide::SELL) == ladder(s, OrderSide::SELL));
}

/// Resting a new order that crosses nothing keeps the book valid.
pub proof fn lemma_rest_order_wf(s: BookState, o: Order)
    requires
        book_wf(s),
        !s.directory.contains_key(o.id),
        resting_ok(o, o.side, s.instrument),
        ladder(s, other_side(o.side)).len() > 0 ==> !crosses(
            o.side,
            o.price,
            price_of(ladder(s, other_side(o.side))[0]),
        ),
    ensures
        book_wf(rest_order(s, o)),
{
    let side = o.side;
    let opp = other_side(side);
    let l = ladder(s, side);
    let other = ladder(s, opp);
    let pos = queue_position(l, side, price_of(o)) as int;
    let next = rest_order(s, o);
    let next_l = ladder(next, side);
    let next_d = next.directory;
    lemma_queue_position(l, side, price_of(o));
    l.insert_ensures(pos, o);
    assert(ladder(next, opp) == other);
    assert(next_l == l.insert(pos, o));
    assert forall|i: int| 0 <= i < next_l.len() implies resting_ok(#[trigger] next_l[i], side, next.instrument)
        && next_d.contains_key(next_l[i].id) && next_d[next_l[i].id] == next_l[i] by {
        if i < pos {
            assert(next_l[i] == l[i]);
        } else if i > pos {
            assert(next_l[(i - 1) + 1] == l[i - 1]);
        }
    }
    assert(distinct_ids(next_l)) by {
        assert forall|i: int, j: int| 0 <= i < j < next_l.len() implies (#[trigger] next_l[i]).id != (
        #[trigger] next_l[j]).id by {
            let a = if i < pos { i } else { i - 1 };
            let b = if j < pos { j } else { j - 1 };
            if i != pos {
                assert(next_l[i] == l[a]) by {
                    if i > pos {
                        assert(next_l[(i - 1) + 1] == l[i - 1]);
                    }
                }
                assert(s.directory.contains_key(l[a].id));
            }
            if j != pos {
                assert(next_l[j] == l[b]) by {
                    if j > pos {
                        assert(next_l[(j - 1) + 1] == l[j - 1]);
                    }
                }
                assert(s.directory.contains_key(l[b].id));
            }
            if i != pos && j != pos {
                assert(l[a].id != l[b].id);
            }
        }
    }
    assert(in_priority_order(next_l, side)) by {
        assert forall|i: int, j: int| 0 <= i < j < next_l.len() implies !outranks(
            side,
            price_of(#[trigger] next_l[j]),
            price_of(#[trigger] next_l[i]),
        ) by {
            let a = if i < pos { i } else { i - 1 };
            let b = if j < pos { j } else { j - 1 };
            if i != pos {
                assert(next_l[i] == l[a]) by {
                    if i > pos {
                        assert(next_l[(i - 1) + 1] == l[i - 1]);
                    }
                }
            }
            if j != pos {
                assert(next_l[j] == l[b]) by {
                    if j > pos {
                        assert(next_l[(j - 1) + 1] == l[j - 1]);
                    }
                }
            }
            if i != pos && j != pos {
                assert(!outranks(side, price_of(l[b]), price_of(l[a])));
            } else if i == pos {
                assert(outranks(side, price_of(o), price_of(l[b])));
            } else {
                assert(!outranks(side, price_of(o), price_of(l[a])));
            }
        }
    }
    assert forall|i: int| 0 <= i < other.len() implies resting_ok(
        #[trigger] other[i],
        opp,
        next.instrument,
    ) && next_d.contains_key(other[i].id) && next_d[other[i].id] == other[i] by {
        assert(s.directory.contains_key(other[i].id));
    }
    assert(ladder_wf(next, side));
    assert(ladder_wf(next, opp));
    assert forall|k: u128| #[trigger] next_d.contains_key(k) implies ({
        let e = next_d[k];
        &&& e.id == k
        &&& e.remaining_quantity <= e.original_quantity
        &&& (e.status == OrderStatus::FILLED <==> e.remaining_quantity == 0)
        &&& (is_open(e.status) ==> ladder(next, e.side).contains(e))
    }) by {
        let e = next_d[k];
        if k == o.id {
            assert(next_l[pos] == e);
        } else {
            assert(s.directory.contains_key(k));
            if is_open(e.status) {
                let le = ladder(s, e.side);
                assert(le.contains(e));
                let i = le.index_of(e);
                if e.side == side {
                    if i < pos {
                        assert(next_l[i] == e);
                    } else {
                        assert(next_l[i + 1] == e);
                    }
                } else {
                    assert(ladder(next, e.side)[i] == e);
                }
            }
        }
    }
    assert(not_crossed(next)) by {
        if next.bids.len() > 0 && next.asks.len() > 0 {
            if pos == 0 {
                assert(next_l[0] == o);
            } else {
                assert(next_l[0] == l[0]);
            }
        }
    }
}

/// Cancelling an open order keeps the book valid.
pub proof fn lemma_cancel_wf(s: BookState, id: u128)
    requires
        book_wf(s),
        cancellable(s, id),
    ensures
        book_wf(cancelled(s, id)),
{
    let o = s.directory[id];
    let side = o.side;
    let opp = other_side(side);
    let l = ladder(s, side);
    let other = ladder(s, opp);
    assert(l.contains(o));
    let pos = l.index_of(o);
    let next = cancelled(s, id);
    let next_l = ladder(next, side);
    let next_d = next.directory;
    l.remove_ensures(pos);
    assert(ladder(next, opp) == other);
    assert(next_l == l.remove(pos));
    assert forall|i: int| 0 <= i < next_l.len() implies next_l[i] == l[if i < pos { i } else { i + 1 }] by {}
    assert forall|i: int| 0 <= i < next_l.len() implies resting_ok(#[trigger] next_l[i], side, next.instrument)
        && next_d.contains_key(next_l[i].id) && next_d[next_l[i].id] == next_l[i] by {
        let a = if i < pos { i } else { i + 1 };
        assert(next_l[i] == l[a]);
        assert(l[a].id != l[pos].id);
    }
    assert(distinct_ids(next_l)) by {
        assert forall|i: int, j: int| 0 <= i < j < next_l.len() implies (#[trigger] next_l[i]).id != (
        #[trigger] next_l[j]).id by {
            let a = if i < pos { i } else { i + 1 };
            let b = if j < pos { j } else { j + 1 };
            assert(next_l[i] == l[a] && next_l[j] == l[b]);
            assert(l[a].id != l[b].id);
        }
    }
    assert(in_priority_order(next_l, side)) by {
        assert forall|i: int, j: int| 0 <= i < j < next_l.len() implies !outranks(
            side,
            price_of(#[trigger] next_l[j]),
            price_of(#[trigger] next_l[i]),
        ) by {
            let a = if i < pos { i } else { i + 1 };
            let b = if j < pos { j } else { j + 1 };
            assert(next_l[i] == l[a] && next_l[j] == l[b]);
            assert(!outranks(side, price_of(l[b]), price_of(l[a])));
        }
    }
    assert forall|i: int| 0 <= i < other.len() implies resting_ok(
        #[trigger] other[i],
        opp,
        next.instrument,
    ) && next_d.contains_key(other[i].id) && next_d[other[i].id] == other[i] by {
        if side == OrderSide::BUY {
            lemma_ladders_disjoint(s, pos, i);
        } else {
            lemma_ladders_disjoint(s, i, pos);
        }
    }
    assert(ladder_wf(next, side));
    assert(ladder_wf(next, opp));
    assert forall|k: u128| #[trigger] next_d.contains_key(k) implies ({
        let e = next_d[k];
        &&& e.id == k
        &&& e.remaining_quantity <= e.original_quantity
        &&& (e.status == OrderStatus::FILLED <==> e.remaining_quantity == 0)
        &&& (is_open(e.status) ==> ladder(next, e.side).contains(e))
    }) by {
        let e = next_d[k];
        if k == id {
            assert(resting_ok(l[pos], side, s.instrument));
        } else {
            assert(s.directory.contains_key(k));
            if is_open(e.status) {
                let le = ladder(s, e.side);
                assert(le.contains(e));
                let i = le.index_of(e);
                if e.side == side {
                    assert(i != pos);
                    if i < pos {
                        assert(next_l[i] == e);
                    } else {
                        assert(next_l[i - 1] == e);
                    }
                } else {
                    assert(ladder(next, e.side)[i] == e);
                }
            }
        }
    }
    assert(not_crossed(next)) by {
        if next.bids.len() > 0 && next.asks.len() > 0 {
            let a = if 0 < pos { 0 } else { 1int };
            assert(next_l[0] == l[a]);
            assert(a > 0 ==> !outranks(side, price_of(l[a]), price_of(l[0])));
        }
    }
}

} // verus!

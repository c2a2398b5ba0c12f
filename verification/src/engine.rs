//! The matching engine: an incoming order trades against the best opposite
//! price levels, oldest order first within a level, and whatever is left
//! of it rests in the book.
use vstd::prelude::*;

use crate::book::{
    best_price, has_level, is_best_price, level_pos, lemma_levels_replace_queue_facts,
    lemma_levels_replace_queue_wf, levels_replace_queue, prices_within, queue_consistent,
    side_consistent, BookModel, LevelModel, OrderBook,
};
use crate::book_laws::{
    holds, indexed, lemma_insert_indexed, lemma_pop_front_is_without_order,
    lemma_set_front_indexed, lemma_without_order,
};
use crate::types::{Order, OrderId, Price, Quantity, Side, Trade};

verus! {

/// The number of orders resting in `levels`.
pub open spec fn total_orders(levels: Seq<LevelModel>) -> nat
    decreases levels.len(),
{
    if levels.len() == 0 {
        0
    } else {
        total_orders(levels.drop_last()) + levels.last().orders.len()
    }
}

/// Replacing one level changes the count by the difference in its orders.
pub proof fn lemma_total_orders_update(levels: Seq<LevelModel>, i: int, level: LevelModel)
    requires
        0 <= i < levels.len(),
    ensures
        total_orders(levels.update(i, level)) == total_orders(levels) - levels[i].orders.len()
            + level.orders.len(),
    decreases levels.len(),
{
    let r = levels.update(i, level);
    if i < levels.len() - 1 {
        assert(r.drop_last() =~= levels.drop_last().update(i, level));
        lemma_total_orders_update(levels.drop_last(), i, level);
    } else {
        assert(r.drop_last() =~= levels.drop_last());
    }
}

/// Closing one level lowers the count by its orders.
pub proof fn lemma_total_orders_remove(levels: Seq<LevelModel>, i: int)
    requires
        0 <= i < levels.len(),
    ensures
        total_orders(levels.remove(i)) == total_orders(levels) - levels[i].orders.len(),
    decreases levels.len(),
{
    let r = levels.remove(i);
    if i < levels.len() - 1 {
        assert(r.drop_last() =~= levels.drop_last().remove(i));
        assert(r.last() == levels.last());
        lemma_total_orders_remove(levels.drop_last(), i);
    } else {
        assert(r =~= levels.drop_last());
    }
}

/// The incoming order's limit reaches `price`: a buy pays at most its limit,
/// a sell takes at least its limit.
pub open spec fn crosses(incoming: Order, price: Price) -> bool {
    match incoming.side {
        Side::Buy => incoming.price >= price,
        Side::Sell => incoming.price <= price,
    }
}

/// The trade of `quantity` between the incoming order and a resting order,
/// at the resting order's price.
pub open spec fn trade_between(incoming: Order, resting: Order, quantity: Quantity) -> Trade {
    Trade {
        buy_order_id: if incoming.side == Side::Buy {
            incoming.id
        } else {
            resting.id
        },
        sell_order_id: if incoming.side == Side::Sell {
            incoming.id
        } else {
            resting.id
        },
        price: resting.price,
        quantity,
    }
}

/// The smaller of two quantities.
pub open spec fn min_qty(a: Quantity, b: Quantity) -> Quantity {
    if a <= b {
        a
    } else {
        b
    }
}

/// The order with `remaining` lowered by `quantity`.
pub open spec fn reduced(order: Order, quantity: Quantity) -> Order {
    Order { remaining: (order.remaining - quantity) as Quantity, ..order }
}

/// The book after one fill of `quantity` against the oldest order at `price`
/// on `side`: that order is reduced, and taken out if nothing of it is left.
pub open spec fn after_fill(book: BookModel, side: Side, price: Price, quantity: Quantity) -> BookModel {
    let resting = reduced(book.front(side, price).unwrap(), quantity);
    let filled = book.set_front(side, price, resting);
    if resting.remaining == 0 {
        filled.pop_front(side, price).0
    } else {
        filled
    }
}

/// The matching loop. While the incoming order has something left and the
/// best opposite price crosses its limit, it fills against the oldest order at
/// that price for as much as both have. The result is the book and the incoming
/// order when it stops, and the trades made, in order.
pub open spec fn sweep(book: BookModel, incoming: Order) -> (BookModel, Order, Seq<Trade>)
    decreases total_orders(book.levels(incoming.side.opposite())), incoming.remaining
    when book.wf()
{
    let opposite = incoming.side.opposite();
    if incoming.remaining == 0 {
        (book, incoming, Seq::empty())
    } else {
        match book.best(opposite) {
            None => (book, incoming, Seq::empty()),
            Some(price) => {
                if !crosses(incoming, price) || book.front(opposite, price) is None {
                    (book, incoming, Seq::empty())
                } else {
                    let resting = book.front(opposite, price).unwrap();
                    let fill = min_qty(incoming.remaining, resting.remaining);
                    let next = after_fill(book, opposite, price, fill);
                    proof {
                        lemma_after_fill_total(book, opposite, price, fill);
                    }
                    let (end_book, end_incoming, trades) = sweep(next, reduced(incoming, fill));
                    (end_book, end_incoming, seq![trade_between(incoming, resting, fill)] + trades)
                }
            }
        }
    }
}

/// One fill keeps the number of opposite orders, or lowers it by one when the
/// resting order is used up.
pub proof fn lemma_after_fill_total(book: BookModel, side: Side, price: Price, quantity: Quantity)
    requires
        book.wf(),
        book.front(side, price) is Some,
        quantity <= book.front(side, price).unwrap().remaining,
    ensures
        reduced(book.front(side, price).unwrap(), quantity).remaining == 0 ==> total_orders(
            after_fill(book, side, price, quantity).levels(side),
        ) + 1 == total_orders(book.levels(side)),
        reduced(book.front(side, price).unwrap(), quantity).remaining != 0 ==> total_orders(
            after_fill(book, side, price, quantity).levels(side),
        ) == total_orders(book.levels(side)),
{
    let levels = book.levels(side);
    let i = crate::book::level_pos(levels, price);
    let resting = reduced(book.front(side, price).unwrap(), quantity);
    let updated = LevelModel { price: levels[i].price, orders: levels[i].orders.update(0, resting) };
    lemma_total_orders_update(levels, i, updated);
    let filled = book.set_front(side, price, resting);
    assert(filled.levels(side) == levels.update(i, updated));
    if resting.remaining == 0 {
        let fl = filled.levels(side);
        assert(crate::book::has_level(fl, price)) by {
            assert(fl[i].price == price);
        }
        let k = crate::book::level_pos(fl, price);
        assert(fl[k].price == price);
        assert(levels[k].price == fl[k].price);
        assert(k == i);
        let queue = fl[k].orders;
        if queue.len() > 1 {
            lemma_total_orders_update(
                fl,
                k,
                LevelModel { price: fl[k].price, orders: queue.drop_first() },
            );
        } else {
            lemma_total_orders_remove(fl, k);
        }
    }
}

/// A best price of a non-empty side, found level by level.
proof fn lemma_best_witness(levels: Seq<LevelModel>, side: Side) -> (p: Price)
    requires
        levels.len() > 0,
    ensures
        is_best_price(levels, side, p),
    decreases levels.len(),
{
    let last = levels.last().price;
    assert(levels[levels.len() - 1].price == last);
    if levels.len() == 1 {
        last
    } else {
        let init = levels.drop_last();
        let q = lemma_best_witness(init, side);
        let j = choose|j: int| 0 <= j < init.len() && init[j].price == q;
        assert(levels[j].price == q);
        let better_last = match side {
            Side::Buy => last > q,
            Side::Sell => last < q,
        };
        let p = if better_last {
            last
        } else {
            q
        };
        assert forall|i: int| 0 <= i < levels.len() implies match side {
            Side::Buy => #[trigger] levels[i].price <= p,
            Side::Sell => levels[i].price >= p,
        } by {
            if i < levels.len() - 1 {
                assert(levels[i] == init[i]);
            }
        }
        p
    }
}

/// A side with levels has a best price, and it is the price of one of them.
pub proof fn lemma_best_exists(levels: Seq<LevelModel>, side: Side)
    requires
        levels.len() > 0,
    ensures
        best_price(levels, side) is Some,
        is_best_price(levels, side, best_price(levels, side).unwrap()),
{
    let w = lemma_best_witness(levels, side);
    assert(is_best_price(levels, side, w));
}

/// `a` is at least as good a price as `b` for an incoming order of `side`.
pub open spec fn price_order(side: Side, a: Price, b: Price) -> bool {
    match side {
        Side::Buy => a <= b,
        Side::Sell => a >= b,
    }
}

/// The total quantity of a sequence of trades.
pub open spec fn total_quantity(trades: Seq<Trade>) -> nat
    decreases trades.len(),
{
    if trades.len() == 0 {
        0
    } else {
        trades[0].quantity as nat + total_quantity(trades.drop_first())
    }
}

/// The trade names the incoming order on the incoming order's side.
pub open spec fn names_incoming(trade: Trade, incoming: Order) -> bool {
    match incoming.side {
        Side::Buy => trade.buy_order_id == incoming.id,
        Side::Sell => trade.sell_order_id == incoming.id,
    }
}

/// One fill touches only the side it fills on, keeps the book well formed,
/// opens no new price, and keeps that side consistent.
pub proof fn lemma_after_fill(book: BookModel, side: Side, price: Price, quantity: Quantity)
    requires
        book.wf(),
        book.front(side, price) is Some,
        quantity <= book.front(side, price).unwrap().remaining,
    ensures
        after_fill(book, side, price, quantity).wf(),
        after_fill(book, side, price, quantity).levels(side.opposite()) == book.levels(
            side.opposite(),
        ),
        prices_within(after_fill(book, side, price, quantity).levels(side), book.levels(side)),
        side_consistent(book.levels(side), side) ==> side_consistent(
            after_fill(book, side, price, quantity).levels(side),
            side,
        ),
{
    let levels = book.levels(side);
    let i = level_pos(levels, price);
    let front = book.front(side, price).unwrap();
    let resting = reduced(front, quantity);
    let queue = levels[i].orders;
    let updated = LevelModel { price: levels[i].price, orders: queue.update(0, resting) };
    let filled = book.set_front(side, price, resting);
    let fl = levels.update(i, updated);
    assert(filled.levels(side) == fl);
    assert(filled.levels(side.opposite()) == book.levels(side.opposite()));
    crate::book::lemma_levels_set_front_wf(levels, i);
    assert(crate::book::levels_wf(fl));
    assert(prices_within(fl, levels)) by {
        assert forall|a: int| 0 <= a < fl.len() implies has_level(levels, #[trigger] fl[a].price) by {
            assert(fl[a].price == levels[a].price);
        }
    }
    if side_consistent(levels, side) {
        assert(queue_consistent(queue, side, levels[i].price));
        assert(queue_consistent(updated.orders, side, levels[i].price) || resting.remaining == 0)
            by {
            if resting.remaining > 0 {
                assert forall|j: int| 0 <= j < updated.orders.len() implies {
                    let o = #[trigger] updated.orders[j];
                    o.side == side && o.price == levels[i].price && o.remaining > 0
                } by {
                    if j > 0 {
                        assert(updated.orders[j] == queue[j]);
                    }
                }
            }
        }
    }
    if resting.remaining == 0 {
        assert(crate::book::has_level(fl, price)) by {
            assert(fl[i].price == price);
        }
        let k = level_pos(fl, price);
        assert(fl[k].price == price);
        assert(levels[k].price == fl[k].price);
        assert(k == i);
        let rest = updated.orders.drop_first();
        assert(rest =~= queue.drop_first());
        assert(levels_replace_queue(fl, i, rest) =~= levels_replace_queue(levels, i, rest));
        lemma_levels_replace_queue_wf(levels, i, rest);
        lemma_levels_replace_queue_facts(levels, i, rest, side);
        let after = after_fill(book, side, price, quantity);
        assert(after.levels(side) == levels_replace_queue(levels, i, rest));
        if side_consistent(levels, side) {
            assert(queue_consistent(rest, side, levels[i].price)) by {
                assert forall|j: int| 0 <= j < rest.len() implies {
                    let o = #[trigger] rest[j];
                    o.side == side && o.price == levels[i].price && o.remaining > 0
                } by {
                    assert(rest[j] == queue[j + 1]);
                }
            }
        }
    }
}

/// What the matching loop keeps and what it makes: the incoming side is
/// untouched, no opposite price is opened, the quantity traded and the
/// quantity left add up to the incoming quantity, it stops only when the best
/// opposite price no longer crosses, and every trade names the incoming order.
pub open spec fn sweep_shape(book: BookModel, incoming: Order) -> bool {
    let (end_book, left, trades) = sweep(book, incoming);
    let opposite = incoming.side.opposite();
    &&& end_book.wf()
    &&& end_book.levels(incoming.side) == book.levels(incoming.side)
    &&& prices_within(end_book.levels(opposite), book.levels(opposite))
    &&& side_consistent(book.levels(opposite), opposite) ==> side_consistent(
        end_book.levels(opposite),
        opposite,
    )
    &&& left == Order { remaining: left.remaining, ..incoming }
    &&& total_quantity(trades) + left.remaining == incoming.remaining
    &&& left.remaining > 0 ==> match end_book.best(opposite) {
        None => true,
        Some(p) => !crosses(left, p),
    }
    &&& forall|k: int| 0 <= k < trades.len() ==> names_incoming(#[trigger] trades[k], incoming)
}

/// On a consistent opposite side, every trade of the matching loop crosses
/// the incoming limit, is for a positive quantity, comes at a price no better
/// than the best opposite price, and no better than the trade before it.
pub open spec fn sweep_prices(book: BookModel, incoming: Order) -> bool {
    let trades = sweep(book, incoming).2;
    let opposite = incoming.side.opposite();
    side_consistent(book.levels(opposite), opposite) ==> {
        &&& forall|k: int|
            0 <= k < trades.len() ==> {
                &&& crosses(incoming, #[trigger] trades[k].price)
                &&& trades[k].quantity > 0
                &&& book.best(opposite) is Some
                &&& price_order(incoming.side, book.best(opposite).unwrap(), trades[k].price)
            }
        &&& forall|k: int, l: int|
            0 <= k <= l < trades.len() ==> price_order(
                incoming.side,
                #[trigger] trades[k].price,
                #[trigger] trades[l].price,
            )
    }
}

/// Where the best opposite price crosses, the loop takes a step: the front
/// order at that price exists.
proof fn lemma_step_exists(book: BookModel, incoming: Order)
    requires
        book.wf(),
        book.best(incoming.side.opposite()) is Some,
    ensures
        ({
            let opposite = incoming.side.opposite();
            let levels = book.levels(opposite);
            let price = book.best(opposite).unwrap();
            &&& is_best_price(levels, opposite, price)
            &&& book.front(opposite, price) is Some
            &&& book.front(opposite, price).unwrap() == levels[level_pos(levels, price)].orders[0]
            &&& levels[level_pos(levels, price)].price == price
        }),
{
    let opposite = incoming.side.opposite();
    let levels = book.levels(opposite);
    let price = book.best(opposite).unwrap();
    lemma_best_exists(levels, opposite);
    let i = level_pos(levels, price);
    assert(levels[i].price == price);
    assert(levels[i].orders.len() > 0);
}

/// The facts of `sweep_shape`, by induction over the steps of the loop.
pub proof fn lemma_sweep_shape(book: BookModel, incoming: Order)
    requires
        book.wf(),
    ensures
        sweep_shape(book, incoming),
    decreases total_orders(book.levels(incoming.side.opposite())), incoming.remaining,
{
    let opposite = incoming.side.opposite();
    let levels = book.levels(opposite);
    assert(prices_within(levels, levels)) by {
        assert forall|a: int| 0 <= a < levels.len() implies has_level(
            levels,
            #[trigger] levels[a].price,
        ) by {}
    }
    if incoming.remaining == 0 || book.best(opposite) is None {
        return;
    }
    let price = book.best(opposite).unwrap();
    lemma_step_exists(book, incoming);
    if !crosses(incoming, price) {
        return;
    }
    let resting = book.front(opposite, price).unwrap();
    let fill = min_qty(incoming.remaining, resting.remaining);
    let next = after_fill(book, opposite, price, fill);
    let next_incoming = reduced(incoming, fill);
    lemma_after_fill(book, opposite, price, fill);
    lemma_after_fill_total(book, opposite, price, fill);
    lemma_sweep_shape(next, next_incoming);
    let (end_book, left, rest) = sweep(next, next_incoming);
    let t = trade_between(incoming, resting, fill);
    let trades = seq![t] + rest;
    assert(sweep(book, incoming) == (end_book, left, trades));
    assert(trades.drop_first() =~= rest);
    assert(prices_within(end_book.levels(opposite), levels)) by {
        let el = end_book.levels(opposite);
        let nl = next.levels(opposite);
        assert forall|a: int| 0 <= a < el.len() implies has_level(levels, #[trigger] el[a].price) by {
            assert(has_level(nl, el[a].price));
            let b = choose|b: int| 0 <= b < nl.len() && nl[b].price == el[a].price;
            assert(has_level(levels, nl[b].price));
        }
    }
    assert forall|k: int| 0 <= k < trades.len() implies names_incoming(
        #[trigger] trades[k],
        incoming,
    ) by {
        if k > 0 {
            assert(trades[k] == rest[k - 1]);
            assert(names_incoming(rest[k - 1], next_incoming));
        }
    }
}

/// The facts of `sweep_prices`, by induction over the steps of the loop.
pub proof fn lemma_sweep_prices(book: BookModel, incoming: Order)
    requires
        book.wf(),
    ensures
        sweep_prices(book, incoming),
    decreases total_orders(book.levels(incoming.side.opposite())), incoming.remaining,
{
    let opposite = incoming.side.opposite();
    let levels = book.levels(opposite);
    if incoming.remaining == 0 || book.best(opposite) is None || !side_consistent(levels, opposite) {
        return;
    }
    let price = book.best(opposite).unwrap();
    lemma_step_exists(book, incoming);
    if !crosses(incoming, price) {
        return;
    }
    let i = level_pos(levels, price);
    let resting = book.front(opposite, price).unwrap();
    let fill = min_qty(incoming.remaining, resting.remaining);
    let next = after_fill(book, opposite, price, fill);
    let next_incoming = reduced(incoming, fill);
    lemma_after_fill(book, opposite, price, fill);
    lemma_after_fill_total(book, opposite, price, fill);
    lemma_sweep_prices(next, next_incoming);
    let rest = sweep(next, next_incoming).2;
    let t = trade_between(incoming, resting, fill);
    let trades = seq![t] + rest;
    assert(sweep(book, incoming).2 == trades);
    assert(queue_consistent(levels[i].orders, opposite, levels[i].price));
    assert(t.price == price);
    assert(t.quantity > 0);
    if rest.len() > 0 {
        let nl = next.levels(opposite);
        assert(next.best(opposite) is Some);
        let nb = next.best(opposite).unwrap();
        lemma_best_exists(nl, opposite);
        let b = choose|b: int| 0 <= b < nl.len() && nl[b].price == nb;
        assert(has_level(levels, nl[b].price));
        let c = choose|c: int| 0 <= c < levels.len() && levels[c].price == nl[b].price;
        assert(levels[c].price == nb);
        assert(price_order(incoming.side, price, nb));
    }
    assert forall|k: int| 0 <= k < trades.len() implies {
        &&& crosses(incoming, #[trigger] trades[k].price)
        &&& trades[k].quantity > 0
        &&& book.best(opposite) is Some
        &&& price_order(incoming.side, book.best(opposite).unwrap(), trades[k].price)
    } by {
        if k > 0 {
            assert(trades[k] == rest[k - 1]);
        }
    }
    assert forall|k: int, l: int|
        0 <= k <= l < trades.len() implies price_order(
        incoming.side,
        #[trigger] trades[k].price,
        #[trigger] trades[l].price,
    ) by {
        if k > 0 {
            assert(trades[k] == rest[k - 1]);
            assert(trades[l] == rest[l - 1]);
        } else if l > 0 {
            assert(trades[l] == rest[l - 1]);
        }
    }
}

/// What processing `incoming` makes of the book, and the trades it makes:
/// the matching loop runs, and what is left of the incoming order rests.
pub open spec fn process_outcome(book: BookModel, incoming: Order) -> (BookModel, Seq<Trade>) {
    let (end_book, left, trades) = sweep(book, incoming);
    if left.remaining > 0 {
        (end_book.insert_resting(left), trades)
    } else {
        (end_book, trades)
    }
}

/// Law: quantity is conserved. The trades of one order add up to at most
/// its quantity; where they fall short, the rest of the order rests at the
/// back of the queue at its price on its side, with exactly the quantity not
/// traded, and the index records it there.
pub proof fn law_unfilled_quantity_rests(book: BookModel, incoming: Order)
    requires
        book.wf(),
    ensures
        ({
            let (after, trades) = process_outcome(book, incoming);
            let filled = total_quantity(trades);
            let levels = after.levels(incoming.side);
            &&& filled <= incoming.remaining
            &&& filled < incoming.remaining ==> {
                &&& has_level(levels, incoming.price)
                &&& levels[level_pos(levels, incoming.price)].orders.last() == Order {
                    remaining: (incoming.remaining - filled) as Quantity,
                    ..incoming
                }
                &&& after.index[incoming.id] == (incoming.side, incoming.price)
            }
        }),
{
    lemma_sweep_shape(book, incoming);
    let (end_book, left, trades) = sweep(book, incoming);
    if left.remaining > 0 {
        let before = end_book.levels(incoming.side);
        let levels = crate::book::levels_insert(before, left);
        crate::book::lemma_levels_insert_wf(before, left);
        let after = end_book.insert_resting(left);
        assert(after.levels(incoming.side) == levels);
        if has_level(before, left.price) {
            let i = level_pos(before, left.price);
            assert(levels[i].price == left.price);
            let k = level_pos(levels, left.price);
            assert(levels[k].price == left.price);
            assert(k == i);
        } else {
            let i = before.len() as int;
            assert(levels[i].price == left.price);
            let k = level_pos(levels, left.price);
            assert(levels[k].price == left.price);
            assert(k == i);
        }
    }
}

/// Law: every trade is within the incoming order's limit (a buy never pays
/// above it, a sell never receives below it), is for a positive quantity, and
/// names the incoming order on its side. The book must be as the engine keeps
/// it (`consistent`).
pub proof fn law_trades_within_limit(book: BookModel, incoming: Order)
    requires
        book.consistent(),
    ensures
        ({
            let trades = process_outcome(book, incoming).1;
            forall|k: int|
                0 <= k < trades.len() ==> {
                    &&& crosses(incoming, #[trigger] trades[k].price)
                    &&& trades[k].quantity > 0
                    &&& names_incoming(trades[k], incoming)
                }
        }),
{
    lemma_sweep_shape(book, incoming);
    lemma_sweep_prices(book, incoming);
    assert(side_consistent(book.levels(incoming.side.opposite()), incoming.side.opposite()));
}

/// Law: price-time priority. The first trade is against the oldest order at
/// the best opposite price, at that price; later trades never come at a better
/// price for the incoming order than earlier ones.
pub proof fn law_price_time_priority(book: BookModel, incoming: Order)
    requires
        book.consistent(),
    ensures
        ({
            let trades = process_outcome(book, incoming).1;
            let opposite = incoming.side.opposite();
            &&& trades.len() > 0 ==> {
                &&& book.best(opposite) is Some
                &&& trades[0].price == book.best(opposite).unwrap()
                &&& trades[0] == trade_between(
                    incoming,
                    book.front(opposite, book.best(opposite).unwrap()).unwrap(),
                    trades[0].quantity,
                )
            }
            &&& forall|k: int, l: int|
                0 <= k <= l < trades.len() ==> price_order(
                    incoming.side,
                    #[trigger] trades[k].price,
                    #[trigger] trades[l].price,
                )
        }),
{
    let opposite = incoming.side.opposite();
    lemma_sweep_prices(book, incoming);
    assert(side_consistent(book.levels(opposite), opposite));
    let trades = sweep(book, incoming).2;
    if trades.len() > 0 {
        let price = book.best(opposite).unwrap();
        let levels = book.levels(opposite);
        lemma_best_exists(levels, opposite);
        let i = level_pos(levels, price);
        assert(levels[i].price == price);
        assert(levels[i].orders.len() > 0);
        let resting = book.front(opposite, price).unwrap();
        assert(resting == levels[i].orders[0]);
        assert(queue_consistent(levels[i].orders, opposite, levels[i].price));
        assert(resting.price == price);
    }
}

/// Law: processing keeps the book as the engine keeps it: well formed, and
/// every order on its own side, at its level's price, with something left.
pub proof fn law_process_keeps_consistent(book: BookModel, incoming: Order)
    requires
        book.consistent(),
    ensures
        process_outcome(book, incoming).0.consistent(),
{
    let side = incoming.side;
    let opposite = side.opposite();
    lemma_sweep_shape(book, incoming);
    let (end_book, left, trades) = sweep(book, incoming);
    assert(side_consistent(book.levels(opposite), opposite));
    assert(side_consistent(end_book.levels(side), side));
    assert(side_consistent(end_book.levels(opposite), opposite));
    if left.remaining > 0 {
        crate::book::lemma_levels_insert_wf(end_book.levels(side), left);
        crate::book::lemma_levels_insert_facts(end_book.levels(side), left, side);
    }
}

/// Law: a book that is not crossed stays so. If every bid is below every
/// ask before an order is processed, the same holds after it.
pub proof fn law_process_keeps_uncrossed(book: BookModel, incoming: Order)
    requires
        book.wf(),
        book.uncrossed(),
    ensures
        process_outcome(book, incoming).0.uncrossed(),
{
    let side = incoming.side;
    let opposite = side.opposite();
    lemma_sweep_shape(book, incoming);
    let (end_book, left, trades) = sweep(book, incoming);
    let own = end_book.levels(side);
    let opp = end_book.levels(opposite);
    assert(own == book.levels(side));
    assert(prices_within(opp, book.levels(opposite)));
    assert(end_book.uncrossed()) by {
        assert forall|i: int, j: int|
            0 <= i < end_book.bids.len() && 0 <= j < end_book.asks.len() implies #[trigger] end_book.bids[i].price
            < #[trigger] end_book.asks[j].price by {
            match side {
                Side::Buy => {
                    let j0 = choose|j0: int|
                        0 <= j0 < book.asks.len() && book.asks[j0].price == end_book.asks[j].price;
                    assert(book.bids[i].price < book.asks[j0].price);
                },
                Side::Sell => {
                    let i0 = choose|i0: int|
                        0 <= i0 < book.bids.len() && book.bids[i0].price == end_book.bids[i].price;
                    assert(book.bids[i0].price < book.asks[j].price);
                },
            }
        }
    }
    if left.remaining > 0 {
        let after = end_book.insert_resting(left);
        let new_own = crate::book::levels_insert(own, left);
        crate::book::lemma_levels_insert_facts(own, left, side);
        assert(after.levels(side) == new_own);
        assert(after.levels(opposite) == opp);
        assert forall|j: int| 0 <= j < opp.len() implies match side {
            Side::Buy => left.price < #[trigger] opp[j].price,
            Side::Sell => left.price > opp[j].price,
        } by {
            lemma_best_exists(opp, opposite);
            let p = end_book.best(opposite).unwrap();
            assert(!crosses(left, p));
        }
        assert forall|i: int, j: int|
            0 <= i < after.bids.len() && 0 <= j < after.asks.len() implies #[trigger] after.bids[i].price
            < #[trigger] after.asks[j].price by {
            match side {
                Side::Buy => {
                    if new_own[i].price != left.price {
                        let i0 = choose|i0: int| 0 <= i0 < own.len() && own[i0].price == new_own[i].price;
                        assert(end_book.bids[i0].price < end_book.asks[j].price);
                    }
                },
                Side::Sell => {
                    if new_own[j].price != left.price {
                        let j0 = choose|j0: int| 0 <= j0 < own.len() && own[j0].price == new_own[j].price;
                        assert(end_book.bids[i].price < end_book.asks[j0].price);
                    }
                },
            }
        }
    }
}

/// The matching loop keeps an indexed book indexed, and holds no id that
/// the book did not hold.
pub proof fn lemma_sweep_indexed(book: BookModel, incoming: Order)
    requires
        book.wf(),
        indexed(book),
    ensures
        indexed(sweep(book, incoming).0),
        forall|x: OrderId| holds(sweep(book, incoming).0, x) ==> holds(book, x),
    decreases total_orders(book.levels(incoming.side.opposite())), incoming.remaining,
{
    let opposite = incoming.side.opposite();
    let levels = book.levels(opposite);
    if incoming.remaining == 0 || book.best(opposite) is None {
        return;
    }
    let price = book.best(opposite).unwrap();
    lemma_step_exists(book, incoming);
    if !crosses(incoming, price) {
        return;
    }
    let resting = book.front(opposite, price).unwrap();
    let fill = min_qty(incoming.remaining, resting.remaining);
    let left_resting = reduced(resting, fill);
    let filled = book.set_front(opposite, price, left_resting);
    let next = after_fill(book, opposite, price, fill);
    lemma_set_front_indexed(book, opposite, price, left_resting);
    if left_resting.remaining == 0 {
        let i = level_pos(levels, price);
        crate::book::lemma_levels_set_front_wf(levels, i);
        let fl = filled.levels(opposite);
        assert(fl[i].price == price);
        assert(has_level(fl, price));
        assert(filled.wf());
        lemma_pop_front_is_without_order(filled, opposite, price);
        let k = level_pos(fl, price);
        lemma_without_order(filled, opposite, k, 0);
    }
    lemma_after_fill(book, opposite, price, fill);
    lemma_after_fill_total(book, opposite, price, fill);
    lemma_sweep_indexed(next, reduced(incoming, fill));
}

/// Law: processing keeps the index exact. If every resting order is indexed
/// at its side and price, ids are unique, and the incoming order's id is not
/// resting, then the same holds after processing, and the ids resting are
/// among those before and the incoming one.
pub proof fn law_process_keeps_indexed(book: BookModel, incoming: Order)
    requires
        book.wf(),
        indexed(book),
        !holds(book, incoming.id),
    ensures
        indexed(process_outcome(book, incoming).0),
        forall|x: OrderId|
            holds(process_outcome(book, incoming).0, x) ==> (holds(book, x) || x == incoming.id),
{
    lemma_sweep_shape(book, incoming);
    lemma_sweep_indexed(book, incoming);
    let (end_book, left, trades) = sweep(book, incoming);
    if left.remaining > 0 {
        assert(!holds(end_book, left.id));
        lemma_insert_indexed(end_book, left);
    }
}

/// The id a trade names on the side opposite the incoming order: the resting
/// order it was made against.
pub open spec fn counterparty(trade: Trade, incoming: Order) -> OrderId {
    match incoming.side {
        Side::Buy => trade.sell_order_id,
        Side::Sell => trade.buy_order_id,
    }
}

/// Every trade of the matching loop is against an order that rested in the
/// book before it; afterwards only ids held before are held, and the index
/// knows only ids it knew before.
pub proof fn lemma_sweep_ids(book: BookModel, incoming: Order)
    requires
        book.wf(),
    ensures
        forall|k: int|
            0 <= k < sweep(book, incoming).2.len() ==> holds(
                book,
                counterparty(#[trigger] sweep(book, incoming).2[k], incoming),
            ),
        forall|x: OrderId| #[trigger] holds(sweep(book, incoming).0, x) ==> holds(book, x),
        forall|x: OrderId|
            #[trigger] sweep(book, incoming).0.index.contains_key(x) ==> book.index.contains_key(x),
    decreases total_orders(book.levels(incoming.side.opposite())), incoming.remaining,
{
    let opposite = incoming.side.opposite();
    let levels = book.levels(opposite);
    if incoming.remaining == 0 || book.best(opposite) is None {
        return;
    }
    let price = book.best(opposite).unwrap();
    lemma_step_exists(book, incoming);
    if !crosses(incoming, price) {
        return;
    }
    let i = level_pos(levels, price);
    let resting = book.front(opposite, price).unwrap();
    let fill = min_qty(incoming.remaining, resting.remaining);
    let left_resting = reduced(resting, fill);
    let filled = book.set_front(opposite, price, left_resting);
    let next = after_fill(book, opposite, price, fill);
    let next_incoming = reduced(incoming, fill);
    crate::book_laws::lemma_set_front_holds(book, opposite, price, left_resting);
    if left_resting.remaining == 0 {
        crate::book::lemma_levels_set_front_wf(levels, i);
        let fl = filled.levels(opposite);
        assert(fl[i].price == price);
        assert(has_level(fl, price));
        assert(filled.wf());
        lemma_pop_front_is_without_order(filled, opposite, price);
        let k = level_pos(fl, price);
        crate::book_laws::lemma_without_order_holds(filled, opposite, k, 0);
    }
    assert(forall|x: OrderId| #[trigger] holds(next, x) ==> holds(book, x));
    assert(forall|x: OrderId| #[trigger] next.index.contains_key(x) ==> book.index.contains_key(x));
    lemma_after_fill(book, opposite, price, fill);
    lemma_after_fill_total(book, opposite, price, fill);
    lemma_sweep_ids(next, next_incoming);
    let rest = sweep(next, next_incoming).2;
    let t = trade_between(incoming, resting, fill);
    let trades = seq![t] + rest;
    assert(sweep(book, incoming).2 == trades);
    assert(crate::book_laws::at(book, opposite, i, 0));
    assert(crate::book_laws::order_at(book, opposite, i, 0) == resting);
    assert(holds(book, counterparty(t, incoming)));
    assert forall|k: int| 0 <= k < trades.len() implies holds(
        book,
        counterparty(#[trigger] trades[k], incoming),
    ) by {
        if k > 0 {
            assert(trades[k] == rest[k - 1]);
            assert(counterparty(rest[k - 1], next_incoming) == counterparty(rest[k - 1], incoming));
        }
    }
}

/// Law: a cancelled order never trades. Where no resting order has id `id`
/// and the index does not know it (as after `cancel(id)`), processing an
/// order of another id makes no trade that names `id` on either side, and
/// afterwards still no resting order has `id` and the index does not know it.
/// The state carries over to every later call of `process`, and a further
/// cancel of `id` finds nothing (`remove` of an id the index does not know
/// returns `None`).
pub proof fn law_cancelled_never_trades(book: BookModel, incoming: Order, id: OrderId)
    requires
        book.wf(),
        !holds(book, id),
        !book.index.contains_key(id),
        incoming.id != id,
    ensures
        ({
            let (after, trades) = process_outcome(book, incoming);
            &&& forall|k: int|
                0 <= k < trades.len() ==> #[trigger] trades[k].buy_order_id != id
                    && trades[k].sell_order_id != id
            &&& !holds(after, id)
            &&& !after.index.contains_key(id)
            &&& after.wf()
            &&& after.remove(id) == (after, None::<Order>)
        }),
{
    lemma_sweep_shape(book, incoming);
    lemma_sweep_ids(book, incoming);
    let (end_book, left, trades) = sweep(book, incoming);
    assert forall|k: int| 0 <= k < trades.len() implies #[trigger] trades[k].buy_order_id != id
        && trades[k].sell_order_id != id by {
        assert(names_incoming(trades[k], incoming));
        assert(holds(book, counterparty(trades[k], incoming)));
    }
    assert(!holds(end_book, id));
    assert(!end_book.index.contains_key(id));
    if left.remaining > 0 {
        let after = end_book.insert_resting(left);
        crate::book::lemma_levels_insert_wf(end_book.levels(left.side), left);
        assert forall|x: OrderId| holds(after, x) implies holds(end_book, x) || x == left.id by {
            let (s, a, b) = choose|s: Side, a: int, b: int|
                crate::book_laws::at(after, s, a, b) && #[trigger] crate::book_laws::order_at(after, s, a, b).id == x;
            lemma_insert_positions(end_book, left, s, a, b);
        }
        assert(!holds(after, id));
        assert(!after.index.contains_key(id));
    }
}

/// Every position of a book after resting `order` holds `order` or an order
/// that rested before.
proof fn lemma_insert_positions(book: BookModel, order: Order, s: Side, a: int, b: int)
    requires
        crate::book_laws::at(book.insert_resting(order), s, a, b),
    ensures
        crate::book_laws::order_at(book.insert_resting(order), s, a, b) == order || holds(
            book,
            crate::book_laws::order_at(book.insert_resting(order), s, a, b).id,
        ),
{
    let nb = book.insert_resting(order);
    let side = order.side;
    let levels = book.levels(side);
    let nl = crate::book::levels_insert(levels, order);
    if s == side {
        assert(nb.levels(side) == nl);
        if has_level(levels, order.price) {
            let i = level_pos(levels, order.price);
            if a == i && b == levels[i].orders.len() {
            } else {
                assert(crate::book_laws::at(book, s, a, b));
                assert(crate::book_laws::order_at(nb, s, a, b) == crate::book_laws::order_at(book, s, a, b));
            }
        } else if a < levels.len() {
            assert(crate::book_laws::at(book, s, a, b));
            assert(crate::book_laws::order_at(nb, s, a, b) == crate::book_laws::order_at(book, s, a, b));
        }
    } else {
        assert(nb.levels(s) == book.levels(s));
        assert(crate::book_laws::order_at(nb, s, a, b) == crate::book_laws::order_at(book, s, a, b));
    }
}

/// The quantity left in a queue.
pub open spec fn queue_quantity(orders: Seq<Order>) -> nat
    decreases orders.len(),
{
    if orders.len() == 0 {
        0
    } else {
        orders[0].remaining as nat + queue_quantity(orders.drop_first())
    }
}

/// The quantity left on a side.
pub open spec fn side_quantity(levels: Seq<LevelModel>) -> nat
    decreases levels.len(),
{
    if levels.len() == 0 {
        0
    } else {
        side_quantity(levels.drop_last()) + queue_quantity(levels.last().orders)
    }
}

/// Replacing one level changes a side's quantity by the difference in its
/// queue's quantity.
proof fn lemma_side_quantity_update(levels: Seq<LevelModel>, i: int, level: LevelModel)
    requires
        0 <= i < levels.len(),
    ensures
        side_quantity(levels.update(i, level)) == side_quantity(levels) - queue_quantity(
            levels[i].orders,
        ) + queue_quantity(level.orders),
    decreases levels.len(),
{
    let r = levels.update(i, level);
    if i < levels.len() - 1 {
        assert(r.drop_last() =~= levels.drop_last().update(i, level));
        lemma_side_quantity_update(levels.drop_last(), i, level);
    } else {
        assert(r.drop_last() =~= levels.drop_last());
    }
}

/// Closing one level lowers a side's quantity by its queue's quantity.
proof fn lemma_side_quantity_remove(levels: Seq<LevelModel>, i: int)
    requires
        0 <= i < levels.len(),
    ensures
        side_quantity(levels.remove(i)) == side_quantity(levels) - queue_quantity(levels[i].orders),
    decreases levels.len(),
{
    let r = levels.remove(i);
    if i < levels.len() - 1 {
        assert(r.drop_last() =~= levels.drop_last().remove(i));
        assert(r.last() == levels.last());
        lemma_side_quantity_remove(levels.drop_last(), i);
    } else {
        assert(r =~= levels.drop_last());
    }
}

/// One fill of `quantity` lowers the quantity left on that side by exactly
/// `quantity`.
proof fn lemma_after_fill_quantity(book: BookModel, side: Side, price: Price, quantity: Quantity)
    requires
        book.wf(),
        book.front(side, price) is Some,
        quantity <= book.front(side, price).unwrap().remaining,
    ensures
        side_quantity(after_fill(book, side, price, quantity).levels(side)) + quantity
            == side_quantity(book.levels(side)),
{
    let levels = book.levels(side);
    let i = level_pos(levels, price);
    let queue = levels[i].orders;
    let resting = reduced(book.front(side, price).unwrap(), quantity);
    let updated = LevelModel { price: levels[i].price, orders: queue.update(0, resting) };
    let fl = levels.update(i, updated);
    assert(updated.orders.drop_first() =~= queue.drop_first());
    assert(queue_quantity(updated.orders) + quantity == queue_quantity(queue));
    lemma_side_quantity_update(levels, i, updated);
    assert(book.set_front(side, price, resting).levels(side) == fl);
    if resting.remaining == 0 {
        assert(fl[i].price == price);
        assert(has_level(fl, price));
        let k = level_pos(fl, price);
        assert(fl[k].price == price);
        assert(levels[k].price == fl[k].price);
        assert(k == i);
        let rest = updated.orders.drop_first();
        assert(queue_quantity(rest) == queue_quantity(updated.orders));
        if rest.len() == 0 {
            lemma_side_quantity_remove(fl, i);
        } else {
            lemma_side_quantity_update(fl, i, LevelModel { price: fl[i].price, orders: rest });
        }
    }
}

/// The matching loop takes from the opposite side exactly the quantity it
/// trades.
pub proof fn lemma_sweep_quantity(book: BookModel, incoming: Order)
    requires
        book.wf(),
    ensures
        total_quantity(sweep(book, incoming).2) + side_quantity(
            sweep(book, incoming).0.levels(incoming.side.opposite()),
        ) == side_quantity(book.levels(incoming.side.opposite())),
    decreases total_orders(book.levels(incoming.side.opposite())), incoming.remaining,
{
    let opposite = incoming.side.opposite();
    if incoming.remaining == 0 || book.best(opposite) is None {
        return;
    }
    let price = book.best(opposite).unwrap();
    lemma_step_exists(book, incoming);
    if !crosses(incoming, price) {
        return;
    }
    let resting = book.front(opposite, price).unwrap();
    let fill = min_qty(incoming.remaining, resting.remaining);
    let next = after_fill(book, opposite, price, fill);
    let next_incoming = reduced(incoming, fill);
    lemma_after_fill(book, opposite, price, fill);
    lemma_after_fill_total(book, opposite, price, fill);
    lemma_after_fill_quantity(book, opposite, price, fill);
    lemma_sweep_quantity(next, next_incoming);
    let rest = sweep(next, next_incoming).2;
    let trades = seq![trade_between(incoming, resting, fill)] + rest;
    assert(sweep(book, incoming).2 == trades);
    assert(trades.drop_first() =~= rest);
}

/// Law: what the opposite side loses is what is traded. The quantity left on
/// the side opposite the incoming order falls by exactly the total quantity
/// of the trades.
pub proof fn law_opposite_side_conserved(book: BookModel, incoming: Order)
    requires
        book.wf(),
    ensures
        ({
            let (after, trades) = process_outcome(book, incoming);
            let opposite = incoming.side.opposite();
            total_quantity(trades) + side_quantity(after.levels(opposite)) == side_quantity(
                book.levels(opposite),
            )
        }),
{
    lemma_sweep_quantity(book, incoming);
    lemma_sweep_shape(book, incoming);
}

/// The queue of the level at `price`, if there is one.
pub open spec fn queue_at(levels: Seq<LevelModel>, price: Price) -> Option<Seq<Order>> {
    if has_level(levels, price) {
        Some(levels[level_pos(levels, price)].orders)
    } else {
        None
    }
}

/// `a` is a strictly better price than `b` for an incoming order of `side`.
pub open spec fn strictly_better(side: Side, a: Price, b: Price) -> bool {
    price_order(side, a, b) && a != b
}

/// One fill at `price` leaves every other price's queue as it was; at
/// `price` the oldest order is reduced, or taken out when nothing of it is
/// left, and an emptied level closes.
proof fn lemma_after_fill_queues(book: BookModel, side: Side, price: Price, quantity: Quantity)
    requires
        book.wf(),
        book.front(side, price) is Some,
        quantity <= book.front(side, price).unwrap().remaining,
    ensures
        ({
            let levels = book.levels(side);
            let nl = after_fill(book, side, price, quantity).levels(side);
            let queue = queue_at(levels, price).unwrap();
            let resting = reduced(queue[0], quantity);
            &&& has_level(levels, price)
            &&& forall|q: Price| q != price ==> #[trigger] queue_at(nl, q) == queue_at(levels, q)
            &&& queue_at(nl, price) == if resting.remaining > 0 {
                Some(queue.update(0, resting))
            } else if queue.len() > 1 {
                Some(queue.drop_first())
            } else {
                None::<Seq<Order>>
            }
        }),
{
    let levels = book.levels(side);
    let i = level_pos(levels, price);
    let queue = levels[i].orders;
    let resting = reduced(queue[0], quantity);
    let updated = LevelModel { price: levels[i].price, orders: queue.update(0, resting) };
    let fl = levels.update(i, updated);
    let nl = after_fill(book, side, price, quantity).levels(side);
    lemma_after_fill(book, side, price, quantity);
    crate::book::lemma_levels_set_front_wf(levels, i);
    assert(book.set_front(side, price, resting).levels(side) == fl);
    assert(fl[i].price == price);
    let rest = queue.drop_first();
    let popped = resting.remaining == 0;
    if popped {
        assert(has_level(fl, price));
        let k = level_pos(fl, price);
        assert(fl[k].price == price);
        assert(levels[k].price == fl[k].price);
        assert(k == i);
        assert(updated.orders.drop_first() =~= rest);
        assert(nl == levels_replace_queue(fl, i, rest));
    } else {
        assert(nl == fl);
    }
    // Where each old level is now, and where each new level was.
    let closes = popped && rest.len() == 0;
    assert forall|j: int| 0 <= j < levels.len() && j != i implies {
        let j2 = if closes && j > i { j - 1 } else { j };
        0 <= j2 < nl.len() && #[trigger] levels[j] == nl[j2]
    } by {}
    assert forall|j2: int| 0 <= j2 < nl.len() implies {
        let j = if closes && j2 >= i { j2 + 1 } else { j2 };
        &&& 0 <= j < levels.len()
        &&& (j == i || levels[j] == #[trigger] nl[j2])
        &&& nl[j2].price == levels[j].price
    } by {}
    assert forall|q: Price| q != price implies #[trigger] queue_at(nl, q) == queue_at(levels, q) by {
        if has_level(levels, q) {
            let j = level_pos(levels, q);
            let j2 = if closes && j > i { j - 1 } else { j };
            assert(levels[j].price == q);
            assert(j != i);
            assert(levels[j] == nl[j2]);
            assert(has_level(nl, q));
            let k2 = level_pos(nl, q);
            assert(nl[k2].price == q);
            let k = if closes && k2 >= i { k2 + 1 } else { k2 };
            assert(levels[k].price == q);
            assert(k == j);
        } else if has_level(nl, q) {
            let k2 = level_pos(nl, q);
            let k = if closes && k2 >= i { k2 + 1 } else { k2 };
            assert(levels[k].price == nl[k2].price);
        }
    }
    if !closes {
        assert(nl[i].price == price);
        assert(has_level(nl, price));
        let k2 = level_pos(nl, price);
        assert(nl[k2].price == price);
        if !popped {
            assert(nl[i].orders == queue.update(0, resting));
        } else {
            assert(nl[i].orders == rest);
        }
    } else {
        if has_level(nl, price) {
            let k2 = level_pos(nl, price);
            let k = if k2 >= i { k2 + 1 } else { k2 };
            assert(levels[k].price == nl[k2].price);
        }
    }
}

/// A matching loop that makes no trade leaves the book as it was.
proof fn lemma_sweep_no_trade(book: BookModel, incoming: Order)
    requires
        book.wf(),
        sweep(book, incoming).2.len() == 0,
    ensures
        sweep(book, incoming).0 == book,
{
    let opposite = incoming.side.opposite();
    if incoming.remaining == 0 || book.best(opposite) is None {
        return;
    }
    let price = book.best(opposite).unwrap();
    lemma_step_exists(book, incoming);
}

/// `left` is `old` with its `m` oldest orders taken out and the next one
/// possibly reduced.
pub open spec fn queue_continues(old: Seq<Order>, left: Seq<Order>, m: int) -> bool {
    &&& 0 <= m < old.len()
    &&& left.len() > 0
    &&& left.drop_first() == old.skip(m + 1)
    &&& left[0] == Order { remaining: left[0].remaining, ..old[m] }
    &&& left[0].remaining <= old[m].remaining
}

/// Which orders of the opposite side the matching loop reaches: when it
/// trades, with `last` the price of its last trade, every level at a better
/// price is gone, every level at a worse price is as it was, and at `last`
/// what remains of the queue is its old queue with some oldest orders taken
/// out and the next one possibly reduced.
pub open spec fn sweep_reaches(book: BookModel, incoming: Order) -> bool {
    let opposite = incoming.side.opposite();
    let levels = book.levels(opposite);
    let trades = sweep(book, incoming).2;
    let end = sweep(book, incoming).0.levels(opposite);
    if trades.len() == 0 {
        end == levels
    } else {
        reaches_up_to(incoming.side, levels, end, trades.last().price)
    }
}

/// Of the opposite `levels` before and `end` after, for an incoming order of
/// `side` whose last trade was at `last`: every level at a better price is
/// gone, every level at a worse price is as it was, and at `last` what remains
/// of the queue is its old queue with some oldest orders taken out and the
/// next one possibly reduced.
pub open spec fn reaches_up_to(
    side: Side,
    levels: Seq<LevelModel>,
    end: Seq<LevelModel>,
    last: Price,
) -> bool {
    &&& forall|q: Price| strictly_better(side, q, last) ==> #[trigger] queue_at(end, q) is None
    &&& forall|q: Price| strictly_better(side, last, q) ==> #[trigger] queue_at(end, q) == queue_at(levels, q)
    &&& queue_at(levels, last) is Some
    &&& queue_at(end, last) is Some ==> exists|m: int|
        #[trigger] queue_continues(queue_at(levels, last).unwrap(), queue_at(end, last).unwrap(), m)
}

/// The facts of `sweep_reaches`, by induction over the steps of the loop.
pub proof fn lemma_sweep_reaches(book: BookModel, incoming: Order)
    requires
        book.consistent(),
    ensures
        sweep_reaches(book, incoming),
    decreases total_orders(book.levels(incoming.side.opposite())), incoming.remaining,
{
    let opposite = incoming.side.opposite();
    let levels = book.levels(opposite);
    if sweep(book, incoming).2.len() == 0 {
        lemma_sweep_no_trade(book, incoming);
        return;
    }
    let price = book.best(opposite).unwrap();
    lemma_step_exists(book, incoming);
    let i = level_pos(levels, price);
    let resting = book.front(opposite, price).unwrap();
    let fill = min_qty(incoming.remaining, resting.remaining);
    let next = after_fill(book, opposite, price, fill);
    let next_incoming = reduced(incoming, fill);
    lemma_after_fill(book, opposite, price, fill);
    lemma_after_fill_total(book, opposite, price, fill);
    lemma_after_fill_queues(book, opposite, price, fill);
    lemma_sweep_prices(book, incoming);
    assert(side_consistent(levels, opposite));
    assert(queue_consistent(levels[i].orders, opposite, levels[i].price));
    assert(resting.price == price);
    let nl = next.levels(opposite);
    assert(next.consistent());
    lemma_sweep_reaches(next, next_incoming);
    let (end_book, left, rest) = sweep(next, next_incoming);
    let t = trade_between(incoming, resting, fill);
    let trades = seq![t] + rest;
    assert(sweep(book, incoming) == (end_book, left, trades));
    let end = end_book.levels(opposite);
    let queue = queue_at(levels, price).unwrap();
    assert(queue == levels[i].orders);
    assert(queue[0] == resting);
    let last = trades.last().price;
    if rest.len() == 0 {
        lemma_sweep_no_trade(next, next_incoming);
        assert(last == price);
        assert(end == nl);
        assert forall|q: Price| strictly_better(incoming.side, q, last) implies #[trigger] queue_at(end, q) is None by {
            if has_level(levels, q) {
                let j = level_pos(levels, q);
                assert(levels[j].price == q);
            }
        }
        assert forall|q: Price| strictly_better(incoming.side, last, q) implies #[trigger] queue_at(end, q) == queue_at(levels, q) by {
            assert(q != price);
        }
        let r2 = reduced(resting, fill);
        assert(queue_at(levels, last).unwrap() == queue);
        if r2.remaining > 0 {
            let lq = queue.update(0, r2);
            assert(queue_at(end, last) == Some(lq));
            assert(lq.drop_first() =~= queue.skip(1));
            assert(queue_continues(queue, lq, 0));
            assert(queue_continues(queue_at(levels, last).unwrap(), queue_at(end, last).unwrap(), 0) || queue_continues(queue_at(levels, last).unwrap(), queue_at(end, last).unwrap(), 1));
        } else if queue.len() > 1 {
            let lq = queue.drop_first();
            assert(queue_at(end, last) == Some(lq));
            assert(lq.drop_first() =~= queue.skip(2));
            assert(queue_continues(queue, lq, 1));
            assert(queue_continues(queue_at(levels, last).unwrap(), queue_at(end, last).unwrap(), 0) || queue_continues(queue_at(levels, last).unwrap(), queue_at(end, last).unwrap(), 1));
        } else {
            assert(queue_at(end, last) is None);
        }
        assert(reaches_up_to(incoming.side, levels, end, last));
        assert(sweep_reaches(book, incoming));
    } else {
        assert(last == rest.last().price);
        assert(rest.last() == trades[trades.len() - 1]);
        assert(price_order(incoming.side, price, last));
        assert forall|q: Price| strictly_better(incoming.side, q, last) implies #[trigger] queue_at(end, q) is None by {
            assert(strictly_better(next_incoming.side, q, last));
        }
        assert forall|q: Price| strictly_better(incoming.side, last, q) implies #[trigger] queue_at(end, q) == queue_at(levels, q) by {
            assert(strictly_better(next_incoming.side, last, q));
            assert(q != price);
            assert(queue_at(nl, q) == queue_at(levels, q));
        }
        if last != price {
            assert(queue_at(nl, last) == queue_at(levels, last));
        } else {
            let r2 = reduced(resting, fill);
            // the incoming order was not used up, so the resting one was
            assert(r2.remaining == 0);
            assert(queue.len() > 1);
            let nq = queue.drop_first();
            assert(queue_at(nl, last) == Some(nq));
            match queue_at(end, last) {
                None => {},
                Some(lq) => {
                    let m = choose|m: int| #[trigger] queue_continues(nq, lq, m);
                    assert(nq.skip(m + 1) =~= queue.skip(m + 2));
                    assert(nq[m] == queue[m + 1]);
                    assert(queue_continues(queue, lq, m + 1));
                    assert(queue_continues(queue_at(levels, last).unwrap(), queue_at(end, last).unwrap(), m + 1));
                },
            }
        }
        assert(reaches_up_to(incoming.side, levels, end, last));
        assert(sweep_reaches(book, incoming));
    }
}

/// Law: first in, first out, best price first. Processing leaves the
/// opposite side as it was when it makes no trade. When it trades, with
/// `last` the price of its last trade, every opposite level at a better price
/// is used up, every opposite level at a worse price is untouched, and at
/// `last` what is left of the queue is the old queue with some of its oldest
/// orders taken out and the next one possibly reduced.
pub proof fn law_fifo_best_price_first(book: BookModel, incoming: Order)
    requires
        book.consistent(),
    ensures
        ({
            let (after, trades) = process_outcome(book, incoming);
            let opposite = incoming.side.opposite();
            &&& trades.len() == 0 ==> after.levels(opposite) == book.levels(opposite)
            &&& trades.len() > 0 ==> reaches_up_to(
                incoming.side,
                book.levels(opposite),
                after.levels(opposite),
                trades.last().price,
            )
        }),
{
    lemma_sweep_reaches(book, incoming);
    lemma_sweep_shape(book, incoming);
}

/// A single-threaded matching engine that owns its order book.
#[derive(Debug)]
pub struct MatchingEngine {
    book: OrderBook,
}

impl View for MatchingEngine {
    type V = BookModel;

    closed spec fn view(&self) -> BookModel {
        self.book@
    }
}

impl Default for MatchingEngine {
    fn default() -> (engine: Self)
        ensures
            engine@.wf(),
            engine@.is_empty(),
            engine@.index == Map::<OrderId, (Side, Price)>::empty(),
    {
        Self::new()
    }
}

impl MatchingEngine {
    pub fn new() -> (engine: Self)
        ensures
            engine@.wf(),
            engine@.is_empty(),
            engine@.index == Map::<OrderId, (Side, Price)>::empty(),
    {
        Self { book: OrderBook::new() }
    }

    /// Matches `incoming` against the book and returns the trades, in the
    /// order they happened; what is left of `incoming` rests in the book.
    pub fn process(&mut self, incoming: Order) -> (trades: Vec<Trade>)
        requires
            old(self)@.wf(),
        ensures
            (final(self)@, trades@) == process_outcome(old(self)@, incoming),
            final(self)@.wf(),
    {
        let ghost start = sweep(old(self)@, incoming);
        let mut incoming = incoming;
        let mut trades = Vec::new();
        let opposite_side = match incoming.side {
            Side::Buy => Side::Sell,
            Side::Sell => Side::Buy,
        };

        while incoming.remaining > 0
            invariant
                self.book@.wf(),
                opposite_side == incoming.side.opposite(),
                sweep(self.book@, incoming).0 == start.0,
                sweep(self.book@, incoming).1 == start.1,
                trades@ + sweep(self.book@, incoming).2 == start.2,
            ensures
                self.book@.wf(),
                sweep(self.book@, incoming) == (self.book@, incoming, Seq::<Trade>::empty()),
                trades@ == start.2,
            decreases total_orders(self.book@.levels(opposite_side)), incoming.remaining,
        {
            let best_price = match opposite_side {
                Side::Buy => self.book.best_bid(),
                Side::Sell => self.book.best_ask(),
            };

            let price_crosses = match best_price {
                Some(price) => match incoming.side {
                    Side::Buy => incoming.price >= price,
                    Side::Sell => incoming.price <= price,
                },
                None => false,
            };

            if !price_crosses {
                assert(trades@ + Seq::<Trade>::empty() =~= trades@);
                break;
            }

            let resting_price = best_price.unwrap();
            let ghost before = self.book@;
            let ghost incoming_before = incoming;
            let front = self.book.front_at(opposite_side, resting_price);
            let resting = match front {
                Some(resting) => resting,
                None => {
                    assert(trades@ + Seq::<Trade>::empty() =~= trades@);
                    break;
                },
            };
            let ghost resting_before = *resting;
            let fill_qty = if incoming.remaining <= resting.remaining {
                incoming.remaining
            } else {
                resting.remaining
            };
            incoming.remaining -= fill_qty;
            resting.remaining -= fill_qty;

            trades.push(
                Trade {
                    buy_order_id: if incoming.side == Side::Buy {
                        incoming.id
                    } else {
                        resting.id
                    },
                    sell_order_id: if incoming.side == Side::Sell {
                        incoming.id
                    } else {
                        resting.id
                    },
                    price: resting.price,
                    quantity: fill_qty,
                },
            );
            let resting_left = resting.remaining;
            assert(*resting == reduced(resting_before, fill_qty));

            if resting_left == 0 {
                self.book.pop_front_at(opposite_side, resting_price);
            }
            proof {
                assert(self.book@ == after_fill(before, opposite_side, resting_price, fill_qty));
                lemma_after_fill_total(before, opposite_side, resting_price, fill_qty);
                assert(incoming == reduced(incoming_before, fill_qty));
                let t = trade_between(incoming_before, resting_before, fill_qty);
                assert(trades@.last() == t);
                let rest = sweep(self.book@, incoming).2;
                assert(sweep(before, incoming_before).2 == seq![t] + rest);
                assert(trades@ + rest =~= trades@.drop_last() + (seq![t] + rest));
            }
        }

        if incoming.remaining > 0 {
            self.book.insert_resting(incoming);
        }

        trades
    }

    /// Cancels a resting order by id; see `OrderBook::remove`.
    pub fn cancel(&mut self, order_id: u64) -> (cancelled: Option<Order>)
        requires
            old(self)@.wf(),
        ensures
            (final(self)@, cancelled) == old(self)@.remove(order_id),
            final(self)@.wf(),
    {
        self.book.remove(order_id)
    }

    /// The engine's order book.
    pub fn book(&self) -> (book: &OrderBook)
        ensures
            book@ == self@,
    {
        &self.book
    }
}

} // verus!

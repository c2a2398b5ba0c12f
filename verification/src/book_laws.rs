//! Laws on the book as a whole: what the index records, and what cancelling
//! does to it.
use vstd::prelude::*;

use crate::book::{
    has_level, last_with_id, level_pos, levels_insert, levels_replace_queue,
    lemma_levels_insert_wf, lemma_levels_replace_queue_wf, without_id, BookModel, LevelModel,
};
use crate::types::{Order, OrderId, Side};

verus! {

/// There is an order at queue position `j` of level `i` on `side`.
pub open spec fn at(book: BookModel, side: Side, i: int, j: int) -> bool {
    0 <= i < book.levels(side).len() && 0 <= j < book.levels(side)[i].orders.len()
}

/// The order at queue position `j` of level `i` on `side`.
pub open spec fn order_at(book: BookModel, side: Side, i: int, j: int) -> Order {
    book.levels(side)[i].orders[j]
}

/// Some resting order has id `id`.
pub open spec fn holds(book: BookModel, id: OrderId) -> bool {
    exists|side: Side, i: int, j: int| at(book, side, i, j) && #[trigger] order_at(book, side, i, j).id == id
}

/// The index records every resting order at its side and level price, no two
/// resting orders share an id, and the index knows no other id.
pub open spec fn indexed(book: BookModel) -> bool {
    &&& forall|side: Side, i: int, j: int|
        at(book, side, i, j) ==> {
            let id = #[trigger] order_at(book, side, i, j).id;
            &&& book.index.contains_key(id)
            &&& book.index[id] == (side, book.levels(side)[i].price)
        }
    &&& forall|s1: Side, i1: int, j1: int, s2: Side, i2: int, j2: int|
        at(book, s1, i1, j1) && at(book, s2, i2, j2) && #[trigger] order_at(book, s1, i1, j1).id
            == #[trigger] order_at(book, s2, i2, j2).id ==> s1 == s2 && i1 == i2 && j1 == j2
    &&& forall|id: OrderId| #[trigger] book.index.contains_key(id) ==> holds(book, id)
}

/// Law: an empty book with an empty index (as `OrderBook::new` makes it) is
/// consistent, not crossed, and indexed.
pub proof fn law_empty_book(book: BookModel)
    requires
        book.is_empty(),
        book.index == Map::<OrderId, (Side, u64)>::empty(),
    ensures
        book.consistent(),
        book.uncrossed(),
        indexed(book),
{
    assert forall|id: OrderId| #[trigger] book.index.contains_key(id) implies holds(book, id) by {}
}

/// The levels with the order at queue position `j` of level `i` taken out;
/// an emptied level closes.
pub open spec fn levels_without_order(levels: Seq<LevelModel>, i: int, j: int) -> Seq<LevelModel> {
    levels_replace_queue(levels, i, levels[i].orders.remove(j))
}

/// The book with the order at queue position `j` of level `i` on `side` taken
/// out, and its id forgotten by the index.
pub open spec fn without_order(book: BookModel, side: Side, i: int, j: int) -> BookModel {
    book.with(
        side,
        levels_without_order(book.levels(side), i, j),
        book.index.remove(order_at(book, side, i, j).id),
    )
}

/// Where level `a` of the shortened levels was before.
spec fn old_level(levels: Seq<LevelModel>, i: int, a: int) -> int {
    if levels[i].orders.len() == 1 && a >= i {
        a + 1
    } else {
        a
    }
}

/// Where position `b` of level `a` of the shortened levels was before.
spec fn old_slot(levels: Seq<LevelModel>, i: int, j: int, a: int, b: int) -> int {
    if levels[i].orders.len() > 1 && a == i && b >= j {
        b + 1
    } else {
        b
    }
}

/// Where level `a0` is after the order at (`i`, `j`) is taken out.
spec fn new_level(levels: Seq<LevelModel>, i: int, a0: int) -> int {
    if levels[i].orders.len() == 1 && a0 > i {
        a0 - 1
    } else {
        a0
    }
}

/// Where position `b0` of level `a0` is after the order at (`i`, `j`) is
/// taken out.
spec fn new_slot(levels: Seq<LevelModel>, i: int, j: int, a0: int, b0: int) -> int {
    if a0 == i && b0 > j {
        b0 - 1
    } else {
        b0
    }
}

/// Taking one order out moves every other order to a position of its own,
/// at the same price, and every position afterwards holds one of them.
proof fn lemma_without_order_positions(levels: Seq<LevelModel>, i: int, j: int)
    requires
        0 <= i < levels.len(),
        0 <= j < levels[i].orders.len(),
    ensures
        forall|a: int, b: int|
            0 <= a < levels_without_order(levels, i, j).len() && 0 <= b < levels_without_order(
                levels,
                i,
                j,
            )[a].orders.len() ==> {
                let a0 = old_level(levels, i, a);
                let b0 = old_slot(levels, i, j, a, b);
                &&& 0 <= a0 < levels.len()
                &&& 0 <= b0 < levels[a0].orders.len()
                &&& !(a0 == i && b0 == j)
                &&& levels_without_order(levels, i, j)[a].price == levels[a0].price
                &&& #[trigger] levels_without_order(levels, i, j)[a].orders[b] == levels[a0].orders[b0]
            },
        forall|a0: int, b0: int|
            0 <= a0 < levels.len() && 0 <= b0 < levels[a0].orders.len() && !(a0 == i && b0 == j)
                ==> {
                let a = new_level(levels, i, a0);
                let b = new_slot(levels, i, j, a0, b0);
                &&& 0 <= a < levels_without_order(levels, i, j).len()
                &&& 0 <= b < levels_without_order(levels, i, j)[a].orders.len()
                &&& #[trigger] levels[a0].orders[b0] == levels_without_order(levels, i, j)[a].orders[b]
                &&& levels[a0].price == levels_without_order(levels, i, j)[a].price
                &&& old_level(levels, i, a) == a0
                &&& old_slot(levels, i, j, a, b) == b0
            },
{
    let nl = levels_without_order(levels, i, j);
    let queue = levels[i].orders.remove(j);
    assert forall|a: int, b: int| 0 <= a < nl.len() && 0 <= b < nl[a].orders.len() implies {
        let a0 = old_level(levels, i, a);
        let b0 = old_slot(levels, i, j, a, b);
        &&& 0 <= a0 < levels.len()
        &&& 0 <= b0 < levels[a0].orders.len()
        &&& !(a0 == i && b0 == j)
        &&& nl[a].price == levels[a0].price
        &&& #[trigger] nl[a].orders[b] == levels[a0].orders[b0]
    } by {
        if levels[i].orders.len() == 1 {
            assert(nl == levels.remove(i));
        } else if a == i {
            assert(nl[a].orders == queue);
        } else {
            assert(nl[a] == levels[a]);
        }
    }
    assert forall|a0: int, b0: int|
        0 <= a0 < levels.len() && 0 <= b0 < levels[a0].orders.len() && !(a0 == i && b0 == j) implies {
        let a = new_level(levels, i, a0);
        let b = new_slot(levels, i, j, a0, b0);
        &&& 0 <= a < nl.len()
        &&& 0 <= b < nl[a].orders.len()
        &&& #[trigger] levels[a0].orders[b0] == nl[a].orders[b]
        &&& levels[a0].price == nl[a].price
        &&& old_level(levels, i, a) == a0
        &&& old_slot(levels, i, j, a, b) == b0
    } by {
        if levels[i].orders.len() == 1 {
            assert(nl == levels.remove(i));
            assert(a0 != i);
        } else if a0 == i {
            assert(nl[a0].orders == queue);
        } else {
            assert(nl[a0] == levels[a0]);
        }
    }
}

/// Taking one order out of an indexed book keeps it well formed and
/// indexed; the order's id is no longer held, and every other id held stays.
pub proof fn lemma_without_order(book: BookModel, side: Side, i: int, j: int)
    requires
        book.wf(),
        indexed(book),
        at(book, side, i, j),
    ensures
        without_order(book, side, i, j).wf(),
        indexed(without_order(book, side, i, j)),
        forall|x: OrderId|
            holds(without_order(book, side, i, j), x) <==> (holds(book, x) && x != order_at(
                book,
                side,
                i,
                j,
            ).id),
{
    let levels = book.levels(side);
    let nb = without_order(book, side, i, j);
    let nl = levels_without_order(levels, i, j);
    let id = order_at(book, side, i, j).id;
    lemma_without_order_positions(levels, i, j);
    lemma_levels_replace_queue_wf(levels, i, levels[i].orders.remove(j));
    assert(nb.levels(side) == nl);
    assert(nb.levels(side.opposite()) == book.levels(side.opposite()));
    // Every position of the new book is a position of the old one, other than
    // the order taken out.
    assert forall|s: Side, a: int, b: int| at(nb, s, a, b) implies {
        let a0 = if s == side { old_level(levels, i, a) } else { a };
        let b0 = if s == side { old_slot(levels, i, j, a, b) } else { b };
        &&& at(book, s, a0, b0)
        &&& !(s == side && a0 == i && b0 == j)
        &&& #[trigger] order_at(nb, s, a, b) == order_at(book, s, a0, b0)
        &&& nb.levels(s)[a].price == book.levels(s)[a0].price
    } by {
        if s == side {
            assert(nl[a].orders[b] == levels[old_level(levels, i, a)].orders[old_slot(levels, i, j, a, b)]);
        }
    }
    // The old positions other than the order taken out are positions of the
    // new book.
    assert forall|s: Side, a0: int, b0: int|
        at(book, s, a0, b0) && !(s == side && a0 == i && b0 == j) implies holds(
        nb,
        #[trigger] order_at(book, s, a0, b0).id,
    ) by {
        if s == side {
            let a = new_level(levels, i, a0);
            let b = new_slot(levels, i, j, a0, b0);
            assert(levels[a0].orders[b0] == nl[a].orders[b]);
            assert(at(nb, s, a, b));
            assert(order_at(nb, s, a, b).id == order_at(book, s, a0, b0).id);
        } else {
            assert(at(nb, s, a0, b0));
            assert(order_at(nb, s, a0, b0) == order_at(book, s, a0, b0));
        }
    }
    assert forall|s: Side, a: int, b: int| at(nb, s, a, b) implies {
        let x = #[trigger] order_at(nb, s, a, b).id;
        &&& nb.index.contains_key(x)
        &&& nb.index[x] == (s, nb.levels(s)[a].price)
    } by {
        let a0 = if s == side { old_level(levels, i, a) } else { a };
        let b0 = if s == side { old_slot(levels, i, j, a, b) } else { b };
        assert(order_at(nb, s, a, b) == order_at(book, s, a0, b0));
        assert(order_at(book, s, a0, b0).id != id);
    }
    assert forall|s1: Side, i1: int, j1: int, s2: Side, i2: int, j2: int|
        at(nb, s1, i1, j1) && at(nb, s2, i2, j2) && #[trigger] order_at(nb, s1, i1, j1).id
            == #[trigger] order_at(nb, s2, i2, j2).id implies s1 == s2 && i1 == i2 && j1 == j2 by {
        let a1 = if s1 == side { old_level(levels, i, i1) } else { i1 };
        let b1 = if s1 == side { old_slot(levels, i, j, i1, j1) } else { j1 };
        let a2 = if s2 == side { old_level(levels, i, i2) } else { i2 };
        let b2 = if s2 == side { old_slot(levels, i, j, i2, j2) } else { j2 };
        assert(order_at(nb, s1, i1, j1) == order_at(book, s1, a1, b1));
        assert(order_at(nb, s2, i2, j2) == order_at(book, s2, a2, b2));
    }
    assert forall|x: OrderId| holds(nb, x) <==> (holds(book, x) && x != id) by {
        if holds(nb, x) {
            let (s, a, b) = choose|s: Side, a: int, b: int| at(nb, s, a, b) && #[trigger] order_at(nb, s, a, b).id == x;
            let a0 = if s == side { old_level(levels, i, a) } else { a };
            let b0 = if s == side { old_slot(levels, i, j, a, b) } else { b };
            assert(order_at(nb, s, a, b) == order_at(book, s, a0, b0));
        }
        if holds(book, x) && x != id {
            let (s, a0, b0) = choose|s: Side, a0: int, b0: int| at(book, s, a0, b0) && #[trigger] order_at(book, s, a0, b0).id == x;
            assert(holds(nb, order_at(book, s, a0, b0).id));
        }
    }
    assert forall|x: OrderId| #[trigger] nb.index.contains_key(x) implies holds(nb, x) by {
        assert(book.index.contains_key(x) && x != id);
    }
}

/// Taking the oldest order of a level out is taking out the order at the
/// front of that level's queue.
pub proof fn lemma_pop_front_is_without_order(book: BookModel, side: Side, price: u64)
    requires
        book.wf(),
        has_level(book.levels(side), price),
    ensures
        ({
            let i = level_pos(book.levels(side), price);
            &&& at(book, side, i, 0)
            &&& book.pop_front(side, price) == (without_order(book, side, i, 0), Some(
                order_at(book, side, i, 0),
            ))
        }),
{
    let levels = book.levels(side);
    let i = level_pos(levels, price);
    assert(levels[i].orders.len() > 0);
    assert(levels[i].orders.drop_first() =~= levels[i].orders.remove(0));
}

/// Replacing the oldest order of a level by one with the same id keeps the
/// book indexed, holding the same ids.
pub proof fn lemma_set_front_indexed(book: BookModel, side: Side, price: u64, order: Order)
    requires
        book.wf(),
        indexed(book),
        book.front(side, price) is Some,
        order.id == book.front(side, price).unwrap().id,
    ensures
        indexed(book.set_front(side, price, order)),
        forall|x: OrderId| holds(book.set_front(side, price, order), x) <==> holds(book, x),
{
    let nb = book.set_front(side, price, order);
    let levels = book.levels(side);
    let i = level_pos(levels, price);
    assert(nb.levels(side) == levels.update(
        i,
        LevelModel { price: levels[i].price, orders: levels[i].orders.update(0, order) },
    ));
    assert(nb.levels(side.opposite()) == book.levels(side.opposite()));
    assert forall|s: Side, a: int, b: int| at(nb, s, a, b) <==> at(book, s, a, b) by {}
    assert forall|s: Side, a: int, b: int| at(nb, s, a, b) implies {
        &&& (#[trigger] order_at(nb, s, a, b)).id == order_at(book, s, a, b).id
        &&& nb.levels(s)[a].price == book.levels(s)[a].price
    } by {
        if s == side && a == i && b == 0 {
        } else if s == side && a == i {
            assert(order_at(nb, s, a, b) == order_at(book, s, a, b));
        }
    }
    assert forall|x: OrderId| holds(nb, x) <==> holds(book, x) by {
        if holds(nb, x) {
            let (s, a, b) = choose|s: Side, a: int, b: int| at(nb, s, a, b) && #[trigger] order_at(nb, s, a, b).id == x;
            assert(order_at(book, s, a, b).id == x);
        }
        if holds(book, x) {
            let (s, a, b) = choose|s: Side, a: int, b: int| at(book, s, a, b) && #[trigger] order_at(book, s, a, b).id == x;
            assert(order_at(nb, s, a, b).id == x);
        }
    }
    assert forall|s1: Side, i1: int, j1: int, s2: Side, i2: int, j2: int|
        at(nb, s1, i1, j1) && at(nb, s2, i2, j2) && #[trigger] order_at(nb, s1, i1, j1).id
            == #[trigger] order_at(nb, s2, i2, j2).id implies s1 == s2 && i1 == i2 && j1 == j2 by {
        assert(order_at(book, s1, i1, j1).id == order_at(book, s2, i2, j2).id);
    }
}

/// Resting an order whose id no resting order has keeps the book indexed;
/// the ids held are the old ones and the new one.
pub proof fn lemma_insert_indexed(book: BookModel, order: Order)
    requires
        book.wf(),
        indexed(book),
        !holds(book, order.id),
    ensures
        indexed(book.insert_resting(order)),
        forall|x: OrderId| holds(book.insert_resting(order), x) <==> (holds(book, x) || x == order.id),
{
    let side = order.side;
    let levels = book.levels(side);
    let nb = book.insert_resting(order);
    let nl = levels_insert(levels, order);
    assert(nb.levels(side) == nl);
    assert(nb.levels(side.opposite()) == book.levels(side.opposite()));
    assert(!book.index.contains_key(order.id));
    let found = has_level(levels, order.price);
    let i = if found { level_pos(levels, order.price) } else { levels.len() as int };
    let j = if found { levels[i].orders.len() as int } else { 0 };
    assert(nl[i].price == order.price);
    assert(at(nb, side, i, j) && order_at(nb, side, i, j) == order);
    // Old positions keep their orders and prices; the one new position holds `order`.
    assert forall|s: Side, a: int, b: int| at(nb, s, a, b) implies {
        ||| (s == side && a == i && b == j)
        ||| (at(book, s, a, b) && #[trigger] order_at(nb, s, a, b) == order_at(book, s, a, b)
            && nb.levels(s)[a].price == book.levels(s)[a].price)
    } by {
        if s == side && a != i {
            assert(nl[a] == levels[a]);
        }
    }
    assert forall|s: Side, a: int, b: int| at(book, s, a, b) implies at(nb, s, a, b) && #[trigger] order_at(
        nb,
        s,
        a,
        b,
    ) == order_at(book, s, a, b) by {
        if s == side && a != i {
            assert(nl[a] == levels[a]);
        }
    }
    assert forall|s: Side, a: int, b: int| at(nb, s, a, b) implies {
        let x = #[trigger] order_at(nb, s, a, b).id;
        &&& nb.index.contains_key(x)
        &&& nb.index[x] == (s, nb.levels(s)[a].price)
    } by {
        if !(s == side && a == i && b == j) {
            assert(order_at(nb, s, a, b) == order_at(book, s, a, b));
            assert(order_at(book, s, a, b).id != order.id);
        }
    }
    assert forall|s1: Side, i1: int, j1: int, s2: Side, i2: int, j2: int|
        at(nb, s1, i1, j1) && at(nb, s2, i2, j2) && #[trigger] order_at(nb, s1, i1, j1).id
            == #[trigger] order_at(nb, s2, i2, j2).id implies s1 == s2 && i1 == i2 && j1 == j2 by {
        if !(s1 == side && i1 == i && j1 == j) {
            assert(order_at(nb, s1, i1, j1) == order_at(book, s1, i1, j1));
        }
        if !(s2 == side && i2 == i && j2 == j) {
            assert(order_at(nb, s2, i2, j2) == order_at(book, s2, i2, j2));
        }
    }
    assert forall|x: OrderId| holds(nb, x) <==> (holds(book, x) || x == order.id) by {
        if holds(nb, x) {
            let (s, a, b) = choose|s: Side, a: int, b: int| at(nb, s, a, b) && #[trigger] order_at(nb, s, a, b).id == x;
            if !(s == side && a == i && b == j) {
                assert(order_at(book, s, a, b).id == x);
            }
        }
        if holds(book, x) {
            let (s, a, b) = choose|s: Side, a: int, b: int| at(book, s, a, b) && #[trigger] order_at(book, s, a, b).id == x;
            assert(order_at(nb, s, a, b).id == x);
        }
        if x == order.id {
            assert(order_at(nb, side, i, j).id == x);
        }
    }
    assert forall|x: OrderId| #[trigger] nb.index.contains_key(x) implies holds(nb, x) by {
        if x != order.id {
            assert(book.index.contains_key(x));
        }
    }
}

/// A queue with no order of id `id` loses nothing to `without_id`.
proof fn lemma_without_absent_id(orders: Seq<Order>, id: OrderId)
    requires
        forall|j: int| 0 <= j < orders.len() ==> #[trigger] orders[j].id != id,
    ensures
        without_id(orders, id) == orders,
        last_with_id(orders, id) is None,
    decreases orders.len(),
{
    if orders.len() > 0 {
        let init = orders.drop_last();
        assert forall|j: int| 0 <= j < init.len() implies #[trigger] init[j].id != id by {
            assert(init[j] == orders[j]);
        }
        lemma_without_absent_id(init, id);
        assert(orders.last().id != id);
        assert(init.push(orders.last()) =~= orders);
    }
}

/// Law: cancelling an order that was just rested undoes the resting. Where
/// no resting order has the id of `order` and the index does not know it,
/// resting `order` and then removing its id gives back `order` and the book
/// as it was.
pub proof fn law_remove_undoes_insert(book: BookModel, order: Order)
    requires
        book.wf(),
        !book.index.contains_key(order.id),
        !holds(book, order.id),
    ensures
        book.insert_resting(order).remove(order.id) == (book, Some(order)),
{
    let side = order.side;
    let price = order.price;
    let id = order.id;
    let levels = book.levels(side);
    let inserted = book.insert_resting(order);
    let new_levels = levels_insert(levels, order);
    lemma_levels_insert_wf(levels, order);
    assert(inserted.levels(side) == new_levels);
    assert(inserted.index.contains_key(id));
    assert(inserted.index[id] == (side, price));
    let i = if has_level(levels, price) {
        level_pos(levels, price)
    } else {
        levels.len() as int
    };
    assert(new_levels[i].price == price);
    assert(has_level(new_levels, price));
    let k = level_pos(new_levels, price);
    assert(new_levels[k].price == price);
    assert(k == i);
    let queue = new_levels[i].orders;
    let old_queue = if has_level(levels, price) {
        levels[i].orders
    } else {
        Seq::<Order>::empty()
    };
    assert(queue =~= old_queue.push(order));
    assert forall|j: int| 0 <= j < old_queue.len() implies #[trigger] old_queue[j].id != id by {
        assert(at(book, side, i, j));
        assert(order_at(book, side, i, j) == old_queue[j]);
    }
    lemma_without_absent_id(old_queue, id);
    assert(queue.drop_last() =~= old_queue);
    assert(without_id(queue, id) == old_queue);
    assert(last_with_id(queue, id) == Some(order));
    let restored = levels_replace_queue(new_levels, i, old_queue);
    if has_level(levels, price) {
        assert(restored =~= levels);
    } else {
        assert(restored =~= levels);
    }
    assert(inserted.index.remove(id) =~= book.index);
    let (after, removed) = inserted.remove(id);
    assert(after == book.with(side, restored, book.index));
    match side {
        Side::Buy => assert(after == book),
        Side::Sell => assert(after == book),
    }
}


/// A queue in which only position `j` has its id: taking that id out takes
/// out just that order, and it is the one returned.
proof fn lemma_without_single_id(orders: Seq<Order>, j: int)
    requires
        0 <= j < orders.len(),
        forall|k: int| 0 <= k < orders.len() && k != j ==> #[trigger] orders[k].id != orders[j].id,
    ensures
        without_id(orders, orders[j].id) == orders.remove(j),
        last_with_id(orders, orders[j].id) == Some(orders[j]),
    decreases orders.len(),
{
    let id = orders[j].id;
    let init = orders.drop_last();
    if j == orders.len() - 1 {
        assert forall|k: int| 0 <= k < init.len() implies #[trigger] init[k].id != id by {
            assert(init[k] == orders[k]);
        }
        lemma_without_absent_id(init, id);
        assert(init =~= orders.remove(j));
    } else {
        assert(init[j] == orders[j]);
        assert forall|k: int| 0 <= k < init.len() && k != j implies #[trigger] init[k].id != init[j].id by {
            assert(init[k] == orders[k]);
        }
        lemma_without_single_id(init, j);
        assert(orders.last() == orders[orders.len() - 1]);
        assert(init.remove(j).push(orders.last()) =~= orders.remove(j));
    }
}

/// In an indexed book, removing the id of a resting order takes out exactly
/// that order and returns it.
pub proof fn lemma_remove_is_without_order(book: BookModel, side: Side, i: int, j: int)
    requires
        book.wf(),
        indexed(book),
        at(book, side, i, j),
    ensures
        book.remove(order_at(book, side, i, j).id) == (without_order(book, side, i, j), Some(
            order_at(book, side, i, j),
        )),
{
    let levels = book.levels(side);
    let o = order_at(book, side, i, j);
    let price = levels[i].price;
    assert(book.index.contains_key(o.id));
    assert(book.index[o.id] == (side, price));
    assert(has_level(levels, price));
    let k = level_pos(levels, price);
    assert(levels[k].price == price);
    assert(k == i);
    let queue = levels[i].orders;
    assert forall|m: int| 0 <= m < queue.len() && m != j implies #[trigger] queue[m].id != queue[j].id by {
        assert(at(book, side, i, m));
        assert(order_at(book, side, i, m) == queue[m]);
    }
    lemma_without_single_id(queue, j);
}

/// Law: cancelling a resting order of an indexed book returns that order and
/// takes it out: the book stays well formed and indexed, the id is no longer
/// held, and every other order stays.
pub proof fn law_cancel_takes_out_resting(book: BookModel, side: Side, i: int, j: int)
    requires
        book.wf(),
        indexed(book),
        at(book, side, i, j),
    ensures
        ({
            let o = order_at(book, side, i, j);
            let (after, cancelled) = book.remove(o.id);
            &&& cancelled == Some(o)
            &&& after.wf()
            &&& indexed(after)
            &&& forall|x: OrderId| holds(after, x) <==> (holds(book, x) && x != o.id)
        }),
{
    lemma_remove_is_without_order(book, side, i, j);
    lemma_without_order(book, side, i, j);
}

/// Taking one order out leaves only ids that were held before, and an index
/// that knows only ids it knew before.
pub proof fn lemma_without_order_holds(book: BookModel, side: Side, i: int, j: int)
    requires
        at(book, side, i, j),
    ensures
        forall|x: OrderId| #[trigger] holds(without_order(book, side, i, j), x) ==> holds(book, x),
        forall|x: OrderId|
            #[trigger] without_order(book, side, i, j).index.contains_key(x) ==> book.index.contains_key(x),
{
    let levels = book.levels(side);
    let nb = without_order(book, side, i, j);
    lemma_without_order_positions(levels, i, j);
    assert(nb.levels(side) == levels_without_order(levels, i, j));
    assert(nb.levels(side.opposite()) == book.levels(side.opposite()));
    assert forall|x: OrderId| #[trigger] holds(nb, x) implies holds(book, x) by {
        let (s, a, b) = choose|s: Side, a: int, b: int| at(nb, s, a, b) && #[trigger] order_at(nb, s, a, b).id == x;
        if s == side {
            let a0 = old_level(levels, i, a);
            let b0 = old_slot(levels, i, j, a, b);
            assert(levels_without_order(levels, i, j)[a].orders[b] == levels[a0].orders[b0]);
            assert(at(book, s, a0, b0));
            assert(order_at(book, s, a0, b0).id == x);
        } else {
            assert(at(book, s, a, b));
            assert(order_at(book, s, a, b).id == x);
        }
    }
}

/// Replacing the oldest order of a level by one with the same id keeps the
/// ids held and the index.
pub proof fn lemma_set_front_holds(book: BookModel, side: Side, price: u64, order: Order)
    requires
        book.front(side, price) is Some,
        order.id == book.front(side, price).unwrap().id,
    ensures
        forall|x: OrderId| #[trigger] holds(book.set_front(side, price, order), x) ==> holds(book, x),
        book.set_front(side, price, order).index == book.index,
{
    let nb = book.set_front(side, price, order);
    let levels = book.levels(side);
    let i = level_pos(levels, price);
    assert(nb.levels(side) == levels.update(
        i,
        LevelModel { price: levels[i].price, orders: levels[i].orders.update(0, order) },
    ));
    assert(nb.levels(side.opposite()) == book.levels(side.opposite()));
    assert forall|x: OrderId| #[trigger] holds(nb, x) implies holds(book, x) by {
        let (s, a, b) = choose|s: Side, a: int, b: int| at(nb, s, a, b) && #[trigger] order_at(nb, s, a, b).id == x;
        assert(at(book, s, a, b));
        assert(order_at(book, s, a, b).id == x);
    }
}

} // verus!

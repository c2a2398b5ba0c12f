//! The limit order book: resting orders grouped by side and price level,
//! each level a first-in first-out queue, with an index from order id to
//! the side and price it rests at.
use std::collections::{HashMap, VecDeque};
use vstd::prelude::*;

use crate::types::{Order, OrderId, Price, Side};

verus! {

broadcast use vstd::std_specs::hash::group_hash_axioms;

/// A price level as a value: its price and its queue, oldest order first.
pub struct LevelModel {
    pub price: Price,
    pub orders: Seq<Order>,
}

/// The book as a value. Levels are kept in the order in which they were
/// opened; the best price is found by scanning them.
pub struct BookModel {
    pub bids: Seq<LevelModel>,
    pub asks: Seq<LevelModel>,
    pub index: Map<OrderId, (Side, Price)>,
}

/// Some level of `levels` has price `price`.
pub open spec fn has_level(levels: Seq<LevelModel>, price: Price) -> bool {
    exists|i: int| 0 <= i < levels.len() && levels[i].price == price
}

/// The position of the level at `price` (meaningful where `has_level` holds).
pub open spec fn level_pos(levels: Seq<LevelModel>, price: Price) -> int {
    choose|i: int| 0 <= i < levels.len() && levels[i].price == price
}

/// Every level holds at least one order and no two levels share a price.
pub open spec fn levels_wf(levels: Seq<LevelModel>) -> bool {
    &&& forall|i: int| 0 <= i < levels.len() ==> #[trigger] levels[i].orders.len() > 0
    &&& forall|i: int, j: int|
        0 <= i < levels.len() && 0 <= j < levels.len() && i != j ==> levels[i].price
            != levels[j].price
}

/// `p` is the price of a level, and no level of this side is better:
/// the highest bid, or the lowest ask.
pub open spec fn is_best_price(levels: Seq<LevelModel>, side: Side, p: Price) -> bool {
    &&& has_level(levels, p)
    &&& forall|i: int|
        0 <= i < levels.len() ==> match side {
            Side::Buy => #[trigger] levels[i].price <= p,
            Side::Sell => levels[i].price >= p,
        }
}

/// The best price of a side: `None` when it has no level.
pub open spec fn best_price(levels: Seq<LevelModel>, side: Side) -> Option<Price> {
    if levels.len() == 0 {
        None
    } else {
        Some(choose|p: Price| is_best_price(levels, side, p))
    }
}

/// The queue with every order of id `id` taken out, the others in their order.
pub open spec fn without_id(orders: Seq<Order>, id: OrderId) -> Seq<Order>
    decreases orders.len(),
{
    if orders.len() == 0 {
        orders
    } else {
        let rest = without_id(orders.drop_last(), id);
        if orders.last().id == id {
            rest
        } else {
            rest.push(orders.last())
        }
    }
}

/// The last order of the queue with id `id`, if any.
pub open spec fn last_with_id(orders: Seq<Order>, id: OrderId) -> Option<Order>
    decreases orders.len(),
{
    if orders.len() == 0 {
        None
    } else if orders.last().id == id {
        Some(orders.last())
    } else {
        last_with_id(orders.drop_last(), id)
    }
}

/// The levels after `order` joins the back of the queue at its price, or
/// opens a new level at the end.
pub open spec fn levels_insert(levels: Seq<LevelModel>, order: Order) -> Seq<LevelModel> {
    if has_level(levels, order.price) {
        let i = level_pos(levels, order.price);
        levels.update(i, LevelModel { price: levels[i].price, orders: levels[i].orders.push(order) })
    } else {
        levels.push(LevelModel { price: order.price, orders: seq![order] })
    }
}

/// Every order of the queue is on `side`, at `price`, with something left.
pub open spec fn queue_consistent(queue: Seq<Order>, side: Side, price: Price) -> bool {
    forall|j: int|
        0 <= j < queue.len() ==> {
            let o = #[trigger] queue[j];
            o.side == side && o.price == price && o.remaining > 0
        }
}

/// Every order of a side's levels is on that side, at its level's price,
/// with something left.
pub open spec fn side_consistent(levels: Seq<LevelModel>, side: Side) -> bool {
    forall|i: int|
        0 <= i < levels.len() ==> queue_consistent(#[trigger] levels[i].orders, side, levels[i].price)
}

/// Every level price of `a` is the price of some level of `b`.
pub open spec fn prices_within(a: Seq<LevelModel>, b: Seq<LevelModel>) -> bool {
    forall|i: int| 0 <= i < a.len() ==> has_level(b, #[trigger] a[i].price)
}

/// The levels after the queue of level `i` is replaced by `queue`; an empty
/// queue closes the level.
pub open spec fn levels_replace_queue(levels: Seq<LevelModel>, i: int, queue: Seq<Order>) -> Seq<
    LevelModel,
> {
    if queue.len() == 0 {
        levels.remove(i)
    } else {
        levels.update(i, LevelModel { price: levels[i].price, orders: queue })
    }
}

/// Replacing a queue opens no new price, and keeps a side consistent when the
/// new queue is.
pub proof fn lemma_levels_replace_queue_facts(
    levels: Seq<LevelModel>,
    i: int,
    queue: Seq<Order>,
    side: Side,
)
    requires
        0 <= i < levels.len(),
    ensures
        prices_within(levels_replace_queue(levels, i, queue), levels),
        side_consistent(levels, side) && queue_consistent(queue, side, levels[i].price)
            ==> side_consistent(levels_replace_queue(levels, i, queue), side),
{
    let r = levels_replace_queue(levels, i, queue);
    assert forall|a: int| 0 <= a < r.len() implies has_level(levels, #[trigger] r[a].price) by {
        let a0 = if queue.len() == 0 && a >= i { a + 1 } else { a };
        assert(r[a].price == levels[a0].price);
    }
    if side_consistent(levels, side) && queue_consistent(queue, side, levels[i].price) {
        assert forall|a: int| 0 <= a < r.len() implies queue_consistent(
            #[trigger] r[a].orders,
            side,
            r[a].price,
        ) by {
            if queue.len() == 0 {
                let a0 = if a >= i { a + 1 } else { a };
                assert(r[a] == levels[a0]);
            } else if a != i {
                assert(r[a] == levels[a]);
            }
        }
    }
}

/// Replacing a queue keeps the levels well formed.
pub proof fn lemma_levels_replace_queue_wf(levels: Seq<LevelModel>, i: int, queue: Seq<Order>)
    requires
        levels_wf(levels),
        0 <= i < levels.len(),
    ensures
        levels_wf(levels_replace_queue(levels, i, queue)),
{
    let r = levels_replace_queue(levels, i, queue);
    if queue.len() == 0 {
        assert forall|a: int| 0 <= a < r.len() implies #[trigger] r[a].orders.len() > 0 by {
            if a < i {
                assert(r[a] == levels[a]);
            } else {
                assert(r[a] == levels[a + 1]);
            }
        }
        assert forall|a: int, b: int|
            0 <= a < r.len() && 0 <= b < r.len() && a != b implies r[a].price != r[b].price by {
            let a0 = if a < i { a } else { a + 1 };
            let b0 = if b < i { b } else { b + 1 };
            assert(r[a] == levels[a0]);
            assert(r[b] == levels[b0]);
        }
    } else {
        assert forall|a: int, b: int|
            0 <= a < r.len() && 0 <= b < r.len() && a != b implies r[a].price != r[b].price by {
            assert(r[a].price == levels[a].price);
            assert(r[b].price == levels[b].price);
        }
    }
}

/// Replacing the oldest order of a level keeps the levels well formed.
pub proof fn lemma_levels_set_front_wf(levels: Seq<LevelModel>, i: int)
    requires
        levels_wf(levels),
        0 <= i < levels.len(),
    ensures
        forall|o: Order|
            levels_wf(
                #[trigger] levels.update(
                    i,
                    LevelModel { price: levels[i].price, orders: levels[i].orders.update(0, o) },
                ),
            ),
{
    assert forall|o: Order|
        levels_wf(
            #[trigger] levels.update(
                i,
                LevelModel { price: levels[i].price, orders: levels[i].orders.update(0, o) },
            ),
        ) by {
        let r = levels.update(
            i,
            LevelModel { price: levels[i].price, orders: levels[i].orders.update(0, o) },
        );
        assert forall|a: int, b: int|
            0 <= a < r.len() && 0 <= b < r.len() && a != b implies r[a].price != r[b].price by {
            assert(r[a].price == levels[a].price);
            assert(r[b].price == levels[b].price);
        }
    }
}

/// Resting an order opens at most its own price, and keeps a side consistent
/// when the order belongs there and has something left.
pub proof fn lemma_levels_insert_facts(levels: Seq<LevelModel>, order: Order, side: Side)
    ensures
        forall|k: int|
            0 <= k < levels_insert(levels, order).len() ==> (#[trigger] levels_insert(
                levels,
                order,
            )[k].price == order.price || has_level(levels, levels_insert(levels, order)[k].price)),
        side_consistent(levels, side) && order.side == side && order.remaining > 0
            ==> side_consistent(levels_insert(levels, order), side),
{
    let r = levels_insert(levels, order);
    assert forall|k: int| 0 <= k < r.len() implies (#[trigger] r[k].price == order.price
        || has_level(levels, r[k].price)) by {
        if k < levels.len() {
            assert(r[k].price == levels[k].price);
        }
    }
    if side_consistent(levels, side) && order.side == side && order.remaining > 0 {
        if has_level(levels, order.price) {
            let i = level_pos(levels, order.price);
            assert forall|a: int| 0 <= a < r.len() implies queue_consistent(
                #[trigger] r[a].orders,
                side,
                r[a].price,
            ) by {
                if a == i {
                    let q = r[a].orders;
                    assert forall|j: int| 0 <= j < q.len() implies {
                        let o = #[trigger] q[j];
                        o.side == side && o.price == r[a].price && o.remaining > 0
                    } by {
                        if j < levels[i].orders.len() {
                            assert(q[j] == levels[i].orders[j]);
                        }
                    }
                } else {
                    assert(r[a] == levels[a]);
                }
            }
        } else {
            assert forall|a: int| 0 <= a < r.len() implies queue_consistent(
                #[trigger] r[a].orders,
                side,
                r[a].price,
            ) by {
                if a < levels.len() {
                    assert(r[a] == levels[a]);
                }
            }
        }
    }
}

/// Resting an order keeps the levels well formed.
pub proof fn lemma_levels_insert_wf(levels: Seq<LevelModel>, order: Order)
    requires
        levels_wf(levels),
    ensures
        levels_wf(levels_insert(levels, order)),
{
    let r = levels_insert(levels, order);
    if has_level(levels, order.price) {
        let i = level_pos(levels, order.price);
        assert forall|a: int, b: int|
            0 <= a < r.len() && 0 <= b < r.len() && a != b implies r[a].price != r[b].price by {
            assert(r[a].price == levels[a].price);
            assert(r[b].price == levels[b].price);
        }
    } else {
        assert forall|a: int, b: int|
            0 <= a < r.len() && 0 <= b < r.len() && a != b implies r[a].price != r[b].price by {
            if a < levels.len() && b < levels.len() {
            } else if a < levels.len() {
                assert(levels[a].price != order.price);
            } else {
                assert(levels[b].price != order.price);
            }
        }
    }
}

impl BookModel {
    /// The levels of one side.
    pub open spec fn levels(self, side: Side) -> Seq<LevelModel> {
        match side {
            Side::Buy => self.bids,
            Side::Sell => self.asks,
        }
    }

    /// The book with the levels of one side replaced and the index replaced.
    pub open spec fn with(
        self,
        side: Side,
        levels: Seq<LevelModel>,
        index: Map<OrderId, (Side, Price)>,
    ) -> BookModel {
        match side {
            Side::Buy => BookModel { bids: levels, asks: self.asks, index },
            Side::Sell => BookModel { bids: self.bids, asks: levels, index },
        }
    }

    pub open spec fn wf(self) -> bool {
        levels_wf(self.bids) && levels_wf(self.asks)
    }

    /// The book as the engine keeps it: well formed, and every order on its
    /// own side, at its level's price, with something left.
    pub open spec fn consistent(self) -> bool {
        &&& self.wf()
        &&& side_consistent(self.bids, Side::Buy)
        &&& side_consistent(self.asks, Side::Sell)
    }

    /// Every bid level is priced below every ask level.
    pub open spec fn uncrossed(self) -> bool {
        forall|i: int, j: int|
            0 <= i < self.bids.len() && 0 <= j < self.asks.len() ==> #[trigger] self.bids[i].price
                < #[trigger] self.asks[j].price
    }

    pub open spec fn is_empty(self) -> bool {
        self.bids.len() == 0 && self.asks.len() == 0
    }

    /// The best price on a side.
    pub open spec fn best(self, side: Side) -> Option<Price> {
        best_price(self.levels(side), side)
    }

    /// The book after `order` joins the back of the queue at its price on its
    /// side (a new level if there is none), and the index records it.
    pub open spec fn insert_resting(self, order: Order) -> BookModel {
        self.with(
            order.side,
            levels_insert(self.levels(order.side), order),
            self.index.insert(order.id, (order.side, order.price)),
        )
    }

    /// Cancelling id `id`: the index names the level; every order of that id
    /// leaves its queue, an emptied level closes, and the index forgets the id.
    /// The result is the last order of that id the queue held. Where the index
    /// does not know the id, or names a price with no level, nothing changes.
    pub open spec fn remove(self, id: OrderId) -> (BookModel, Option<Order>) {
        if !self.index.contains_key(id) {
            (self, None)
        } else {
            let side = self.index[id].0;
            let price = self.index[id].1;
            let levels = self.levels(side);
            if !has_level(levels, price) {
                (self, None)
            } else {
                let i = level_pos(levels, price);
                (
                    self.with(
                        side,
                        levels_replace_queue(levels, i, without_id(levels[i].orders, id)),
                        self.index.remove(id),
                    ),
                    last_with_id(levels[i].orders, id),
                )
            }
        }
    }

    /// The oldest order at `price` on `side`.
    pub open spec fn front(self, side: Side, price: Price) -> Option<Order> {
        let levels = self.levels(side);
        if has_level(levels, price) && levels[level_pos(levels, price)].orders.len() > 0 {
            Some(levels[level_pos(levels, price)].orders[0])
        } else {
            None
        }
    }

    /// The book with the oldest order at `price` on `side` replaced by `order`.
    pub open spec fn set_front(self, side: Side, price: Price, order: Order) -> BookModel {
        let levels = self.levels(side);
        if has_level(levels, price) && levels[level_pos(levels, price)].orders.len() > 0 {
            let i = level_pos(levels, price);
            self.with(
                side,
                levels.update(
                    i,
                    LevelModel { price: levels[i].price, orders: levels[i].orders.update(0, order) },
                ),
                self.index,
            )
        } else {
            self
        }
    }

    /// Taking the oldest order at `price` on `side` out: an emptied level
    /// closes and the index forgets the id of the order taken.
    pub open spec fn pop_front(self, side: Side, price: Price) -> (BookModel, Option<Order>) {
        let levels = self.levels(side);
        if !has_level(levels, price) {
            (self, None)
        } else {
            let i = level_pos(levels, price);
            let queue = levels[i].orders;
            let popped = if queue.len() > 0 {
                Some(queue[0])
            } else {
                None
            };
            let rest = if queue.len() > 0 {
                queue.drop_first()
            } else {
                queue
            };
            let new_levels = levels_replace_queue(levels, i, rest);
            let index = match popped {
                Some(o) => self.index.remove(o.id),
                None => self.index,
            };
            (self.with(side, new_levels, index), popped)
        }
    }
}

/// `VecDeque::front_mut`: a mutable reference to the oldest element, `None`
/// when the queue is empty. What is written through it becomes the first
/// element of the queue; the rest of the queue is untouched.
#[verifier::external_body]
fn queue_front_mut(queue: &mut VecDeque<Order>) -> (front: Option<&mut Order>)
    ensures
        match front {
            Some(o) => {
                &&& old(queue)@.len() > 0
                &&& *o == old(queue)@[0]
                &&& final(queue)@ == old(queue)@.update(0, *final(o))
            },
            None => old(queue)@.len() == 0 && final(queue)@ == old(queue)@,
        },
{
    queue.front_mut()
}

#[derive(Debug)]
struct PriceLevel {
    price: Price,
    orders: VecDeque<Order>,
}

impl View for PriceLevel {
    type V = LevelModel;

    closed spec fn view(&self) -> LevelModel {
        LevelModel { price: self.price, orders: self.orders@ }
    }
}

/// The models of a sequence of levels.
spec fn levels_view(levels: Seq<PriceLevel>) -> Seq<LevelModel> {
    levels.map_values(|l: PriceLevel| l@)
}

/// A limit order book with price-time priority.
#[derive(Debug)]
pub struct OrderBook {
    bids: Vec<PriceLevel>,
    asks: Vec<PriceLevel>,
    index: HashMap<OrderId, (Side, Price)>,
}

impl View for OrderBook {
    type V = BookModel;

    closed spec fn view(&self) -> BookModel {
        BookModel {
            bids: levels_view(self.bids@),
            asks: levels_view(self.asks@),
            index: self.index@,
        }
    }
}

impl Default for OrderBook {
    fn default() -> (book: Self)
        ensures
            book@.wf(),
            book@.is_empty(),
            book@.index == Map::<OrderId, (Side, Price)>::empty(),
    {
        Self::new()
    }
}

impl OrderBook {
    pub fn new() -> (book: Self)
        ensures
            book@.wf(),
            book@.bids == Seq::<LevelModel>::empty(),
            book@.asks == Seq::<LevelModel>::empty(),
            book@.index == Map::<OrderId, (Side, Price)>::empty(),
    {
        let book = Self { bids: Vec::new(), asks: Vec::new(), index: HashMap::new() };
        assert(levels_view(book.bids@) =~= Seq::<LevelModel>::empty());
        assert(levels_view(book.asks@) =~= Seq::<LevelModel>::empty());
        book
    }

    fn side_levels_mut(&mut self, side: Side) -> (levels: &mut Vec<PriceLevel>)
        ensures
            final(self).index == old(self).index,
            match side {
                Side::Buy => {
                    &&& *levels == old(self).bids
                    &&& final(self).bids == *final(levels)
                    &&& final(self).asks == old(self).asks
                },
                Side::Sell => {
                    &&& *levels == old(self).asks
                    &&& final(self).asks == *final(levels)
                    &&& final(self).bids == old(self).bids
                },
            },
    {
        match side {
            Side::Buy => &mut self.bids,
            Side::Sell => &mut self.asks,
        }
    }

    fn find_level_index(levels: &Vec<PriceLevel>, price: Price) -> (found: Option<usize>)
        ensures
            match found {
                Some(i) => {
                    &&& i < levels@.len()
                    &&& levels@[i as int].price == price
                    &&& forall|j: int| 0 <= j < i ==> levels@[j].price != price
                },
                None => forall|j: int| 0 <= j < levels@.len() ==> levels@[j].price != price,
            },
    {
        let mut i: usize = 0;
        while i < levels.len()
            invariant
                i <= levels@.len(),
                forall|j: int| 0 <= j < i ==> levels@[j].price != price,
            decreases levels@.len() - i,
        {
            if levels[i].price == price {
                return Some(i);
            }
            i += 1;
        }
        None
    }

    /// The highest price (for bids) or lowest price (for asks) among `levels`.
    fn best_level_price(levels: &Vec<PriceLevel>, side: Side) -> (best: Option<Price>)
        ensures
            best == best_price(levels_view(levels@), side),
    {
        let ghost lv = levels_view(levels@);
        let mut best: Option<Price> = None;
        let mut i: usize = 0;
        while i < levels.len()
            invariant
                i <= levels@.len(),
                lv == levels_view(levels@),
                match best {
                    None => i == 0,
                    Some(p) => {
                        &&& exists|j: int| 0 <= j < i && lv[j].price == p
                        &&& forall|j: int|
                            0 <= j < i ==> match side {
                                Side::Buy => #[trigger] lv[j].price <= p,
                                Side::Sell => lv[j].price >= p,
                            }
                    },
                },
            decreases levels@.len() - i,
        {
            let p = levels[i].price;
            assert(lv[i as int].price == p);
            best = match best {
                None => Some(p),
                Some(b) => match side {
                    Side::Buy => Some(if p > b { p } else { b }),
                    Side::Sell => Some(if p < b { p } else { b }),
                },
            };
            i += 1;
        }
        proof {
            if let Some(p) = best {
                assert(is_best_price(lv, side, p));
                let q = choose|q: Price| is_best_price(lv, side, q);
                let jq = choose|j: int| 0 <= j < lv.len() && lv[j].price == q;
                let jp = choose|j: int| 0 <= j < lv.len() && lv[j].price == p;
                assert(lv[jq].price == q);
                assert(lv[jp].price == p);
                assert(q == p);
            }
        }
        best
    }

    /// The highest bid price, if any bid rests.
    pub fn best_bid(&self) -> (best: Option<Price>)
        ensures
            best == self@.best(Side::Buy),
    {
        Self::best_level_price(&self.bids, Side::Buy)
    }

    /// The lowest ask price, if any ask rests.
    pub fn best_ask(&self) -> (best: Option<Price>)
        ensures
            best == self@.best(Side::Sell),
    {
        Self::best_level_price(&self.asks, Side::Sell)
    }

    /// `order` joins the back of the queue at its price, opening a new level
    /// if none is there.
    fn add_to_levels(levels: &mut Vec<PriceLevel>, order: Order)
        requires
            levels_wf(levels_view(old(levels)@)),
        ensures
            levels_view(final(levels)@) == levels_insert(levels_view(old(levels)@), order),
    {
        let ghost lv = levels_view(old(levels)@);
        let price = order.price;
        match Self::find_level_index(levels, price) {
            Some(index) => {
                proof {
                    assert(lv[index as int].price == order.price);
                    assert(has_level(lv, order.price));
                    let k = level_pos(lv, order.price);
                    assert(lv[k].price == order.price);
                    assert(k == index);
                }
                levels[index].orders.push_back(order);
                assert(levels_view(levels@) =~= levels_insert(lv, order));
            },
            None => {
                proof {
                    assert forall|j: int| 0 <= j < lv.len() implies lv[j].price != order.price by {
                        assert(lv[j].price == levels@[j].price);
                    }
                    assert(!has_level(lv, order.price));
                }
                let mut orders = VecDeque::new();
                orders.push_back(order);
                levels.push(PriceLevel { price, orders });
                assert(levels_view(levels@) =~= levels_insert(lv, order));
            },
        }
    }

    /// `order` joins the back of the queue at its price on its side, opening
    /// a new level if none is there, and the index records its side and price.
    pub fn insert_resting(&mut self, order: Order)
        requires
            old(self)@.wf(),
        ensures
            final(self)@ == old(self)@.insert_resting(order),
            final(self)@.wf(),
    {
        let (id, side, price) = (order.id, order.side, order.price);
        let levels = self.side_levels_mut(side);
        Self::add_to_levels(levels, order);
        self.index.insert(id, (side, price));
        proof {
            lemma_levels_insert_wf(old(self)@.levels(side), order);
        }
    }

    /// Takes every order of id `id` out of `queue`, keeping the others in
    /// their order, and returns the last one taken.
    fn take_orders_with_id(queue: &mut VecDeque<Order>, id: OrderId) -> (removed: Option<Order>)
        ensures
            final(queue)@ == without_id(old(queue)@, id),
            removed == last_with_id(old(queue)@, id),
    {
        let ghost original = old(queue)@;
        let mut removed = None;
        let mut rebuilt_queue = VecDeque::with_capacity(queue.len());
        loop
            invariant
                queue@.len() <= original.len(),
                queue@ == original.skip(original.len() - queue@.len()),
                rebuilt_queue@ == without_id(original.take(original.len() - queue@.len()), id),
                removed == last_with_id(original.take(original.len() - queue@.len()), id),
            ensures
                queue@.len() == 0,
                rebuilt_queue@ == without_id(original, id),
                removed == last_with_id(original, id),
            decreases queue@.len(),
        {
            let ghost k = original.len() - queue@.len();
            match queue.pop_front() {
                Some(order) => {
                    proof {
                        assert(order == original[k]);
                        assert(original.take(k + 1).drop_last() =~= original.take(k));
                        assert(queue@ =~= original.skip(k + 1));
                    }
                    if order.id == id {
                        removed = Some(order);
                        continue;
                    }
                    rebuilt_queue.push_back(order);
                },
                None => {
                    assert(original.take(k) =~= original);
                    break;
                },
            }
        }
        *queue = rebuilt_queue;
        removed
    }

    /// Takes every order of id `id` out of level `level_index`, closing the
    /// level if it empties; returns the last order taken.
    fn remove_from_level(levels: &mut Vec<PriceLevel>, level_index: usize, id: OrderId) -> (removed:
        Option<Order>)
        requires
            level_index < old(levels)@.len(),
        ensures
            levels_view(final(levels)@) == levels_replace_queue(
                levels_view(old(levels)@),
                level_index as int,
                without_id(levels_view(old(levels)@)[level_index as int].orders, id),
            ),
            removed == last_with_id(levels_view(old(levels)@)[level_index as int].orders, id),
    {
        let ghost lv = levels_view(old(levels)@);
        let removed = Self::take_orders_with_id(&mut levels[level_index].orders, id);
        assert(levels_view(levels@) =~= lv.update(
            level_index as int,
            LevelModel { price: lv[level_index as int].price, orders: levels@[level_index as int].orders@ },
        ));
        if levels[level_index].orders.len() == 0 {
            levels.remove(level_index);
            assert(levels_view(levels@) =~= lv.remove(level_index as int));
        }
        removed
    }

    /// Cancels order `id`: every order of that id leaves the queue that the
    /// index names for it, an emptied level closes, and the index forgets the
    /// id. Returns the last such order, or `None` (and changes nothing) where
    /// the index does not know the id or names a level that is not there.
    pub fn remove(&mut self, id: OrderId) -> (removed: Option<Order>)
        requires
            old(self)@.wf(),
        ensures
            (final(self)@, removed) == old(self)@.remove(id),
            final(self)@.wf(),
    {
        let (side, price) = match self.index.get(&id) {
            Some(entry) => *entry,
            None => return None,
        };
        let levels = self.side_levels_mut(side);
        let level_index = match Self::find_level_index(levels, price) {
            Some(i) => i,
            None => {
                proof {
                    let lv = old(self)@.levels(side);
                    assert forall|j: int| 0 <= j < lv.len() implies lv[j].price != price by {
                        assert(lv[j].price == levels@[j].price);
                    }
                }
                return None;
            },
        };
        proof {
            let lv = old(self)@.levels(side);
            assert(lv[level_index as int].price == price);
            let k = level_pos(lv, price);
            assert(lv[k].price == price);
            assert(k == level_index);
            lemma_levels_replace_queue_wf(lv, k, without_id(lv[k].orders, id));
        }
        let removed = Self::remove_from_level(levels, level_index, id);
        self.index.remove(&id);
        removed
    }

    /// A mutable reference to the oldest order of level `level_index`.
    fn level_front_mut(levels: &mut Vec<PriceLevel>, level_index: usize) -> (front: Option<&mut Order>)
        requires
            level_index < old(levels)@.len(),
        ensures
            ({
                let lv = levels_view(old(levels)@);
                let i = level_index as int;
                match front {
                    Some(o) => {
                        &&& lv[i].orders.len() > 0
                        &&& *o == lv[i].orders[0]
                        &&& levels_view(final(levels)@) == lv.update(
                            i,
                            LevelModel { price: lv[i].price, orders: lv[i].orders.update(0, *final(o)) },
                        )
                    },
                    None => lv[i].orders.len() == 0 && levels_view(final(levels)@) == lv,
                }
            }),
    {
        let level = &mut levels[level_index];
        Self::front_of(level)
    }

    fn front_of(level: &mut PriceLevel) -> (front: Option<&mut Order>)
        ensures
            final(level).price == old(level).price,
            match front {
                Some(o) => {
                    &&& old(level)@.orders.len() > 0
                    &&& *o == old(level)@.orders[0]
                    &&& final(level)@.orders == old(level)@.orders.update(0, *final(o))
                },
                None => old(level)@.orders.len() == 0 && final(level)@ == old(level)@,
            },
    {
        queue_front_mut(&mut level.orders)
    }

    /// A mutable reference to the oldest order at `price` on `side`, if such
    /// a level rests. Whatever is written through it replaces that order.
    pub fn front_at(&mut self, side: Side, price: Price) -> (front: Option<&mut Order>)
        requires
            old(self)@.wf(),
        ensures
            match front {
                Some(o) => {
                    &&& old(self)@.front(side, price) == Some(*o)
                    &&& final(self)@ == old(self)@.set_front(side, price, *final(o))
                },
                None => old(self)@.front(side, price) is None && final(self)@ == old(self)@,
            },
            final(self)@.wf(),
    {
        let levels = self.side_levels_mut(side);
        let level_index = match Self::find_level_index(levels, price) {
            Some(i) => i,
            None => {
                proof {
                    let lv = old(self)@.levels(side);
                    assert forall|j: int| 0 <= j < lv.len() implies lv[j].price != price by {
                        assert(lv[j].price == levels@[j].price);
                    }
                }
                return None;
            },
        };
        proof {
            let lv = old(self)@.levels(side);
            assert(lv[level_index as int].price == price);
            let k = level_pos(lv, price);
            assert(lv[k].price == price);
            assert(k == level_index);
            lemma_levels_set_front_wf(lv, k);
        }
        Self::level_front_mut(levels, level_index)
    }

    /// Takes the oldest order out of level `level_index`, closing the level if
    /// it empties.
    fn pop_from_level(levels: &mut Vec<PriceLevel>, level_index: usize) -> (popped: Option<Order>)
        requires
            level_index < old(levels)@.len(),
        ensures
            ({
                let lv = levels_view(old(levels)@);
                let i = level_index as int;
                let queue = lv[i].orders;
                &&& popped == (if queue.len() > 0 { Some(queue[0]) } else { None::<Order> })
                &&& levels_view(final(levels)@) == levels_replace_queue(
                    lv,
                    i,
                    if queue.len() > 0 { queue.drop_first() } else { queue },
                )
            }),
    {
        let ghost lv = levels_view(old(levels)@);
        let order = levels[level_index].orders.pop_front();
        assert(levels_view(levels@) =~= lv.update(
            level_index as int,
            LevelModel { price: lv[level_index as int].price, orders: levels@[level_index as int].orders@ },
        ));
        if levels[level_index].orders.len() == 0 {
            levels.remove(level_index);
            assert(levels_view(levels@) =~= lv.remove(level_index as int));
        }
        order
    }

    /// Takes the oldest order at `price` on `side` out of the book, closing
    /// its level if it empties; the index forgets its id.
    pub fn pop_front_at(&mut self, side: Side, price: Price) -> (popped: Option<Order>)
        requires
            old(self)@.wf(),
        ensures
            (final(self)@, popped) == old(self)@.pop_front(side, price),
            final(self)@.wf(),
    {
        let levels = self.side_levels_mut(side);
        let level_index = match Self::find_level_index(levels, price) {
            Some(i) => i,
            None => {
                proof {
                    let lv = old(self)@.levels(side);
                    assert forall|j: int| 0 <= j < lv.len() implies lv[j].price != price by {
                        assert(lv[j].price == levels@[j].price);
                    }
                }
                return None;
            },
        };
        proof {
            let lv = old(self)@.levels(side);
            assert(lv[level_index as int].price == price);
            let k = level_pos(lv, price);
            assert(lv[k].price == price);
            assert(k == level_index);
            lemma_levels_replace_queue_wf(lv, k, lv[k].orders.drop_first());
        }
        let order = Self::pop_from_level(levels, level_index);
        if let Some(order) = &order {
            self.index.remove(&order.id);
        }
        order
    }

    /// No order rests on either side.
    pub fn is_empty(&self) -> (empty: bool)
        ensures
            empty == self@.is_empty(),
    {
        self.bids.is_empty() && self.asks.is_empty()
    }
}

} // verus!

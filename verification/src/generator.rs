//! A synthetic order stream for benchmarks and tests: consecutive ids,
//! alternating sides, prices drawn around a mid price and quantities from
//! 1 to 10.
use vstd::prelude::*;

use crate::rng::{draw_below, draw_between, small_rng_from_seed, DrawModel, RngModel, SeededRng};
use crate::types::{Order, OrderId, Price, Quantity, Side};

verus! {

/// The generator's settings and position, without its random state.
pub struct GeneratorModel {
    pub mid_price: Price,
    pub spread: Price,
    pub next_id: OrderId,
    pub timestamp: u64,
    pub side_toggle: bool,
}

/// The lowest price the generator draws: the mid price less the spread, or 0.
pub open spec fn lowest_price(mid_price: Price, spread: Price) -> int {
    if mid_price >= spread {
        mid_price - spread
    } else {
        0
    }
}

/// The price that a drawn `offset` stands for: that many ticks above the
/// lowest price.
pub open spec fn price_at_offset(mid_price: Price, spread: Price, offset: int) -> int {
    lowest_price(mid_price, spread) + offset
}

/// The settings with which drawing a price cannot overflow: twice the spread,
/// and the highest price drawn, fit in a `u64`.
pub open spec fn prices_fit(mid_price: Price, spread: Price) -> bool {
    &&& 2 * spread <= u64::MAX
    &&& lowest_price(mid_price, spread) + 2 * spread <= u64::MAX
}

/// A synthetic order generator for benchmarking and testing.
#[derive(Debug)]
pub struct OrderGenerator {
    rng: SeededRng,
    mid_price: Price,
    spread: Price,
    next_id: OrderId,
    timestamp: u64,
    side_toggle: bool,
}

impl View for OrderGenerator {
    type V = GeneratorModel;

    closed spec fn view(&self) -> GeneratorModel {
        GeneratorModel {
            mid_price: self.mid_price,
            spread: self.spread,
            next_id: self.next_id,
            timestamp: self.timestamp,
            side_toggle: self.side_toggle,
        }
    }
}

/// The smallest quantity the generator draws.
pub const MIN_QUANTITY: Quantity = 1;

/// The largest quantity the generator draws.
pub const MAX_QUANTITY: Quantity = 10;

/// The settings and position after `steps` orders have been drawn from a
/// generator in state `start`: ids and timestamps step by one (wrapping),
/// and the side flips each time.
pub open spec fn advanced(start: GeneratorModel, steps: nat) -> GeneratorModel
    decreases steps,
{
    if steps == 0 {
        start
    } else {
        let before = advanced(start, (steps - 1) as nat);
        GeneratorModel {
            next_id: before.next_id.wrapping_add(1),
            timestamp: before.timestamp.wrapping_add(1),
            side_toggle: !before.side_toggle,
            ..before
        }
    }
}

impl OrderGenerator {
    /// The generator's random source: the seed it was made from and its
    /// latest draws.
    pub closed spec fn random_state(&self) -> RngModel {
        self.rng@
    }

    /// A generator around `mid_price` with prices within `spread` of it,
    /// drawing from a generator seeded with `seed`. Ids start at 1, timestamps
    /// at 0, and the first order is a sell.
    ///
    /// Its random source is rand's `SmallRng` seeded from `seed`, and its
    /// random state records that seed, with no draws taken yet. The values
    /// later drawn are not modelled.
    pub fn new(mid_price: Price, spread: Price, seed: u64) -> (generator: Self)
        ensures
            generator@ == (GeneratorModel {
                mid_price,
                spread,
                next_id: 1,
                timestamp: 0,
                side_toggle: false,
            }),
            generator.random_state() == (RngModel {
                seed,
                previous: None,
                latest: None,
            }),
    {
        Self {
            rng: small_rng_from_seed(seed),
            mid_price,
            spread,
            next_id: 1,
            timestamp: 0,
            side_toggle: false,
        }
    }

    /// The number of prices a draw chooses among: every price from the
    /// lowest price up to twice the spread above it.
    pub fn price_draw_bound(&self) -> (bound: u64)
        requires
            prices_fit(self@.mid_price, self@.spread),
        ensures
            bound == 2 * self@.spread + 1,
    {
        (self.spread * 2).saturating_add(1)
    }

    /// The order made from the drawn price `offset` (in ticks above the
    /// lowest price) and `quantity`: it takes the next id, the side the
    /// toggle names, and the current timestamp, after which id and timestamp
    /// step by one (wrapping) and the side flips.
    pub fn order_from_draws(&mut self, offset: u64, quantity: Quantity) -> (order: Order)
        requires
            prices_fit(old(self)@.mid_price, old(self)@.spread),
            offset <= 2 * old(self)@.spread,
            MIN_QUANTITY <= quantity <= MAX_QUANTITY,
        ensures
            order == (Order {
                id: old(self)@.next_id,
                side: if old(self)@.side_toggle {
                    Side::Buy
                } else {
                    Side::Sell
                },
                price: (lowest_price(old(self)@.mid_price, old(self)@.spread) + offset) as Price,
                remaining: quantity,
                timestamp: old(self)@.timestamp,
            }),
            final(self)@ == advanced(old(self)@, 1),
            final(self).random_state() == old(self).random_state(),
    {
        let lower = self.mid_price.saturating_sub(self.spread);
        let order = Order::new(
            self.next_id,
            if self.side_toggle {
                Side::Buy
            } else {
                Side::Sell
            },
            lower + offset,
            quantity,
            self.timestamp,
        );
        self.next_id = self.next_id.wrapping_add(1);
        self.timestamp = self.timestamp.wrapping_add(1);
        self.side_toggle = !self.side_toggle;
        proof {
            assert(advanced(old(self)@, 0) == old(self)@);
        }
        order
    }

    /// The next synthetic order: the next id, sides alternating (a sell
    /// first), a price drawn among the `price_draw_bound()` prices from the
    /// lowest price up, a quantity drawn from `MIN_QUANTITY` to `MAX_QUANTITY`,
    /// and the current timestamp. The stream never ends. Which price and
    /// which quantity come out is left to the random generator.
    pub fn next(&mut self) -> (order: Option<Order>)
        requires
            prices_fit(old(self)@.mid_price, old(self)@.spread),
        ensures
            order is Some,
            ({
                let o = order.unwrap();
                let before = old(self)@;
                &&& o.id == before.next_id
                &&& o.side == (if before.side_toggle {
                    Side::Buy
                } else {
                    Side::Sell
                })
                &&& lowest_price(before.mid_price, before.spread) <= o.price
                &&& o.price <= lowest_price(before.mid_price, before.spread) + 2 * before.spread
                &&& MIN_QUANTITY <= o.remaining <= MAX_QUANTITY
                &&& o.timestamp == before.timestamp
            }),
            final(self)@ == advanced(old(self)@, 1),
            ({
                let o = order.unwrap();
                let before = old(self)@;
                let after = final(self).random_state();
                &&& after.seed == old(self).random_state().seed
                &&& after.previous == Some(
                    DrawModel {
                        value: o.price - lowest_price(before.mid_price, before.spread),
                        low: 0,
                        high: 2 * before.spread + 1,
                    },
                )
                &&& after.latest == Some(
                    DrawModel {
                        value: o.remaining as int,
                        low: MIN_QUANTITY as int,
                        high: MAX_QUANTITY + 1,
                    },
                )
            }),
    {
        let bound = self.price_draw_bound();
        let offset = draw_below(&mut self.rng, 0, bound);
        let quantity = draw_between(&mut self.rng, MIN_QUANTITY, MAX_QUANTITY);
        Some(self.order_from_draws(offset, quantity))
    }
}

/// Law: the `k`-th order of a fresh generator. After `k - 1` orders have been
/// drawn from `OrderGenerator::new(mid, spread, seed)`, the generator gives id
/// `k`, timestamp `k - 1`, and a sell for odd `k`, a buy for even `k`.
pub proof fn law_kth_order(mid_price: Price, spread: Price, k: nat)
    requires
        1 <= k <= u64::MAX,
    ensures
        ({
            let state = advanced(
                GeneratorModel { mid_price, spread, next_id: 1, timestamp: 0, side_toggle: false },
                (k - 1) as nat,
            );
            &&& state.next_id == k
            &&& state.timestamp == k - 1
            &&& state.side_toggle == (k % 2 == 0)
            &&& state.mid_price == mid_price
            &&& state.spread == spread
        }),
    decreases k,
{
    if k > 1 {
        law_kth_order(mid_price, spread, (k - 1) as nat);
    }
}

/// Law: the price draw spans the whole spread. The offsets a price draw can
/// take, `0..price_draw_bound()`, give exactly the prices from the lowest
/// price up to twice the spread above it; around a mid price at least the
/// spread, that is every price from `mid - spread` to `mid + spread`, the mid
/// price itself the middle one. (`next` records that its price was drawn over
/// exactly that range, and the quantity next over `MIN_QUANTITY..=MAX_QUANTITY`.)
pub proof fn law_price_draw_covers_spread(mid_price: Price, spread: Price, price: int)
    requires
        prices_fit(mid_price, spread),
    ensures
        (lowest_price(mid_price, spread) <= price <= lowest_price(mid_price, spread) + 2 * spread)
            <==> (exists|offset: int|
            #![trigger price_at_offset(mid_price, spread, offset)]
            0 <= offset < 2 * spread + 1 && price == price_at_offset(mid_price, spread, offset)),
        mid_price >= spread ==> {
            &&& lowest_price(mid_price, spread) == mid_price - spread
            &&& lowest_price(mid_price, spread) + 2 * spread == mid_price + spread
            &&& lowest_price(mid_price, spread) + spread == mid_price
        },
{
    if lowest_price(mid_price, spread) <= price <= lowest_price(mid_price, spread) + 2 * spread {
        let offset = price - lowest_price(mid_price, spread);
        assert(0 <= offset < 2 * spread + 1 && price == price_at_offset(mid_price, spread, offset));
    }
}

/// Law: a generator's random state, before any draw, is fixed by its seed
/// and tells seeds apart. Two generators from which nothing has been drawn
/// yet (as `new` leaves one) have the same random state exactly when they
/// were seeded alike; so `new` with seeds 7 and 11 gives different states.
pub proof fn law_fresh_state_follows_seed(a: OrderGenerator, b: OrderGenerator)
    requires
        a.random_state().previous is None,
        a.random_state().latest is None,
        b.random_state().previous is None,
        b.random_state().latest is None,
    ensures
        (a.random_state() == b.random_state()) <==> (a.random_state().seed
            == b.random_state().seed),
{
}

} // verus!

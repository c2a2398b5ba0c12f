//! The random source of the order generator: rand's `SmallRng`, seeded from
//! a `u64`, together with a record of the seed it was made from and of the
//! latest draws taken from it.
use rand::rngs::SmallRng;
use rand::{Rng, SeedableRng};
use vstd::prelude::*;

verus! {

#[verifier::external_type_specification]
#[verifier::external_body]
pub struct ExSmallRng(SmallRng);

/// A value drawn uniformly from `low` up to but not including `high`.
pub struct DrawModel {
    pub value: int,
    pub low: int,
    pub high: int,
}

/// What is known of a random source: the seed it was made from, and its two
/// latest draws, the older first. A draw of a `u32` from an inclusive range is
/// recorded with the half-open range one wider.
pub struct RngModel {
    pub seed: u64,
    pub previous: Option<DrawModel>,
    pub latest: Option<DrawModel>,
}

/// One draw as it was taken: a `u64` below a bound, or a `u32` within an
/// inclusive range; each with its value and its range.
#[derive(Clone, Copy, Debug)]
pub enum Drawn {
    Below(u64, u64, u64),
    Between(u32, u32, u32),
}

/// The model of one draw.
pub open spec fn drawn_model(d: Drawn) -> DrawModel {
    match d {
        Drawn::Below(value, low, high) => DrawModel {
            value: value as int,
            low: low as int,
            high: high as int,
        },
        Drawn::Between(value, low, high) => DrawModel {
            value: value as int,
            low: low as int,
            high: high + 1,
        },
    }
}

/// A `SmallRng` together with the seed it was made from and its two latest
/// draws. Only the functions of this module make or change one.
#[derive(Debug)]
pub struct SeededRng {
    rng: SmallRng,
    seed: u64,
    previous: Option<Drawn>,
    latest: Option<Drawn>,
}

impl View for SeededRng {
    type V = RngModel;

    closed spec fn view(&self) -> RngModel {
        RngModel {
            seed: self.seed,
            previous: match self.previous {
                Some(d) => Some(drawn_model(d)),
                None => None,
            },
            latest: match self.latest {
                Some(d) => Some(drawn_model(d)),
                None => None,
            },
        }
    }
}

/// `SmallRng::seed_from_u64`: a random source seeded from `seed`, with no
/// draws taken yet. The values it will give are not modelled: what is
/// stated is which seed it was made from.
#[verifier::external_body]
pub(crate) fn small_rng_from_seed(seed: u64) -> (rng: SeededRng)
    ensures
        rng@ == (RngModel { seed, previous: None, latest: None }),
{
    SeededRng { rng: SmallRng::seed_from_u64(seed), seed, previous: None, latest: None }
}

/// `Rng::gen_range(low..high)` on `u64`: a draw from `low` up to but not
/// including `high`, recorded as the latest draw. The range must not be
/// empty (it panics otherwise). Which value comes out is left open.
#[verifier::external_body]
pub(crate) fn draw_below(rng: &mut SeededRng, low: u64, high: u64) -> (draw: u64)
    requires
        low < high,
    ensures
        low <= draw < high,
        final(rng)@ == (RngModel {
            seed: old(rng)@.seed,
            previous: old(rng)@.latest,
            latest: Some(DrawModel { value: draw as int, low: low as int, high: high as int }),
        }),
{
    let draw = rng.rng.gen_range(low..high);
    rng.previous = rng.latest;
    rng.latest = Some(Drawn::Below(draw, low, high));
    draw
}

/// `Rng::gen_range(low..=high)` on `u32`: a draw from `low` to `high`
/// inclusive, recorded as the latest draw. The range must not be empty
/// (it panics otherwise). Which value comes out is left open.
#[verifier::external_body]
pub(crate) fn draw_between(rng: &mut SeededRng, low: u32, high: u32) -> (draw: u32)
    requires
        low <= high,
    ensures
        low <= draw <= high,
        final(rng)@ == (RngModel {
            seed: old(rng)@.seed,
            previous: old(rng)@.latest,
            latest: Some(DrawModel { value: draw as int, low: low as int, high: high + 1 }),
        }),
{
    let draw = rng.rng.gen_range(low..=high);
    rng.previous = rng.latest;
    rng.latest = Some(Drawn::Between(draw, low, high));
    draw
}

} // verus!

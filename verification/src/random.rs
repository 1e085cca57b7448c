//! Random picks, drawn from a xorshift generator.

use rand::Rng;
use rng::xorshift::Xorshiftplus128Rng;
use vstd::prelude::*;
use crate::direction::{Direction, Orientation};

verus! {

/// `rng::xorshift::Xorshiftplus128Rng`, carried as a value whose inside is
/// not looked into.
#[verifier::external_type_specification]
#[verifier::external_body]
pub struct ExXorshiftplus128Rng(Xorshiftplus128Rng);

/// `Xorshiftplus128Rng::new` on `rand::thread_rng`: a generator seeded from
/// the thread's own. Nothing is known of the numbers it will give.
#[verifier::external_body]
pub(crate) fn fresh_generator() -> (generator: Xorshiftplus128Rng) {
    Xorshiftplus128Rng::new(&mut rand::thread_rng())
}

/// `Rng::gen_range` from zero: some number below `bound`.
#[verifier::external_body]
pub(crate) fn random_below(generator: &mut Xorshiftplus128Rng, bound: u32) -> (n: u32)
    requires
        bound > 0,
    ensures
        n < bound,
{
    generator.gen_range(0, bound)
}

/// `Rng::gen` for `bool`: one of the two truth values.
#[verifier::external_body]
pub(crate) fn random_coin(generator: &mut Xorshiftplus128Rng) -> (heads: bool) {
    generator.gen::<bool>()
}

impl Direction {
    /// Some direction, picked by a fresh generator.
    pub fn random() -> (direction: Self) {
        let mut generator = fresh_generator();
        let idx = random_below(&mut generator, 8);
        Self::from_index(idx)
    }

    /// Some cardinal direction, picked by a fresh generator.
    pub fn random_no_diag() -> (direction: Self)
        ensures
            direction.cardinal(),
    {
        let mut generator = fresh_generator();
        let idx = random_below(&mut generator, 4);
        Self::from_index(idx)
    }

    /// Some diagonal direction, picked by a fresh generator.
    pub fn random_diag_only() -> (direction: Self)
        ensures
            !direction.cardinal(),
    {
        let mut generator = fresh_generator();
        let idx = random_below(&mut generator, 4);
        Self::from_index(idx + 4)
    }
}

impl Orientation {
    /// Some orientation, picked by the given generator.
    pub fn random(rng: &mut Xorshiftplus128Rng) -> (orientation: Self) {
        Self::from_coin(random_coin(rng))
    }
}

} // verus!

//! The dice pool: one die for each racing color, drawn one at a time in an
//! order that was shuffled when the pool was filled.

use vstd::prelude::*;
use rand::rngs::StdRng;
use rand::seq::SliceRandom;
use rand::Rng;
use crate::color::{lemma_racers_once, racers, racing_colors, CamelColor};

verus! {

/// The generator that shuffles the pool and throws the dice. The library only
/// hands it on.
#[verifier::external_type_specification]
#[verifier::external_body]
pub struct ExStdRng(StdRng);

/// The least number a die shows.
pub const LOWEST_ROLL: usize = 1;

/// The greatest number a die shows.
pub const HIGHEST_ROLL: usize = 3;

/// One throw: whose die it was and the number it shows.
#[derive(Clone, Copy, Debug, PartialEq, Eq, Structural)]
pub struct Roll {
    pub color: CamelColor,
    pub number: usize,
}

/// Whether `dice` can be what is left of a pool: dice of racing colors, no
/// color twice.
pub open spec fn is_pool(dice: Seq<CamelColor>) -> bool {
    &&& dice.no_duplicates()
    &&& forall|i: int| 0 <= i < dice.len() ==> (#[trigger] dice[i]).is_racing()
}

/// The dice that have not been thrown yet. The last one is drawn next.
pub struct Pyramid {
    dice: Vec<CamelColor>,
}

impl View for Pyramid {
    type V = Seq<CamelColor>;

    closed spec fn view(&self) -> Seq<CamelColor> {
        self.dice@
    }
}

/// `rand::seq::SliceRandom::shuffle`, on the dice. It rearranges them in
/// place: afterwards the same dice are there, each as often as before, in an
/// order that depends on the generator.
#[verifier::external_body]
fn shuffle(dice: &mut Vec<CamelColor>, rng: &mut StdRng)
    ensures
        final(dice)@.to_multiset() == old(dice)@.to_multiset(),
{
    dice.shuffle(rng);
}

/// `rand::Rng::gen_range`, on the inclusive range from `low` to `high`, which
/// must not be empty. The number it returns lies in that range; which one
/// depends on the generator.
#[verifier::external_body]
fn draw_between(rng: &mut StdRng, low: usize, high: usize) -> (number: usize)
    requires
        low <= high,
    ensures
        low <= number <= high,
{
    rng.gen_range(low..=high)
}

/// One die for each racing color, shuffled.
fn fresh_dice(rng: &mut StdRng) -> (dice: Vec<CamelColor>)
    ensures
        dice@.to_multiset() == racers().to_multiset(),
        is_pool(dice@),
{
    let mut dice = racing_colors();
    shuffle(&mut dice, rng);
    proof {
        broadcast use vstd::seq_lib::group_to_multiset_ensures;

        assert forall|color: CamelColor| dice@.to_multiset().contains(color) implies dice@.to_multiset().count(
            color,
        ) == 1 by {
            lemma_racers_once(color);
        }
        dice@.lemma_multiset_has_no_duplicates_conv();
        assert forall|i: int| 0 <= i < dice@.len() implies (#[trigger] dice@[i]).is_racing() by {
            lemma_racers_once(dice@[i]);
            assert(dice@.contains(dice@[i]));
        }
    }
    dice
}

impl Pyramid {
    /// What every pool keeps to: no color has two dice in it, and only
    /// racing colors have one.
    pub open spec fn wf(&self) -> bool {
        is_pool(self@)
    }

    /// A full pool: every racing color has its die in it, in a shuffled
    /// order.
    pub fn new(rng: &mut StdRng) -> (pool: Pyramid)
        ensures
            pool.wf(),
            pool@.to_multiset() == racers().to_multiset(),
    {
        Pyramid { dice: fresh_dice(rng) }
    }

    /// Draws the next die and throws it. The color is the one whose die was
    /// next; the number is any from one to three. An empty pool gives
    /// nothing, and that is how a caller learns that every die was thrown.
    pub fn roll(&mut self, rng: &mut StdRng) -> (roll: Option<Roll>)
        requires
            old(self).wf(),
        ensures
            final(self).wf(),
            old(self)@.len() == 0 ==> roll is None && final(self)@ == old(self)@,
            old(self)@.len() > 0 ==> final(self)@ == old(self)@.drop_last(),
            old(self)@.len() > 0 ==> (roll matches Some(thrown) && thrown.color == old(self)@.last() && thrown.color.is_racing() && LOWEST_ROLL <= thrown.number
                <= HIGHEST_ROLL),
    {
        let drawn: Option<CamelColor> = self.dice.pop();
        match drawn {
            None => None,
            Some(color) => {
                let number: usize = draw_between(rng, LOWEST_ROLL, HIGHEST_ROLL);
                Some(Roll { color, number })
            },
        }
    }

    /// Fills the pool again with every racing color's die and shuffles it.
    pub fn reset(&mut self, rng: &mut StdRng)
        ensures
            final(self).wf(),
            final(self)@.to_multiset() == racers().to_multiset(),
    {
        self.dice = fresh_dice(rng);
    }
}

} // verus!

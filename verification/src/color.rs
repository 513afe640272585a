//! The markers that can stand on the track.

use vstd::prelude::*;

verus! {

/// A marker. Five colors race and own a die each; black and white only ever
/// occupy a slot and are never rolled.
#[derive(Clone, Copy, Debug, PartialEq, Eq, Hash, Structural)]
pub enum CamelColor {
    Red,
    Green,
    Yellow,
    Blue,
    Purple,
    Black,
    White,
}

impl CamelColor {
    /// Whether the color owns a die.
    pub open spec fn spec_is_racing(self) -> bool {
        self != CamelColor::Black && self != CamelColor::White
    }

    /// Whether the color owns a die.
    #[verifier::when_used_as_spec(spec_is_racing)]
    pub fn is_racing(self) -> (racing: bool)
        ensures
            racing == self.spec_is_racing(),
    {
        match self {
            CamelColor::Black | CamelColor::White => false,
            _ => true,
        }
    }
}

/// The five racing colors, in the order in which a fresh pool holds its dice.
pub open spec fn racers() -> Seq<CamelColor> {
    seq![
        CamelColor::Red,
        CamelColor::Green,
        CamelColor::Blue,
        CamelColor::Yellow,
        CamelColor::Purple,
    ]
}

/// The five racing colors, in the order in which a fresh pool holds its dice.
pub fn racing_colors() -> (colors: Vec<CamelColor>)
    ensures
        colors@ == racers(),
{
    let mut colors: Vec<CamelColor> = Vec::new();
    colors.push(CamelColor::Red);
    colors.push(CamelColor::Green);
    colors.push(CamelColor::Blue);
    colors.push(CamelColor::Yellow);
    colors.push(CamelColor::Purple);
    proof {
        assert(colors@ =~= racers());
    }
    colors
}

/// Every racing color occurs once among the racers, and no other color does.
pub proof fn lemma_racers_once(color: CamelColor)
    ensures
        racers().to_multiset().count(color) == if color.is_racing() { 1nat } else { 0nat },
        racers().to_multiset().len() == 5,
{
    broadcast use vstd::seq_lib::group_to_multiset_ensures;

    let none = Seq::<CamelColor>::empty();
    let one = none.push(CamelColor::Red);
    let two = one.push(CamelColor::Green);
    let three = two.push(CamelColor::Blue);
    let four = three.push(CamelColor::Yellow);
    let five = four.push(CamelColor::Purple);
    assert(five =~= racers());
    assert(none.to_multiset().len() == 0);
    assert(none.to_multiset().count(color) == 0);
    assert(one.to_multiset() =~= none.to_multiset().insert(CamelColor::Red));
    assert(two.to_multiset() =~= one.to_multiset().insert(CamelColor::Green));
    assert(three.to_multiset() =~= two.to_multiset().insert(CamelColor::Blue));
    assert(four.to_multiset() =~= three.to_multiset().insert(CamelColor::Yellow));
    assert(five.to_multiset() =~= four.to_multiset().insert(CamelColor::Purple));
}

} // verus!

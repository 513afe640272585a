//! What can still happen in a round: every order in which the five dice can
//! be drawn, with every number each can show, and for each of these branches
//! who ends in last place.

use vstd::prelude::*;
use vstd::arithmetic::power::pow;
use itertools::Itertools;
use crate::color::{lemma_racers_once, racers, racing_colors, CamelColor};
use crate::pyramid::{HIGHEST_ROLL, LOWEST_ROLL};
use crate::track::{
    last_place, lemma_last_place_stands, lemma_markers_occupied, lemma_move_conserves_markers,
    markers, try_move, Stacks, Track, TrackError,
};

verus! {

/// Number of racing colors, and so of throws in a branch.
pub const RACERS: usize = 5;

/// Number of orders in which five dice can be drawn.
pub const ORDERS: usize = 120;

/// Number of ways in which five dice can fall.
pub const THROWS: usize = 243;

/// Number of branches of a round.
pub const BRANCHES: usize = 29160;

/// A branch: the colors in the order in which their dice are drawn, and the
/// number that each die shows, in the same order.
pub type Branch = (Seq<CamelColor>, Seq<usize>);

/// The product of the numbers from one to `n`.
pub open spec fn factorial(n: nat) -> nat
    decreases n,
{
    if n == 0 {
        1
    } else {
        n * factorial((n - 1) as nat)
    }
}

/// The rows of a table, each by its view.
pub open spec fn rows<T>(table: Seq<Vec<T>>) -> Seq<Seq<T>> {
    Seq::new(table.len(), |i: int| table[i]@)
}

/// The branches that a list of outcomes stands for.
pub open spec fn branches(outcomes: Seq<(Vec<CamelColor>, Vec<usize>)>) -> Seq<Branch> {
    Seq::new(outcomes.len(), |i: int| (outcomes[i].0@, outcomes[i].1@))
}

/// What `Itertools::permutations` yields, in its order, for `items` taken
/// `size` at a time.
pub uninterp spec fn orderings_of(items: Seq<CamelColor>, size: nat) -> Seq<Seq<CamelColor>>;

/// The numbers a die can show.
pub open spec fn faces() -> Seq<usize> {
    seq![1usize, 2usize, 3usize]
}

/// The `index`-th way in which five dice can fall, counted as a number of
/// five digits to the base three: the last die changes fastest.
pub open spec fn throws(index: int) -> Seq<usize> {
    Seq::new(
        RACERS as nat,
        |j: int| faces()[(index / pow(3, (RACERS - 1 - j) as nat)) % 3],
    )
}

/// The branches of a round: for each order of the dice in turn, every way
/// in which the dice can fall.
pub open spec fn round_branches() -> Seq<Branch> {
    Seq::new(
        BRANCHES as nat,
        |i: int| (orderings_of(racers(), RACERS as nat)[i / (THROWS as int)], throws(i % (THROWS as int))),
    )
}

/// Whether `branch` draws each racing color's die once and has every die
/// show one to three.
pub open spec fn is_round_branch(branch: Branch) -> bool {
    &&& branch.0.to_multiset() == racers().to_multiset()
    &&& branch.1.len() == RACERS
    &&& forall|j: int|
        0 <= j < RACERS ==> LOWEST_ROLL <= (#[trigger] branch.1[j]) <= HIGHEST_ROLL
}

/// The track after the throws of a branch have been made one after the
/// other, or why the first throw that could not be made could not. Throws
/// are made as long as there is both a color and a number for them.
pub open spec fn play(stacks: Stacks, order: Seq<CamelColor>, numbers: Seq<usize>) -> Result<
    Stacks,
    TrackError,
>
    decreases order.len(),
{
    if order.len() == 0 || numbers.len() == 0 {
        Ok(stacks)
    } else {
        match try_move(stacks, order[0], numbers[0] as int) {
            Ok(next) => play(next, order.drop_first(), numbers.drop_first()),
            Err(error) => Err(error),
        }
    }
}

/// Who is in last place at the end of each branch, branch by branch, or why
/// the first branch that could not be played to its end could not.
pub open spec fn losers(stacks: Stacks, all: Seq<Branch>) -> Result<
    Seq<Option<CamelColor>>,
    TrackError,
>
    decreases all.len(),
{
    if all.len() == 0 {
        Ok(Seq::empty())
    } else {
        match losers(stacks, all.drop_last()) {
            Err(error) => Err(error),
            Ok(earlier) => match play(stacks, all.last().0, all.last().1) {
                Err(error) => Err(error),
                Ok(end) => Ok(earlier.push(last_place(end))),
            },
        }
    }
}

/// In how many of the branches `color` was last.
pub open spec fn times_last(last: Seq<Option<CamelColor>>, color: CamelColor) -> nat
    decreases last.len(),
{
    if last.len() == 0 {
        0
    } else {
        times_last(last.drop_last(), color) + if last.last() == Some(color) {
            1nat
        } else {
            0nat
        }
    }
}

/// For each racing color, in how many of the branches it was last.
pub open spec fn counts(last: Seq<Option<CamelColor>>) -> Map<CamelColor, nat> {
    Map::new(|color: CamelColor| color.is_racing(), |color: CamelColor| times_last(last, color))
}

/// The tally of a track over `all`: for each racing color the number of
/// branches that end with it in last place. One branch that cannot be played
/// to its end spoils the whole tally.
pub open spec fn tally_of(stacks: Stacks, all: Seq<Branch>) -> Result<
    Map<CamelColor, nat>,
    TrackError,
> {
    match losers(stacks, all) {
        Ok(last) => Ok(counts(last)),
        Err(error) => Err(error),
    }
}

/// The sum of a tally's five counts.
pub open spec fn total(tally: Map<CamelColor, nat>) -> nat {
    tally[CamelColor::Red] + tally[CamelColor::Green] + tally[CamelColor::Blue]
        + tally[CamelColor::Yellow] + tally[CamelColor::Purple]
}

/// Whether the five racing markers, each once, are all that stands on the
/// track.
pub open spec fn holds_the_racers(stacks: Stacks) -> bool {
    markers(stacks) == racers().to_multiset()
}

/// The throws of a branch neither make nor lose a marker.
pub proof fn lemma_play_conserves_markers(
    stacks: Stacks,
    order: Seq<CamelColor>,
    numbers: Seq<usize>,
)
    requires
        play(stacks, order, numbers) is Ok,
    ensures
        markers(play(stacks, order, numbers)->Ok_0) == markers(stacks),
    decreases order.len(),
{
    if order.len() == 0 || numbers.len() == 0 {
    } else {
        let next = try_move(stacks, order[0], numbers[0] as int)->Ok_0;
        lemma_move_conserves_markers(stacks, order[0], numbers[0] as int);
        lemma_play_conserves_markers(next, order.drop_first(), numbers.drop_first());
    }
}

/// Once a branch has failed, the failure is the result, whatever branches
/// follow.
pub proof fn lemma_failure_sticks(stacks: Stacks, all: Seq<Branch>, played: int)
    requires
        0 <= played <= all.len(),
        losers(stacks, all.take(played)) is Err,
    ensures
        losers(stacks, all) == losers(stacks, all.take(played)),
    decreases all.len(),
{
    if played == all.len() {
        assert(all.take(played) =~= all);
    } else {
        assert(all.drop_last().take(played) =~= all.take(played));
        lemma_failure_sticks(stacks, all.drop_last(), played);
    }
}

/// Whether a racing color is in last place.
pub open spec fn racer_last(last: Option<CamelColor>) -> bool {
    match last {
        Some(color) => color.is_racing(),
        None => false,
    }
}

/// Where every branch ends with a racing color in last place, the five
/// counts add up to the number of branches.
pub proof fn lemma_counts_add_up(last: Seq<Option<CamelColor>>)
    requires
        forall|i: int| 0 <= i < last.len() ==> racer_last(#[trigger] last[i]),
    ensures
        total(counts(last)) == last.len(),
    decreases last.len(),
{
    if last.len() > 0 {
        lemma_counts_add_up(last.drop_last());
        assert(racer_last(last[last.len() - 1]));
    }
}

/// With the five racing markers on the track and nothing else, every branch
/// that can be played ends with a racing color in last place.
pub proof fn lemma_racer_is_last(stacks: Stacks, all: Seq<Branch>)
    requires
        holds_the_racers(stacks),
        losers(stacks, all) is Ok,
    ensures
        losers(stacks, all)->Ok_0.len() == all.len(),
        forall|i: int|
            0 <= i < all.len() ==> racer_last(#[trigger] losers(stacks, all)->Ok_0[i]),
    decreases all.len(),
{
    if all.len() > 0 {
        lemma_racer_is_last(stacks, all.drop_last());
        let end = play(stacks, all.last().0, all.last().1)->Ok_0;
        lemma_play_conserves_markers(stacks, all.last().0, all.last().1);
        lemma_racers_once(CamelColor::Red);
        lemma_markers_occupied(end);
        lemma_last_place_stands(end);
        lemma_racers_once(last_place(end)->Some_0);
        assert(racer_last(last_place(end)));
    }
}

/// With the five racing markers on the track and nothing else, a tally
/// counts every branch once: its five counts add up to the number of
/// branches, so the shares of the five colors add up to the whole.
pub proof fn lemma_tally_counts_every_branch(stacks: Stacks, all: Seq<Branch>)
    requires
        holds_the_racers(stacks),
        tally_of(stacks, all) is Ok,
    ensures
        total(tally_of(stacks, all)->Ok_0) == all.len(),
{
    lemma_racer_is_last(stacks, all);
    lemma_counts_add_up(losers(stacks, all)->Ok_0);
}

/// With each of the five racing markers alone on a slot of its own, every
/// branch has one color in last place: the five counts add up to the number
/// of branches.
pub proof fn lemma_apart_counts_every_branch(stacks: Stacks, all: Seq<Branch>)
    requires
        holds_the_racers(stacks),
        forall|s: int| 0 <= s < stacks.len() ==> (#[trigger] stacks[s]).len() <= 1,
        tally_of(stacks, all) is Ok,
    ensures
        total(tally_of(stacks, all)->Ok_0) == all.len(),
{
    lemma_tally_counts_every_branch(stacks, all);
}

/// For each racing color, the number of branches that end with it in last
/// place.
#[derive(Clone, Copy, Debug, PartialEq, Eq, Structural)]
pub struct Tally {
    pub red: u64,
    pub green: u64,
    pub blue: u64,
    pub yellow: u64,
    pub purple: u64,
}

impl View for Tally {
    type V = Map<CamelColor, nat>;

    open spec fn view(&self) -> Map<CamelColor, nat> {
        Map::new(
            |color: CamelColor| color.is_racing(),
            |color: CamelColor|
                match color {
                    CamelColor::Red => self.red as nat,
                    CamelColor::Green => self.green as nat,
                    CamelColor::Blue => self.blue as nat,
                    CamelColor::Yellow => self.yellow as nat,
                    _ => self.purple as nat,
                },
        )
    }
}

impl Tally {
    /// A tally of no branch.
    pub fn new() -> (tally: Tally)
        ensures
            tally@ == counts(Seq::empty()),
    {
        let tally = Tally { red: 0, green: 0, blue: 0, yellow: 0, purple: 0 };
        proof {
            assert(tally@ =~= counts(Seq::empty()));
        }
        tally
    }

    /// The count of `color`; none for a color that does not race.
    pub fn get(&self, color: CamelColor) -> (count: Option<u64>)
        ensures
            match count {
                Some(number) => self@.contains_key(color) && self@[color] == number,
                None => !self@.contains_key(color),
            },
    {
        match color {
            CamelColor::Red => Some(self.red),
            CamelColor::Green => Some(self.green),
            CamelColor::Blue => Some(self.blue),
            CamelColor::Yellow => Some(self.yellow),
            CamelColor::Purple => Some(self.purple),
            _ => None,
        }
    }

    /// The sum of the five counts.
    pub fn total(&self) -> (sum: u128)
        ensures
            sum == total(self@),
    {
        self.red as u128 + self.green as u128 + self.blue as u128 + self.yellow as u128
            + self.purple as u128
    }

    /// Counts one more branch for whoever was last in it. A branch with
    /// nobody in last place, or with a color that does not race, counts for
    /// no one.
    fn record(&mut self, last: Option<CamelColor>, Ghost(earlier): Ghost<Seq<Option<CamelColor>>>)
        requires
            old(self)@ == counts(earlier),
            earlier.len() < u64::MAX,
            forall|color: CamelColor| times_last(earlier, color) <= earlier.len(),
        ensures
            final(self)@ == counts(earlier.push(last)),
            forall|color: CamelColor| times_last(earlier.push(last), color) <= earlier.len() + 1,
    {
        proof {
            assert(earlier.push(last).drop_last() =~= earlier);
            assert(old(self)@[CamelColor::Red] == times_last(earlier, CamelColor::Red));
            assert(old(self)@[CamelColor::Green] == times_last(earlier, CamelColor::Green));
            assert(old(self)@[CamelColor::Blue] == times_last(earlier, CamelColor::Blue));
            assert(old(self)@[CamelColor::Yellow] == times_last(earlier, CamelColor::Yellow));
            assert(old(self)@[CamelColor::Purple] == times_last(earlier, CamelColor::Purple));
        }
        match last {
            Some(CamelColor::Red) => {
                self.red = self.red + 1;
            },
            Some(CamelColor::Green) => {
                self.green = self.green + 1;
            },
            Some(CamelColor::Blue) => {
                self.blue = self.blue + 1;
            },
            Some(CamelColor::Yellow) => {
                self.yellow = self.yellow + 1;
            },
            Some(CamelColor::Purple) => {
                self.purple = self.purple + 1;
            },
            _ => {},
        }
        proof {
            assert(self@ =~= counts(earlier.push(last)));
            assert forall|color: CamelColor|
                times_last(earlier.push(last), color) <= earlier.len() + 1 by {
                assert(times_last(earlier, color) <= earlier.len());
            }
        }
    }
}

/// `Itertools::permutations` on `items`, all of them taken, collected. It
/// yields every arrangement of the items by position, each once: as many as
/// the factorial of their number, each holding the same items as `items`;
/// every arrangement of the items is among them, and where no two items are
/// equal no two arrangements are. The order in which they come is the
/// crate's, and has the name `orderings_of`.
#[verifier::external_body]
fn orderings(items: Vec<CamelColor>, size: usize) -> (orders: Vec<Vec<CamelColor>>)
    requires
        size == items@.len(),
        factorial(items@.len()) <= usize::MAX,
    ensures
        rows(orders@) == orderings_of(items@, size as nat),
        orders@.len() == factorial(items@.len()),
        forall|i: int|
            0 <= i < orders@.len() ==> (#[trigger] orders@[i])@.to_multiset()
                == items@.to_multiset(),
        forall|order: Seq<CamelColor>|
            #[trigger] order.to_multiset() == items@.to_multiset() ==> exists|i: int|
                0 <= i < orders@.len() && (#[trigger] orders@[i])@ == order,
        items@.no_duplicates() ==> forall|i: int, j: int|
            0 <= i < j < orders@.len() ==> (#[trigger] orders@[i])@ != (#[trigger] orders@[j])@,
{
    items.into_iter().permutations(size).collect()
}

/// `Itertools::multi_cartesian_product` on `count` copies of `faces`,
/// collected: every way of picking one face `count` times, counted up like
/// a number whose digits are positions in `faces`, the last digit changing
/// fastest.
#[verifier::external_body]
fn tuples(faces: &Vec<usize>, count: usize) -> (picks: Vec<Vec<usize>>)
    requires
        count >= 1,
        pow(faces@.len() as int, count as nat) <= usize::MAX,
    ensures
        picks@.len() == pow(faces@.len() as int, count as nat),
        forall|i: int| 0 <= i < picks@.len() ==> (#[trigger] picks@[i])@.len() == count,
        forall|i: int, j: int|
            #![trigger picks@[i]@[j]]
            0 <= i < picks@.len() && 0 <= j < count ==> picks@[i]@[j] == faces@[(i / pow(
                faces@.len() as int,
                (count - 1 - j) as nat,
            )) % (faces@.len() as int)],
{
    (0..count).map(|_| faces.iter().copied()).multi_cartesian_product().collect()
}

/// `Itertools::cartesian_product` of `orders` with `picks`, collected: each
/// order in turn, paired with every pick in turn.
#[verifier::external_body]
fn pairs(orders: Vec<Vec<CamelColor>>, picks: Vec<Vec<usize>>) -> (outcomes: Vec<
    (Vec<CamelColor>, Vec<usize>),
>)
    requires
        orders@.len() * picks@.len() <= usize::MAX,
    ensures
        outcomes@.len() == orders@.len() * picks@.len(),
        forall|i: int|
            0 <= i < outcomes@.len() ==> (#[trigger] outcomes@[i]).0@
                == orders@[i / (picks@.len() as int)]@
                && outcomes@[i].1@ == picks@[i % (picks@.len() as int)]@,
{
    orders.into_iter().cartesian_product(picks.into_iter()).collect()
}

/// The numbers a die can show.
fn die_faces() -> (numbers: Vec<usize>)
    ensures
        numbers@ == faces(),
{
    let mut numbers: Vec<usize> = Vec::new();
    numbers.push(1);
    numbers.push(2);
    numbers.push(3);
    proof {
        assert(numbers@ =~= faces());
    }
    numbers
}

/// The five dice fall in 243 ways, and there are 120 orders to draw them in.
proof fn lemma_sizes()
    ensures
        factorial(5) == 120,
        pow(3, 0) == 1,
        pow(3, 1) == 3,
        pow(3, 2) == 9,
        pow(3, 3) == 27,
        pow(3, 4) == 81,
        pow(3, 5) == 243,
{
    reveal_with_fuel(factorial, 6);
    reveal_with_fuel(pow, 6);
}

/// A number below 243 is made up of its five digits to the base three.
proof fn lemma_digits(index: int)
    requires
        0 <= index < THROWS,
    ensures
        index == 81 * ((index / 81) % 3) + 27 * ((index / 27) % 3) + 9 * ((index / 9) % 3)
            + 3 * ((index / 3) % 3) + index % 3,
{
    assert(index / 81 == (index / 27) / 3);
    assert(index / 27 == (index / 9) / 3);
    assert(index / 9 == (index / 3) / 3);
}

/// The numbers that the dice show in the `index`-th way for them to fall
/// are the digits of `index` to the base three, each raised by one.
proof fn lemma_throws(index: int)
    requires
        0 <= index < THROWS,
    ensures
        throws(index).len() == RACERS,
        throws(index)[0] == (index / 81) % 3 + 1,
        throws(index)[1] == (index / 27) % 3 + 1,
        throws(index)[2] == (index / 9) % 3 + 1,
        throws(index)[3] == (index / 3) % 3 + 1,
        throws(index)[4] == index % 3 + 1,
{
    lemma_sizes();
    assert(faces()[0] == 1 && faces()[1] == 2 && faces()[2] == 3);
    assert(pow(3, (RACERS - 1 - 0) as nat) == 81);
    assert(pow(3, (RACERS - 1 - 1) as nat) == 27);
    assert(pow(3, (RACERS - 1 - 2) as nat) == 9);
    assert(pow(3, (RACERS - 1 - 3) as nat) == 3);
    assert(pow(3, (RACERS - 1 - 4) as nat) == 1);
}

/// Two ways for the dice to fall that show the same numbers are one way.
proof fn lemma_throws_apart(one: int, other: int)
    requires
        0 <= one < THROWS,
        0 <= other < THROWS,
        throws(one) == throws(other),
    ensures
        one == other,
{
    lemma_throws(one);
    lemma_throws(other);
    lemma_digits(one);
    lemma_digits(other);
    assert(throws(one)[0] == throws(other)[0]);
    assert(throws(one)[1] == throws(other)[1]);
    assert(throws(one)[2] == throws(other)[2]);
    assert(throws(one)[3] == throws(other)[3]);
    assert(throws(one)[4] == throws(other)[4]);
}

/// Whatever numbers from one to three five dice show, that is one of the
/// ways for them to fall.
proof fn lemma_throws_reach(numbers: Seq<usize>) -> (index: int)
    requires
        numbers.len() == RACERS,
        forall|j: int|
            0 <= j < RACERS ==> LOWEST_ROLL <= (#[trigger] numbers[j]) <= HIGHEST_ROLL,
    ensures
        0 <= index < THROWS,
        throws(index) == numbers,
{
    let index = 81 * (numbers[0] - 1) + 27 * (numbers[1] - 1) + 9 * (numbers[2] - 1)
        + 3 * (numbers[3] - 1) + (numbers[4] - 1);
    lemma_throws(index);
    assert((index / 81) % 3 == numbers[0] - 1);
    assert((index / 27) % 3 == numbers[1] - 1);
    assert((index / 9) % 3 == numbers[2] - 1);
    assert((index / 3) % 3 == numbers[3] - 1);
    assert(index % 3 == numbers[4] - 1);
    assert(throws(index) =~= numbers);
    index
}

/// Every branch of a round: each order in which the five dice can be drawn,
/// with each way in which they can fall. Every branch is there, and none
/// twice.
pub fn round_outcomes() -> (outcomes: Vec<(Vec<CamelColor>, Vec<usize>)>)
    ensures
        branches(outcomes@) == round_branches(),
        outcomes@.len() == BRANCHES,
        forall|i: int| 0 <= i < BRANCHES ==> is_round_branch(#[trigger] branches(outcomes@)[i]),
        forall|branch: Branch|
            is_round_branch(branch) ==> exists|i: int|
                0 <= i < BRANCHES && #[trigger] branches(outcomes@)[i] == branch,
        forall|i: int, j: int|
            0 <= i < j < BRANCHES ==> #[trigger] branches(outcomes@)[i] != #[trigger] branches(
                outcomes@,
            )[j],
{
    proof {
        lemma_sizes();
    }
    let colors = racing_colors();
    let numbers = die_faces();
    let orders = orderings(colors, RACERS);
    let picks = tuples(&numbers, RACERS);
    let ghost listed = orders@;
    let ghost fallen = picks@;
    let outcomes = pairs(orders, picks);
    proof {
        assert(outcomes@.len() == BRANCHES);
        assert forall|i: int| 0 <= i < BRANCHES implies #[trigger] branches(outcomes@)[i]
            == round_branches()[i] && is_round_branch(branches(outcomes@)[i]) by {
            let o = i / (THROWS as int);
            let t = i % (THROWS as int);
            assert(0 <= o < ORDERS && 0 <= t < THROWS);
            assert(outcomes@[i].0@ == listed[o]@);
            assert(outcomes@[i].1@ == fallen[t]@);
            assert(rows(listed)[o] == listed[o]@);
            assert(fallen[t]@.len() == RACERS);
            assert forall|j: int| 0 <= j < RACERS implies fallen[t]@[j] == #[trigger] throws(
                t,
            )[j] && LOWEST_ROLL <= fallen[t]@[j] <= HIGHEST_ROLL by {
                let digit = (t / pow(3, (RACERS - 1 - j) as nat)) % 3;
                assert(0 <= digit < 3);
                assert(fallen[t]@[j] == faces()[digit]);
            }
            assert(fallen[t]@ =~= throws(t));
        }
        assert(branches(outcomes@) =~= round_branches());
        assert forall|branch: Branch| is_round_branch(branch) implies exists|i: int|
            0 <= i < BRANCHES && #[trigger] branches(outcomes@)[i] == branch by {
            assert(branch.0.to_multiset() == racers().to_multiset());
            let o = choose|o: int| 0 <= o < listed.len() && (#[trigger] listed[o])@ == branch.0;
            let t = lemma_throws_reach(branch.1);
            let i = o * (THROWS as int) + t;
            assert(i / (THROWS as int) == o && i % (THROWS as int) == t);
            assert(0 <= i < BRANCHES);
            assert(branches(outcomes@)[i].0 == branch.0);
            assert(branches(outcomes@)[i].1 == branch.1);
            assert(branches(outcomes@)[i] == branch);
        }
        assert(racers().no_duplicates());
        assert forall|i: int, j: int| 0 <= i < j < BRANCHES implies #[trigger] branches(
            outcomes@,
        )[i] != #[trigger] branches(outcomes@)[j] by {
            let oi = i / (THROWS as int);
            let oj = j / (THROWS as int);
            let ti = i % (THROWS as int);
            let tj = j % (THROWS as int);
            assert(branches(outcomes@)[i] == round_branches()[i]);
            assert(branches(outcomes@)[j] == round_branches()[j]);
            assert(branches(outcomes@)[i].0 == listed[oi]@);
            assert(branches(outcomes@)[j].0 == listed[oj]@);
            if oi == oj {
                assert(ti != tj);
                if throws(ti) == throws(tj) {
                    lemma_throws_apart(ti, tj);
                }
                assert(branches(outcomes@)[i].1 != branches(outcomes@)[j].1);
            } else {
                assert(listed[oi]@ != listed[oj]@);
            }
        }
    }
    outcomes
}

/// Plays a branch on a copy of the track: makes its throws one after the
/// other, as long as there is both a color and a number for them, and
/// returns the track at the end. The first throw that cannot be made ends
/// the branch with its error.
pub fn play_branch(track: &Track, order: &Vec<CamelColor>, numbers: &Vec<usize>) -> (end: Result<
    Track,
    TrackError,
>)
    ensures
        match (play(track@, order@, numbers@), end) {
            (Ok(stacks), Ok(ended)) => ended@ == stacks,
            (Err(error), Err(found)) => found == error,
            _ => false,
        },
{
    let mut simulation = track.clone();
    let mut turn: usize = 0;
    proof {
        assert(order@.skip(0) =~= order@);
        assert(numbers@.skip(0) =~= numbers@);
    }
    while turn < order.len() && turn < numbers.len()
        invariant
            turn <= order.len(),
            turn <= numbers.len(),
            play(track@, order@, numbers@) == play(
                simulation@,
                order@.skip(turn as int),
                numbers@.skip(turn as int),
            ),
        decreases order.len() - turn,
    {
        proof {
            assert(order@.skip(turn as int).drop_first() =~= order@.skip(turn + 1));
            assert(numbers@.skip(turn as int).drop_first() =~= numbers@.skip(turn + 1));
        }
        let made: Result<(), TrackError> = simulation.advance(order[turn], numbers[turn]);
        if let Err(error) = made {
            return Err(error);
        }
        turn += 1;
    }
    Ok(simulation)
}

/// Tallies, over the given branches, who ends in last place: plays each
/// branch on a copy of the track and counts it for the color that is last at
/// its end. The first branch that cannot be played to its end ends the count
/// with its error, and no tally is returned.
pub fn count_losers(track: &Track, outcomes: &Vec<(Vec<CamelColor>, Vec<usize>)>) -> (result:
    Result<Tally, TrackError>)
    ensures
        match (tally_of(track@, branches(outcomes@)), result) {
            (Ok(counted), Ok(tally)) => tally@ == counted,
            (Err(error), Err(found)) => found == error,
            _ => false,
        },
{
    let ghost all = branches(outcomes@);
    let mut tally = Tally::new();
    let ghost mut last: Seq<Option<CamelColor>> = Seq::empty();
    let mut played: usize = 0;
    proof {
        assert(all.take(0) =~= Seq::<Branch>::empty());
    }
    while played < outcomes.len()
        invariant
            played <= outcomes.len(),
            all == branches(outcomes@),
            losers(track@, all.take(played as int)) == Ok::<Seq<Option<CamelColor>>, TrackError>(
                last,
            ),
            last.len() == played,
            tally@ == counts(last),
            forall|color: CamelColor| times_last(last, color) <= last.len(),
        decreases outcomes.len() - played,
    {
        proof {
            assert(all.take(played + 1).drop_last() =~= all.take(played as int));
            assert(all.take(played + 1).last() == all[played as int]);
        }
        let end: Result<Track, TrackError> = play_branch(
            track,
            &outcomes[played].0,
            &outcomes[played].1,
        );
        match end {
            Err(error) => {
                proof {
                    lemma_failure_sticks(track@, all, played + 1);
                }
                return Err(error);
            },
            Ok(ended) => {
                let loser: Option<CamelColor> = ended.losing();
                tally.record(loser, Ghost(last));
                proof {
                    last = last.push(loser);
                }
            },
        }
        played += 1;
    }
    proof {
        assert(all.take(played as int) =~= all);
    }
    Ok(tally)
}

/// Tallies, over every branch of a round, who ends in last place, starting
/// from `track`. From one track the tally is always the same. A track from
/// which some branch cannot be played to its end gives that branch's error
/// and no tally. Where the five racing markers are all that stands on the
/// track, the five counts add up to the number of branches.
pub fn loser_tallies(track: &Track) -> (result: Result<Tally, TrackError>)
    ensures
        match (tally_of(track@, round_branches()), result) {
            (Ok(counted), Ok(tally)) => tally@ == counted,
            (Err(error), Err(found)) => found == error,
            _ => false,
        },
        holds_the_racers(track@) ==> (result matches Ok(tally) ==> total(tally@) == BRANCHES),
{
    let outcomes = round_outcomes();
    let result = count_losers(track, &outcomes);
    proof {
        if holds_the_racers(track@) && result is Ok {
            lemma_tally_counts_every_branch(track@, round_branches());
        }
    }
    result
}

} // verus!

//! A round: the track as the setup throws left it, and the pool that the
//! scoring throws are drawn from.

use vstd::prelude::*;
use vstd::multiset::Multiset;
use rand::rngs::StdRng;
use crate::color::{lemma_racers_once, racers, CamelColor};
use crate::pyramid::{is_pool, Pyramid, Roll, HIGHEST_ROLL, LOWEST_ROLL};
use crate::track::{
    empty_stacks, lemma_markers_holds, markers, try_move, Stacks, Track, TrackError, TRACK_LEN,
};

verus! {

/// The colors of a series of throws, in the order of the throws.
pub open spec fn colors_of(rolls: Seq<Roll>) -> Seq<CamelColor> {
    Seq::new(rolls.len(), |i: int| rolls[i].color)
}

/// Whether `rolls` can be what a full pool gives when it is emptied: one
/// throw for each racing color, in any order, each showing one to three.
pub open spec fn is_draw(rolls: Seq<Roll>) -> bool {
    &&& colors_of(rolls).to_multiset() == racers().to_multiset()
    &&& forall|i: int|
        0 <= i < rolls.len() ==> LOWEST_ROLL <= (#[trigger] rolls[i]).number <= HIGHEST_ROLL
}

/// The track after the setup throws `rolls`. A setup throw does not move a
/// marker on: its number names the slot, counted from one, on which the
/// marker is put down, on top of those that earlier throws put there.
pub open spec fn set_up(rolls: Seq<Roll>) -> Stacks
    decreases rolls.len(),
{
    if rolls.len() == 0 {
        empty_stacks()
    } else {
        let before = set_up(rolls.drop_last());
        let slot = rolls.last().number - 1;
        before.update(slot, before[slot].push(rolls.last().color))
    }
}

/// A round in play.
pub struct Game {
    track: Track,
    pyramid: Pyramid,
}

impl Game {
    /// Where the markers stand.
    pub closed spec fn stacks(&self) -> Stacks {
        self.track@
    }

    /// The dice that have not been thrown, the next one last.
    pub closed spec fn pool(&self) -> Seq<CamelColor> {
        self.pyramid@
    }

    /// What every round keeps to: the five racing markers stand on the
    /// track, each once, and nothing else does; the pool is a pool.
    pub open spec fn wf(&self) -> bool {
        &&& markers(self.stacks()) == racers().to_multiset()
        &&& is_pool(self.pool())
    }

    /// Sets a round up: empties a full pool onto an empty track, putting
    /// each marker down on the slot that its throw names, and fills the pool
    /// again for the throws that score.
    pub fn new(rng: &mut StdRng) -> (game: Game)
        ensures
            game.wf(),
            exists|rolls: Seq<Roll>| is_draw(rolls) && game.stacks() == set_up(rolls),
            forall|s: int| HIGHEST_ROLL <= s < TRACK_LEN ==> (#[trigger] game.stacks()[s]).len() == 0,
            game.pool().to_multiset() == racers().to_multiset(),
    {
        let mut pyramid = Pyramid::new(rng);
        let mut track = Track::new();
        let ghost mut rolls: Seq<Roll> = Seq::empty();
        proof {
            assert(colors_of(rolls) =~= Seq::<CamelColor>::empty());
            assert(colors_of(rolls).to_multiset() =~= Multiset::<CamelColor>::empty()) by {
                broadcast use vstd::seq_lib::group_to_multiset_ensures;

            }
            assert(colors_of(rolls).to_multiset().add(pyramid@.to_multiset())
                =~= racers().to_multiset());
        }
        loop
            invariant
                pyramid.wf(),
                track@ == set_up(rolls),
                track@.len() == TRACK_LEN,
                markers(track@) == colors_of(rolls).to_multiset(),
                colors_of(rolls).to_multiset().add(pyramid@.to_multiset())
                    == racers().to_multiset(),
                forall|i: int|
                    0 <= i < rolls.len() ==> LOWEST_ROLL <= (#[trigger] rolls[i]).number
                        <= HIGHEST_ROLL,
                forall|s: int| HIGHEST_ROLL <= s < TRACK_LEN ==> (#[trigger] track@[s]).len() == 0,
            ensures
                pyramid@.len() == 0,
            decreases pyramid@.len(),
        {
            let ghost pool = pyramid@;
            let ghost before = rolls;
            let next: Option<Roll> = pyramid.roll(rng);
            match next {
                None => {
                    break ;
                },
                Some(roll) => {
                    let _ = track.place(roll.number - 1, roll.color);
                    proof {
                        broadcast use vstd::seq_lib::group_to_multiset_ensures;

                        rolls = rolls.push(roll);
                        assert(rolls.drop_last() =~= before);
                        assert(colors_of(rolls) =~= colors_of(before).push(roll.color));
                        assert(pool =~= pyramid@.push(roll.color));
                        assert(colors_of(rolls).to_multiset().add(pyramid@.to_multiset())
                            =~= racers().to_multiset());
                    }
                },
            }
        }
        proof {
            broadcast use vstd::seq_lib::group_to_multiset_ensures;

            assert(pyramid@.to_multiset() =~= Multiset::<CamelColor>::empty());
            assert(colors_of(rolls).to_multiset() =~= racers().to_multiset());
            assert(is_draw(rolls));
        }
        pyramid.reset(rng);
        Game { track, pyramid }
    }

    /// The track.
    pub fn track(&self) -> (track: &Track)
        ensures
            track@ == self.stacks(),
    {
        &self.track
    }

    /// Draws the next die, throws it, and moves its marker on by the number
    /// it shows. With the pool empty nothing happens and nothing is returned.
    /// A throw that would take the marker beyond the last slot is an error:
    /// the die is spent and the track is left as it was.
    pub fn roll(&mut self, rng: &mut StdRng) -> (result: Result<Option<Roll>, TrackError>)
        requires
            old(self).wf(),
        ensures
            final(self).wf(),
            old(self).pool().len() == 0 ==> result == Ok::<Option<Roll>, TrackError>(None)
                && final(self).pool() == old(self).pool() && final(self).stacks() == old(self).stacks(),
            old(self).pool().len() > 0 ==> final(self).pool() == old(self).pool().drop_last()
                && exists|number: int|
                LOWEST_ROLL <= number <= HIGHEST_ROLL && match #[trigger] try_move(
                    old(self).stacks(),
                    old(self).pool().last(),
                    number,
                ) {
                    Ok(stacks) => result == Ok::<Option<Roll>, TrackError>(
                        Some(Roll { color: old(self).pool().last(), number: number as usize }),
                    ) && final(self).stacks() == stacks,
                    Err(error) => error == TrackError::OffTrack && result == Err::<
                        Option<Roll>,
                        TrackError,
                    >(error) && final(self).stacks() == old(self).stacks(),
                },
    {
        let next: Option<Roll> = self.pyramid.roll(rng);
        match next {
            None => Ok(None),
            Some(roll) => {
                proof {
                    lemma_racers_once(roll.color);
                    lemma_markers_holds(self.track@, roll.color);
                }
                let moved: Result<(), TrackError> = self.track.advance(roll.color, roll.number);
                match moved {
                    Ok(()) => Ok(Some(roll)),
                    Err(error) => Err(error),
                }
            },
        }
    }
}

} // verus!

//! The track: sixteen slots, each a stack of markers from bottom to top, and
//! the rule by which a marker moves and carries what stands on it.

use vstd::prelude::*;
use vstd::multiset::Multiset;
use vstd::seq_lib::lemma_multiset_commutative;
use crate::color::CamelColor;

verus! {

/// Number of slots on the track.
pub const TRACK_LEN: usize = 16;

/// The stacks of a track from its first slot on, each from bottom to top.
pub type Stacks = Seq<Seq<CamelColor>>;

/// Why a move cannot be made. Either way the state that was asked to move is
/// corrupt or the move was wrongly chosen; nothing is changed.
#[derive(Clone, Copy, Debug, PartialEq, Eq, Structural)]
pub enum TrackError {
    /// The marker stands on no slot.
    NotOnTrack,
    /// The destination lies beyond the last slot.
    OffTrack,
}

/// The stacks of a track with no marker on it.
pub open spec fn empty_stacks() -> Stacks {
    Seq::new(TRACK_LEN as nat, |s: int| Seq::<CamelColor>::empty())
}

/// Whether `color` stands on some slot.
pub open spec fn holds(stacks: Stacks, color: CamelColor) -> bool {
    exists|s: int| 0 <= s < stacks.len() && (#[trigger] stacks[s]).contains(color)
}

/// Whether `slot` is the rearmost slot on which `color` stands.
pub open spec fn is_source(stacks: Stacks, color: CamelColor, slot: int) -> bool {
    &&& 0 <= slot < stacks.len()
    &&& stacks[slot].contains(color)
    &&& forall|s: int| 0 <= s < slot ==> !(#[trigger] stacks[s]).contains(color)
}

/// Whether `height` is the lowest position of `color` in `stack`.
pub open spec fn is_first_at(stack: Seq<CamelColor>, color: CamelColor, height: int) -> bool {
    &&& 0 <= height < stack.len()
    &&& stack[height] == color
    &&& forall|h: int| 0 <= h < height ==> #[trigger] stack[h] != color
}

/// The rearmost slot on which `color` stands.
pub open spec fn slot_of(stacks: Stacks, color: CamelColor) -> int {
    choose|slot: int| is_source(stacks, color, slot)
}

/// The lowest position of `color` in the stack of its slot.
pub open spec fn height_of(stacks: Stacks, color: CamelColor) -> int {
    choose|height: int| is_first_at(stacks[slot_of(stacks, color)], color, height)
}

/// Whether `color` stands on the track and `distance` slots further on is
/// still a slot.
pub open spec fn fits(stacks: Stacks, color: CamelColor, distance: int) -> bool {
    holds(stacks, color) && slot_of(stacks, color) + distance < stacks.len()
}

/// The stacks after `color` has moved `distance` slots on: the marker leaves
/// its stack together with everything above it, and the block lands, in the
/// same order, on top of the destination's stack.
pub open spec fn moved(stacks: Stacks, color: CamelColor, distance: int) -> Stacks {
    let slot = slot_of(stacks, color);
    let height = height_of(stacks, color);
    let lifted = stacks.update(slot, stacks[slot].take(height));
    lifted.update(slot + distance, lifted[slot + distance] + stacks[slot].skip(height))
}

/// The outcome of asking `color` to move `distance` slots on.
pub open spec fn try_move(stacks: Stacks, color: CamelColor, distance: int) -> Result<
    Stacks,
    TrackError,
> {
    if !holds(stacks, color) {
        Err(TrackError::NotOnTrack)
    } else if slot_of(stacks, color) + distance >= stacks.len() {
        Err(TrackError::OffTrack)
    } else {
        Ok(moved(stacks, color, distance))
    }
}

/// Whether any marker stands on the track.
pub open spec fn occupied(stacks: Stacks) -> bool {
    exists|s: int| 0 <= s < stacks.len() && (#[trigger] stacks[s]).len() > 0
}

/// Whether `slot` is the rearmost slot with a marker on it.
pub open spec fn is_rear(stacks: Stacks, slot: int) -> bool {
    &&& 0 <= slot < stacks.len()
    &&& stacks[slot].len() > 0
    &&& forall|s: int| 0 <= s < slot ==> (#[trigger] stacks[s]).len() == 0
}

/// The marker in last place: the bottom one of the rearmost stack.
pub open spec fn last_place(stacks: Stacks) -> Option<CamelColor> {
    if occupied(stacks) {
        Some(stacks[choose|slot: int| is_rear(stacks, slot)][0])
    } else {
        None
    }
}

/// All markers on the track, each as often as it stands there.
pub open spec fn markers(stacks: Stacks) -> Multiset<CamelColor>
    decreases stacks.len(),
{
    if stacks.len() == 0 {
        Multiset::empty()
    } else {
        markers(stacks.drop_last()).add(stacks.last().to_multiset())
    }
}

/// Whether `upper` stands directly on `lower` somewhere on the track.
pub open spec fn directly_above(stacks: Stacks, upper: CamelColor, lower: CamelColor) -> bool {
    exists|s: int, h: int|
        0 <= s < stacks.len() && 0 <= h && h + 1 < stacks[s].len() && #[trigger] stacks[s][h]
            == lower && stacks[s][h + 1] == upper
}

/// A slot that holds `color`, with no such slot behind it, is its slot, and
/// the first position of `color` there is its height.
pub proof fn lemma_position(stacks: Stacks, color: CamelColor, slot: int, height: int)
    requires
        is_source(stacks, color, slot),
        is_first_at(stacks[slot], color, height),
    ensures
        holds(stacks, color),
        slot_of(stacks, color) == slot,
        height_of(stacks, color) == height,
{
    let s = slot_of(stacks, color);
    assert(is_source(stacks, color, s));
    assert(s == slot) by {
        if s < slot {
            assert(!stacks[s].contains(color));
        }
        if slot < s {
            assert(!stacks[slot].contains(color));
        }
    }
    let h = height_of(stacks, color);
    assert(is_first_at(stacks[slot], color, h));
    assert(h == height) by {
        if h < height {
            assert(stacks[slot][h] != color);
        }
        if height < h {
            assert(stacks[slot][height] != color);
        }
    }
}

proof fn lemma_source_exists(stacks: Stacks, color: CamelColor, bound: int)
    requires
        0 <= bound < stacks.len(),
        stacks[bound].contains(color),
    ensures
        exists|slot: int| is_source(stacks, color, slot),
    decreases bound,
{
    if exists|s: int| 0 <= s < bound && (#[trigger] stacks[s]).contains(color) {
        let s = choose|s: int| 0 <= s < bound && (#[trigger] stacks[s]).contains(color);
        lemma_source_exists(stacks, color, s);
    } else {
        assert(is_source(stacks, color, bound));
    }
}

proof fn lemma_first_exists(stack: Seq<CamelColor>, color: CamelColor, bound: int)
    requires
        0 <= bound < stack.len(),
        stack[bound] == color,
    ensures
        exists|height: int| is_first_at(stack, color, height),
    decreases bound,
{
    if exists|h: int| 0 <= h < bound && #[trigger] stack[h] == color {
        let h = choose|h: int| 0 <= h < bound && #[trigger] stack[h] == color;
        lemma_first_exists(stack, color, h);
    } else {
        assert(is_first_at(stack, color, bound));
    }
}

/// A marker on the track has a slot and a height.
pub proof fn lemma_located(stacks: Stacks, color: CamelColor)
    requires
        holds(stacks, color),
    ensures
        is_source(stacks, color, slot_of(stacks, color)),
        is_first_at(stacks[slot_of(stacks, color)], color, height_of(stacks, color)),
{
    let bound = choose|s: int| 0 <= s < stacks.len() && (#[trigger] stacks[s]).contains(color);
    lemma_source_exists(stacks, color, bound);
    let slot = slot_of(stacks, color);
    let at = choose|h: int| 0 <= h < stacks[slot].len() && stacks[slot][h] == color;
    lemma_first_exists(stacks[slot], color, at);
}

/// The rearmost occupied slot decides who is in last place.
pub proof fn lemma_rear(stacks: Stacks, slot: int)
    requires
        is_rear(stacks, slot),
    ensures
        last_place(stacks) == Some(stacks[slot][0]),
{
    let s = choose|s: int| is_rear(stacks, s);
    assert(is_rear(stacks, s));
    if s < slot {
        assert(stacks[s].len() == 0);
    }
    if slot < s {
        assert(stacks[slot].len() == 0);
    }
}

proof fn lemma_rear_exists(stacks: Stacks, bound: int)
    requires
        0 <= bound < stacks.len(),
        stacks[bound].len() > 0,
    ensures
        exists|slot: int| is_rear(stacks, slot),
    decreases bound,
{
    if exists|s: int| 0 <= s < bound && (#[trigger] stacks[s]).len() > 0 {
        let s = choose|s: int| 0 <= s < bound && (#[trigger] stacks[s]).len() > 0;
        lemma_rear_exists(stacks, s);
    } else {
        assert(is_rear(stacks, bound));
    }
}

/// On a track with a marker on it, the one in last place stands on the
/// track and is among its markers.
pub proof fn lemma_last_place_stands(stacks: Stacks)
    requires
        occupied(stacks),
    ensures
        last_place(stacks) is Some,
        markers(stacks).count(last_place(stacks)->Some_0) > 0,
{
    let bound = choose|s: int| 0 <= s < stacks.len() && (#[trigger] stacks[s]).len() > 0;
    lemma_rear_exists(stacks, bound);
    let slot = choose|slot: int| is_rear(stacks, slot);
    lemma_markers_member(stacks, slot, 0);
}

/// Replacing one stack takes its markers out and puts the new ones in.
pub proof fn lemma_markers_update(
    stacks: Stacks,
    slot: int,
    stack: Seq<CamelColor>,
    color: CamelColor,
)
    requires
        0 <= slot < stacks.len(),
    ensures
        markers(stacks.update(slot, stack)).count(color) + stacks[slot].to_multiset().count(color)
            == markers(stacks).count(color) + stack.to_multiset().count(color),
    decreases stacks.len(),
{
    let changed = stacks.update(slot, stack);
    assert(changed.len() == stacks.len());
    if slot == stacks.len() - 1 {
        assert(changed.drop_last() =~= stacks.drop_last());
        assert(changed.last() == stack);
    } else {
        assert(changed.drop_last() =~= stacks.drop_last().update(slot, stack));
        assert(changed.last() == stacks.last());
        assert(stacks.drop_last()[slot] == stacks[slot]);
        lemma_markers_update(stacks.drop_last(), slot, stack, color);
    }
}

/// A move neither makes nor loses a marker: the same markers stand on the
/// track after it, each as often as before, and so their number is the same.
pub proof fn lemma_move_conserves_markers(stacks: Stacks, color: CamelColor, distance: int)
    requires
        fits(stacks, color, distance),
        distance >= 0,
    ensures
        markers(moved(stacks, color, distance)) == markers(stacks),
        markers(moved(stacks, color, distance)).len() == markers(stacks).len(),
{
    lemma_located(stacks, color);
    let slot = slot_of(stacks, color);
    let height = height_of(stacks, color);
    let rest = stacks[slot].take(height);
    let unit = stacks[slot].skip(height);
    let lifted = stacks.update(slot, rest);
    let target = lifted[slot + distance];
    let after = lifted.update(slot + distance, target + unit);
    assert(after == moved(stacks, color, distance));
    assert(stacks[slot] =~= rest + unit);
    lemma_multiset_commutative(rest, unit);
    lemma_multiset_commutative(target, unit);
    assert forall|c: CamelColor| markers(after).count(c) == markers(stacks).count(c) by {
        lemma_markers_update(stacks, slot, rest, c);
        lemma_markers_update(lifted, slot + distance, target + unit, c);
        assert((rest + unit).to_multiset().count(c) == rest.to_multiset().add(
            unit.to_multiset(),
        ).count(c));
        assert((target + unit).to_multiset().count(c) == target.to_multiset().add(
            unit.to_multiset(),
        ).count(c));
    }
    assert(markers(after) =~= markers(stacks));
}

/// Two markers that stand one directly on the other still do so after a move,
/// unless the move parts them: that is, unless the upper one is the marker
/// that moves and leaves the lower one behind.
pub proof fn lemma_move_keeps_neighbours(
    stacks: Stacks,
    color: CamelColor,
    distance: int,
    slot: int,
    height: int,
)
    requires
        fits(stacks, color, distance),
        distance >= 0,
        0 <= slot < stacks.len(),
        0 <= height,
        height + 1 < stacks[slot].len(),
        distance == 0 || !(slot == slot_of(stacks, color) && height + 1 == height_of(
            stacks,
            color,
        )),
    ensures
        directly_above(
            moved(stacks, color, distance),
            stacks[slot][height + 1],
            stacks[slot][height],
        ),
{
    lemma_located(stacks, color);
    let source = slot_of(stacks, color);
    let at = height_of(stacks, color);
    let rest = stacks[source].take(at);
    let unit = stacks[source].skip(at);
    let lifted = stacks.update(source, rest);
    let after = moved(stacks, color, distance);
    let lower = stacks[slot][height];
    let upper = stacks[slot][height + 1];
    if distance == 0 {
        assert(rest + unit =~= stacks[source]);
        assert(after =~= stacks);
        assert(after[slot][height] == lower && after[slot][height + 1] == upper);
    } else if slot == source {
        if height + 1 < at {
            assert(after[source][height] == lower && after[source][height + 1] == upper);
        } else {
            let target = source + distance;
            let h = stacks[target].len() + height - at;
            assert(after[target][h] == lower && after[target][h + 1] == upper);
        }
    } else {
        assert(after[slot][height] == lower && after[slot][height + 1] == upper);
    }
}

/// A marker that stands on the track is among its markers.
pub proof fn lemma_markers_member(stacks: Stacks, slot: int, height: int)
    requires
        0 <= slot < stacks.len(),
        0 <= height < stacks[slot].len(),
    ensures
        markers(stacks).count(stacks[slot][height]) > 0,
    decreases stacks.len(),
{
    broadcast use vstd::seq_lib::group_to_multiset_ensures;

    if slot == stacks.len() - 1 {
        assert(stacks.last().contains(stacks[slot][height]));
    } else {
        assert(stacks.drop_last()[slot] == stacks[slot]);
        lemma_markers_member(stacks.drop_last(), slot, height);
    }
}

/// A marker among the markers of a track stands on one of its slots.
pub proof fn lemma_markers_holds(stacks: Stacks, color: CamelColor)
    requires
        markers(stacks).count(color) > 0,
    ensures
        holds(stacks, color),
    decreases stacks.len(),
{
    broadcast use vstd::seq_lib::group_to_multiset_ensures;

    if stacks.len() > 0 {
        if stacks.last().to_multiset().count(color) > 0 {
            assert(stacks[stacks.len() - 1].contains(color));
        } else {
            lemma_markers_holds(stacks.drop_last(), color);
            let s = choose|s: int|
                0 <= s < stacks.drop_last().len() && (#[trigger] stacks.drop_last()[s]).contains(
                    color,
                );
            assert(stacks[s].contains(color));
        }
    }
}

/// A track with a marker among its markers has an occupied slot.
pub proof fn lemma_markers_occupied(stacks: Stacks)
    requires
        markers(stacks).len() > 0,
    ensures
        occupied(stacks),
    decreases stacks.len(),
{
    broadcast use vstd::seq_lib::group_to_multiset_ensures;

    if stacks.len() > 0 {
        if stacks.last().len() > 0 {
            assert(stacks[stacks.len() - 1].len() > 0);
        } else {
            assert(stacks.last().to_multiset().len() == 0);
            assert(markers(stacks.drop_last()).len() > 0);
            lemma_markers_occupied(stacks.drop_last());
            let s = choose|s: int|
                0 <= s < stacks.drop_last().len() && (#[trigger] stacks.drop_last()[s]).len() > 0;
            assert(stacks[s].len() > 0);
        }
    }
}

/// The race track.
pub struct Track {
    spaces: [Vec<CamelColor>; 16],
}

impl View for Track {
    type V = Stacks;

    closed spec fn view(&self) -> Stacks {
        Seq::new(16, |s: int| self.spaces[s]@)
    }
}

/// The lowest position of `color` in `stack`.
fn position_in(stack: &Vec<CamelColor>, color: CamelColor) -> (found: Option<usize>)
    ensures
        match found {
            Some(height) => is_first_at(stack@, color, height as int),
            None => !stack@.contains(color),
        },
{
    let mut height: usize = 0;
    while height < stack.len()
        invariant
            height <= stack.len(),
            forall|h: int| 0 <= h < height ==> #[trigger] stack@[h] != color,
        decreases stack.len() - height,
    {
        if stack[height] == color {
            return Some(height);
        }
        height += 1;
    }
    None
}

impl Track {
    /// A track with no marker on it.
    pub fn new() -> (track: Track)
        ensures
            track@ == empty_stacks(),
            markers(track@) == Multiset::<CamelColor>::empty(),
    {
        let track = Track {
            spaces: [
                Vec::new(),
                Vec::new(),
                Vec::new(),
                Vec::new(),
                Vec::new(),
                Vec::new(),
                Vec::new(),
                Vec::new(),
                Vec::new(),
                Vec::new(),
                Vec::new(),
                Vec::new(),
                Vec::new(),
                Vec::new(),
                Vec::new(),
                Vec::new(),
            ],
        };
        proof {
            assert(track@ =~= empty_stacks());
            if markers(track@).len() > 0 {
                lemma_markers_occupied(track@);
            }
            assert(markers(track@) =~= Multiset::<CamelColor>::empty());
        }
        track
    }

    /// Every track has sixteen slots.
    pub proof fn lemma_len(&self)
        ensures
            self@.len() == TRACK_LEN,
    {
    }

    /// The stacks, slot by slot.
    pub fn spaces(&self) -> (spaces: &[Vec<CamelColor>; 16])
        ensures
            forall|s: int| 0 <= s < TRACK_LEN ==> (#[trigger] spaces@[s])@ == self@[s],
    {
        &self.spaces
    }

    /// Puts `color` on top of the stack at `slot`. A slot beyond the track is
    /// refused.
    pub fn place(&mut self, slot: usize, color: CamelColor) -> (placed: Result<(), TrackError>)
        ensures
            slot < TRACK_LEN ==> placed is Ok && final(self)@ == old(self)@.update(
                slot as int,
                old(self)@[slot as int].push(color),
            ) && markers(final(self)@) == markers(old(self)@).insert(color),
            slot >= TRACK_LEN ==> placed == Err::<(), TrackError>(TrackError::OffTrack)
                && final(self)@ == old(self)@,
    {
        if slot >= TRACK_LEN {
            return Err(TrackError::OffTrack);
        }
        self.spaces[slot].push(color);
        proof {
            broadcast use vstd::seq_lib::group_to_multiset_ensures;

            let before = old(self)@;
            let stack = before[slot as int].push(color);
            assert(self@ =~= before.update(slot as int, stack));
            assert forall|c: CamelColor|
                markers(self@).count(c) == markers(before).insert(color).count(c) by {
                lemma_markers_update(before, slot as int, stack, c);
                assert(stack.to_multiset().count(c) == before[slot as int].to_multiset().insert(
                    color,
                ).count(c));
            }
            assert(markers(self@) =~= markers(before).insert(color));
        }
        Ok(())
    }

    /// Where `color` stands: its slot and its height in that slot's stack,
    /// found by scanning the slots from the rear and each stack from the
    /// bottom.
    pub fn locate(&self, color: CamelColor) -> (found: Option<(usize, usize)>)
        ensures
            found is Some <==> holds(self@, color),
            found matches Some((slot, height)) ==> slot == slot_of(self@, color) && height
                == height_of(self@, color),
    {
        let mut slot: usize = 0;
        while slot < TRACK_LEN
            invariant
                slot <= TRACK_LEN,
                forall|s: int| 0 <= s < slot ==> !(#[trigger] self@[s]).contains(color),
            decreases TRACK_LEN - slot,
        {
            let found: Option<usize> = position_in(&self.spaces[slot], color);
            if let Some(height) = found {
                proof {
                    lemma_position(self@, color, slot as int, height as int);
                }
                return Some((slot, height));
            }
            slot += 1;
        }
        None
    }

    /// Moves `color` on by `number` slots, with everything stacked above it,
    /// onto the top of the stack there. A marker that is not on the track, or
    /// a destination beyond the sixteenth slot, is refused and nothing
    /// changes.
    pub fn advance(&mut self, color: CamelColor, number: usize) -> (result: Result<(), TrackError>)
        ensures
            old(self)@.len() == TRACK_LEN,
            final(self)@.len() == TRACK_LEN,
            match try_move(old(self)@, color, number as int) {
                Ok(stacks) => result is Ok && final(self)@ == stacks,
                Err(error) => result == Err::<(), TrackError>(error) && final(self)@ == old(self)@,
            },
            markers(final(self)@) == markers(old(self)@),
    {
        let found: Option<(usize, usize)> = self.locate(color);
        match found {
            None => Err(TrackError::NotOnTrack),
            Some((source, height)) => {
                proof {
                    lemma_located(self@, color);
                }
                if number >= TRACK_LEN - source {
                    return Err(TrackError::OffTrack);
                }
                let mut unit = self.spaces[source].split_off(height);
                let destination = source + number;
                self.spaces[destination].append(&mut unit);
                proof {
                    assert(self@ =~= moved(old(self)@, color, number as int));
                    lemma_move_conserves_markers(old(self)@, color, number as int);
                }
                Ok(())
            },
        }
    }

    /// The marker in last place: the bottom one of the rearmost stack, or
    /// nothing on an empty track.
    pub fn losing(&self) -> (loser: Option<CamelColor>)
        ensures
            loser == last_place(self@),
    {
        let mut slot: usize = 0;
        while slot < TRACK_LEN
            invariant
                slot <= TRACK_LEN,
                forall|s: int| 0 <= s < slot ==> (#[trigger] self@[s]).len() == 0,
            decreases TRACK_LEN - slot,
        {
            if self.spaces[slot].len() > 0 {
                proof {
                    lemma_rear(self@, slot as int);
                }
                return Some(self.spaces[slot][0]);
            }
            slot += 1;
        }
        None
    }
}

impl Clone for Track {
    /// A track of its own with the same markers in the same places.
    fn clone(&self) -> (copy: Track)
        ensures
            copy@ == self@,
    {
        let mut copy = Track::new();
        let mut slot: usize = 0;
        while slot < TRACK_LEN
            invariant
                slot <= TRACK_LEN,
                forall|s: int| 0 <= s < slot ==> (#[trigger] copy@[s]) == self@[s],
                forall|s: int| slot <= s < TRACK_LEN ==> (#[trigger] copy@[s]).len() == 0,
            decreases TRACK_LEN - slot,
        {
            let mut height: usize = 0;
            while height < self.spaces[slot as usize].len()
                invariant
                    slot < TRACK_LEN,
                    height <= self@[slot as int].len(),
                    copy@[slot as int] == self@[slot as int].take(height as int),
                    forall|s: int| 0 <= s < slot ==> (#[trigger] copy@[s]) == self@[s],
                    forall|s: int| slot < s < TRACK_LEN ==> (#[trigger] copy@[s]).len() == 0,
                decreases self@[slot as int].len() - height,
            {
                let ghost before = copy@;
                copy.spaces[slot].push(self.spaces[slot][height]);
                proof {
                    assert(copy@ =~= before.update(
                        slot as int,
                        before[slot as int].push(self@[slot as int][height as int]),
                    ));
                    assert(copy@[slot as int] =~= self@[slot as int].take(height + 1));
                }
                height += 1;
            }
            proof {
                assert(copy@[slot as int] =~= self@[slot as int]);
            }
            slot += 1;
        }
        proof {
            assert(copy@ =~= self@);
        }
        copy
    }
}

} // verus!

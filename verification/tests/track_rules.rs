use camel_race::color::CamelColor;
use camel_race::track::{Track, TrackError, TRACK_LEN};

use CamelColor::{Black, Blue, Green, Purple, Red, White, Yellow};

fn track_with(stacks: &[(usize, &[CamelColor])]) -> Track {
    let mut track = Track::new();
    for (slot, stack) in stacks {
        for color in stack.iter() {
            assert_eq!(track.place(*slot, *color), Ok(()));
        }
    }
    track
}

fn stack_at(track: &Track, slot: usize) -> Vec<CamelColor> {
    track.spaces()[slot].clone()
}

fn marker_count(track: &Track) -> usize {
    track.spaces().iter().map(|stack| stack.len()).sum()
}

#[test]
fn new_track_is_empty() {
    let track = Track::new();
    assert_eq!(track.spaces().len(), TRACK_LEN);
    assert_eq!(TRACK_LEN, 16);
    assert_eq!(marker_count(&track), 0);
    assert_eq!(track.losing(), None);
    assert_eq!(track.locate(Red), None);
}

#[test]
fn place_stacks_in_order_of_arrival() {
    let mut track = Track::new();
    assert_eq!(track.place(2, Blue), Ok(()));
    assert_eq!(track.place(2, Yellow), Ok(()));
    assert_eq!(track.place(0, Red), Ok(()));
    assert_eq!(stack_at(&track, 2), vec![Blue, Yellow]);
    assert_eq!(stack_at(&track, 0), vec![Red]);
    assert_eq!(marker_count(&track), 3);
}

#[test]
fn place_refuses_a_slot_beyond_the_track() {
    let mut track = Track::new();
    assert_eq!(track.place(15, Red), Ok(()));
    assert_eq!(track.place(16, Green), Err(TrackError::OffTrack));
    assert_eq!(track.place(usize::MAX, Green), Err(TrackError::OffTrack));
    assert_eq!(marker_count(&track), 1);
    assert_eq!(stack_at(&track, 15), vec![Red]);
}

#[test]
fn locate_gives_slot_and_height() {
    let track = track_with(&[(1, &[Red]), (4, &[Green, Blue, Yellow])]);
    assert_eq!(track.locate(Red), Some((1, 0)));
    assert_eq!(track.locate(Green), Some((4, 0)));
    assert_eq!(track.locate(Blue), Some((4, 1)));
    assert_eq!(track.locate(Yellow), Some((4, 2)));
    assert_eq!(track.locate(Purple), None);
}

#[test]
fn locate_finds_the_rearmost_and_lowest_of_equal_markers() {
    let track = track_with(&[(3, &[Green, White, White]), (7, &[White])]);
    assert_eq!(track.locate(White), Some((3, 1)));
}

#[test]
fn advance_moves_a_lone_marker() {
    let mut track = track_with(&[(0, &[Red])]);
    assert_eq!(track.advance(Red, 3), Ok(()));
    assert_eq!(stack_at(&track, 0), vec![]);
    assert_eq!(stack_at(&track, 3), vec![Red]);
    assert_eq!(track.locate(Red), Some((3, 0)));
}

#[test]
fn advance_carries_what_stands_above_and_leaves_what_stands_below() {
    let mut track = track_with(&[(2, &[Red, Green, Blue, Yellow])]);
    assert_eq!(track.advance(Green, 2), Ok(()));
    assert_eq!(stack_at(&track, 2), vec![Red]);
    assert_eq!(stack_at(&track, 4), vec![Green, Blue, Yellow]);
}

#[test]
fn advance_lands_on_top_of_the_stack_ahead() {
    let mut track = track_with(&[(0, &[Red, Green]), (1, &[Blue, Yellow])]);
    assert_eq!(track.advance(Red, 1), Ok(()));
    assert_eq!(stack_at(&track, 0), vec![]);
    assert_eq!(stack_at(&track, 1), vec![Blue, Yellow, Red, Green]);
}

#[test]
fn advance_by_nothing_changes_nothing() {
    let mut track = track_with(&[(5, &[Red, Green, Blue])]);
    assert_eq!(track.advance(Green, 0), Ok(()));
    assert_eq!(stack_at(&track, 5), vec![Red, Green, Blue]);
    assert_eq!(marker_count(&track), 3);
}

#[test]
fn advance_reaches_the_last_slot() {
    let mut track = track_with(&[(12, &[Red, Green])]);
    assert_eq!(track.advance(Red, 3), Ok(()));
    assert_eq!(stack_at(&track, 15), vec![Red, Green]);
    assert_eq!(stack_at(&track, 12), vec![]);
}

#[test]
fn advance_refuses_one_slot_past_the_last() {
    let mut track = track_with(&[(13, &[Red, Green]), (15, &[Blue])]);
    assert_eq!(track.advance(Red, 3), Err(TrackError::OffTrack));
    assert_eq!(stack_at(&track, 13), vec![Red, Green]);
    assert_eq!(stack_at(&track, 15), vec![Blue]);
    assert_eq!(track.advance(Blue, 1), Err(TrackError::OffTrack));
    assert_eq!(track.advance(Red, 2), Ok(()));
    assert_eq!(stack_at(&track, 15), vec![Blue, Red, Green]);
}

#[test]
fn advance_refuses_a_distance_that_no_integer_holds() {
    let mut track = track_with(&[(1, &[Red])]);
    assert_eq!(track.advance(Red, usize::MAX), Err(TrackError::OffTrack));
    assert_eq!(stack_at(&track, 1), vec![Red]);
}

#[test]
fn advance_refuses_a_marker_that_is_not_there() {
    let mut track = track_with(&[(0, &[Red]), (1, &[Green])]);
    assert_eq!(track.advance(Blue, 1), Err(TrackError::NotOnTrack));
    assert_eq!(track.advance(Blue, 100), Err(TrackError::NotOnTrack));
    assert_eq!(stack_at(&track, 0), vec![Red]);
    assert_eq!(stack_at(&track, 1), vec![Green]);
}

#[test]
fn advance_keeps_every_marker() {
    let mut track = track_with(&[
        (0, &[Red, Black]),
        (1, &[Green]),
        (2, &[Blue, Yellow, Purple]),
        (6, &[White]),
    ]);
    let moves = [(Blue, 3), (Red, 1), (Yellow, 1), (Green, 2), (Purple, 3), (Red, 2), (Blue, 1)];
    for (color, number) in moves {
        assert_eq!(track.advance(color, number), Ok(()));
        assert_eq!(marker_count(&track), 7);
        for marker in [Red, Green, Yellow, Blue, Purple, Black, White] {
            assert!(track.locate(marker).is_some());
        }
    }
}

#[test]
fn advance_keeps_neighbours_together() {
    let mut track = track_with(&[(0, &[Red, Green, Blue]), (2, &[Yellow, Purple])]);
    assert_eq!(track.advance(Green, 2), Ok(()));
    // Blue stood on Green and was carried; Purple stood on Yellow and stayed.
    assert_eq!(track.locate(Green), Some((2, 2)));
    assert_eq!(track.locate(Blue), Some((2, 3)));
    assert_eq!(track.locate(Yellow), Some((2, 0)));
    assert_eq!(track.locate(Purple), Some((2, 1)));
    // Green stood on Red and left it behind.
    assert_eq!(track.locate(Red), Some((0, 0)));
}

#[test]
fn losing_is_the_bottom_of_the_rearmost_stack() {
    let track = track_with(&[(4, &[Yellow, Red]), (9, &[Green])]);
    assert_eq!(track.losing(), Some(Yellow));
}

#[test]
fn losing_with_everyone_on_the_first_slot() {
    let track = track_with(&[(0, &[Purple, Red, Green, Blue, Yellow])]);
    assert_eq!(track.losing(), Some(Purple));
    assert_eq!(track.losing(), Some(Purple));
}

#[test]
fn losing_sees_a_marker_that_does_not_race() {
    let track = track_with(&[(0, &[Black]), (1, &[Red])]);
    assert_eq!(track.losing(), Some(Black));
}

#[test]
fn losing_on_the_last_slot_only() {
    let track = track_with(&[(15, &[Green, Red])]);
    assert_eq!(track.losing(), Some(Green));
}

#[test]
fn clone_is_a_track_of_its_own() {
    let track = track_with(&[(0, &[Red, Green]), (3, &[Blue])]);
    let mut copy = track.clone();
    assert_eq!(copy.spaces(), track.spaces());
    assert_eq!(copy.advance(Red, 3), Ok(()));
    assert_eq!(stack_at(&copy, 3), vec![Blue, Red, Green]);
    assert_eq!(stack_at(&track, 0), vec![Red, Green]);
    assert_eq!(stack_at(&track, 3), vec![Blue]);
}

#[test]
fn racing_colors_are_the_five_with_a_die() {
    let colors = camel_race::color::racing_colors();
    assert_eq!(colors, vec![Red, Green, Blue, Yellow, Purple]);
    for color in colors {
        assert!(color.is_racing());
    }
    assert!(!Black.is_racing());
    assert!(!White.is_racing());
}

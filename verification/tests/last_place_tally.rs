use camel_race::color::CamelColor;
use camel_race::outcomes::{
    count_losers, loser_tallies, play_branch, round_outcomes, Tally, BRANCHES, ORDERS, RACERS,
    THROWS,
};
use camel_race::track::{Track, TrackError};

use CamelColor::{Black, Blue, Green, Purple, Red, White, Yellow};

fn race_track(stacks: &[(usize, &[CamelColor])]) -> Track {
    let mut track = Track::new();
    for (slot, stack) in stacks {
        for color in stack.iter() {
            assert_eq!(track.place(*slot, *color), Ok(()));
        }
    }
    track
}

fn scenario_track() -> Track {
    race_track(&[(0, &[Red]), (1, &[Green]), (2, &[Blue, Yellow, Purple])])
}

#[test]
fn round_has_its_branches() {
    assert_eq!(RACERS, 5);
    assert_eq!(ORDERS, 120);
    assert_eq!(THROWS, 243);
    assert_eq!(BRANCHES, 29160);
    assert_eq!(ORDERS * THROWS, BRANCHES);
    assert_eq!(round_outcomes().len(), BRANCHES);
}

#[test]
fn round_orders_are_all_the_arrangements() {
    let outcomes = round_outcomes();
    let mut orders: Vec<Vec<CamelColor>> = Vec::new();
    for block in 0..ORDERS {
        let order = outcomes[block * THROWS].0.clone();
        assert_eq!(order.len(), 5);
        for color in [Red, Green, Blue, Yellow, Purple] {
            assert_eq!(order.iter().filter(|c| **c == color).count(), 1);
        }
        assert!(!orders.contains(&order));
        orders.push(order);
    }
    assert_eq!(orders.len(), 120);
    assert_eq!(orders[0], vec![Red, Green, Blue, Yellow, Purple]);
    assert_ne!(orders[1], orders[0]);
}

#[test]
fn round_orders_stay_for_every_fall_of_the_dice() {
    let outcomes = round_outcomes();
    for (index, outcome) in outcomes.iter().enumerate() {
        assert_eq!(outcome.0, outcomes[index / THROWS * THROWS].0);
        assert_eq!(outcome.1, outcomes[index % THROWS].1);
    }
}

#[test]
fn round_throws_count_up_with_the_last_die_fastest() {
    let outcomes = round_outcomes();
    assert_eq!(outcomes[0].1, vec![1, 1, 1, 1, 1]);
    assert_eq!(outcomes[1].1, vec![1, 1, 1, 1, 2]);
    assert_eq!(outcomes[2].1, vec![1, 1, 1, 1, 3]);
    assert_eq!(outcomes[3].1, vec![1, 1, 1, 2, 1]);
    assert_eq!(outcomes[9].1, vec![1, 1, 2, 1, 1]);
    assert_eq!(outcomes[27].1, vec![1, 2, 1, 1, 1]);
    assert_eq!(outcomes[81].1, vec![2, 1, 1, 1, 1]);
    assert_eq!(outcomes[100].1, vec![2, 1, 3, 1, 2]);
    assert_eq!(outcomes[242].1, vec![3, 3, 3, 3, 3]);
    assert_eq!(outcomes[243].1, vec![1, 1, 1, 1, 1]);
    assert_eq!(outcomes[BRANCHES - 1].1, vec![3, 3, 3, 3, 3]);
    for index in 0..THROWS {
        let mut value: usize = 0;
        for number in &outcomes[index].1 {
            assert!(1 <= *number && *number <= 3);
            value = value * 3 + (number - 1);
        }
        assert_eq!(value, index);
    }
}

#[test]
fn play_branch_makes_the_throws_in_order() {
    let track = scenario_track();
    let order = vec![Red, Green, Blue, Yellow, Purple];
    let numbers: Vec<usize> = vec![2, 1, 1, 3, 1];
    let end = play_branch(&track, &order, &numbers).unwrap();
    // Red and Green land on Blue's stack, Blue carries all of it one on,
    // Yellow carries what stands on it three on, and Purple what stands on
    // it one on.
    assert_eq!(end.spaces()[3], vec![Blue]);
    assert_eq!(end.spaces()[6], vec![Yellow]);
    assert_eq!(end.spaces()[7], vec![Purple, Red, Green]);
    assert_eq!(end.losing(), Some(Blue));
    assert_eq!(track.spaces()[2], vec![Blue, Yellow, Purple]);
}

#[test]
fn play_branch_stops_where_colors_or_numbers_run_out() {
    let track = scenario_track();
    let end = play_branch(&track, &vec![Red, Green], &vec![3]).unwrap();
    assert_eq!(end.spaces()[3], vec![Red]);
    assert_eq!(end.spaces()[1], vec![Green]);
    let same = play_branch(&track, &vec![], &vec![1, 2]).unwrap();
    assert_eq!(same.spaces(), track.spaces());
}

#[test]
fn play_branch_fails_with_the_first_throw_that_cannot_be_made() {
    let track = race_track(&[(0, &[Red]), (14, &[Green])]);
    let off = play_branch(&track, &vec![Red, Green, Blue], &vec![1, 2, 1]);
    assert_eq!(off.err(), Some(TrackError::OffTrack));
    let missing = play_branch(&track, &vec![Red, Blue, Green], &vec![1, 1, 2]);
    assert_eq!(missing.err(), Some(TrackError::NotOnTrack));
    let fine = play_branch(&track, &vec![Red, Green], &vec![3, 1]).unwrap();
    assert_eq!(fine.spaces()[15], vec![Green]);
}

#[test]
fn count_losers_counts_each_branch_for_its_last() {
    let track = race_track(&[(0, &[Red]), (1, &[Green])]);
    let outcomes: Vec<(Vec<CamelColor>, Vec<usize>)> = vec![
        (vec![Red], vec![1]),
        (vec![Red], vec![2]),
        (vec![Green], vec![1]),
        (vec![], vec![]),
        (vec![Red, Green], vec![3, 3]),
    ];
    let tally = count_losers(&track, &outcomes).unwrap();
    // Green is last while Red has passed it or stands on it; Red is last in
    // the other three branches.
    assert_eq!(tally, Tally { red: 3, green: 2, blue: 0, yellow: 0, purple: 0 });
    assert_eq!(tally.total(), 5);
}

#[test]
fn count_losers_of_no_branch_is_all_zero() {
    let track = scenario_track();
    let tally = count_losers(&track, &Vec::new()).unwrap();
    assert_eq!(tally, Tally { red: 0, green: 0, blue: 0, yellow: 0, purple: 0 });
    assert_eq!(tally, Tally::new());
    assert_eq!(tally.total(), 0);
}

#[test]
fn count_losers_counts_nobody_on_an_empty_track() {
    let track = Track::new();
    let outcomes: Vec<(Vec<CamelColor>, Vec<usize>)> = vec![(vec![], vec![]), (vec![Red], vec![])];
    let tally = count_losers(&track, &outcomes).unwrap();
    assert_eq!(tally.total(), 0);
}

#[test]
fn count_losers_fails_with_the_first_branch_that_fails() {
    let track = race_track(&[(0, &[Red]), (14, &[Green])]);
    let outcomes: Vec<(Vec<CamelColor>, Vec<usize>)> = vec![
        (vec![Red], vec![1]),
        (vec![Green], vec![2]),
        (vec![Blue], vec![1]),
    ];
    assert_eq!(count_losers(&track, &outcomes), Err(TrackError::OffTrack));
    let other: Vec<(Vec<CamelColor>, Vec<usize>)> = vec![
        (vec![Red], vec![1]),
        (vec![Blue], vec![1]),
        (vec![Green], vec![2]),
    ];
    assert_eq!(count_losers(&track, &other), Err(TrackError::NotOnTrack));
}

#[test]
fn tally_get_knows_the_racing_colors_only() {
    let tally = Tally { red: 1, green: 2, blue: 3, yellow: 4, purple: 5 };
    assert_eq!(tally.get(Red), Some(1));
    assert_eq!(tally.get(Green), Some(2));
    assert_eq!(tally.get(Blue), Some(3));
    assert_eq!(tally.get(Yellow), Some(4));
    assert_eq!(tally.get(Purple), Some(5));
    assert_eq!(tally.get(Black), None);
    assert_eq!(tally.get(White), None);
    assert_eq!(tally.total(), 15);
}

#[test]
fn tally_total_does_not_overflow() {
    let full = u64::MAX;
    let tally = Tally { red: full, green: full, blue: full, yellow: full, purple: full };
    assert_eq!(tally.total(), 5 * (u64::MAX as u128));
}

#[test]
fn tally_counts_every_branch() {
    let tally = loser_tallies(&scenario_track()).unwrap();
    assert_eq!(tally.total(), 29160);
    assert_eq!(tally.red + tally.green + tally.blue + tally.yellow + tally.purple, 29160);
}

#[test]
fn tally_is_the_same_every_time() {
    let track = scenario_track();
    let first = loser_tallies(&track);
    let second = loser_tallies(&track);
    let third = loser_tallies(&track.clone());
    assert_eq!(first, second);
    assert_eq!(first, third);
    assert_eq!(format!("{:?}", first), format!("{:?}", second));
}

#[test]
fn tally_shares_add_up_to_one_with_every_racer_on_a_slot_of_its_own() {
    let track =
        race_track(&[(0, &[Red]), (1, &[Green]), (2, &[Blue]), (3, &[Yellow]), (4, &[Purple])]);
    let tally = loser_tallies(&track).unwrap();
    assert_eq!(tally, Tally { red: 12330, green: 8163, blue: 5011, yellow: 2523, purple: 1133 });
    assert_eq!(tally.total(), 29160);
    let mut sum: f64 = 0.0;
    for color in [Red, Green, Blue, Yellow, Purple] {
        sum += tally.get(color).unwrap() as f64 / 29160.0;
    }
    assert!((sum - 1.0).abs() < 1e-12);
}

#[test]
fn tally_of_the_example_round() {
    let tally = loser_tallies(&scenario_track()).unwrap();
    assert!(tally.red > tally.green);
    assert!(tally.blue > tally.yellow);
    assert!(tally.blue > tally.purple);
    assert_eq!(tally, Tally { red: 13734, green: 7892, blue: 2944, yellow: 2623, purple: 1967 });
}

#[test]
fn tally_with_everyone_on_the_first_slot() {
    let track = race_track(&[(0, &[Red, Green, Blue, Yellow, Purple])]);
    let tally = loser_tallies(&track).unwrap();
    assert_eq!(tally, Tally { red: 11744, green: 6164, blue: 4504, yellow: 3644, purple: 3104 });
}

#[test]
fn tally_fails_where_a_branch_runs_off_the_track() {
    let second = race_track(&[(1, &[Red, Green, Blue, Yellow, Purple])]);
    assert_eq!(loser_tallies(&second), Err(TrackError::OffTrack));
    let third = race_track(&[(2, &[Red, Green, Blue, Yellow, Purple])]);
    assert_eq!(loser_tallies(&third), Err(TrackError::OffTrack));
    let far =
        race_track(&[(0, &[Red]), (1, &[Green]), (2, &[Blue]), (3, &[Yellow]), (13, &[Purple])]);
    assert_eq!(loser_tallies(&far), Err(TrackError::OffTrack));
}

#[test]
fn tally_fails_where_a_racer_is_missing() {
    let track = race_track(&[(0, &[Red]), (1, &[Green]), (2, &[Blue]), (3, &[Yellow])]);
    assert_eq!(loser_tallies(&track), Err(TrackError::NotOnTrack));
    assert_eq!(loser_tallies(&Track::new()), Err(TrackError::NotOnTrack));
}

#[test]
fn tally_counts_nobody_behind_a_marker_that_does_not_race() {
    let track = race_track(&[
        (0, &[Black]),
        (1, &[Red]),
        (2, &[Green]),
        (3, &[Blue]),
        (4, &[Yellow]),
        (5, &[Purple]),
    ]);
    let tally = loser_tallies(&track).unwrap();
    assert_eq!(tally.total(), 0);
}

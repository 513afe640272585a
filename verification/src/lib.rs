//! A single round of a camel race on a sixteen-slot track: the race state,
//! the move rule, the dice pool, and the exhaustive count of who can still
//! finish the round in last place.

pub mod color;
pub mod game;
pub mod outcomes;
pub mod pyramid;
pub mod track;

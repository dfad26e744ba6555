//! Cardinal directions for corridor carving and gap tagging.

use vstd::prelude::*;

use crate::rng::GenRng;

verus! {

/// One of the four cardinal directions.
#[derive(Clone, Copy, Debug, PartialEq, Eq, Structural)]
pub enum Direction {
    N,
    E,
    S,
    W,
}

impl Direction {
    /// The next direction going clockwise: N -> E -> S -> W -> N.
    pub fn turn_clockwise(&self) -> (r: Direction)
        ensures
            r == (match *self {
                Direction::N => Direction::E,
                Direction::E => Direction::S,
                Direction::S => Direction::W,
                Direction::W => Direction::N,
            }),
    {
        match self {
            Direction::N => Direction::E,
            Direction::E => Direction::S,
            Direction::S => Direction::W,
            Direction::W => Direction::N,
        }
    }

    /// A direction drawn uniformly from the injected generator.
    pub fn rand(rng: &mut GenRng) -> Direction {
        match crate::rng::rng_below(rng, 4) {
            0 => Direction::N,
            1 => Direction::E,
            2 => Direction::S,
            _ => Direction::W,
        }
    }
}

} // verus!

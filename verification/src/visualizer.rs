//! Verified parsing and scoring for the two puzzle families whose
//! solutions are rendered by the surrounding tooling: a maze walk and a
//! spaceship flight.

pub mod lambdaman;
pub mod spaceship;

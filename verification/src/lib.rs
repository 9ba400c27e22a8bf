//! Success probabilities for an exploding-dice mechanic.
//!
//! A skill check rolls a die from a fixed ladder (d4, d6, d8, d10, d12, d20).
//! Rolling the maximum face "explodes" the die: the maximum is banked and the
//! next larger die in the ladder is rolled, its result added on, saturating at
//! the d20.  Turbo tokens may be spent, one point each, to push a roll up to
//! the maximum and force an explosion.
//!
//! Every probability here is an exact rational number whose denominator is a
//! product of die sizes, so the library computes with integer fractions
//! ([`prob::Prob`]) instead of floating point; callers divide numerator by
//! denominator if they want a float.

pub mod die;
pub mod model;
pub mod prob;
pub mod laws;

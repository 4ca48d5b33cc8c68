//! Dice pools: a description such as `3d20+2` is parsed into a [`Dicepool`],
//! and a pool is rolled with a thread-local random generator.
//!
//! * [`digits`]: decimal numerals and their values.
//! * [`grammar`]: the shape `[count]d<sides>[(+|-)modifier]`.
//! * [`dice`]: the pool, its model, its parser and its rolls.
//! * [`random`]: the random source, a uniform draw from a range.
//! * [`laws`]: what holds of parsing and rolling, whatever the input.
//!
//! Digits are the ASCII digits. Dice without sides are refused by the parser
//! as `InvalidSides`; a pool built with `Dicepool::new` may have them, and
//! then `try_roll` and `try_dice` return `None` for it.
//!
//! Every function here is verified but the call into the random generator,
//! of whose result only its range is claimed.

pub mod digits;
pub mod grammar;
pub mod random;
pub mod dice;
pub mod laws;

pub use crate::dice::{
    DiceError, Dicepool, DicepoolParseError, DicepoolRoll, DieRoll, PoolModel, RollModifier,
};

//! ramino is an engine for the traditional Italian card game Ramino.
//! It can be used both as a referee for the rules and an emulator for a game.
use vstd::prelude::*;

pub mod card;
pub mod run;
pub mod hand;
pub mod utils;

verus! {

/// The amount of cards dealt to create a Hand at the beginning of the game.
pub const HAND_SIZE: u8 = 13;

} // verus!

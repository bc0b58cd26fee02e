//! Dice notation, dice rolls and the statistics of a rolling session.
//!
//! A notation such as `4d6`, `d6` or `8` is read into a [`DiceRoll`], a roll
//! draws one face per die, and a [`Session`] keeps every face that was drawn,
//! grouped by die size.

pub mod notation;
pub mod report;
pub mod roller;
pub mod session;
pub mod text;

pub use notation::{DiceRoll, ParseError};
pub use report::{number_text, roll_report, stats_text};
pub use roller::{roll, sum_of, sum_to_show};
pub use session::{Command, Reply, Session};

//! A liturgical calendar engine: computes, for a calendar date, its
//! liturgical year, reading set, and the pericope event (label, altar
//! color, readings) in force on that date, under a fixed rule set
//! anchored on the First Sunday of Advent and on Easter.

pub mod calendar;
pub mod dates;
pub mod easter;
pub mod events;
pub mod readings;
pub mod resolve;

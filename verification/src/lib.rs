//! Reads a transit-card transaction CSV export, groups the transactions into
//! calendar-day journeys, and sums top-ups and spends over a chosen set of
//! days.
//!
//! The pipeline runs strictly forward: CSV text to typed records
//! ([`parse`]), records to sorted day groups ([`group`]), groups to labels
//! for an interactive chooser ([`present`]), and the chosen groups to totals
//! and a report ([`totals`], [`present`]).  Amounts are cents; timestamps are
//! seconds since the epoch; a positive value is a top-up and any other value
//! a spend.

pub mod csvtext;
pub mod date;
pub mod group;
pub mod model;
pub mod num;
pub mod parse;
pub mod present;
pub mod totals;

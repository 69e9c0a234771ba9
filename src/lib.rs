//! Repeating open and close events for a server whitelist, and the state they decide.
//!
//! Each event repeats every few seconds, minutes, hours, days, weeks, months or years from
//! an anchor instant. The library finds an event's last occurrence at or before an instant
//! and its first occurrence after it, and decides from two sets of events, and a manual
//! setting, whether the whitelist is closed.
pub mod calendar;
pub mod config;
pub mod repeat;
pub mod schedule;
pub mod whitelist;

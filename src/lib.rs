//! Binding-table engine of an X11 hotkey daemon: key chords and their
//! fixed-width byte encoding, binding patterns, the table that maps chords to
//! command indices, and the choice of the command to run for a key press.
//!
//! Dispatch is stateless: every key press of a bound chord, auto-repeated
//! ones included, selects its command again.

pub mod exec;
pub mod key;
pub mod laws;
pub mod order;
pub mod table;
pub mod text;

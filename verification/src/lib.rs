//! Selection of values among those on offer.
//!
//! Given the values that are available, a filter of [`Entry`] values that says
//! which of them are allowed, and a list of [`Entry`] values that says which
//! are preferred, [`attempt`] returns the allowed and available values that
//! serve the preferences best. A preferred value that cannot be had is
//! replaced by the first available value above it, or by the last available
//! value where none is above it.
//!
//! Every function of this crate is verified with Verus against the
//! mathematical model that its contract names:
//!
//! - [`entry`] holds the entries and what a filter lets through;
//! - [`present`] the present values, those that are available and allowed;
//! - [`nearest`] the present value that stands for one preferred value;
//! - [`order`] ascending sequences and the set that is held as one;
//! - [`select`] the selection, [`attempt`] and what holds of every selection.

pub mod entry;
pub mod nearest;
pub mod order;
pub mod present;
pub mod select;

pub use entry::Entry;
pub use select::attempt;

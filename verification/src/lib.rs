//! Core engine of a small stock tracker: an ordered registry of tracked
//! instruments, a derived ranking of them by daily change, the state updates
//! driven by quote fetches, a cross-process status payload, and the codec for
//! the persisted ticker list.
//!
//! Fractional quantities are held as scaled integers: percentage changes in
//! hundredths of a percent (`+10.00%` is `1000`), prices in cents. The shell
//! around the library converts at its own boundary.

pub mod stock;
pub mod registry;
pub mod view;
pub mod scheduler;
pub mod text;
pub mod publisher;
pub mod codec;

//! A verified core for a small process-terminator utility.
//!
//! The library keeps a persisted, ordered list of process names and decides
//! which live processes to signal. It is split into:
//! - [`text`]: byte-string helpers (case folding, decimal parsing and printing);
//! - [`store`]: the newline-delimited target-list store and its deletion logic;
//! - [`session`]: tokenizing and dispatching interactive commands;
//! - [`engine`]: matching live processes against the list and the
//!   forceful-then-graceful signal policy.
//!
//! Operating-system work (reading the backing file, enumerating processes,
//! delivering signals) is left to the surrounding binary, which hands this
//! library plain values and carries its decisions out.

pub mod engine;
pub mod session;
pub mod store;
pub mod text;

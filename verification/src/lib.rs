//! A hierarchical budget: an account tree that distributes deposits among
//! its children according to per-child inflow rules (fixed allotments and
//! weighted flex shares, each bounded by an optional cap), and supports
//! withdrawals, tree mutation by actions, and differencing of two snapshots.
//!
//! All money is held in minor currency units as `i64`.

use vstd::prelude::*;

pub mod account;
pub mod actions;
pub mod deposit;
pub mod diff;
pub mod errors;
pub mod laws;
pub mod model;
pub mod parser;

verus! {

/// The negligible remainder: one minor currency unit. A distribution pass
/// stops chasing a remainder once it is no larger than this.
pub const NEGLIGIBLE: i64 = 1;

} // verus!

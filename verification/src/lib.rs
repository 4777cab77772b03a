//! Group food ordering with exact money arithmetic.
//!
//! A group opens an order against a restaurant menu, each person picks
//! items, a shared overhead (delivery, tip) is split evenly, and the final
//! bill is computed as exact per-account fractions that are posted to an
//! external ledger.  All money arithmetic uses `Rational`, a normalized
//! fraction type; floating point never touches an amount.

pub mod arith;
pub mod bill;
pub mod commands;
pub mod config;
pub mod menu_query;
pub mod models;
pub mod state;
pub mod rational;
pub mod similarity;
pub mod strorder;
pub mod text;
pub mod words;

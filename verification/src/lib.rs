//! Reachability pruning for discovered interface declarations.
//!
//! A binding generator first discovers every declaration that a foreign
//! header mentions, and only afterwards learns which of them it can and
//! should generate bindings for. This crate keeps the declarations that
//! can be reached from the allowlisted ones by following dependency
//! edges, and drops the rest.
//!
//! - [`api`] holds the declarations, [`allowlist`] what is known of the
//!   user's allowlist.
//! - [`reach`] says what is kept, [`gc`] computes it, with [`index`] as
//!   its lookup table.
//! - [`laws`] and [`fixpoint`] prove what holds of the result, from the
//!   plain facts of [`facts`].

pub mod allowlist;
pub mod api;
pub mod facts;
pub mod fixpoint;
pub mod gc;
pub mod index;
pub mod laws;
pub mod reach;

//! A local, single-user store of named key/value variables grouped into
//! environments, kept as an append-only log of records.
//!
//! The current value of an `(environment, key)` pair is the value of its most
//! recent record; a record without a value is a tombstone that hides the pair
//! from live listings while keeping its history.
use vstd::prelude::*;

pub mod record;
pub mod store;
pub mod text;

pub use record::{Entry, EnvelopeError, Environment, EnvironmentRow, Environments, Truncate, VariableRecord};
pub use store::EnvelopeDb;

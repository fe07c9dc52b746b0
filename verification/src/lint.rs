//! The MIR front end: lock-acquisition events from real Rust.
//!
//! The compiler's representation of a function body is handed over as plain
//! data ([`mir`]). From it the front end recovers the class of the lock at each
//! acquisition ([`classes`]), the guards that are live there ([`liveness`]), and
//! the events and calls of the body ([`scan`]); [`output`] writes them down as
//! the document that [`crate::events`] reads.

pub mod accounting;
pub mod classes;
pub mod holding;
pub mod liveness;
pub mod mir;
pub mod naming;
pub mod output;
pub mod paths;
pub mod scan;

//! A small, verified to-do list library.
//!
//! Tasks live in an ordered collection; every operation on the collection
//! carries a contract, and the text form used to persist the collection is
//! written and read by verified code with a proved round trip.

pub mod task;
pub mod store;
pub mod digits;
pub mod codec;
mod text;

//! An interactive person-list library: a persisted collection of records,
//! a selection cursor, and the event-driven state machine of the interface.
//!
//! The collection is persisted as a canonical JSON array of objects; the
//! codec is verified, including the round trip between encoding and decoding.

pub mod codec;
pub mod cursor;
pub mod database;
pub mod person;
pub mod render;
pub mod ui;

//! The signal table and the constraint table, and their backends.
pub mod bytes;
pub mod codec;
pub mod error;
pub mod laws;
pub mod layout;
pub mod ram;
pub mod rocks;
pub mod types;

//! What the proving backend takes from the tables and gives to them: the
//! constraints as a section of the proving-key file, and the inputs of a
//! witness as named values.
pub mod error;
pub mod format;
pub mod inputs;
pub mod points;

//! The append session. It is declared with the archive, whose file layout it
//! keeps.

pub use crate::archive::Builder;

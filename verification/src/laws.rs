//! What the operations mean, said of sequences, maps, characters and integers.

pub mod documents;
pub mod queries;
pub mod reading;
pub mod showing;
pub mod values;

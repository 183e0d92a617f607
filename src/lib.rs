//! A KZG-style vector commitment over user balance records: records are laid out as field
//! elements over a roots-of-unity domain, interpolated, committed to through powers of a
//! secret point held in G1, and opened on index ranges with a single quotient proof.
pub mod field;
pub mod poly;
pub mod group;
pub mod user_data;

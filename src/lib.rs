//! A hash-based polynomial commitment scheme over the scalar field of
//! BLS12-381: commit to a dense polynomial, open it at a point, and check an
//! opening.
pub mod digest;
pub mod field;
pub mod poly;

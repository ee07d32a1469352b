//! A minimal N-dimensional dense array engine: flat storage plus a
//! shape/stride description, with reshape, transpose, broadcasting
//! and elementwise combination. The element type is generic; callers
//! supply the scalar operations as closures.

pub mod array;
pub mod broadcast;
pub mod elementwise;
pub mod errors;
pub mod math;
pub mod traversal;

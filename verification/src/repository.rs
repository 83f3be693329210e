//! The operations on the store, one module for each kind of row.

pub mod card;
pub mod column;
pub mod deck;
pub mod tag;

//! A note deck: decks hold columns, columns hold cards, and cards carry
//! hashtags. The rows live in a [`db::Store`]; every operation on it keeps
//! the positions of sibling rows in order, and states in its contract what
//! the store holds afterwards.

pub mod cleanup;
pub mod clock;
pub mod dates;
pub mod db;
pub mod error;
pub mod ident;
pub mod listing;
pub mod models;
pub mod order;
pub mod position;
pub mod provenance;
pub mod repository;
pub mod rows;
pub mod sibling;
pub mod sync;
pub mod text;

pub use cleanup::{run_cleanup_batch, CleanupResult};
pub use db::{create_in_memory, Store};
pub use error::JotDeckError;
pub use models::{Card, CardTag, Column, Deck, NewCard, NewColumn, NewDeck, SortOrder, Tag};
pub use repository::{card, deck, tag};

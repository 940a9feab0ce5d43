//! A single-instrument matching engine: a price-time priority order book,
//! the incremental feed that describes every change to it, and the
//! recovery replica that folds that feed back into a full book.

pub mod order;
pub mod level;
pub mod message;
pub mod book;
pub mod engine;
pub mod recovery;

pub use book::BookView;
pub use engine::{EngineError, MatchingEngine};
pub use message::{IncrementalMessage, RecoveryFeed};
pub use order::{Order, Side};
pub use recovery::RecoveryBook;

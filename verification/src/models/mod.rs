pub mod common;
pub mod history;
pub mod listing;

pub use common::{HistoryEntry, UnixMillis, zip_history};
pub use history::History;
pub use listing::{Category, ChapterCount, Completion, Listing, Rating, Stats, Warning};

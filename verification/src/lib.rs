//! Core logic of a spaced-repetition flashcard application.
//!
//! The heart of the library is the review scheduler: deciding which items are
//! due for review at a given time, in what order they should be reviewed, and
//! how a review outcome (remembered or forgotten) reschedules an item. All of
//! it is pure: the caller loads the items, supplies the current time, and
//! persists whatever comes back.

pub mod language;
pub mod migrations;
pub mod model;
pub mod outcome;
pub mod richtext;
pub mod schedule;
pub mod settings;
pub mod text;

pub use model::AppError;
pub use model::Flashcard;
pub use model::FlashcardAnswer;
pub use model::ReviewHistory;

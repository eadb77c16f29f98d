//! A personal task-tracking board: ordered status columns holding tasks,
//! a navigation cursor, adjacent-column task transitions, and verified
//! JSON / CSV codecs for persistence and export.

pub mod board;
pub mod clock;
pub mod csv;
pub mod json;
pub mod num;
pub mod task;
pub mod text;

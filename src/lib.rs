pub mod book;
pub mod laws;
pub mod level;
pub mod matching;
pub mod order;

//! A typing monkey: a stream of random letters, watched through a sliding
//! window for dictionary words, with a bounded ranking of the longest words
//! seen so far.

pub mod dictionary;
pub mod growth;
pub mod lines;
pub mod monkey;
pub mod ranking;
pub mod recognizer;
pub mod source;
pub mod stream;
pub mod window;
pub mod words;

pub use monkey::StartError;
pub use monkey::TypingMonkey;
pub use ranking::Ranking;
pub use window::Window;

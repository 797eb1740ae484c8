//! Flashcards in a terminal: a parser for plain-text decks and the state
//! machine of a study session.
pub mod deck;
pub mod render;
pub mod session;
pub mod text;

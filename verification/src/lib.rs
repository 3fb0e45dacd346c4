//! A Wordle referee and the building blocks of an entropy-driven player.
//!
//! * [`dictionary`] reads the list of words and frequencies from text.
//! * [`feedback`] scores a guess against an answer and tests a word against
//!   feedback that was received earlier.
//! * [`patterns`] enumerates every feedback pattern.
//! * [`game`] plays one game between a referee and any [`Guesser`].
//! * [`solver`] keeps the pool of words that are still possible, works out
//!   how a guess would split it, and picks the best-rated guess.
pub mod dictionary;
pub mod feedback;
pub mod game;
pub mod patterns;
pub mod solver;

pub use feedback::{Correctness, Guess, Word};
pub use game::{Guesser, Step, Verdict, Wordle};

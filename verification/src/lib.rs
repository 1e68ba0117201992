//! sorb: the logic of a small UNIX-style shell, its hidden terminal games and
//! its chat protocol, as verified state machines and functions.

pub mod chat;
pub mod easter_eggs;
pub mod random;
pub mod seqs;
pub mod shell;
pub mod text;

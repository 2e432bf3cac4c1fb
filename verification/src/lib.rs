//! Small text and concurrency exercises as a verified library: hangman, word counts,
//! full-text search, line diffs, a bank account and a datagram chat.
//!
//! Each module holds the logic of one exercise with its contracts; reading files,
//! terminals, sockets and threads is left to the programs that use it.

pub mod ahorcado;
pub mod chat;
pub mod cuenta;
pub mod diff;
pub mod frecuencias;
pub mod indice;
pub mod numeros;
pub mod orden;
pub mod tabla;
pub mod texto;

pub use cuenta::Account;

//! The package of a Wii U title.

pub mod builder;
pub mod cert;
pub mod content;
pub mod fst;
pub mod order;
pub mod output;
pub mod plaintext;

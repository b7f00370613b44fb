//! Boot textures, artwork, titles and the GameCube forwarder.

pub mod artrepo;
pub mod gametdb;
pub mod images;
pub mod nintendont;

use vstd::prelude::*;

verus! {

/// How an HTTP request ended.
#[derive(Debug)]
pub enum Reply {
    /// The server could not be reached.
    Unreachable,
    /// The server answered with this status, which is not a success.
    Refused(String),
    /// The body could not be read.
    Unreadable,
    /// The body.
    Body(Vec<u8>),
}

} // verus!

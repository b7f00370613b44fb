//! NFS, the disc image format of Wii titles on the Wii U.

pub mod crypto;

//! Metadata of Wii U titles.

pub mod titleid;

//! Building blocks of a Wii U Virtual Console injector.

pub mod aes_cbc;
pub mod apploader;
pub mod assets;
pub mod base;
pub mod bytes;
pub mod cli;
pub mod consts;
pub mod digest;
pub mod disc_plan;
pub mod error;
pub mod fwimg;
pub mod hash_tree;
pub mod meta;
pub mod nfs;
pub mod nincfg;
pub mod nus;
pub mod package;
pub mod paths;
pub mod pipeline;
pub mod text;
pub mod wii_author;

//! The settings of Nintendont's configuration file.

use vstd::prelude::*;

verus! {

/// The language of a GameCube game.
#[derive(Clone, Copy, Debug, PartialEq, Eq, Structural)]
pub enum Language {
    Auto,
    English,
    German,
    French,
    Spanish,
    Italian,
    Dutch,
}

/// The video mode of a GameCube game.
#[derive(Clone, Copy, Debug, PartialEq, Eq, Structural)]
pub enum VideoMode {
    Auto,
    ForceNtsc,
    ForcePal50,
    ForcePal60,
    ForceMpal,
    ForceProgressive,
    /// No mode at all (`none`).
    Off,
}

/// What the configuration file says.
#[derive(Debug)]
pub struct NincfgOptions {
    /// The first four characters of the game id.
    pub game_id: [u8; 4],
    pub widescreen: bool,
    pub language: Language,
    pub video_mode: VideoMode,
    pub memcard_emu: bool,
    /// The card holds `(1 << (memcard_blocks + 6)) - 5` blocks.
    pub memcard_blocks: u8,
    pub max_pads: u32,
    pub wiiu_gamepad_slot: u32,
    /// A cheat file on the SD card.
    pub cheat_path: Option<String>,
}

} // verus!

//! An injection from the source disc to the installable package.
//!
//! A Wii disc is injected as itself; a GameCube image inside a synthetic Wii disc that boots
//! Nintendont. Both go through the same metadata, textures and packaging.

use crate::assets::artrepo::{art_url, texture_url};
use crate::assets::images::{png_to_tga, shows, texture_error, BootTexture};
use crate::bytes::{place, put, zeroed, zeros};
use crate::consts::{TMD_CONTENT0_HASH, WII_SIG_END, WII_SIG_START};
use crate::error::{Error, ErrorView};
use crate::fwimg::{
    fakesign_patches, homebrew_patches, is_fakesign_patches, is_homebrew_patches, BytePatch,
};
use crate::meta::titleid::TitleIds;
use crate::nincfg::{Language, NincfgOptions, VideoMode};
use crate::package::builder::{PackageParams, PackageStats};
use crate::package::cert::CertChain;
use crate::paths::{join_path, parent_of, parent_path, path_in};
use crate::text::{
    dec, dec_text, joined, numeral, numeral_text, text_view, uppered, uppered_text,
};
use crate::wii_author::GcDiscInputs;
use vstd::prelude::*;

verus! {

/// The region of a title.
#[derive(Clone, Copy, Debug, PartialEq, Eq, Structural)]
pub enum Region {
    Japan,
    Usa,
    Europe,
}

impl Region {
    /// The region's bit in `meta.xml`.
    pub fn code(self) -> (r: u32)
        ensures
            r == match self {
                Region::Japan => 1u32,
                Region::Usa => 2u32,
                Region::Europe => 4u32,
            },
    {
        match self {
            Region::Japan => 1,
            Region::Usa => 2,
            Region::Europe => 4,
        }
    }
}

/// The console that the source game is for.
#[derive(Clone, Copy, Debug, PartialEq, Eq, Structural)]
pub enum Platform {
    /// A Wii disc.
    Wii,
    /// A GameCube image.
    GameCube,
}

impl Platform {
    /// The directory of the platform in the artwork repository.
    pub open spec fn key(self) -> Seq<char> {
        match self {
            Platform::Wii => "wii"@,
            Platform::GameCube => "gcn"@,
        }
    }

    /// The directory of the platform in the artwork repository.
    pub fn art_key(self) -> (r: &'static str)
        ensures
            r@ == self.key(),
    {
        match self {
            Platform::Wii => "wii",
            Platform::GameCube => "gcn",
        }
    }

    /// The `drc_use` value of `meta.xml`. A Wii title has the GamePad as a pointer or not at all; a
    /// GameCube title is played with it, which takes bit 16 too.
    pub fn drc_use(self, gamepad: bool) -> (r: u32)
        ensures
            r == match (self, gamepad) {
                (Platform::GameCube, true) => 0x1_0001u32,
                (Platform::GameCube, false) => 1u32,
                (Platform::Wii, true) => 1u32,
                (Platform::Wii, false) => 0u32,
            },
    {
        match (self, gamepad) {
            (Platform::GameCube, true) => 0x1_0001,
            (Platform::GameCube, false) => 1,
            (Platform::Wii, true) => 1,
            (Platform::Wii, false) => 0,
        }
    }
}

/// Patches of a Wii game's video output.
#[derive(Clone, Copy, Debug, PartialEq, Eq, Structural)]
pub struct VideoPatches {
    /// Remove the flicker filter.
    pub deflicker: bool,
    /// Halve the vertical filter.
    pub half_vfilter: bool,
    /// Remove dithering.
    pub dithering: bool,
}

/// An injection, except for the source of the base title.
#[derive(Debug)]
pub struct Config {
    /// The source disc image.
    pub input: String,
    /// The output directory.
    pub out: String,
    pub wiiu_common_key: [u8; 16],
    /// The certificate chain for `title.cert`.
    pub cert: CertChain,
    /// The title, where it is not looked up.
    pub title: Option<String>,
    /// Artwork for the icon, where it is not downloaded.
    pub icon_png: Option<String>,
    /// Artwork for the TV, where it is not downloaded.
    pub boot_tv_png: Option<String>,
    /// Artwork for the GamePad, where it is not downloaded.
    pub boot_drc_png: Option<String>,
    pub region: Region,
    /// Whether the GamePad can be used.
    pub gamepad: bool,
    /// Whether to look up the title and download artwork.
    pub online: bool,
    pub video: VideoPatches,
    /// Leave out the gaps between the files of a Wii disc.
    pub skip_gaps: bool,
    /// Leave out the files of a Wii disc that are all zero.
    pub trim_zeros: bool,
    /// The input is a GameCube image, injected with these options.
    pub gamecube: Option<GameCubeOptions>,
}

/// The options of a GameCube injection.
#[derive(Debug)]
pub struct GameCubeOptions {
    /// Nintendont's `boot.dol`.
    pub nintendont_dol: Vec<u8>,
    /// The Wii apploader; where it is empty, one is taken from the base title.
    pub apploader: Vec<u8>,
    pub widescreen: bool,
    pub language: Language,
    pub video_mode: VideoMode,
    pub memcard_emu: bool,
    /// The card holds `(1 << (memcard_blocks + 6)) - 5` blocks.
    pub memcard_blocks: u8,
    pub max_pads: u32,
    pub wiiu_gamepad_slot: u32,
    /// A cheat file on the SD card.
    pub cheat_path: Option<String>,
    /// The id of the synthetic disc, where it is not that of the game.
    pub disc_id: Option<[u8; 6]>,
    /// The title of the synthetic disc, where it is not that of the package.
    pub disc_title: Option<String>,
}

/// What an injection came to.
#[derive(Debug)]
pub struct Summary {
    pub title_id: u64,
    /// The six-character id of the source game.
    pub game_id: String,
    pub title: String,
    pub package: PackageStats,
    /// The output directory.
    pub out: String,
}

/// One part of an injection.
#[derive(Clone, Copy, Debug, PartialEq, Eq, Structural)]
pub enum Stage {
    /// Open the source and derive the title's ids.
    OpenSource,
    /// Stage the base title.
    StageBase,
    /// Take the certificate chain, and an apploader, from the base title's own disc.
    ReadBaseDisc,
    /// Author the synthetic disc.
    AuthorDisc,
    /// Plan the rebuild of the disc's hashes.
    PlanDisc,
    /// Convert the disc to NFS.
    BuildNfs,
    /// Remove the synthetic disc.
    RemoveScratch,
    /// Write the disc's ticket and TMD.
    WriteRvlt,
    /// Patch `fw.img`.
    PatchFirmware,
    /// Write `app.xml`.
    WriteAppXml,
    /// Patch `meta.xml`.
    PatchMeta,
    /// Write the boot textures.
    WriteTextures,
    /// Build the package.
    BuildPackage,
    /// Write `nincfg.bin`.
    WriteNincfg,
}

/// The platform of an injection.
pub fn platform(config: &Config) -> (r: Platform)
    ensures
        r == if config.gamecube is Some {
            Platform::GameCube
        } else {
            Platform::Wii
        },
{
    if config.gamecube.is_some() {
        Platform::GameCube
    } else {
        Platform::Wii
    }
}

/// What both platforms do once `fw.img` is patched, up to the package.
pub open spec fn shared_stages() -> Seq<Stage> {
    seq![Stage::WriteAppXml, Stage::PatchMeta, Stage::WriteTextures, Stage::BuildPackage]
}

/// The parts of an injection, in order. Each is done only if all before it succeeded.
pub open spec fn stages_of(platform: Platform) -> Seq<Stage> {
    match platform {
        Platform::Wii => seq![
            Stage::OpenSource,
            Stage::StageBase,
            Stage::PlanDisc,
            Stage::BuildNfs,
            Stage::WriteRvlt,
            Stage::PatchFirmware,
        ] + shared_stages(),
        Platform::GameCube => seq![
            Stage::OpenSource,
            Stage::StageBase,
            Stage::ReadBaseDisc,
            Stage::AuthorDisc,
            Stage::BuildNfs,
            Stage::RemoveScratch,
            Stage::WriteRvlt,
            Stage::PatchFirmware,
        ] + shared_stages() + seq![Stage::WriteNincfg],
    }
}

/// The parts of an injection, in order.
pub fn stages(platform: Platform) -> (r: Vec<Stage>)
    ensures
        r@ == stages_of(platform),
{
    let r = match platform {
        Platform::Wii => vec![
            Stage::OpenSource,
            Stage::StageBase,
            Stage::PlanDisc,
            Stage::BuildNfs,
            Stage::WriteRvlt,
            Stage::PatchFirmware,
            Stage::WriteAppXml,
            Stage::PatchMeta,
            Stage::WriteTextures,
            Stage::BuildPackage,
        ],
        Platform::GameCube => vec![
            Stage::OpenSource,
            Stage::StageBase,
            Stage::ReadBaseDisc,
            Stage::AuthorDisc,
            Stage::BuildNfs,
            Stage::RemoveScratch,
            Stage::WriteRvlt,
            Stage::PatchFirmware,
            Stage::WriteAppXml,
            Stage::PatchMeta,
            Stage::WriteTextures,
            Stage::BuildPackage,
            Stage::WriteNincfg,
        ],
    };
    assert(r@ =~= stages_of(platform));
    r
}

/// Whatever changes a staged file is done before the package is built, and nothing is done twice.
pub proof fn package_comes_after_all_staging(platform: Platform, i: int, j: int)
    requires
        0 <= i < stages_of(platform).len(),
        0 <= j < stages_of(platform).len(),
        stages_of(platform)[i] == Stage::BuildPackage,
        j > i,
    ensures
        stages_of(platform)[j] == Stage::WriteNincfg,
        stages_of(platform).no_duplicates(),
{
    let s = stages_of(platform);
    assert(s.no_duplicates());
}

/// Stage `a` is done, and it is done before stage `b`, which is done too.
pub open spec fn comes_before(s: Seq<Stage>, a: Stage, b: Stage) -> bool {
    exists|i: int, j: int|
        0 <= i < j < s.len() && #[trigger] s[i] == a && #[trigger] s[j] == b
}

/// An injection begins with its source, for either platform. The base is staged before anything is
/// written into it: the disc as NFS, its ticket and TMD, the patched `fw.img`, `app.xml`,
/// `meta.xml` and the textures, all of which are there before the package is built.
pub proof fn every_part_of_a_package_is_staged(platform: Platform)
    ensures
        ({
            let s = stages_of(platform);
            &&& s[0] == Stage::OpenSource
            &&& comes_before(s, Stage::OpenSource, Stage::StageBase)
            &&& comes_before(s, Stage::StageBase, Stage::BuildNfs)
            &&& comes_before(s, Stage::BuildNfs, Stage::WriteRvlt)
            &&& comes_before(s, Stage::WriteRvlt, Stage::PatchFirmware)
            &&& comes_before(s, Stage::StageBase, Stage::PatchFirmware)
            &&& comes_before(s, Stage::PatchFirmware, Stage::WriteAppXml)
            &&& comes_before(s, Stage::WriteAppXml, Stage::PatchMeta)
            &&& comes_before(s, Stage::PatchMeta, Stage::WriteTextures)
            &&& comes_before(s, Stage::WriteTextures, Stage::BuildPackage)
            &&& comes_before(s, Stage::BuildNfs, Stage::BuildPackage)
            &&& comes_before(s, Stage::WriteRvlt, Stage::BuildPackage)
            &&& comes_before(s, Stage::PatchFirmware, Stage::BuildPackage)
            &&& comes_before(s, Stage::WriteAppXml, Stage::BuildPackage)
            &&& comes_before(s, Stage::PatchMeta, Stage::BuildPackage)
        }),
{
    let s = stages_of(platform);
    let k: int = if platform == Platform::Wii {
        0
    } else {
        2
    };
    let n: int = if platform == Platform::Wii {
        0
    } else {
        1
    };
    assert(s[0] == Stage::OpenSource && s[1] == Stage::StageBase);
    assert(s[3 + n] == Stage::BuildNfs && s[4 + k] == Stage::WriteRvlt);
    assert(s[5 + k] == Stage::PatchFirmware && s[6 + k] == Stage::WriteAppXml);
    assert(s[7 + k] == Stage::PatchMeta && s[8 + k] == Stage::WriteTextures);
    assert(s[9 + k] == Stage::BuildPackage);
}

/// What is peculiar to a platform: a Wii disc is planned before it is converted; a GameCube image
/// gets a synthetic disc, authored with what the base title's disc gives and removed once it is
/// converted, and its configuration is written last. Neither platform does the other's part.
pub proof fn platforms_differ_in_their_disc()
    ensures
        ({
            let s = stages_of(Platform::Wii);
            &&& s.len() == 10
            &&& comes_before(s, Stage::StageBase, Stage::PlanDisc)
            &&& comes_before(s, Stage::PlanDisc, Stage::BuildNfs)
            &&& !s.contains(Stage::ReadBaseDisc)
            &&& !s.contains(Stage::AuthorDisc)
            &&& !s.contains(Stage::RemoveScratch)
            &&& !s.contains(Stage::WriteNincfg)
            &&& s.last() == Stage::BuildPackage
        }),
        ({
            let s = stages_of(Platform::GameCube);
            &&& s.len() == 13
            &&& comes_before(s, Stage::StageBase, Stage::ReadBaseDisc)
            &&& comes_before(s, Stage::ReadBaseDisc, Stage::AuthorDisc)
            &&& comes_before(s, Stage::AuthorDisc, Stage::BuildNfs)
            &&& comes_before(s, Stage::BuildNfs, Stage::RemoveScratch)
            &&& comes_before(s, Stage::RemoveScratch, Stage::WriteRvlt)
            &&& comes_before(s, Stage::BuildPackage, Stage::WriteNincfg)
            &&& !s.contains(Stage::PlanDisc)
            &&& s.last() == Stage::WriteNincfg
        }),
{
    let w = stages_of(Platform::Wii);
    assert(w[1] == Stage::StageBase && w[2] == Stage::PlanDisc && w[3] == Stage::BuildNfs);
    let g = stages_of(Platform::GameCube);
    assert(g[1] == Stage::StageBase && g[2] == Stage::ReadBaseDisc && g[3] == Stage::AuthorDisc);
    assert(g[4] == Stage::BuildNfs && g[5] == Stage::RemoveScratch && g[6] == Stage::WriteRvlt);
    assert(g[11] == Stage::BuildPackage && g[12] == Stage::WriteNincfg);
}

/// The patches of `fw.img` for a platform: Nintendont takes hardware access beside the acceptance of
/// zeroed signatures.
pub open spec fn is_firmware_patches(platform: Platform, v: Seq<BytePatch>) -> bool {
    match platform {
        Platform::Wii => crate::fwimg::is_fakesign_patches(v),
        Platform::GameCube => crate::fwimg::is_homebrew_patches(v),
    }
}

/// The patches of `fw.img` for a platform.
pub fn firmware_patches(platform: Platform) -> (r: Vec<BytePatch>)
    ensures
        is_firmware_patches(platform, r@),
{
    match platform {
        Platform::Wii => fakesign_patches(),
        Platform::GameCube => homebrew_patches(),
    }
}

/// A file to write.
#[derive(Debug)]
pub struct FileWrite {
    pub path: String,
    pub bytes: Vec<u8>,
}

/// The value of a [`FileWrite`].
#[verifier::ext_equal]
pub struct FileView {
    pub path: Seq<char>,
    pub bytes: Seq<u8>,
}

impl View for FileWrite {
    type V = FileView;

    open spec fn view(&self) -> FileView {
        FileView { path: self.path@, bytes: self.bytes@ }
    }
}

/// Files to write, in order, and the error that comes after them, if one does.
#[derive(Debug)]
pub struct Writes {
    pub files: Vec<FileWrite>,
    pub error: Option<Error>,
}

/// The values of files to write.
pub open spec fn file_views(v: Seq<FileWrite>) -> Seq<FileView> {
    Seq::new(v.len(), |i: int| v[i]@)
}

/// The value of an error, if there is one.
pub open spec fn error_view(e: Option<Error>) -> Option<ErrorView> {
    match e {
        Some(e) => Some(e@),
        None => None,
    }
}

/// `n` in upper-case hexadecimal.
pub open spec fn upper_hex(n: nat) -> Seq<char> {
    uppered(numeral(n, 16))
}

fn upper_hex_text(n: u64) -> (r: String)
    ensures
        r@ == upper_hex(n as nat),
{
    uppered_text(numeral_text(n, 16).as_str())
}

/// Why a ticket or TMD of `len` bytes cannot be fakesigned, if it cannot.
pub open spec fn fakesign_error(len: nat) -> Option<ErrorView> {
    if len < WII_SIG_END {
        Some(
            ErrorView::UnsupportedDisc(
                "ticket/TMD is only "@ + dec(len) + " bytes, too short to hold the RSA signature at 0x"@
                    + upper_hex(WII_SIG_START as nat) + "..0x"@ + upper_hex(WII_SIG_END as nat)
                    + " that must be zeroed to fakesign it (expected at least "@ + dec(
                    WII_SIG_END as nat,
                ) + " bytes)"@,
            ),
        )
    } else {
        None
    }
}

/// A ticket or TMD with its signature zeroed.
pub open spec fn fakesigned(data: Seq<u8>) -> Seq<u8> {
    place(data, WII_SIG_START as int, zeros((WII_SIG_END - WII_SIG_START) as nat))
}

/// Fakesign a Wii ticket or TMD: zero its signature. Data that is too short to hold a signature is
/// refused and left alone.
pub fn fakesign(data: &mut Vec<u8>) -> (r: Result<(), Error>)
    ensures
        match r {
            Ok(()) => fakesign_error(old(data)@.len()) is None && final(data)@ == fakesigned(
                old(data)@,
            ),
            Err(e) => fakesign_error(old(data)@.len()) == Some(e@) && final(data)@ == old(data)@,
        },
{
    if data.len() < WII_SIG_END {
        let mut m = joined("ticket/TMD is only ", dec_text(data.len() as u64).as_str());
        m.append(" bytes, too short to hold the RSA signature at 0x");
        m.append(upper_hex_text(WII_SIG_START as u64).as_str());
        m.append("..0x");
        m.append(upper_hex_text(WII_SIG_END as u64).as_str());
        m.append(" that must be zeroed to fakesign it (expected at least ");
        m.append(dec_text(WII_SIG_END as u64).as_str());
        m.append(" bytes)");
        return Err(Error::UnsupportedDisc(m));
    }
    let nothing = zeroed(WII_SIG_END - WII_SIG_START);
    put(data, WII_SIG_START, nothing.as_slice());
    Ok(())
}

/// The byte behind the content hash of a Wii TMD.
pub const CONTENT_HASH_END: usize = 0x208;

/// Why a TMD of `len` bytes cannot carry a content hash, if it cannot.
pub open spec fn tmd_error(len: nat) -> Option<ErrorView> {
    if len < CONTENT_HASH_END {
        Some(
            ErrorView::UnsupportedDisc(
                "TMD is only "@ + dec(len) + " bytes, too short to hold the content hash at 0x"@
                    + upper_hex(TMD_CONTENT0_HASH as nat) + "..0x"@ + upper_hex(
                    CONTENT_HASH_END as nat,
                ) + " (expected at least "@ + dec(CONTENT_HASH_END as nat) + " bytes)"@,
            ),
        )
    } else {
        None
    }
}

/// A TMD that is fakesigned and carries a content hash.
pub open spec fn updated_tmd(tmd: Seq<u8>, content_hash: Seq<u8>) -> Seq<u8> {
    place(fakesigned(tmd), TMD_CONTENT0_HASH as int, content_hash)
}

/// Point a Wii TMD at a rebuilt hash table and fakesign it. A TMD that is too short is refused and
/// left alone.
pub fn update_rvlt_tmd(tmd: &mut Vec<u8>, content_hash: &[u8; 20]) -> (r: Result<(), Error>)
    ensures
        match r {
            Ok(()) => tmd_error(old(tmd)@.len()) is None && final(tmd)@ == updated_tmd(
                old(tmd)@,
                content_hash@,
            ),
            Err(e) => tmd_error(old(tmd)@.len()) == Some(e@) && final(tmd)@ == old(tmd)@,
        },
{
    if tmd.len() < CONTENT_HASH_END {
        let mut m = joined("TMD is only ", dec_text(tmd.len() as u64).as_str());
        m.append(" bytes, too short to hold the content hash at 0x");
        m.append(upper_hex_text(TMD_CONTENT0_HASH as u64).as_str());
        m.append("..0x");
        m.append(upper_hex_text(CONTENT_HASH_END as u64).as_str());
        m.append(" (expected at least ");
        m.append(dec_text(CONTENT_HASH_END as u64).as_str());
        m.append(" bytes)");
        return Err(Error::UnsupportedDisc(m));
    }
    match fakesign(tmd) {
        Ok(()) => {},
        Err(e) => return Err(e),
    }
    put(tmd, TMD_CONTENT0_HASH, content_hash.as_slice());
    Ok(())
}

/// An updated TMD has a zeroed signature and the content hash, and is otherwise as it was.
pub proof fn updated_tmd_changes_two_fields(tmd: Seq<u8>, content_hash: Seq<u8>, i: int)
    requires
        tmd.len() >= CONTENT_HASH_END,
        content_hash.len() == 20,
        0 <= i < tmd.len(),
    ensures
        ({
            let r = updated_tmd(tmd, content_hash);
            &&& r.len() == tmd.len()
            &&& r.subrange(WII_SIG_START as int, WII_SIG_END as int) == zeros(0x100)
            &&& r.subrange(TMD_CONTENT0_HASH as int, CONTENT_HASH_END as int) == content_hash
            &&& !(WII_SIG_START <= i < WII_SIG_END) && !(TMD_CONTENT0_HASH <= i < CONTENT_HASH_END)
                ==> r[i] == tmd[i]
        }),
{
    let r = updated_tmd(tmd, content_hash);
    assert(r.subrange(WII_SIG_START as int, WII_SIG_END as int) =~= zeros(0x100));
    assert(r.subrange(TMD_CONTENT0_HASH as int, CONTENT_HASH_END as int) =~= content_hash);
}

/// The two files of a disc's ticket and TMD.
pub open spec fn rvlt_pair(code_dir: Seq<char>, ticket: Seq<u8>, tmd: Seq<u8>) -> Seq<FileView> {
    seq![
        FileView { path: path_in(code_dir, "rvlt.tik"@), bytes: ticket },
        FileView { path: path_in(code_dir, "rvlt.tmd"@), bytes: tmd },
    ]
}

/// The ticket and the TMD of a disc as `rvlt.tik` and `rvlt.tmd`. Those of a Wii disc are both
/// fakesigned, and the TMD gets the content hash of the rebuilt disc; a synthetic disc is authored
/// with what it needs.
pub fn rvlt_files(
    platform: Platform,
    code_dir: &str,
    ticket: Vec<u8>,
    tmd: Vec<u8>,
    content_hash: &[u8; 20],
) -> (r: Writes)
    ensures
        ({
            let signed = rvlt_pair(
                code_dir@,
                fakesigned(ticket@),
                updated_tmd(tmd@, content_hash@),
            );
            if platform == Platform::GameCube {
                file_views(r.files@) == rvlt_pair(code_dir@, ticket@, tmd@) && r.error is None
            } else if fakesign_error(ticket@.len()) is Some {
                r.files@.len() == 0 && error_view(r.error) == fakesign_error(ticket@.len())
            } else if tmd_error(tmd@.len()) is Some {
                file_views(r.files@) == signed.take(1) && error_view(r.error) == tmd_error(
                    tmd@.len(),
                )
            } else {
                file_views(r.files@) == signed && r.error is None
            }
        }),
{
    let mut files: Vec<FileWrite> = Vec::new();
    let mut ticket = ticket;
    let mut tmd = tmd;
    if platform == Platform::Wii {
        match fakesign(&mut ticket) {
            Ok(()) => {},
            Err(e) => return Writes { files, error: Some(e) },
        }
    }
    let ghost tik_bytes = ticket@;
    files.push(FileWrite { path: join_path(code_dir, "rvlt.tik"), bytes: ticket });
    let ghost tik_file = files@[0]@;
    assert(file_views(files@) =~= seq![tik_file]);
    if platform == Platform::Wii {
        match update_rvlt_tmd(&mut tmd, content_hash) {
            Ok(()) => {},
            Err(e) => {
                assert(rvlt_pair(code_dir@, tik_bytes, updated_tmd(tmd@, content_hash@)).take(1)
                    =~= seq![tik_file]);
                return Writes { files, error: Some(e) };
            },
        }
    }
    let ghost tmd_bytes = tmd@;
    files.push(FileWrite { path: join_path(code_dir, "rvlt.tmd"), bytes: tmd });
    assert(file_views(files@) =~= rvlt_pair(code_dir@, tik_bytes, tmd_bytes));
    Writes { files, error: None }
}

/// What the base title's own disc gives a GameCube injection. Without either the package is
/// complete but does not boot.
#[derive(Debug)]
pub struct BaseDiscExtras {
    /// The Wii certificate chain; empty where it could not be read.
    pub cert_chain: Vec<u8>,
    /// The apploader, where one was wanted and could be read.
    pub apploader: Option<Vec<u8>>,
}

/// What was read from the base title's own disc.
#[derive(Debug)]
pub struct BaseDiscReads {
    pub cert_chain: Result<Vec<u8>, Error>,
    pub apploader: Result<Vec<u8>, Error>,
}

/// The bytes of a vector, or none.
pub open spec fn bytes_view(v: Option<Vec<u8>>) -> Option<Seq<u8>> {
    match v {
        Some(v) => Some(v@),
        None => None,
    }
}

/// Take what a GameCube injection needs from the base title's own disc, where that was provided.
/// Whatever could not be read is left out; nothing here fails.
pub fn base_disc_extras(
    original: Result<Option<BaseDiscReads>, Error>,
    want_apploader: bool,
) -> (r: BaseDiscExtras)
    ensures
        r.cert_chain@ == match original {
            Ok(Some(reads)) => match reads.cert_chain {
                Ok(c) => c@,
                Err(_) => Seq::empty(),
            },
            _ => Seq::empty(),
        },
        bytes_view(r.apploader) == match original {
            Ok(Some(reads)) if want_apploader => match reads.apploader {
                Ok(a) => Some(a@),
                Err(_) => None,
            },
            _ => None,
        },
{
    let reads = match original {
        Ok(Some(reads)) => reads,
        _ => return BaseDiscExtras { cert_chain: Vec::new(), apploader: None },
    };
    let cert_chain = match reads.cert_chain {
        Ok(c) => c,
        Err(_) => Vec::new(),
    };
    let apploader = if want_apploader {
        match reads.apploader {
            Ok(a) => Some(a),
            Err(_) => None,
        }
    } else {
        None
    };
    BaseDiscExtras { cert_chain, apploader }
}

/// Whether a GameCube injection takes its apploader from the base title.
pub fn wants_apploader(opts: &GameCubeOptions) -> (r: bool)
    ensures
        r == (opts.apploader@.len() == 0),
{
    opts.apploader.len() == 0
}

/// The title of the synthetic disc: its own where that is given, else the package's, else the game
/// id.
pub fn carrier_title(opts: &GameCubeOptions, title: &Option<String>, game_id: &str) -> (r: String)
    ensures
        r@ == match (text_view(opts.disc_title), text_view(*title)) {
            (Some(t), _) => t,
            (None, Some(t)) => t,
            (None, None) => game_id@,
        },
{
    match &opts.disc_title {
        Some(t) => t.clone(),
        None => match title {
            Some(t) => t.clone(),
            None => game_id.to_owned(),
        },
    }
}

/// The inputs of the synthetic disc: its own id where that is given, else the game's, and the
/// apploader of the base title where one was taken.
pub fn carrier_inputs<'a>(
    opts: &'a GameCubeOptions,
    extras: &'a BaseDiscExtras,
    disc_title: &'a str,
    game_id: [u8; 6],
) -> (r: GcDiscInputs<'a>)
    ensures
        r.game_id == match opts.disc_id {
            Some(id) => id,
            None => game_id,
        },
        r.disc_title@ == disc_title@,
        r.main_dol@ == opts.nintendont_dol@,
        r.apploader@ == match bytes_view(extras.apploader) {
            Some(a) => a,
            None => opts.apploader@,
        },
        r.cert_chain@ == extras.cert_chain@,
{
    GcDiscInputs {
        game_id: match opts.disc_id {
            Some(id) => id,
            None => game_id,
        },
        disc_title,
        main_dol: opts.nintendont_dol.as_slice(),
        apploader: match &extras.apploader {
            Some(a) => a.as_slice(),
            None => opts.apploader.as_slice(),
        },
        cert_chain: extras.cert_chain.as_slice(),
    }
}

/// What `nincfg.bin` says for a GameCube injection.
pub fn nincfg_options(opts: &GameCubeOptions, game_id4: [u8; 4]) -> (r: NincfgOptions)
    ensures
        r.game_id == game_id4,
        r.widescreen == opts.widescreen,
        r.language == opts.language,
        r.video_mode == opts.video_mode,
        r.memcard_emu == opts.memcard_emu,
        r.memcard_blocks == opts.memcard_blocks,
        r.max_pads == opts.max_pads,
        r.wiiu_gamepad_slot == opts.wiiu_gamepad_slot,
        text_view(r.cheat_path) == text_view(opts.cheat_path),
{
    NincfgOptions {
        game_id: game_id4,
        widescreen: opts.widescreen,
        language: opts.language,
        video_mode: opts.video_mode,
        memcard_emu: opts.memcard_emu,
        memcard_blocks: opts.memcard_blocks,
        max_pads: opts.max_pads,
        wiiu_gamepad_slot: opts.wiiu_gamepad_slot,
        cheat_path: match &opts.cheat_path {
            Some(p) => Some(p.clone()),
            None => None,
        },
    }
}

/// What `meta.xml` is patched with.
#[derive(Debug)]
pub struct MetaOptions<'a> {
    pub ids: &'a TitleIds,
    pub long_name: &'a str,
    pub short_name: &'a str,
    pub publisher: &'a str,
    pub region: u32,
    pub drc_use: u32,
}

/// What `meta.xml` is patched with.
pub fn meta_options<'a>(
    config: &Config,
    platform: Platform,
    ids: &'a TitleIds,
    title: &'a str,
) -> (r: MetaOptions<'a>)
    ensures
        *r.ids == *ids,
        r.long_name@ == title@,
        r.short_name@ == title@,
        r.publisher@ == ""@,
        r.region == match config.region {
            Region::Japan => 1u32,
            Region::Usa => 2u32,
            Region::Europe => 4u32,
        },
        r.drc_use == match (platform, config.gamepad) {
            (Platform::GameCube, true) => 0x1_0001u32,
            (Platform::GameCube, false) => 1u32,
            (Platform::Wii, true) => 1u32,
            (Platform::Wii, false) => 0u32,
        },
{
    MetaOptions {
        ids,
        long_name: title,
        short_name: title,
        publisher: "",
        region: config.region.code(),
        drc_use: platform.drc_use(config.gamepad),
    }
}

/// Whether the title of a package is looked up: where none is given, and lookups are allowed.
pub fn wants_lookup(config: &Config) -> (r: bool)
    ensures
        r == (config.title is None && config.online),
{
    config.title.is_none() && config.online
}

/// The title of a package: the one that is given, else the one looked up, else the game id.
pub fn resolve_title(
    title: &Option<String>,
    online: bool,
    looked_up: Option<String>,
    game_id: &str,
) -> (r: String)
    ensures
        r@ == match (text_view(*title), text_view(looked_up)) {
            (Some(t), _) => t,
            (None, Some(t)) if online => t,
            _ => game_id@,
        },
{
    if let Some(t) = title {
        return t.clone();
    }
    if online {
        if let Some(t) = looked_up {
            return t;
        }
    }
    game_id.to_owned()
}

/// The key that content is encrypted with; the ticket carries it, encrypted.
pub open spec fn is_title_key(key: Seq<u8>) -> bool {
    key.len() == 16 && forall|i: int|
        0 <= i < 16 ==> #[trigger] key[i] == if i % 2 == 0 {
            0x13u8
        } else {
            0x37u8
        }
}

/// What the package of an injection is built with. The group id is the low half of the title's.
pub fn package_params<'a>(config: &'a Config, ids: &TitleIds) -> (r: PackageParams<'a>)
    ensures
        r.title_id == ids.title_id,
        r.group_id == ids.group_id % 0x1_0000,
        r.wiiu_common_key == config.wiiu_common_key,
        is_title_key(r.title_key@),
        *r.cert == config.cert,
{
    let group_id = (ids.group_id % 0x1_0000) as u16;
    PackageParams {
        title_id: ids.title_id,
        group_id,
        wiiu_common_key: config.wiiu_common_key,
        title_key: [
            0x13u8,
            0x37,
            0x13,
            0x37,
            0x13,
            0x37,
            0x13,
            0x37,
            0x13,
            0x37,
            0x13,
            0x37,
            0x13,
            0x37,
            0x13,
            0x37,
        ],
        cert: &config.cert,
    }
}

/// What an injection came to.
pub fn summary(
    config: &Config,
    ids: &TitleIds,
    game_id: String,
    title: String,
    package: PackageStats,
) -> (r: Summary)
    ensures
        r.title_id == ids.title_id,
        r.game_id == game_id,
        r.title == title,
        r.package == package,
        r.out@ == config.out@,
{
    Summary { title_id: ids.title_id, game_id, title, package, out: config.out.clone() }
}

/// Where `nincfg.bin` goes: next to the package, whose path is given in full, or into it where that
/// is the root.
pub fn nincfg_path(out: &str) -> (r: String)
    ensures
        r@ == path_in(
            match parent_of(out@) {
                Some(dir) => dir,
                None => out@,
            },
            "nincfg.bin"@,
        ),
{
    match parent_path(out) {
        Some(dir) => join_path(dir.as_str(), "nincfg.bin"),
        None => join_path(out, "nincfg.bin"),
    }
}

/// The artwork for the GamePad: its own, or else that of the TV, so that both screens match.
pub fn drc_source(drc: Option<Vec<u8>>, tv: &Option<Vec<u8>>) -> (r: Option<Vec<u8>>)
    ensures
        bytes_view(r) == match bytes_view(drc) {
            Some(d) => Some(d),
            None => bytes_view(*tv),
        },
{
    match drc {
        Some(d) => Some(d),
        None => match tv {
            Some(t) => {
                let copy = vstd::slice::slice_to_vec(t.as_slice());
                assert(copy@ =~= t@);
                Some(copy)
            },
            None => None,
        },
    }
}

/// Where the artwork of a texture comes from.
#[derive(Debug)]
pub enum TextureSource {
    /// A file that was given.
    File(String),
    /// A download.
    Download(String),
    /// Nowhere: the base title's texture stays.
    Base,
}

/// Where the artwork of a texture comes from: a file where one is given, else the repository where
/// downloads are allowed.
pub fn texture_source(
    config: &Config,
    platform: Platform,
    game_id: &str,
    tex: BootTexture,
) -> (r: TextureSource)
    ensures
        ({
            let given = match tex {
                BootTexture::Icon => text_view(config.icon_png),
                BootTexture::BootTv => text_view(config.boot_tv_png),
                BootTexture::BootDrc => text_view(config.boot_drc_png),
                BootTexture::BootLogo => None,
            };
            match r {
                TextureSource::File(p) => given == Some(p@),
                TextureSource::Download(u) => given is None && config.online && art_url(
                    platform.key(),
                    game_id@,
                    tex,
                ) == Some(u@),
                TextureSource::Base => given is None && (!config.online || art_url(
                    platform.key(),
                    game_id@,
                    tex,
                ) is None),
            }
        }),
{
    let given = match tex {
        BootTexture::Icon => &config.icon_png,
        BootTexture::BootTv => &config.boot_tv_png,
        BootTexture::BootDrc => &config.boot_drc_png,
        BootTexture::BootLogo => &None,
    };
    match given {
        Some(p) => TextureSource::File(p.clone()),
        None => if config.online {
            match texture_url(platform.art_key(), game_id, tex) {
                Some(u) => TextureSource::Download(u),
                None => TextureSource::Base,
            }
        } else {
            TextureSource::Base
        },
    }
}

/// Artwork, or none, or the error of reading it.
pub type Artwork = Result<Option<Vec<u8>>, Error>;

/// The value of artwork.
pub open spec fn artwork_view(a: Artwork) -> Result<Option<Seq<u8>>, ErrorView> {
    match a {
        Ok(v) => Ok(bytes_view(v)),
        Err(e) => Err(e@),
    }
}

/// The textures that an injection writes, in order.
pub open spec fn texture_at(k: int) -> BootTexture {
    if k == 0 {
        BootTexture::Icon
    } else if k == 1 {
        BootTexture::BootTv
    } else {
        BootTexture::BootDrc
    }
}

/// What texture `k` is made from, given what was found for each of the three: the GamePad's falls
/// back to the TV's.
pub open spec fn texture_art(found: Seq<Result<Option<Seq<u8>>, ErrorView>>, k: int) -> Result<
    Option<Seq<u8>>,
    ErrorView,
> {
    if k == 2 && found[2] == Ok::<Option<Seq<u8>>, ErrorView>(None) {
        found[1]
    } else {
        found[k]
    }
}

/// The error that ends the first `k` textures, and the texture that it belongs to.
pub open spec fn texture_failure(
    found: Seq<Result<Option<Seq<u8>>, ErrorView>>,
    k: int,
) -> Option<(int, ErrorView)>
    decreases k,
{
    if k <= 0 {
        None
    } else if texture_failure(found, k - 1) is Some {
        texture_failure(found, k - 1)
    } else {
        match texture_art(found, k - 1) {
            Err(e) => Some((k - 1, e)),
            Ok(None) => None,
            Ok(Some(png)) => match texture_error(png) {
                Some(e) => Some((k - 1, e)),
                None => None,
            },
        }
    }
}

/// Those of the first `k` textures for which there is artwork, with it.
pub open spec fn textures_wanted(
    found: Seq<Result<Option<Seq<u8>>, ErrorView>>,
    k: int,
) -> Seq<(BootTexture, Seq<u8>)>
    decreases k,
{
    if k <= 0 {
        Seq::empty()
    } else {
        match texture_art(found, k - 1) {
            Ok(Some(png)) => textures_wanted(found, k - 1).push((texture_at(k - 1), png)),
            _ => textures_wanted(found, k - 1),
        }
    }
}

/// The files are these textures, made from this artwork.
pub open spec fn are_textures(
    files: Seq<FileView>,
    meta_dir: Seq<char>,
    wanted: Seq<(BootTexture, Seq<u8>)>,
) -> bool {
    &&& files.len() == wanted.len()
    &&& forall|i: int|
        0 <= i < files.len() ==> (#[trigger] files[i]).path == path_in(
            meta_dir,
            wanted[i].0.file(),
        ) && shows(wanted[i].1, wanted[i].0, files[i].bytes)
}

/// Making the textures one after the other, so that the artwork of each is looked for once those
/// before it are done.
#[derive(Debug)]
pub struct TextureRun {
    /// How many are done.
    pub done: usize,
    /// The artwork of the TV texture.
    pub tv: Option<Vec<u8>>,
}

impl TextureRun {
    /// Nothing is done yet.
    pub fn new() -> (r: TextureRun)
        ensures
            r.done == 0,
            r.tv is None,
    {
        TextureRun { done: 0, tv: None }
    }

    /// The texture that is next, if there is one.
    pub fn next_texture(&self) -> (r: Option<BootTexture>)
        ensures
            r == if self.done < 3 {
                Some(texture_at(self.done as int))
            } else {
                None
            },
    {
        if self.done == 0 {
            Some(BootTexture::Icon)
        } else if self.done == 1 {
            Some(BootTexture::BootTv)
        } else if self.done == 2 {
            Some(BootTexture::BootDrc)
        } else {
            None
        }
    }

    /// What the next texture is made from, given what was found for it.
    pub open spec fn art(&self, found: Result<Option<Seq<u8>>, ErrorView>) -> Result<
        Option<Seq<u8>>,
        ErrorView,
    > {
        if self.done == 2 && found == Ok::<Option<Seq<u8>>, ErrorView>(None) {
            Ok(bytes_view(self.tv))
        } else {
            found
        }
    }

    /// Make the next texture from the artwork that was found for it; without any, it is left to the
    /// base title, but the GamePad's is made from the TV's artwork then.
    pub fn step(&mut self, meta_dir: &str, found: Artwork) -> (r: Result<Option<FileWrite>, Error>)
        requires
            old(self).done < 3,
        ensures
            match r {
                Err(e) => {
                    &&& match old(self).art(artwork_view(found)) {
                        Err(x) => e@ == x,
                        Ok(Some(png)) => texture_error(png) == Some(e@),
                        Ok(None) => false,
                    }
                    &&& *final(self) == *old(self)
                },
                Ok(f) => {
                    &&& final(self).done == old(self).done + 1
                    &&& bytes_view(final(self).tv) == if old(self).done == 1 {
                        artwork_view(found)->Ok_0
                    } else {
                        bytes_view(old(self).tv)
                    }
                    &&& match old(self).art(artwork_view(found)) {
                        Err(_) => false,
                        Ok(None) => f is None,
                        Ok(Some(png)) => {
                            let tex = texture_at(old(self).done as int);
                            &&& texture_error(png) is None
                            &&& f matches Some(w) && w@.path == path_in(meta_dir@, tex.file())
                                && shows(png, tex, w@.bytes)
                        },
                    }
                },
            },
    {
        let own = match found {
            Ok(a) => a,
            Err(e) => return Err(e),
        };
        let (tex, art) = if self.done == 0 {
            (BootTexture::Icon, own)
        } else if self.done == 1 {
            (BootTexture::BootTv, own)
        } else {
            (BootTexture::BootDrc, drc_source(own, &self.tv))
        };
        let file = match &art {
            Some(png) => match png_to_tga(png.as_slice(), tex) {
                Ok(bytes) => Some(FileWrite { path: join_path(meta_dir, tex.filename()), bytes }),
                Err(e) => return Err(e),
            },
            None => None,
        };
        if self.done == 1 {
            self.tv = art;
        }
        self.done = self.done + 1;
        Ok(file)
    }
}

fn add_file(files: &mut Vec<FileWrite>, file: Option<FileWrite>)
    ensures
        file_views(final(files)@) == match file {
            Some(f) => file_views(old(files)@).push(f@),
            None => file_views(old(files)@),
        },
{
    let ghost before = file_views(files@);
    if let Some(f) = file {
        let ghost v = f@;
        files.push(f);
        assert(file_views(files@) =~= before.push(v));
    }
}

/// Make the icon, the TV texture and the GamePad texture from the artwork that was found for them.
/// One without artwork is left to the base title, but the GamePad's is made from the TV's artwork
/// then. The first error ends it; the textures before it are written.
pub fn resolve_textures(meta_dir: &str, icon: Artwork, tv: Artwork, drc: Artwork) -> (r: Writes)
    ensures
        ({
            let found = seq![artwork_view(icon), artwork_view(tv), artwork_view(drc)];
            let files = file_views(r.files@);
            match texture_failure(found, 3) {
                Some((k, e)) => error_view(r.error) == Some(e) && are_textures(
                    files,
                    meta_dir@,
                    textures_wanted(found, k),
                ),
                None => r.error is None && are_textures(
                    files,
                    meta_dir@,
                    textures_wanted(found, 3),
                ),
            }
        }),
{
    let ghost found = seq![artwork_view(icon), artwork_view(tv), artwork_view(drc)];
    reveal_with_fuel(texture_failure, 4);
    reveal_with_fuel(textures_wanted, 4);
    let mut files: Vec<FileWrite> = Vec::new();
    let mut run = TextureRun::new();
    match run.step(meta_dir, icon) {
        Ok(f) => add_file(&mut files, f),
        Err(e) => return Writes { files, error: Some(e) },
    }
    assert(are_textures(file_views(files@), meta_dir@, textures_wanted(found, 1)));
    match run.step(meta_dir, tv) {
        Ok(f) => add_file(&mut files, f),
        Err(e) => return Writes { files, error: Some(e) },
    }
    assert(are_textures(file_views(files@), meta_dir@, textures_wanted(found, 2)));
    match run.step(meta_dir, drc) {
        Ok(f) => add_file(&mut files, f),
        Err(e) => return Writes { files, error: Some(e) },
    }
    assert(are_textures(file_views(files@), meta_dir@, textures_wanted(found, 3)));
    Writes { files, error: None }
}

/// A ticket or TMD of at least 0x104 bytes is fakesigned by zeroing the 0x100 bytes from 4 on, and
/// nothing else of it changes. A shorter one is refused.
pub proof fn fakesigning_zeroes_the_signature(data: Seq<u8>, i: int)
    requires
        0 <= i < data.len(),
    ensures
        fakesign_error(data.len()) is None <==> data.len() >= 0x104,
        fakesigned(data).len() == data.len(),
        fakesigned(data)[i] == if 4 <= i < 0x104 {
            0u8
        } else {
            data[i]
        },
{
}

/// A TMD that holds a content record is pointed at a hash by writing it at 0x1F4, besides being
/// fakesigned. A shorter one is refused.
pub proof fn updated_tmd_carries_the_hash(tmd: Seq<u8>, content_hash: Seq<u8>, i: int)
    requires
        content_hash.len() == 20,
        0 <= i < tmd.len(),
    ensures
        tmd_error(tmd.len()) is None <==> tmd.len() >= 0x208,
        updated_tmd(tmd, content_hash).len() == tmd.len(),
        updated_tmd(tmd, content_hash)[i] == if 4 <= i < 0x104 {
            0u8
        } else if 0x1F4 <= i < 0x208 {
            content_hash[i - 0x1F4]
        } else {
            tmd[i]
        },
{
}

/// A title that runs a Wii disc has the signature check of `fw.img` disabled; one that boots
/// Nintendont has that and hardware access and controller input.
pub proof fn firmware_patches_suit_the_platform(v: Seq<BytePatch>)
    ensures
        is_firmware_patches(Platform::Wii, v) <==> is_fakesign_patches(v),
        is_firmware_patches(Platform::GameCube, v) <==> is_homebrew_patches(v),
        is_firmware_patches(Platform::Wii, v) ==> v.len() == 2,
        is_firmware_patches(Platform::GameCube, v) ==> v.len() == 10 && is_fakesign_patches(
            v.take(2),
        ),
{
}

/// The ticket and the TMD of a disc are written in that order, as `rvlt.tik` and `rvlt.tmd`.
pub proof fn rvlt_files_are_the_ticket_and_the_tmd(
    code_dir: Seq<char>,
    ticket: Seq<u8>,
    tmd: Seq<u8>,
)
    ensures
        ({
            let files = rvlt_pair(code_dir, ticket, tmd);
            &&& files.len() == 2
            &&& files[0].path == path_in(code_dir, "rvlt.tik"@) && files[0].bytes == ticket
            &&& files[1].path == path_in(code_dir, "rvlt.tmd"@) && files[1].bytes == tmd
        }),
{
}

/// The key of a package repeats `13 37` over its sixteen bytes.
pub proof fn title_key_repeats_two_bytes(key: Seq<u8>)
    requires
        is_title_key(key),
    ensures
        key == seq![
            0x13u8, 0x37, 0x13, 0x37, 0x13, 0x37, 0x13, 0x37, 0x13, 0x37, 0x13, 0x37, 0x13, 0x37,
            0x13, 0x37,
        ],
{
    assert(key =~= seq![
        0x13u8, 0x37, 0x13, 0x37, 0x13, 0x37, 0x13, 0x37, 0x13, 0x37, 0x13, 0x37, 0x13, 0x37, 0x13,
        0x37,
    ]);
}

/// Artwork that was found and can be decoded is made into textures: the icon, the TV's and the
/// GamePad's, in that order, each from its own artwork, and the GamePad's from the TV's where it
/// has none. A texture without artwork is left out.
pub proof fn textures_are_made_from_their_artwork(
    icon: Option<Seq<u8>>,
    tv: Option<Seq<u8>>,
    drc: Option<Seq<u8>>,
)
    requires
        icon matches Some(png) ==> texture_error(png) is None,
        tv matches Some(png) ==> texture_error(png) is None,
        drc matches Some(png) ==> texture_error(png) is None,
    ensures
        ({
            let found = seq![
                Ok::<Option<Seq<u8>>, ErrorView>(icon),
                Ok::<Option<Seq<u8>>, ErrorView>(tv),
                Ok::<Option<Seq<u8>>, ErrorView>(drc),
            ];
            let shown = if drc is Some {
                drc
            } else {
                tv
            };
            &&& texture_failure(found, 3) is None
            &&& textures_wanted(found, 3) == match icon {
                Some(png) => seq![(BootTexture::Icon, png)],
                None => Seq::empty(),
            } + match tv {
                Some(png) => seq![(BootTexture::BootTv, png)],
                None => Seq::empty(),
            } + match shown {
                Some(png) => seq![(BootTexture::BootDrc, png)],
                None => Seq::empty(),
            }
        }),
{
    let found = seq![
        Ok::<Option<Seq<u8>>, ErrorView>(icon),
        Ok::<Option<Seq<u8>>, ErrorView>(tv),
        Ok::<Option<Seq<u8>>, ErrorView>(drc),
    ];
    reveal_with_fuel(texture_failure, 4);
    reveal_with_fuel(textures_wanted, 4);
    let shown = if drc is Some {
        drc
    } else {
        tv
    };
    assert(textures_wanted(found, 3) =~= match icon {
        Some(png) => seq![(BootTexture::Icon, png)],
        None => Seq::empty(),
    } + match tv {
        Some(png) => seq![(BootTexture::BootTv, png)],
        None => Seq::empty(),
    } + match shown {
        Some(png) => seq![(BootTexture::BootDrc, png)],
        None => Seq::empty(),
    });
}

/// The directory of a platform in the artwork repository.
pub proof fn platforms_have_their_own_artwork()
    ensures
        Platform::Wii.key() == "wii"@,
        Platform::GameCube.key() == "gcn"@,
{
}

} // verus!

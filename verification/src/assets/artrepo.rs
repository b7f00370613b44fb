//! Artwork from the UWUVCI-IMAGES repository.

use super::images::BootTexture;
use super::Reply;
use vstd::prelude::*;

verus! {

/// Where the artwork is kept.
pub const REPO_BASE: &'static str =
    "https://raw.githubusercontent.com/UWUVCI-PRIME/UWUVCI-IMAGES/master";

/// The file that the repository keeps a texture in. There is none for the boot logo.
pub open spec fn art_name(tex: BootTexture) -> Option<Seq<char>> {
    match tex {
        BootTexture::Icon => Some("iconTex.png"@),
        BootTexture::BootTv => Some("bootTvTex.png"@),
        BootTexture::BootDrc => Some("bootDrcTex.png"@),
        BootTexture::BootLogo => None,
    }
}

/// The file that the repository keeps a texture in. There is none for the boot logo.
pub fn art_png_name(tex: BootTexture) -> (r: Option<&'static str>)
    ensures
        match r {
            Some(n) => art_name(tex) == Some(n@),
            None => art_name(tex) is None,
        },
{
    match tex {
        BootTexture::Icon => Some("iconTex.png"),
        BootTexture::BootTv => Some("bootTvTex.png"),
        BootTexture::BootDrc => Some("bootDrcTex.png"),
        BootTexture::BootLogo => None,
    }
}

/// The URL of a texture of a game, if the repository has one.
pub open spec fn art_url(system: Seq<char>, game_id: Seq<char>, tex: BootTexture) -> Option<
    Seq<char>,
> {
    match art_name(tex) {
        None => None,
        Some(name) => Some(
            REPO_BASE@ + "/"@ + system + "/"@ + game_id + "/"@ + name,
        ),
    }
}

/// The URL of a texture of a game, if the repository has one.
pub fn texture_url(system: &str, game_id6: &str, tex: BootTexture) -> (r: Option<String>)
    ensures
        match r {
            Some(u) => art_url(system@, game_id6@, tex) == Some(u@),
            None => art_url(system@, game_id6@, tex) is None,
        },
{
    match art_png_name(tex) {
        None => None,
        Some(name) => {
            let mut u = REPO_BASE.to_owned();
            u.append("/");
            u.append(system);
            u.append("/");
            u.append(game_id6);
            u.append("/");
            u.append(name);
            Some(u)
        },
    }
}

/// The artwork of a texture, from the reply to the request for its URL. A texture that the
/// repository does not have, and every failure, gives none.
pub fn download_texture(tex: BootTexture, reply: Reply) -> (r: Option<Vec<u8>>)
    ensures
        r == match reply {
            Reply::Body(b) if art_name(tex) is Some => Some(b),
            _ => None,
        },
{
    if art_png_name(tex).is_none() {
        return None;
    }
    match reply {
        Reply::Body(b) => Some(b),
        _ => None,
    }
}

/// The artwork of a game is looked for under the console and the game id, and there is artwork for
/// every texture but the boot logo.
pub proof fn artwork_is_filed_by_console_and_game(
    system: Seq<char>,
    game_id: Seq<char>,
    tex: BootTexture,
)
    ensures
        art_url(system, game_id, tex) is None <==> tex == BootTexture::BootLogo,
        art_url(system, game_id, tex) matches Some(u) ==> u
            == "https://raw.githubusercontent.com/UWUVCI-PRIME/UWUVCI-IMAGES/master"@ + "/"@
            + system + "/"@ + game_id + "/"@ + match tex {
            BootTexture::Icon => "iconTex.png"@,
            BootTexture::BootTv => "bootTvTex.png"@,
            _ => "bootDrcTex.png"@,
        },
{
}

} // verus!

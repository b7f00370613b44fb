//! Downloading a base title from the Nintendo Update Server.

use crate::base::is_base_game_nfs;
use crate::error::{Error, ErrorView};
use crate::package::content::listing::hif_name;
use crate::text::{
    chars_of, dec, dec_text, fixed_hex, fixed_hex_reads_back, fixed_hex_text, joined, lowered,
    number_of, numeral_reads_back, same_text, strip_trailing, text_of, uppered, uppered_text, without_trailing,
};
use vstd::prelude::*;

verus! {

/// The server that titles are downloaded from by default.
pub const DEFAULT_NUS_URL: &'static str = "http://ccs.cdn.c.shop.nintendowifi.net/ccs/download";

/// A longer response is refused before its body is read.
pub const MAX_RESPONSE_BYTES: u64 = 0x1_0000_0000;

/// A server that titles are downloaded from.
#[derive(Debug)]
pub struct NusClient {
    pub base_url: String,
}

/// The URL of a file of a title.
pub open spec fn file_url(base_url: Seq<char>, title_id: u64, file: Seq<char>) -> Seq<char> {
    base_url + "/"@ + fixed_hex(title_id as nat, 16) + "/"@ + file
}

/// The file of the latest TMD, or of that of a version.
pub open spec fn tmd_file(version: Option<u32>) -> Seq<char> {
    match version {
        Some(v) => "tmd."@ + dec(v as nat),
        None => "tmd"@,
    }
}

/// The file of a content: its id in eight upper-case digits.
pub open spec fn content_file(content_id: u32) -> Seq<char> {
    uppered(fixed_hex(content_id as nat, 8))
}

impl NusClient {
    /// The default server.
    pub fn new() -> (r: NusClient)
        ensures
            r.base_url@ == DEFAULT_NUS_URL@,
    {
        NusClient { base_url: DEFAULT_NUS_URL.to_owned() }
    }

    /// The server at a base URL. Slashes at its end do not count.
    pub fn with_base_url(base_url: &str) -> (r: NusClient)
        ensures
            r.base_url@ == without_trailing(base_url@, '/'),
    {
        let cs = chars_of(base_url);
        NusClient { base_url: text_of(strip_trailing(cs.as_slice(), '/')) }
    }

    /// The URL of a file of a title.
    pub fn url(&self, title_id: u64, file: &str) -> (r: String)
        ensures
            r@ == file_url(self.base_url@, title_id, file@),
    {
        let mut u = joined(self.base_url.as_str(), "/");
        u.append(fixed_hex_text(title_id, 16).as_str());
        u.append("/");
        u.append(file);
        u
    }

    /// The URL of the latest TMD of a title, or of that of a version.
    pub fn tmd(&self, title_id: u64, version: Option<u32>) -> (r: String)
        ensures
            r@ == file_url(self.base_url@, title_id, tmd_file(version)),
    {
        let file = match version {
            Some(v) => joined("tmd.", dec_text(v as u64).as_str()),
            None => "tmd".to_owned(),
        };
        self.url(title_id, file.as_str())
    }

    /// The URL of a content of a title.
    pub fn content(&self, title_id: u64, content_id: u32) -> (r: String)
        ensures
            r@ == file_url(self.base_url@, title_id, content_file(content_id)),
    {
        let file = uppered_text(fixed_hex_text(content_id as u64, 8).as_str());
        self.url(title_id, file.as_str())
    }
}

/// How a request to the server ended.
#[derive(Debug)]
pub enum NusReply {
    /// It failed, as the text says.
    Failed(String),
    /// The server answered with this status, which is not a success.
    Refused(String),
    /// The body was announced with this length, if any, and has not been read.
    Announced(Option<u64>),
    /// Reading the body failed, as the text says.
    Unreadable(String),
    /// The body.
    Body(Vec<u8>),
}

/// Why a reply gives no file, if it gives none.
pub open spec fn reply_error(url: Seq<char>, reply: NusReply) -> Option<Seq<char>> {
    match reply {
        NusReply::Failed(e) => Some("GET "@ + url + ": "@ + e@),
        NusReply::Refused(s) => Some("GET "@ + url + ": HTTP "@ + s@),
        NusReply::Announced(Some(len)) if len > MAX_RESPONSE_BYTES => Some(
            "GET "@ + url + ": Content-Length "@ + dec(len as nat) + " exceeds the "@ + dec(
                MAX_RESPONSE_BYTES as nat,
            ) + "-byte sanity limit; refusing to download it"@,
        ),
        NusReply::Unreadable(e) => Some("reading "@ + url + ": "@ + e@),
        _ => None,
    }
}

/// Judge a reply: the body once it is there, nothing yet while it may be read, or an error.
pub fn get(url: &str, reply: NusReply) -> (r: Result<Option<Vec<u8>>, Error>)
    ensures
        match r {
            Ok(b) => reply_error(url@, reply) is None && b == match reply {
                NusReply::Body(v) => Some(v),
                _ => None,
            },
            Err(e) => reply_error(url@, reply) matches Some(m) && e@ == ErrorView::Other(m),
        },
{
    match reply {
        NusReply::Failed(e) => {
            let mut m = joined("GET ", url);
            m.append(": ");
            m.append(e.as_str());
            Err(Error::Other(m))
        },
        NusReply::Refused(s) => {
            let mut m = joined("GET ", url);
            m.append(": HTTP ");
            m.append(s.as_str());
            Err(Error::Other(m))
        },
        NusReply::Announced(length) => {
            if let Some(len) = length {
                if len > MAX_RESPONSE_BYTES {
                    let mut m = joined("GET ", url);
                    m.append(": Content-Length ");
                    m.append(dec_text(len).as_str());
                    m.append(" exceeds the ");
                    m.append(dec_text(MAX_RESPONSE_BYTES).as_str());
                    m.append("-byte sanity limit; refusing to download it");
                    return Err(Error::Other(m));
                }
            }
            Ok(None)
        },
        NusReply::Unreadable(e) => {
            let mut m = joined("reading ", url);
            m.append(": ");
            m.append(e.as_str());
            Err(Error::Other(m))
        },
        NusReply::Body(v) => Ok(Some(v)),
    }
}

/// Whether a file of the title is left out where only the base's own game data and its key are
/// wanted.
pub fn skipped_for_nfs(name: &str) -> (r: bool)
    ensures
        r == !(hif_name(name@) || name@ == "htk.bin"@),
{
    !(is_base_game_nfs(name) || same_text(name, "htk.bin"))
}

/// A request is refused where it failed, where the server refused it, where the body could not be
/// read, and where more than 4 GiB are announced, and nowhere else; the URL stands in the message.
pub proof fn a_reply_is_refused_for_cause(url: Seq<char>, reply: NusReply)
    ensures
        reply_error(url, reply) is Some <==> match reply {
            NusReply::Failed(_) => true,
            NusReply::Refused(_) => true,
            NusReply::Unreadable(_) => true,
            NusReply::Announced(Some(len)) => len > 0x1_0000_0000,
            NusReply::Announced(None) => false,
            NusReply::Body(_) => false,
        },
{
}

/// The URL of a file has, between the server and the name of the file, the title id in sixteen
/// hexadecimal digits, and a slash on either side of it.
pub proof fn url_names_the_title(base_url: Seq<char>, title_id: u64, file: Seq<char>)
    ensures
        ({
            let u = file_url(base_url, title_id, file);
            let n = base_url.len() as int;
            &&& u.len() == n + 18 + file.len()
            &&& u.take(n) == base_url
            &&& u[n] == '/' && u[n + 17] == '/'
            &&& number_of(u.subrange(n + 1, n + 17), 16) == title_id
            &&& u.skip(n + 18) == file
        }),
{
    let u = file_url(base_url, title_id, file);
    let n = base_url.len() as int;
    reveal_strlit("/");
    fixed_hex_reads_back(title_id as nat, 16);
    assert(vstd::arithmetic::power::pow(16, 16) == 0x1_0000_0000_0000_0000) by {
        reveal_with_fuel(vstd::arithmetic::power::pow, 17);
    }
    assert(u.take(n) =~= base_url);
    assert(u.subrange(n + 1, n + 17) =~= fixed_hex(title_id as nat, 16));
    assert(u.skip(n + 18) =~= file);
}

/// The file of a content has the content id in eight hexadecimal digits, its letters in upper case,
/// and the file of a TMD of a version has the version in decimal.
pub proof fn files_name_what_they_hold(content_id: u32, version: u32)
    ensures
        content_file(content_id).len() == 8,
        number_of(lowered(content_file(content_id)), 16) == content_id,
        forall|i: int|
            0 <= i < 8 ==> '0' <= #[trigger] content_file(content_id)[i] <= '9' || 'A'
                <= content_file(content_id)[i] <= 'F',
        tmd_file(None) == "tmd"@,
        tmd_file(Some(version)).take(4) == "tmd."@,
        number_of(tmd_file(Some(version)).skip(4), 10) == version,
{
    let s = fixed_hex(content_id as nat, 8);
    fixed_hex_reads_back(content_id as nat, 8);
    assert(vstd::arithmetic::power::pow(16, 8) == 0x1_0000_0000) by {
        reveal_with_fuel(vstd::arithmetic::power::pow, 9);
    }
    assert forall|i: int| 0 <= i < 8 implies #[trigger] lowered(uppered(s))[i] == s[i] by {
        assert(crate::text::is_digit(s[i], 16));
    }
    assert(lowered(uppered(s)) =~= s);
    assert forall|i: int| 0 <= i < 8 implies '0' <= #[trigger] content_file(content_id)[i] <= '9'
        || 'A' <= content_file(content_id)[i] <= 'F' by {
        assert(crate::text::is_digit(s[i], 16));
    }
    reveal_strlit("tmd.");
    numeral_reads_back(version as nat, 10);
    let t = tmd_file(Some(version));
    assert(t.take(4) =~= "tmd."@);
    assert(t.skip(4) =~= dec(version as nat));
}

/// Titles are downloaded from Nintendo's server by default.
pub proof fn the_default_server_is_nintendos()
    ensures
        DEFAULT_NUS_URL@ == "http://ccs.cdn.c.shop.nintendowifi.net/ccs/download"@,
{
}

} // verus!

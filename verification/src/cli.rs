//! The values of command-line arguments.

use crate::assets::nintendont::hex_of;
use crate::bytes::key_from;
use crate::nincfg::{Language, VideoMode};
use crate::package::output::is_hex_char;
use crate::pipeline::{GameCubeOptions, Region};
use crate::text::{
    chars_of, dec, dec_text, debug_of, debug_text, digit_of, fixed_hex, is_white, joined,
    same_text, text_of, text_view, trim, trimmed, trimmed_end, trimmed_start,
};
use vstd::arithmetic::power2::pow2;
use vstd::prelude::*;

verus! {

/// The size of a memory card in blocks, for an exponent.
pub open spec fn card_blocks(x: u8) -> int {
    pow2((x + 6) as nat) - 5
}

/// The exponent of a memory card with as many blocks as the text says, if there is one.
pub open spec fn card_exponent(s: Seq<char>) -> Option<u8> {
    if s == "59"@ {
        Some(0)
    } else if s == "123"@ {
        Some(1)
    } else if s == "251"@ {
        Some(2)
    } else if s == "507"@ {
        Some(3)
    } else if s == "1019"@ {
        Some(4)
    } else {
        None
    }
}

/// The exponent of a memory card with as many blocks as the text says.
pub fn parse_memcard_size(s: &str) -> (r: Result<u8, String>)
    ensures
        match r {
            Ok(x) => card_exponent(s@) == Some(x),
            Err(m) => card_exponent(s@) is None && m@
                == "memory-card size must be one of 59, 123, 251, 507 or 1019 blocks"@,
        },
{
    if same_text(s, "59") {
        Ok(0)
    } else if same_text(s, "123") {
        Ok(1)
    } else if same_text(s, "251") {
        Ok(2)
    } else if same_text(s, "507") {
        Ok(3)
    } else if same_text(s, "1019") {
        Ok(4)
    } else {
        Err("memory-card size must be one of 59, 123, 251, 507 or 1019 blocks".to_owned())
    }
}

/// A memory card is accepted exactly where its blocks are those of an exponent up to 4.
pub proof fn card_sizes_follow_the_exponent(x: u8)
    requires
        x <= 4,
    ensures
        card_exponent(dec(card_blocks(x) as nat)) == Some(x),
{
    vstd::arithmetic::power2::lemma2_to64();
    reveal_strlit("59");
    reveal_strlit("123");
    reveal_strlit("251");
    reveal_strlit("507");
    reveal_strlit("1019");
    reveal_with_fuel(crate::text::numeral, 5);
    if x == 0 {
        assert(dec(59) =~= "59"@);
    } else if x == 1 {
        assert(dec(123) =~= "123"@);
        assert(dec(123) != "59"@);
    } else if x == 2 {
        assert(dec(251) =~= "251"@);
        assert("251"@[0] != "123"@[0]);
    } else if x == 3 {
        assert(dec(507) =~= "507"@);
        assert("507"@[0] != "123"@[0] && "507"@[0] != "251"@[0]);
    } else {
        assert(dec(1019) =~= "1019"@);
    }
}

/// The video mode of this name.
pub open spec fn video_named(s: Seq<char>) -> Option<VideoMode> {
    if s == "auto"@ {
        Some(VideoMode::Auto)
    } else if s == "ntsc"@ {
        Some(VideoMode::ForceNtsc)
    } else if s == "pal50"@ {
        Some(VideoMode::ForcePal50)
    } else if s == "pal60"@ {
        Some(VideoMode::ForcePal60)
    } else if s == "mpal"@ {
        Some(VideoMode::ForceMpal)
    } else if s == "progressive"@ {
        Some(VideoMode::ForceProgressive)
    } else if s == "none"@ {
        Some(VideoMode::Off)
    } else {
        None
    }
}

/// The video mode of this name.
pub fn parse_video(s: &str) -> (r: Option<VideoMode>)
    ensures
        r == video_named(s@),
{
    if same_text(s, "auto") {
        Some(VideoMode::Auto)
    } else if same_text(s, "ntsc") {
        Some(VideoMode::ForceNtsc)
    } else if same_text(s, "pal50") {
        Some(VideoMode::ForcePal50)
    } else if same_text(s, "pal60") {
        Some(VideoMode::ForcePal60)
    } else if same_text(s, "mpal") {
        Some(VideoMode::ForceMpal)
    } else if same_text(s, "progressive") {
        Some(VideoMode::ForceProgressive)
    } else if same_text(s, "none") {
        Some(VideoMode::Off)
    } else {
        None
    }
}

/// The language of this name.
pub open spec fn language_named(s: Seq<char>) -> Option<Language> {
    if s == "auto"@ {
        Some(Language::Auto)
    } else if s == "english"@ {
        Some(Language::English)
    } else if s == "german"@ {
        Some(Language::German)
    } else if s == "french"@ {
        Some(Language::French)
    } else if s == "spanish"@ {
        Some(Language::Spanish)
    } else if s == "italian"@ {
        Some(Language::Italian)
    } else if s == "dutch"@ {
        Some(Language::Dutch)
    } else {
        None
    }
}

/// The language of this name.
pub fn parse_language(s: &str) -> (r: Option<Language>)
    ensures
        r == language_named(s@),
{
    if same_text(s, "auto") {
        Some(Language::Auto)
    } else if same_text(s, "english") {
        Some(Language::English)
    } else if same_text(s, "german") {
        Some(Language::German)
    } else if same_text(s, "french") {
        Some(Language::French)
    } else if same_text(s, "spanish") {
        Some(Language::Spanish)
    } else if same_text(s, "italian") {
        Some(Language::Italian)
    } else if same_text(s, "dutch") {
        Some(Language::Dutch)
    } else {
        None
    }
}

/// The region of this name.
pub fn parse_region(s: &str) -> (r: Option<Region>)
    ensures
        r == if s@ == "jp"@ {
            Some(Region::Japan)
        } else if s@ == "us"@ {
            Some(Region::Usa)
        } else if s@ == "eu"@ {
            Some(Region::Europe)
        } else {
            None
        },
{
    if same_text(s, "jp") {
        Some(Region::Japan)
    } else if same_text(s, "us") {
        Some(Region::Usa)
    } else if same_text(s, "eu") {
        Some(Region::Europe)
    } else {
        None
    }
}

/// A decimal digit.
pub open spec fn is_dec_char(c: char) -> bool {
    '0' <= c <= '9'
}

/// One or more decimal digits.
pub open spec fn is_decimal(s: Seq<char>) -> bool {
    s.len() > 0 && forall|i: int| 0 <= i < s.len() ==> is_dec_char(#[trigger] s[i])
}

/// The number that decimal digits stand for.
pub open spec fn dec_value(s: Seq<char>) -> nat
    decreases s.len(),
{
    if s.len() == 0 {
        0
    } else {
        (dec_value(s.drop_last()) * 10 + (s.last() as int - '0' as int)) as nat
    }
}

/// The digits of an integer, behind the sign if there is one.
pub open spec fn digits_of(s: Seq<char>) -> Seq<char> {
    if s.len() > 0 && (s[0] == '+' || s[0] == '-') {
        s.skip(1)
    } else {
        s
    }
}

/// The integer that a text stands for, if it is one.
pub open spec fn integer(s: Seq<char>) -> Option<int> {
    if !is_decimal(digits_of(s)) {
        None
    } else if s[0] == '-' {
        Some(-(dec_value(digits_of(s)) as int))
    } else {
        Some(dec_value(digits_of(s)) as int)
    }
}

/// The text stands for an integer from 0 to `max`.
pub open spec fn in_range(s: Seq<char>, max: u32) -> bool {
    integer(s) matches Some(v) && 0 <= v <= max
}

/// The integer from 0 to `max` that a text stands for.
pub fn parse_ranged(s: &str, max: u32) -> (r: Result<u32, String>)
    ensures
        match r {
            Ok(v) => in_range(s@, max) && integer(s@) == Some(v as int),
            Err(m) => !in_range(s@, max) && m@ == s@ + " is not in 0..="@ + dec(max as nat),
        },
{
    let mut m = joined(s, " is not in 0..=");
    m.append(dec_text(max as u64).as_str());
    let cs = chars_of(s);
    let n = cs.len();
    let start: usize = if n > 0 && (cs[0] == '+' || cs[0] == '-') {
        1
    } else {
        0
    };
    let ghost ds = digits_of(s@);
    assert(ds =~= s@.skip(start as int));
    if start == n {
        return Err(m);
    }
    let mut v: u64 = 0;
    let mut k = start;
    assert(ds.take(0) =~= Seq::<char>::empty());
    while k < n
        invariant
            start <= k <= n,
            n == cs@.len(),
            cs@ == s@,
            ds == s@.skip(start as int),
            ds == digits_of(s@),
            m@ == s@ + " is not in 0..="@ + dec(max as nat),
            forall|i: int| 0 <= i < k - start ==> is_dec_char(#[trigger] ds[i]),
            v == if dec_value(ds.take(k - start)) <= max {
                dec_value(ds.take(k - start)) as int
            } else {
                max + 1
            },
        decreases n - k,
    {
        let c = cs[k];
        assert(c == ds[k - start]);
        if !('0' <= c && c <= '9') {
            assert(!is_dec_char(ds[k - start]));
            return Err(m);
        }
        assert(ds.take(k + 1 - start).drop_last() =~= ds.take(k - start));
        assert(ds.take(k + 1 - start).last() == c);
        let d = c as u32 as u64 - '0' as u32 as u64;
        v = v * 10 + d;
        if v > max as u64 {
            v = max as u64 + 1;
        }
        k = k + 1;
    }
    assert(ds.take(n - start) =~= ds);
    if v > max as u64 || (v > 0 && cs[0] == '-') {
        return Err(m);
    }
    Ok(v as u32)
}

/// The settings of a GameCube injection.
#[derive(Debug)]
pub struct GcFlags {
    pub widescreen: bool,
    pub language: Language,
    pub video: VideoMode,
    pub no_memcard: bool,
    /// The exponent of the memory card's size.
    pub memcard_blocks: u8,
    pub max_pads: u32,
    pub gamepad_slot: u32,
    /// A cheat file on the SD card.
    pub cheats: Option<String>,
}

/// What settings become when one of them is given a value, if the value is valid.
pub open spec fn with_flag(f: GcFlags, name: Seq<char>, value: Seq<char>) -> Option<GcFlags> {
    if name == "--gc-video"@ {
        match video_named(value) {
            Some(video) => Some(GcFlags { video, ..f }),
            None => None,
        }
    } else if name == "--gc-language"@ {
        match language_named(value) {
            Some(language) => Some(GcFlags { language, ..f }),
            None => None,
        }
    } else if name == "--gc-memcard-blocks"@ {
        match card_exponent(value) {
            Some(memcard_blocks) => Some(GcFlags { memcard_blocks, ..f }),
            None => None,
        }
    } else if name == "--gc-max-pads"@ && in_range(value, 4) {
        Some(GcFlags { max_pads: integer(value)->0 as u32, ..f })
    } else if name == "--gc-gamepad-slot"@ && in_range(value, 3) {
        Some(GcFlags { gamepad_slot: integer(value)->0 as u32, ..f })
    } else {
        None
    }
}

impl GcFlags {
    /// The settings of which none is given: a card of 251 blocks, four controllers, and the GamePad
    /// as the first of them.
    pub fn new() -> (r: GcFlags)
        ensures
            !r.widescreen,
            r.language == Language::Auto,
            r.video == VideoMode::Auto,
            !r.no_memcard,
            r.memcard_blocks == 2,
            r.max_pads == 4,
            r.gamepad_slot == 0,
            r.cheats is None,
    {
        GcFlags {
            widescreen: false,
            language: Language::Auto,
            video: VideoMode::Auto,
            no_memcard: false,
            memcard_blocks: 2,
            max_pads: 4,
            gamepad_slot: 0,
            cheats: None,
        }
    }

    /// Give one of the settings a value. Neither an unknown setting nor an invalid value changes
    /// anything.
    pub fn set(&mut self, name: &str, value: &str) -> (r: bool)
        ensures
            match with_flag(*old(self), name@, value@) {
                Some(f) => r && *final(self) == f,
                None => !r && *final(self) == *old(self),
            },
    {
        if same_text(name, "--gc-video") {
            match parse_video(value) {
                Some(v) => self.video = v,
                None => return false,
            }
        } else if same_text(name, "--gc-language") {
            match parse_language(value) {
                Some(l) => self.language = l,
                None => return false,
            }
        } else if same_text(name, "--gc-memcard-blocks") {
            match parse_memcard_size(value) {
                Ok(x) => self.memcard_blocks = x,
                Err(_) => return false,
            }
        } else if same_text(name, "--gc-max-pads") {
            match parse_ranged(value, 4) {
                Ok(v) => self.max_pads = v,
                Err(_) => {
                    proof {
                        lemma_flag_names();
                    }
                    return false;
                },
            }
        } else if same_text(name, "--gc-gamepad-slot") {
            match parse_ranged(value, 3) {
                Ok(v) => self.gamepad_slot = v,
                Err(_) => return false,
            }
        } else {
            return false;
        }
        true
    }
}

proof fn lemma_flag_names()
    ensures
        "--gc-max-pads"@ != "--gc-gamepad-slot"@,
{
    reveal_strlit("--gc-max-pads");
    reveal_strlit("--gc-gamepad-slot");
    assert("--gc-max-pads"@.len() != "--gc-gamepad-slot"@.len());
}

/// The options of a GameCube injection with these settings, boot file and apploader.
pub fn gc_options(flags: GcFlags, nintendont_dol: Vec<u8>, apploader: Vec<u8>) -> (r:
    GameCubeOptions)
    ensures
        r.nintendont_dol == nintendont_dol,
        r.apploader == apploader,
        r.widescreen == flags.widescreen,
        r.language == flags.language,
        r.video_mode == flags.video,
        r.memcard_emu == !flags.no_memcard,
        r.memcard_blocks == flags.memcard_blocks,
        r.max_pads == flags.max_pads,
        r.wiiu_gamepad_slot == flags.gamepad_slot,
        r.cheat_path == flags.cheats,
        r.disc_id is None,
        r.disc_title is None,
{
    GameCubeOptions {
        nintendont_dol,
        apploader,
        widescreen: flags.widescreen,
        language: flags.language,
        video_mode: flags.video,
        memcard_emu: !flags.no_memcard,
        memcard_blocks: flags.memcard_blocks,
        max_pads: flags.max_pads,
        wiiu_gamepad_slot: flags.gamepad_slot,
        cheat_path: flags.cheats,
        disc_id: None,
        disc_title: None,
    }
}

/// Where the boot file comes from.
#[derive(Debug)]
pub enum DolSource {
    File(String),
    Download,
}

/// Where the boot file comes from: a file where one is given, else a download, where those are
/// allowed.
pub fn dol_source(nintendont: &Option<String>, offline: bool) -> (r: Result<DolSource, String>)
    ensures
        match r {
            Ok(DolSource::File(p)) => text_view(*nintendont) == Some(p@),
            Ok(DolSource::Download) => nintendont is None && !offline,
            Err(m) => nintendont is None && offline && m@
                == "--nintendont <boot.dol> is required with --offline (cannot download Nintendont)"@,
        },
{
    match nintendont {
        Some(p) => Ok(DolSource::File(p.clone())),
        None => if offline {
            Err(
                "--nintendont <boot.dol> is required with --offline (cannot download Nintendont)".to_owned(),
            )
        } else {
            Ok(DolSource::Download)
        },
    }
}

/// Whether a directory that is given for the build can be used: only an empty one can, because what
/// it holds would end up in the package.
pub fn check_work_dir(dir: &str, is_empty: bool) -> (r: Result<(), String>)
    ensures
        match r {
            Ok(()) => is_empty,
            Err(m) => !is_empty && m@ == "--work-dir "@ + dir@
                + " already exists and is not empty; empty it or pick another path (reusing a dirty work dir can package stale leftover files, e.g. from a previous build)"@,
        },
{
    if is_empty {
        return Ok(());
    }
    let mut m = joined("--work-dir ", dir);
    m.append(
        " already exists and is not empty; empty it or pick another path (reusing a dirty work dir can package stale leftover files, e.g. from a previous build)",
    );
    Err(m)
}

/// The value of a hexadecimal digit, in either case.
pub open spec fn hex_value(c: char) -> int {
    if c <= '9' {
        c as int - '0' as int
    } else if c <= 'F' {
        c as int - 'A' as int + 10
    } else {
        c as int - 'a' as int + 10
    }
}

fn hex_digit(c: char) -> (r: Option<u8>)
    ensures
        match r {
            Some(v) => is_hex_char(c) && v == hex_value(c) && v < 16,
            None => !is_hex_char(c),
        },
{
    if '0' <= c && c <= '9' {
        Some((c as u32 - '0' as u32) as u8)
    } else if 'a' <= c && c <= 'f' {
        Some((c as u32 - 'a' as u32 + 10) as u8)
    } else if 'A' <= c && c <= 'F' {
        Some((c as u32 - 'A' as u32 + 10) as u8)
    } else {
        None
    }
}

/// All characters are hexadecimal digits.
pub open spec fn all_hex(s: Seq<char>) -> bool {
    forall|i: int| 0 <= i < s.len() ==> is_hex_char(#[trigger] s[i])
}

/// The bytes that pairs of hexadecimal digits stand for.
pub open spec fn hex_bytes(s: Seq<char>) -> Seq<u8> {
    Seq::new(s.len() / 2, |i: int| (hex_value(s[2 * i]) * 16 + hex_value(s[2 * i + 1])) as u8)
}

/// The text is `n` bytes in hexadecimal, but for white space around it.
pub open spec fn is_hex_of(s: Seq<char>, n: nat) -> bool {
    trimmed(s).len() == 2 * n && all_hex(trimmed(s))
}

/// What is wrong with a text that is not `n` bytes in hexadecimal.
pub open spec fn hex_error(s: Seq<char>, n: nat) -> Seq<char> {
    "expected "@ + dec(2 * n) + " hex characters, got "@ + debug_of(trimmed(s))
}

/// Parse exactly `n` bytes in hexadecimal, with white space around them.
pub fn parse_hex(s: &str, n: usize) -> (r: Result<Vec<u8>, String>)
    requires
        2 * n <= usize::MAX,
    ensures
        match r {
            Ok(v) => is_hex_of(s@, n as nat) && v@ == hex_bytes(trimmed(s@)) && v@.len() == n,
            Err(m) => !is_hex_of(s@, n as nat) && m@ == hex_error(s@, n as nat),
        },
{
    let cs = chars_of(s);
    let t = trim(cs.as_slice());
    let mut m = joined("expected ", dec_text(n as u64 * 2).as_str());
    m.append(" hex characters, got ");
    m.append(debug_text(text_of(t).as_str()).as_str());
    if t.len() != 2 * n {
        return Err(m);
    }
    let mut out: Vec<u8> = Vec::new();
    let mut i: usize = 0;
    while i < n
        invariant
            i <= n,
            2 * n <= usize::MAX,
            t@ == trimmed(s@),
            t@.len() == 2 * n,
            m@ == hex_error(s@, n as nat),
            forall|j: int| 0 <= j < 2 * i ==> is_hex_char(#[trigger] t@[j]),
            out@ == hex_bytes(t@).take(i as int),
        decreases n - i,
    {
        match (hex_digit(t[2 * i]), hex_digit(t[2 * i + 1])) {
            (Some(h), Some(l)) => {
                let ghost before = out@;
                assert(h * 16 + l < 256);
                out.push(h * 16 + l);
                assert(hex_bytes(t@)[i as int] == (h * 16 + l) as u8);
                assert(out@ =~= hex_bytes(t@).take(i + 1));
            },
            _ => {
                assert(!is_hex_char(t@[2 * i]) || !is_hex_char(t@[2 * i + 1]));
                return Err(m);
            },
        }
        i = i + 1;
    }
    assert(hex_bytes(t@).take(n as int) =~= hex_bytes(t@));
    Ok(out)
}

proof fn lemma_hex_text(bytes: Seq<u8>, k: int)
    requires
        0 <= k <= bytes.len(),
    ensures
        hex_of(bytes, k).len() == 2 * k,
        forall|i: int|
            0 <= i < k ==> #[trigger] hex_of(bytes, k)[2 * i] == digit_of(bytes[i] as int / 16),
        forall|i: int|
            0 <= i < k ==> #[trigger] hex_of(bytes, k)[2 * i + 1] == digit_of(bytes[i] as int % 16),
    decreases k,
{
    if k > 0 {
        lemma_hex_text(bytes, k - 1);
        let b = bytes[k - 1];
        let before = hex_of(bytes, k - 1);
        let all = hex_of(bytes, k);
        reveal_with_fuel(fixed_hex, 3);
        let two = fixed_hex(b as nat, 2);
        assert(two =~= seq![digit_of(b as int / 16), digit_of(b as int % 16)]);
        assert(all == before + two);
        assert forall|i: int| 0 <= i < k implies #[trigger] all[2 * i] == digit_of(
            bytes[i] as int / 16,
        ) by {
            if i < k - 1 {
                assert(all[2 * i] == before[2 * i]);
            } else {
                assert(all[2 * i] == two[0]);
            }
        }
        assert forall|i: int| 0 <= i < k implies #[trigger] all[2 * i + 1] == digit_of(
            bytes[i] as int % 16,
        ) by {
            if i < k - 1 {
                assert(all[2 * i + 1] == before[2 * i + 1]);
            } else {
                assert(all[2 * i + 1] == two[1]);
            }
        }
    }
}

proof fn lemma_nothing_to_trim(s: Seq<char>)
    requires
        all_hex(s),
    ensures
        trimmed(s) == s,
{
    if s.len() > 0 {
        assert(is_hex_char(s[0]));
        assert(is_hex_char(s[s.len() - 1]));
        assert(!is_white(s[0]) && !is_white(s.last()));
    }
    assert(trimmed_start(s) == s);
    assert(trimmed_end(s) == s);
}

/// Bytes that are written in hexadecimal are read back.
pub proof fn hex_reads_back(bytes: Seq<u8>)
    ensures
        ({
            let s = hex_of(bytes, bytes.len() as int);
            is_hex_of(s, bytes.len()) && hex_bytes(trimmed(s)) == bytes
        }),
{
    let n = bytes.len() as int;
    let s = hex_of(bytes, n);
    lemma_hex_text(bytes, n);
    assert forall|i: int| 0 <= i < s.len() implies is_hex_char(#[trigger] s[i]) by {
        let h = i / 2;
        if i % 2 == 0 {
            assert(s[2 * h] == digit_of(bytes[h] as int / 16));
        } else {
            assert(s[2 * h + 1] == digit_of(bytes[h] as int % 16));
        }
    }
    lemma_nothing_to_trim(s);
    assert forall|i: int| 0 <= i < n implies #[trigger] hex_bytes(s)[i] == bytes[i] by {
        assert(s[2 * i] == digit_of(bytes[i] as int / 16));
        assert(s[2 * i + 1] == digit_of(bytes[i] as int % 16));
        assert(hex_value(digit_of(bytes[i] as int / 16)) == bytes[i] as int / 16);
        assert(hex_value(digit_of(bytes[i] as int % 16)) == bytes[i] as int % 16);
    }
    assert(hex_bytes(s) =~= bytes);
}

/// The number that hexadecimal digits stand for.
pub open spec fn hex_number(s: Seq<char>) -> int
    decreases s.len(),
{
    if s.len() == 0 {
        0
    } else {
        hex_number(s.drop_last()) * 16 + hex_value(s.last())
    }
}

/// The digits of a title id, behind white space and a plus sign if there is one.
pub open spec fn title_id_digits(s: Seq<char>) -> Seq<char> {
    let t = trimmed(s);
    if t.len() > 0 && t[0] == '+' {
        t.skip(1)
    } else {
        t
    }
}

/// The title id that a text stands for, if it is one.
pub open spec fn title_id_of(s: Seq<char>) -> Option<u64> {
    let ds = title_id_digits(s);
    if ds.len() > 0 && all_hex(ds) && hex_number(ds) <= u64::MAX {
        Some(hex_number(ds) as u64)
    } else {
        None
    }
}

proof fn lemma_hex_number_grows(s: Seq<char>, k: int)
    requires
        0 <= k <= s.len(),
        all_hex(s),
    ensures
        0 <= hex_number(s.take(k)) <= hex_number(s),
    decreases s.len() - k, k,
{
    if k < s.len() {
        lemma_hex_number_grows(s, k + 1);
        assert(s.take(k + 1).drop_last() =~= s.take(k));
        assert(s.take(k + 1).last() == s[k]);
        lemma_hex_number_is_natural(s.take(k));
    } else {
        assert(s.take(k) =~= s);
        lemma_hex_number_is_natural(s);
    }
}

proof fn lemma_hex_number_is_natural(s: Seq<char>)
    requires
        all_hex(s),
    ensures
        0 <= hex_number(s),
    decreases s.len(),
{
    if s.len() > 0 {
        assert(is_hex_char(s[s.len() - 1]));
        assert(all_hex(s.drop_last())) by {
            assert forall|i: int| 0 <= i < s.len() - 1 implies is_hex_char(
                #[trigger] s.drop_last()[i],
            ) by {
                assert(s.drop_last()[i] == s[i]);
            }
        }
        lemma_hex_number_is_natural(s.drop_last());
    }
}

/// Parse a title id in hexadecimal.
pub fn parse_title_id(s: &str) -> (r: Option<u64>)
    ensures
        r == title_id_of(s@),
{
    let cs = chars_of(s);
    let t = trim(cs.as_slice());
    let start: usize = if t.len() > 0 && t[0] == '+' {
        1
    } else {
        0
    };
    let ghost ds = title_id_digits(s@);
    assert(ds =~= t@.skip(start as int));
    if start == t.len() {
        return None;
    }
    let mut v: u64 = 0;
    let mut k = start;
    assert(ds.take(0) =~= Seq::<char>::empty());
    while k < t.len()
        invariant
            start <= k <= t@.len(),
            ds == t@.skip(start as int),
            ds == title_id_digits(s@),
            forall|i: int| 0 <= i < k - start ==> is_hex_char(#[trigger] ds[i]),
            v == hex_number(ds.take(k - start)),
        decreases t@.len() - k,
    {
        assert(t@[k as int] == ds[k - start]);
        let d = match hex_digit(t[k]) {
            Some(d) => d,
            None => {
                assert(!all_hex(ds));
                return None;
            },
        };
        assert(ds.take(k + 1 - start).drop_last() =~= ds.take(k - start));
        assert(ds.take(k + 1 - start).last() == t@[k as int]);
        if v > 0x0FFF_FFFF_FFFF_FFFF {
            proof {
                if all_hex(ds) {
                    lemma_hex_number_grows(ds, k + 1 - start);
                }
            }
            return None;
        }
        v = v * 16 + d as u64;
        k = k + 1;
    }
    assert(ds.take(t@.len() - start) =~= ds);
    Some(v)
}

/// Why a download of the base title cannot be asked for, if it cannot.
pub open spec fn download_error(title_id: Seq<char>, key: Option<Seq<char>>) -> Option<Seq<char>> {
    if title_id_of(title_id) is None {
        Some("invalid --base-title-id "@ + debug_of(title_id))
    } else {
        match key {
            None => Some("--base-title-key is required with --base-title-id"@),
            Some(k) => if is_hex_of(k, 16) {
                None
            } else {
                Some("invalid --base-title-key: "@ + hex_error(k, 16))
            },
        }
    }
}

/// The title id and the encrypted title key of a base title to download.
pub fn base_download(title_id: &str, key: &Option<String>) -> (r: Result<(u64, [u8; 16]), String>)
    ensures
        match r {
            Ok((id, k)) => {
                &&& download_error(title_id@, text_view(*key)) is None
                &&& title_id_of(title_id@) == Some(id)
                &&& k@ == hex_bytes(trimmed(text_view(*key)->0))
            },
            Err(m) => download_error(title_id@, text_view(*key)) == Some(m@),
        },
{
    let id = match parse_title_id(title_id) {
        Some(id) => id,
        None => return Err(joined("invalid --base-title-id ", debug_text(title_id).as_str())),
    };
    let key = match key {
        Some(k) => k,
        None => return Err("--base-title-key is required with --base-title-id".to_owned()),
    };
    match parse_hex(key.as_str(), 16) {
        Ok(v) => Ok((id, key_from(v.as_slice()))),
        Err(m) => Err(joined("invalid --base-title-key: ", m.as_str())),
    }
}

/// The memory cards that are accepted are those of 59, 123, 251, 507 and 1019 blocks, and each has the
/// exponent that its size follows from.
pub proof fn five_card_sizes_are_accepted(s: Seq<char>)
    ensures
        card_blocks(0) == 59 && card_blocks(1) == 123 && card_blocks(2) == 251 && card_blocks(3)
            == 507 && card_blocks(4) == 1019,
        card_exponent(s) matches Some(x) ==> x <= 4 && s == dec(card_blocks(x) as nat),
{
    vstd::arithmetic::power2::lemma2_to64();
    reveal_strlit("59");
    reveal_strlit("123");
    reveal_strlit("251");
    reveal_strlit("507");
    reveal_strlit("1019");
    reveal_with_fuel(crate::text::numeral, 5);
    assert(dec(59) =~= "59"@);
    assert(dec(123) =~= "123"@);
    assert(dec(251) =~= "251"@);
    assert(dec(507) =~= "507"@);
    assert(dec(1019) =~= "1019"@);
}

/// Every video mode and every language has one name, and no other name is accepted.
pub proof fn settings_have_one_name_each(s: Seq<char>)
    ensures
        video_named(s) matches Some(v) ==> s == match v {
            VideoMode::Auto => "auto"@,
            VideoMode::ForceNtsc => "ntsc"@,
            VideoMode::ForcePal50 => "pal50"@,
            VideoMode::ForcePal60 => "pal60"@,
            VideoMode::ForceMpal => "mpal"@,
            VideoMode::ForceProgressive => "progressive"@,
            VideoMode::Off => "none"@,
        },
        video_named(s) is None ==> s != "auto"@ && s != "ntsc"@ && s != "pal50"@ && s != "pal60"@
            && s != "mpal"@ && s != "progressive"@ && s != "none"@,
        language_named(s) matches Some(l) ==> s == match l {
            Language::Auto => "auto"@,
            Language::English => "english"@,
            Language::German => "german"@,
            Language::French => "french"@,
            Language::Spanish => "spanish"@,
            Language::Italian => "italian"@,
            Language::Dutch => "dutch"@,
        },
        language_named(s) is None ==> s != "auto"@ && s != "english"@ && s != "german"@ && s
            != "french"@ && s != "spanish"@ && s != "italian"@ && s != "dutch"@,
{
}

/// Giving a setting a value changes that setting alone: up to four controllers, and a slot of the
/// GamePad among them.
pub proof fn a_flag_sets_one_thing(f: GcFlags, name: Seq<char>, value: Seq<char>)
    ensures
        with_flag(f, name, value) matches Some(g) ==> {
            &&& g.widescreen == f.widescreen && g.no_memcard == f.no_memcard && g.cheats
                == f.cheats
            &&& name == "--gc-video"@ || g.video == f.video
            &&& name == "--gc-language"@ || g.language == f.language
            &&& name == "--gc-memcard-blocks"@ || g.memcard_blocks == f.memcard_blocks
            &&& name == "--gc-max-pads"@ || g.max_pads == f.max_pads
            &&& name == "--gc-gamepad-slot"@ || g.gamepad_slot == f.gamepad_slot
            &&& g.max_pads == f.max_pads || g.max_pads <= 4
            &&& g.gamepad_slot == f.gamepad_slot || g.gamepad_slot <= 3
            &&& g.memcard_blocks == f.memcard_blocks || g.memcard_blocks <= 4
        },
        with_flag(f, name, value) matches Some(g) ==> (name == "--gc-max-pads"@ ==> integer(value)
            == Some(g.max_pads as int)) && (name == "--gc-gamepad-slot"@ ==> integer(value) == Some(
            g.gamepad_slot as int,
        )) && (name == "--gc-video"@ ==> video_named(value) == Some(g.video)) && (name
            == "--gc-language"@ ==> language_named(value) == Some(g.language)) && (name
            == "--gc-memcard-blocks"@ ==> card_exponent(value) == Some(g.memcard_blocks)),
        name == "--gc-max-pads"@ && in_range(value, 4) ==> with_flag(f, name, value) is Some,
        name == "--gc-gamepad-slot"@ && in_range(value, 3) ==> with_flag(f, name, value) is Some,
        name == "--gc-video"@ && video_named(value) is Some ==> with_flag(f, name, value) is Some,
{
    lemma_flag_names();
    lemma_more_flag_names();
}

proof fn lemma_more_flag_names()
    ensures
        ({
            let (v, l, m, p, g) = (
                "--gc-video"@,
                "--gc-language"@,
                "--gc-memcard-blocks"@,
                "--gc-max-pads"@,
                "--gc-gamepad-slot"@,
            );
            &&& v != l && v != m && v != p && v != g
            &&& l != m && l != p && l != g
            &&& m != p && m != g && p != g
        }),
{
    reveal_strlit("--gc-video");
    reveal_strlit("--gc-language");
    reveal_strlit("--gc-memcard-blocks");
    reveal_strlit("--gc-max-pads");
    reveal_strlit("--gc-gamepad-slot");
    assert("--gc-video"@.len() == 10);
    assert("--gc-language"@.len() == 13 && "--gc-language"@[5] == 'l');
    assert("--gc-memcard-blocks"@.len() == 19);
    assert("--gc-max-pads"@.len() == 13 && "--gc-max-pads"@[5] == 'm');
    assert("--gc-gamepad-slot"@.len() == 17);
}

proof fn lemma_hex_number(s: Seq<char>)
    requires
        forall|i: int| 0 <= i < s.len() ==> crate::text::is_digit(#[trigger] s[i], 16),
    ensures
        hex_number(s) == crate::text::number_of(s, 16),
        all_hex(s),
    decreases s.len(),
{
    if s.len() > 0 {
        lemma_hex_number(s.drop_last());
        assert(crate::text::is_digit(s[s.len() - 1], 16));
        assert forall|i: int| 0 <= i < s.len() implies is_hex_char(#[trigger] s[i]) by {
            assert(crate::text::is_digit(s[i], 16));
        }
    }
}

/// A title id that is written in sixteen hexadecimal digits is read back.
pub proof fn title_ids_read_back(id: u64)
    ensures
        title_id_of(crate::text::fixed_hex(id as nat, 16)) == Some(id),
{
    let s = crate::text::fixed_hex(id as nat, 16);
    crate::text::fixed_hex_reads_back(id as nat, 16);
    assert(vstd::arithmetic::power::pow(16, 16) == 0x1_0000_0000_0000_0000) by {
        reveal_with_fuel(vstd::arithmetic::power::pow, 17);
    }
    lemma_hex_number(s);
    assert(crate::text::is_digit(s[0], 16) && crate::text::is_digit(s[15], 16));
    assert(trimmed_start(s) == s);
    assert(trimmed_end(s) == s);
}

proof fn lemma_dec_value(s: Seq<char>)
    requires
        forall|i: int| 0 <= i < s.len() ==> crate::text::is_digit(#[trigger] s[i], 10),
    ensures
        dec_value(s) == crate::text::number_of(s, 10),
    decreases s.len(),
{
    if s.len() > 0 {
        lemma_dec_value(s.drop_last());
        assert(crate::text::is_digit(s[s.len() - 1], 10));
    }
}

/// A number that is written in decimal is read back, with or without a sign, and is in range exactly
/// where it is no more than the greatest.
pub proof fn numbers_read_back(n: nat, max: u32)
    ensures
        integer(dec(n)) == Some(n as int),
        integer(seq!['+'] + dec(n)) == Some(n as int),
        integer(seq!['-'] + dec(n)) == Some(-(n as int)),
        in_range(dec(n), max) <==> n <= max,
{
    let s = dec(n);
    crate::text::numeral_reads_back(n, 10);
    lemma_dec_value(s);
    assert forall|i: int| 0 <= i < s.len() implies is_dec_char(#[trigger] s[i]) by {
        assert(crate::text::is_digit(s[i], 10));
    }
    assert(crate::text::is_digit(s[0], 10));
    assert((seq!['+'] + s).skip(1) =~= s);
    assert((seq!['-'] + s).skip(1) =~= s);
}

} // verus!

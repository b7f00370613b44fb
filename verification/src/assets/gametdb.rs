//! Game titles from GameTDB's flat `wiitdb.txt`.

use crate::text::{
    chars_of, eq_ignore_ascii_case, find, find_from, is_alphanumeric, is_ascii_alphanumeric,
    joined, lowered, pieces_from, same_ignoring_case, text_of, text_view, to_ascii_lower, trim,
    trimmed,
};
use vstd::prelude::*;
use vstd::slice::slice_subrange;

verus! {

/// Where the database is downloaded from.
pub const WIITDB_URL: &'static str = "https://www.gametdb.com/wiitdb.txt?LANG=EN";

/// The name of the cached database.
pub const CACHE_FILE_NAME: &'static str = "wiitdb-en.txt";

/// How long a cached database is trusted, in nanoseconds: seven days.
pub const CACHE_TTL: i128 = 604_800_000_000_000;

/// What a line says: key and value around the first `=`. Blank lines, comments and lines without
/// `=` say nothing.
pub open spec fn line_entry(line: Seq<char>) -> Option<(Seq<char>, Seq<char>)> {
    let t = trimmed(line);
    let eq = find_from(t, '=', 0);
    if t.len() == 0 || t[0] == '#' || eq >= t.len() {
        None
    } else {
        Some((trimmed(t.take(eq)), trimmed(t.skip(eq + 1))))
    }
}

/// The value of the first line whose key is `id`, up to case.
pub open spec fn title_in(lines: Seq<Seq<char>>, id: Seq<char>) -> Option<Seq<char>>
    decreases lines.len(),
{
    if lines.len() == 0 {
        None
    } else {
        match line_entry(lines[0]) {
            Some((key, value)) if same_ignoring_case(key, id) => Some(value),
            _ => title_in(lines.skip(1), id),
        }
    }
}

/// A line whose key is a six-character game id.
pub open spec fn is_id_line(line: Seq<char>) -> bool {
    line_entry(line) matches Some((key, _)) && key.len() == 6 && forall|i: int|
        0 <= i < key.len() ==> is_alphanumeric(#[trigger] key[i])
}

/// Some line has a game id for its key.
pub open spec fn some_id_line(lines: Seq<Seq<char>>) -> bool
    decreases lines.len(),
{
    lines.len() > 0 && (is_id_line(lines[0]) || some_id_line(lines.skip(1)))
}

/// `part` stands somewhere in `s`.
pub open spec fn contains_text(s: Seq<char>, part: Seq<char>) -> bool {
    exists|i: int|
        0 <= i <= s.len() - part.len() && #[trigger] s.subrange(i, i + part.len()) == part
}

/// The beginning of a text, in lower case.
pub open spec fn head_of(text: Seq<char>) -> Seq<char> {
    lowered(
        text.take(
            if text.len() < 512 {
                text.len() as int
            } else {
                512
            },
        ),
    )
}

/// A text that has entries and does not begin as an HTML page does.
pub open spec fn is_wiitdb(text: Seq<char>) -> bool {
    &&& trimmed(text).len() > 0
    &&& !contains_text(head_of(text), "<!doctype"@)
    &&& !contains_text(head_of(text), "<html"@)
    &&& some_id_line(pieces_from(text, '\n', 0))
}

/// Key and value of a line.
fn parse_line(line: &[char]) -> (r: Option<(Vec<char>, Vec<char>)>)
    ensures
        match r {
            Some((k, v)) => line_entry(line@) == Some((k@, v@)),
            None => line_entry(line@) is None,
        },
{
    let t = trim(line);
    if t.len() == 0 || t[0] == '#' {
        return None;
    }
    let eq = find(t, '=', 0);
    if eq >= t.len() {
        return None;
    }
    let left = slice_subrange(t, 0, eq);
    let right = slice_subrange(t, eq + 1, t.len());
    assert(left@ =~= t@.take(eq as int));
    assert(right@ =~= t@.skip(eq + 1));
    Some((vstd::slice::slice_to_vec(trim(left)), vstd::slice::slice_to_vec(trim(right))))
}

/// The title of game `id` in the database, matched up to case. Lines of another shape are skipped.
pub fn parse_wiitdb(text: &str, id: &str) -> (r: Option<String>)
    ensures
        match r {
            Some(t) => title_in(pieces_from(text@, '\n', 0), id@) == Some(t@),
            None => title_in(pieces_from(text@, '\n', 0), id@) is None,
        },
{
    let cs = chars_of(text);
    let idc = chars_of(id);
    let s = cs.as_slice();
    let n = s.len();
    let mut pos: usize = 0;
    loop
        invariant
            n == s@.len(),
            s@ == text@,
            idc@ == id@,
            pos <= n,
            title_in(pieces_from(text@, '\n', 0), id@) == title_in(pieces_from(text@, '\n', pos as int), id@),
        decreases n - pos,
    {
        let end = find(s, '\n', pos);
        let line = slice_subrange(s, pos, end);
        let ghost rest = pieces_from(text@, '\n', pos as int);
        proof {
            assert(rest[0] == line@);
            assert(rest.skip(1) =~= pieces_from(text@, '\n', end + 1));
        }
        if let Some((key, value)) = parse_line(line) {
            if eq_ignore_ascii_case(key.as_slice(), idc.as_slice()) {
                return Some(text_of(value.as_slice()));
            }
        }
        if end >= n {
            assert(title_in(rest.skip(1), id@) is None);
            return None;
        }
        pos = end + 1;
    }
}

fn is_game_id(key: &[char]) -> (r: bool)
    ensures
        r == (key@.len() == 6 && forall|i: int|
            0 <= i < key@.len() ==> is_alphanumeric(#[trigger] key@[i])),
{
    if key.len() != 6 {
        return false;
    }
    let mut i: usize = 0;
    while i < key.len()
        invariant
            i <= key@.len(),
            forall|j: int| 0 <= j < i ==> is_alphanumeric(#[trigger] key@[j]),
        decreases key@.len() - i,
    {
        if !is_ascii_alphanumeric(key[i]) {
            assert(!is_alphanumeric(key@[i as int]));
            return false;
        }
        i = i + 1;
    }
    true
}

fn has_id_line(s: &[char]) -> (r: bool)
    ensures
        r == some_id_line(pieces_from(s@, '\n', 0)),
{
    let n = s.len();
    let mut pos: usize = 0;
    loop
        invariant
            n == s@.len(),
            pos <= n,
            some_id_line(pieces_from(s@, '\n', 0)) == some_id_line(pieces_from(s@, '\n', pos as int)),
        decreases n - pos,
    {
        let end = find(s, '\n', pos);
        let line = slice_subrange(s, pos, end);
        let ghost rest = pieces_from(s@, '\n', pos as int);
        proof {
            assert(rest[0] == line@);
            assert(rest.skip(1) =~= pieces_from(s@, '\n', end + 1));
        }
        if let Some((key, _)) = parse_line(line) {
            if is_game_id(key.as_slice()) {
                return true;
            }
        }
        if end >= n {
            assert(!some_id_line(rest.skip(1)));
            return false;
        }
        pos = end + 1;
    }
}

fn holds_text(s: &[char], part: &str) -> (r: bool)
    ensures
        r == contains_text(s@, part@),
{
    let pc = chars_of(part);
    if pc.len() > s.len() {
        return false;
    }
    let last = s.len() - pc.len();
    let mut i: usize = 0;
    while i <= last
        invariant
            pc@ == part@,
            pc@.len() <= s@.len(),
            last == s@.len() - pc@.len(),
            i <= last + 1,
            last < usize::MAX || i <= last,
            forall|j: int| 0 <= j < i ==> #[trigger] s@.subrange(j, j + pc@.len()) != pc@,
        decreases last + 1 - i,
    {
        if crate::text::stands_at(s, pc.as_slice(), i) {
            return true;
        }
        if i == last {
            assert forall|j: int| 0 <= j <= s@.len() - pc@.len() implies #[trigger] s@.subrange(
                j,
                j + pc@.len(),
            ) != pc@ by {}
            return false;
        }
        i = i + 1;
    }
    false
}

/// Whether a text looks like the database rather than an error page or a partial write.
pub fn looks_like_wiitdb(text: &str) -> (r: bool)
    ensures
        r == is_wiitdb(text@),
{
    let cs = chars_of(text);
    let s = cs.as_slice();
    if trim(s).len() == 0 {
        return false;
    }
    let mut head: Vec<char> = Vec::new();
    let ghost full = head_of(text@);
    let limit: usize = if s.len() < 512 {
        s.len()
    } else {
        512
    };
    while head.len() < limit
        invariant
            s@ == text@,
            limit <= s@.len(),
            full == head_of(text@),
            full.len() == limit,
            head@.len() <= limit,
            head@ == full.take(head@.len() as int),
        decreases limit - head@.len(),
    {
        let i = head.len();
        head.push(to_ascii_lower(s[i]));
        assert(head@ =~= full.take(i + 1));
    }
    assert(head@ =~= full);
    if holds_text(head.as_slice(), "<!doctype") || holds_text(head.as_slice(), "<html") {
        return false;
    }
    has_id_line(s)
}

/// Whether a file that was last modified at `modified` is fresh at `now`, all in nanoseconds. One
/// that was modified in the future is.
pub fn cache_is_fresh(modified: i128, now: i128, ttl: i128) -> (r: bool)
    ensures
        r == (modified > now || now - modified < ttl),
{
    if modified > now {
        return true;
    }
    match now.checked_sub(modified) {
        Some(age) => age < ttl,
        None => false,
    }
}

/// A character that stays in the name of the cache directory; any other becomes `_`.
pub open spec fn dir_char(c: char) -> char {
    if is_alphanumeric(c) || c == '-' || c == '_' {
        c
    } else {
        '_'
    }
}

/// The user whose cache it is: `USER`, else `USERNAME`, else `shared`.
pub open spec fn cache_user(user: Option<Seq<char>>, username: Option<Seq<char>>) -> Seq<char> {
    match user {
        Some(u) => u,
        None => match username {
            Some(u) => u,
            None => "shared"@,
        },
    }
}

/// The name of the user's cache directory, from the variables `USER` and `USERNAME`.
pub fn cache_dir_name(user: Option<String>, username: Option<String>) -> (r: String)
    ensures
        r@ == "wiivci-"@ + cache_user(text_view(user), text_view(username)).map_values(
            |c: char| dir_char(c),
        ),
{
    let name = match user {
        Some(u) => u,
        None => match username {
            Some(u) => u,
            None => "shared".to_owned(),
        },
    };
    let cs = chars_of(name.as_str());
    let ghost clean = name@.map_values(|c: char| dir_char(c));
    let mut r = String::new();
    let mut i: usize = 0;
    while i < cs.len()
        invariant
            cs@ == name@,
            i <= cs@.len(),
            clean == name@.map_values(|c: char| dir_char(c)),
            r@ == clean.take(i as int),
        decreases cs@.len() - i,
    {
        let c = cs[i];
        if is_ascii_alphanumeric(c) || c == '-' || c == '_' {
            r.push(c);
        } else {
            r.push('_');
        }
        i = i + 1;
        assert(r@ =~= clean.take(i as int));
    }
    assert(r@ =~= clean);
    joined("wiivci-", r.as_str())
}

/// The name of the cache directory is one path component, whatever the user is called.
pub proof fn cache_dir_name_is_one_component(user: Seq<char>, i: int)
    requires
        0 <= i < user.len(),
    ensures
        dir_char(user[i]) != '/',
        dir_char(user[i]) != '.',
        dir_char(user[i]) != '\\',
{
}

/// What to do about the cached database.
#[derive(Debug)]
pub enum CacheState {
    /// Use it.
    Fresh(String),
    /// Download a new one, falling back to this if that fails.
    Stale(String),
    /// Remove it and download a new one.
    Invalid,
    /// Download one.
    Missing,
}

/// Judge the cached database: its text, if it could be read, and when it was modified, if that is
/// known. One of unknown age counts as fresh.
pub fn judge_cache(cached: Option<String>, modified: Option<i128>, now: i128) -> (r: CacheState)
    ensures
        match cached {
            None => r is Missing,
            Some(text) => if !is_wiitdb(text@) {
                r is Invalid
            } else if modified matches Some(m) && !(m > now || now - m < CACHE_TTL) {
                r matches CacheState::Stale(t) && t@ == text@
            } else {
                r matches CacheState::Fresh(t) && t@ == text@
            },
        },
{
    match cached {
        None => CacheState::Missing,
        Some(text) => {
            if !looks_like_wiitdb(text.as_str()) {
                return CacheState::Invalid;
            }
            let fresh = match modified {
                Some(m) => cache_is_fresh(m, now, CACHE_TTL),
                None => true,
            };
            if fresh {
                CacheState::Fresh(text)
            } else {
                CacheState::Stale(text)
            }
        },
    }
}

/// The text to use after a download: the downloaded one, if it is the database, which is then to be
/// cached; else the stale one, if there is one.
pub fn fetch_wiitdb_text(downloaded: Option<String>, stale: Option<String>) -> (r: (
    Option<String>,
    bool,
))
    ensures
        match downloaded {
            Some(text) if is_wiitdb(text@) => text_view(r.0) == Some(text@) && r.1,
            _ => text_view(r.0) == text_view(stale) && !r.1,
        },
{
    if let Some(text) = downloaded {
        if looks_like_wiitdb(text.as_str()) {
            return (Some(text), true);
        }
    }
    (stale, false)
}

/// The title of a game in the database, if there is a database and it has the game.
pub fn lookup_title_opt(text: Option<String>, game_id6: &str) -> (r: Option<String>)
    ensures
        text_view(r) == match text {
            None => None,
            Some(t) => title_in(pieces_from(t@, '\n', 0), game_id6@),
        },
{
    match text {
        None => None,
        Some(t) => parse_wiitdb(t.as_str(), game_id6),
    }
}

/// [`lookup_title_opt`] as a result that is never an error.
pub fn lookup_title(text: Option<String>, game_id6: &str) -> (r: Result<
    Option<String>,
    crate::error::Error,
>)
    ensures
        r matches Ok(t) && text_view(t) == match text {
            None => None,
            Some(s) => title_in(pieces_from(s@, '\n', 0), game_id6@),
        },
{
    Ok(lookup_title_opt(text, game_id6))
}

/// The line is the entry of game `id`.
pub open spec fn is_entry_of(line: Seq<char>, id: Seq<char>) -> bool {
    line_entry(line) matches Some((key, _)) && same_ignoring_case(key, id)
}

/// The title found is that of the first line that is the game's entry; there is none where no line
/// is.
pub proof fn title_comes_from_the_first_entry(lines: Seq<Seq<char>>, id: Seq<char>)
    ensures
        match title_in(lines, id) {
            Some(title) => exists|i: int|
                {
                    &&& 0 <= i < lines.len()
                    &&& #[trigger] is_entry_of(lines[i], id)
                    &&& line_entry(lines[i]) matches Some((_, v)) && v == title
                    &&& forall|j: int| 0 <= j < i ==> !is_entry_of(#[trigger] lines[j], id)
                },
            None => forall|j: int| 0 <= j < lines.len() ==> !is_entry_of(#[trigger] lines[j], id),
        },
    decreases lines.len(),
{
    if lines.len() > 0 {
        let rest = lines.skip(1);
        title_comes_from_the_first_entry(rest, id);
        if is_entry_of(lines[0], id) {
            assert(0 <= 0 < lines.len());
        } else {
            match title_in(rest, id) {
                Some(title) => {
                    let i = choose|i: int|
                        {
                            &&& 0 <= i < rest.len()
                            &&& #[trigger] is_entry_of(rest[i], id)
                            &&& line_entry(rest[i]) matches Some((_, v)) && v == title
                            &&& forall|j: int|
                                0 <= j < i ==> !is_entry_of(#[trigger] rest[j], id)
                        };
                    assert(lines[i + 1] == rest[i]);
                    assert(is_entry_of(lines[i + 1], id));
                    assert forall|j: int| 0 <= j < i + 1 implies !is_entry_of(
                        #[trigger] lines[j],
                        id,
                    ) by {
                        if j > 0 {
                            assert(lines[j] == rest[j - 1]);
                        }
                    }
                },
                None => {
                    assert forall|j: int| 0 <= j < lines.len() implies !is_entry_of(
                        #[trigger] lines[j],
                        id,
                    ) by {
                        if j > 0 {
                            assert(lines[j] == rest[j - 1]);
                        }
                    }
                },
            }
        }
    }
}

/// A line that is no entry, wherever it stands, hides no other.
pub proof fn garbage_lines_hide_nothing(
    before: Seq<Seq<char>>,
    garbage: Seq<char>,
    after: Seq<Seq<char>>,
    id: Seq<char>,
)
    requires
        line_entry(garbage) is None,
    ensures
        title_in(before + seq![garbage] + after, id) == title_in(before + after, id),
    decreases before.len(),
{
    let all = before + seq![garbage] + after;
    let less = before + after;
    if before.len() > 0 {
        garbage_lines_hide_nothing(before.skip(1), garbage, after, id);
        assert(all.skip(1) =~= before.skip(1) + seq![garbage] + after);
        assert(less.skip(1) =~= before.skip(1) + after);
        assert(all[0] == before[0] && less[0] == before[0]);
    } else {
        assert(all.skip(1) =~= less);
        assert(all[0] == garbage);
    }
}

/// The case of the game id does not matter.
pub proof fn case_of_the_id_does_not_matter(lines: Seq<Seq<char>>, a: Seq<char>, b: Seq<char>)
    requires
        same_ignoring_case(a, b),
    ensures
        title_in(lines, a) == title_in(lines, b),
    decreases lines.len(),
{
    if lines.len() > 0 {
        case_of_the_id_does_not_matter(lines.skip(1), a, b);
    }
}

/// A line that has a key, an equals sign and a value, and no white space at its ends, says the key and
/// the value, up to the white space around each. The first equals sign ends the key. A line that
/// begins with a number sign says nothing.
pub proof fn a_line_says_key_and_value(key: Seq<char>, value: Seq<char>)
    requires
        key.len() > 0,
        !key.contains('='),
        !crate::text::is_white(key[0]),
        value.len() > 0 ==> !crate::text::is_white(value.last()),
    ensures
        line_entry(key.push('=') + value) == if key[0] == '#' {
            None
        } else {
            Some((trimmed(key), trimmed(value)))
        },
{
    let line = key.push('=') + value;
    assert(line[0] == key[0]);
    assert(!crate::text::is_white('='));
    assert(line.last() == if value.len() > 0 {
        value.last()
    } else {
        '='
    });
    assert(trimmed(line) == line);
    lemma_find_separator(key, value, 0);
    assert(line.take(key.len() as int) =~= key);
    assert(line.skip(key.len() as int + 1) =~= value);
}

proof fn lemma_find_separator(key: Seq<char>, value: Seq<char>, from: int)
    requires
        0 <= from <= key.len(),
        !key.contains('='),
    ensures
        find_from(key.push('=') + value, '=', from) == key.len(),
    decreases key.len() - from,
{
    let line = key.push('=') + value;
    if from < key.len() {
        assert(line[from] == key[from]);
        lemma_find_separator(key, value, from + 1);
    } else {
        assert(line[from] == '=');
    }
}

/// The database is downloaded in English, kept in one file, and trusted for seven days.
pub proof fn the_database_is_kept_for_a_week()
    ensures
        WIITDB_URL@ == "https://www.gametdb.com/wiitdb.txt?LANG=EN"@,
        CACHE_FILE_NAME@ == "wiitdb-en.txt"@,
        CACHE_TTL == 7 * 24 * 60 * 60 * 1_000_000_000,
{
}

/// A web page is not taken for the database: a text that names a document type or opens an HTML
/// element, in either case, within its first 512 characters.
pub proof fn a_web_page_is_no_database(text: Seq<char>, i: int)
    requires
        0 <= i,
        i + 5 <= text.len(),
        i + 5 <= 512,
        lowered(text.subrange(i, i + 5)) == "<html"@ || (i + 9 <= text.len() && i + 9 <= 512
            && lowered(text.subrange(i, i + 9)) == "<!doctype"@),
    ensures
        !is_wiitdb(text),
{
    reveal_strlit("<html");
    reveal_strlit("<!doctype");
    let head = head_of(text);
    if lowered(text.subrange(i, i + 5)) == "<html"@ {
        assert(head.subrange(i, i + 5) =~= lowered(text.subrange(i, i + 5)));
        assert(contains_text(head, "<html"@));
    } else {
        assert(head.subrange(i, i + 9) =~= lowered(text.subrange(i, i + 9)));
        assert(contains_text(head, "<!doctype"@));
    }
}

/// A game id is six letters or digits.
pub proof fn game_ids_have_six_characters(line: Seq<char>)
    ensures
        is_id_line(line) ==> (line_entry(line) matches Some((key, _)) && key.len() == 6),
        line_entry(line) matches Some((key, _)) ==> key.len() == 6 && (forall|i: int|
            0 <= i < 6 ==> 'a' <= #[trigger] key[i] <= 'z' || 'A' <= key[i] <= 'Z' || '0' <= key[i]
                <= '9') ==> is_id_line(line),
{
}

/// The name of the cache directory keeps ASCII letters, digits, `-` and `_` of the user's name and
/// has `_` for everything else; `USER` goes before `USERNAME`, and without either it is `shared`.
pub proof fn the_cache_is_named_for_the_user(c: char, user: Seq<char>, username: Seq<char>)
    ensures
        dir_char(c) == if 'a' <= c <= 'z' || 'A' <= c <= 'Z' || '0' <= c <= '9' || c == '-' {
            c
        } else {
            '_'
        },
        cache_user(Some(user), Some(username)) == user,
        cache_user(Some(user), None) == user,
        cache_user(None, Some(username)) == username,
        cache_user(None, None) == "shared"@,
{
}

} // verus!

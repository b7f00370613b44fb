//! The Wii U base title that an injection is built on.
//!
//! The base supplies the framework binaries. Its `code/`, `content/` and `meta/` are staged into a
//! build directory, without its own game data, which the injected game replaces.

use crate::bytes::key_from;
use crate::error::{Error, ErrorView};
use crate::package::content::listing::{hif_name, is_hif, Entry};
use crate::paths::{join_path, names_a_drive, path_in, path_in_nests, slashed, to_slashes, Host};
use crate::text::{
    begins_with, char_views, chars_of, debug_of, debug_text, dec, dec_text, ends_in,
    eq_ignore_ascii_case, joined, pieces, pieces_from, pieces_of_joined, same_bytes,
    same_ignoring_case, same_text, texts,
};
use vstd::prelude::*;

verus! {

/// A base title staged into a build directory.
#[derive(Debug)]
pub struct StagedBase {
    /// The NFS key from `code/htk.bin`.
    pub htk: [u8; 16],
    /// The build directory.
    pub build_dir: String,
    /// The staged `code/`.
    pub code_dir: String,
    /// The staged `content/`.
    pub content_dir: String,
    /// The staged `meta/`.
    pub meta_dir: String,
}

/// A provider of base-title content.
pub trait BaseSource {
    /// Stage `code/`, `content/` and `meta/` into `build_dir`, without the base's own game data.
    fn stage(&mut self, build_dir: &str) -> (r: Result<StagedBase, Error>);

    /// Provide the base's own game data somewhere, with its key beside it, and say where; `None`
    /// where the base has none.
    fn materialize_original_nfs(&mut self, dest: &str) -> (r: Result<Option<String>, Error>);
}

/// Whether this is the name of a file of the base's own game data.
pub fn is_base_game_nfs(name: &str) -> (r: bool)
    ensures
        r == hif_name(name@),
{
    is_hif(name)
}

/// A component that leads elsewhere than below: `.` or `..`.
pub open spec fn is_dots(part: Seq<char>) -> bool {
    part == seq!['.'] || part == seq!['.', '.']
}

/// A relative path that stays below the directory it is joined to: it is not empty, not absolute,
/// and none of its components is `.` or `..`.
pub open spec fn stays_below(rel: Seq<char>) -> bool {
    let parts = pieces_from(rel, '/', 0);
    &&& rel.len() > 0
    &&& parts[0].len() > 0
    &&& forall|i: int| 0 <= i < parts.len() ==> !is_dots(#[trigger] parts[i])
}

/// Why a name is not joined on a host, if it is not.
pub open spec fn join_error(rel: Seq<char>, host: Host) -> Option<ErrorView> {
    if rel.len() == 0 {
        Some(ErrorView::InvalidTitle("refusing to join an empty path entry"@))
    } else if names_a_drive(rel, host) || !stays_below(slashed(rel, host)) {
        Some(
            ErrorView::InvalidTitle("refusing to join unsafe path entry "@ + debug_of(rel)),
        )
    } else {
        None
    }
}

fn is_dot_part(part: &Vec<char>) -> (r: bool)
    ensures
        r == is_dots(part@),
{
    let n = part.len();
    let r = (n == 1 && part[0] == '.') || (n == 2 && part[0] == '.' && part[1] == '.');
    proof {
        if n == 1 && part@[0] == '.' {
            assert(part@ =~= seq!['.']);
        }
        if n == 2 && part@[0] == '.' && part@[1] == '.' {
            assert(part@ =~= seq!['.', '.']);
        }
        if is_dots(part@) {
            assert(part@.len() > 0 && part@[0] == '.' && part@[part@.len() - 1] == '.');
        }
    }
    r
}

fn is_below(rel: &[char]) -> (r: bool)
    requires
        rel@.len() > 0,
    ensures
        r == stays_below(rel@),
{
    let parts = pieces(rel, '/');
    let ghost pv = char_views(parts@);
    assert(pv[0] == parts@[0]@);
    if parts[0].len() == 0 {
        return false;
    }
    let mut i: usize = 0;
    while i < parts.len()
        invariant
            i <= parts@.len(),
            pv == char_views(parts@),
            pv == pieces_from(rel@, '/', 0),
            rel@.len() > 0,
            pv[0].len() > 0,
            forall|j: int| 0 <= j < i ==> !is_dots(#[trigger] pv[j]),
        decreases parts@.len() - i,
    {
        assert(pv[i as int] == parts@[i as int]@);
        if is_dot_part(&parts[i]) {
            return false;
        }
        i = i + 1;
    }
    true
}

/// Join a name that comes from a title or an archive to a directory. A name that could lead out of
/// the directory on this host is refused.
pub fn safe_join(base: &str, rel: &str, host: Host) -> (r: Result<String, Error>)
    ensures
        match r {
            Ok(p) => join_error(rel@, host) is None && p@ == path_in(base@, slashed(rel@, host)),
            Err(e) => join_error(rel@, host) == Some(e@),
        },
{
    let cs = chars_of(rel);
    if cs.len() == 0 {
        return Err(Error::InvalidTitle("refusing to join an empty path entry".to_owned()));
    }
    let rel_path = to_slashes(rel, host);
    let parts = chars_of(rel_path.as_str());
    if has_drive(cs.as_slice(), host) || !is_below(parts.as_slice()) {
        return Err(
            Error::InvalidTitle(
                joined("refusing to join unsafe path entry ", debug_text(rel).as_str()),
            ),
        );
    }
    Ok(join_path(base, rel_path.as_str()))
}

fn has_drive(path: &[char], host: Host) -> (r: bool)
    ensures
        r == names_a_drive(path@, host),
{
    host == Host::Windows && path.len() >= 2 && (('a' <= path[0] && path[0] <= 'z') || ('A'
        <= path[0] && path[0] <= 'Z')) && path[1] == ':'
}

/// A joined path is the directory with a path behind it that is not absolute and has no `.` and no
/// `..` in it.
pub proof fn joined_paths_stay_below(base: Seq<char>, rel: Seq<char>, host: Host)
    requires
        join_error(rel, host) is None,
    ensures
        ({
            let below = slashed(rel, host);
            let parts = pieces_from(below, '/', 0);
            let p = path_in(base, below);
            &&& p == path_in(base, Seq::empty()) + below
            &&& p.len() > base.len()
            &&& p.take(base.len() as int) == base
            &&& below[0] != '/'
            &&& forall|i: int| 0 <= i < parts.len() ==> !is_dots(#[trigger] parts[i])
        }),
{
    let below = slashed(rel, host);
    assert(path_in(base, below) =~= path_in(base, Seq::empty()) + below);
    assert(path_in(base, below).take(base.len() as int) =~= base);
    crate::text::find_from_is_within(below, '/', 0);
    if below[0] == '/' {
        assert(pieces_from(below, '/', 0)[0].len() == 0);
    }
}

/// The files that a base title must have in `code/`.
pub open spec fn required_names() -> Seq<Seq<char>> {
    seq![
        "cos.xml"@,
        "frisbiiU.rpx"@,
        "fw.img"@,
        "fw.tmd"@,
        "htk.bin"@,
        "nn_hai_user.rpl"@,
    ]
}

/// The files that a base title must have in `code/`.
pub fn required_code_files() -> (r: Vec<&'static str>)
    ensures
        Seq::new(r@.len(), |i: int| r@[i]@) == required_names(),
{
    let r = vec!["cos.xml", "frisbiiU.rpx", "fw.img", "fw.tmd", "htk.bin", "nn_hai_user.rpl"];
    assert(Seq::new(r@.len(), |i: int| r@[i]@) =~= required_names());
    r
}

/// The first of the first `k` required files that is not there.
pub open spec fn first_missing(present: Seq<Seq<char>>, k: int) -> Option<Seq<char>>
    decreases k,
{
    if k <= 0 {
        None
    } else if first_missing(present, k - 1) is Some {
        first_missing(present, k - 1)
    } else if !present.contains(required_names()[k - 1]) {
        Some(required_names()[k - 1])
    } else {
        None
    }
}

fn holds(names: &Vec<String>, name: &str) -> (r: bool)
    ensures
        r == texts(names@).contains(name@),
{
    let mut i: usize = 0;
    while i < names.len()
        invariant
            i <= names@.len(),
            forall|j: int| 0 <= j < i ==> #[trigger] texts(names@)[j] != name@,
        decreases names@.len() - i,
    {
        if same_text(names[i].as_str(), name) {
            assert(texts(names@)[i as int] == name@);
            return true;
        }
        i = i + 1;
    }
    false
}

proof fn lemma_missing_stays(present: Seq<Seq<char>>, k: int, n: int)
    requires
        0 <= k <= n,
        first_missing(present, k) is Some,
    ensures
        first_missing(present, n) == first_missing(present, k),
    decreases n,
{
    if k < n {
        lemma_missing_stays(present, k, n - 1);
    }
}

/// Check that the staged `code/` holds the required files; `names` are those that it holds.
pub fn check_code_files(build_dir: &str, names: &Vec<String>) -> (r: Result<(), Error>)
    ensures
        match r {
            Ok(_) => first_missing(texts(names@), 6) is None,
            Err(e) => first_missing(texts(names@), 6) matches Some(n) && e@
                == ErrorView::MissingFile(path_in(path_in(build_dir@, "code"@), n)),
        },
{
    let required = required_code_files();
    let ghost rv = Seq::new(required@.len(), |i: int| required@[i]@);
    assert(rv.len() == required_names().len());
    let mut k: usize = 0;
    while k < required.len()
        invariant
            k <= required@.len(),
            required@.len() == 6,
            rv == required_names(),
            rv == Seq::new(required@.len(), |i: int| required@[i]@),
            first_missing(texts(names@), k as int) is None,
        decreases required@.len() - k,
    {
        assert(rv[k as int] == required@[k as int]@);
        if !holds(names, required[k]) {
            proof {
                lemma_missing_stays(texts(names@), k + 1, 6);
            }
            let dir = join_path(build_dir, "code");
            return Err(Error::MissingFile(join_path(dir.as_str(), required[k])));
        }
        k = k + 1;
    }
    Ok(())
}

/// The staged base, given the bytes of its `htk.bin`.
pub fn finalize_stage(build_dir: &str, htk_bytes: &[u8]) -> (r: Result<StagedBase, Error>)
    ensures
        match r {
            Ok(s) => {
                &&& htk_bytes@.len() == 16
                &&& s.htk@ == htk_bytes@
                &&& s.build_dir@ == build_dir@
                &&& s.code_dir@ == path_in(build_dir@, "code"@)
                &&& s.content_dir@ == path_in(build_dir@, "content"@)
                &&& s.meta_dir@ == path_in(build_dir@, "meta"@)
            },
            Err(e) => htk_bytes@.len() != 16 && e@ == (ErrorView::InvalidKey {
                name: "htk.bin"@,
                reason: "expected 16 bytes, got "@ + dec(htk_bytes@.len()),
            }),
        },
{
    if htk_bytes.len() != 16 {
        return Err(
            Error::InvalidKey {
                name: "htk.bin".to_owned(),
                reason: joined(
                    "expected 16 bytes, got ",
                    dec_text(htk_bytes.len() as u64).as_str(),
                ),
            },
        );
    }
    let htk = key_from(htk_bytes);
    Ok(
        StagedBase {
            htk,
            build_dir: build_dir.to_owned(),
            code_dir: join_path(build_dir, "code"),
            content_dir: join_path(build_dir, "content"),
            meta_dir: join_path(build_dir, "meta"),
        },
    )
}

/// A directory of the title that is staged.
pub open spec fn is_staged_dir(name: Seq<char>) -> bool {
    name == "code"@ || name == "content"@ || name == "meta"@
}

/// Whether a directory of the title is staged; anything else beside them is left behind.
pub fn is_stage_subdir(name: &str) -> (r: bool)
    ensures
        r == is_staged_dir(name@),
{
    same_text(name, "code") || same_text(name, "content") || same_text(name, "meta")
}

/// One step of copying a tree.
#[derive(Debug)]
pub enum CopyStep {
    /// Make this directory.
    MakeDir(String),
    /// Copy the first file to the second.
    CopyFile(String, String),
}

/// The value of a [`CopyStep`].
pub enum CopyView {
    MakeDir(Seq<char>),
    CopyFile(Seq<char>, Seq<char>),
}

impl View for CopyStep {
    type V = CopyView;

    open spec fn view(&self) -> CopyView {
        match *self {
            CopyStep::MakeDir(d) => CopyView::MakeDir(d@),
            CopyStep::CopyFile(a, b) => CopyView::CopyFile(a@, b@),
        }
    }
}

/// The values of a list of steps.
pub open spec fn step_views(v: Seq<CopyStep>) -> Seq<CopyView> {
    Seq::new(v.len(), |i: int| v[i]@)
}

/// The steps of a copy, up to its end or to the first name that is refused.
pub struct Copying {
    pub steps: Seq<CopyView>,
    pub refused: Option<ErrorView>,
}

/// Copying the first `k` entries of `src` to `dest`, without the base's own game data.
pub open spec fn copying(
    src: Seq<char>,
    dest: Seq<char>,
    entries: Seq<Entry>,
    host: Host,
    k: int,
) -> Copying
    decreases entries, k,
{
    if k <= 0 || k > entries.len() {
        Copying { steps: seq![CopyView::MakeDir(dest)], refused: None }
    } else {
        let done = copying(src, dest, entries, host, k - 1);
        if done.refused is Some {
            done
        } else {
            match entries[k - 1] {
                Entry::Dir { name, entries: sub } => if join_error(name@, host) is Some {
                    Copying { steps: done.steps, refused: join_error(name@, host) }
                } else {
                    let inner = copying(
                        path_in(src, name@),
                        path_in(dest, slashed(name@, host)),
                        sub@,
                        host,
                        sub@.len() as int,
                    );
                    Copying { steps: done.steps + inner.steps, refused: inner.refused }
                },
                Entry::File { name, .. } => if join_error(name@, host) is Some {
                    Copying { steps: done.steps, refused: join_error(name@, host) }
                } else if hif_name(name@) {
                    done
                } else {
                    Copying {
                        steps: done.steps.push(
                            CopyView::CopyFile(path_in(src, name@), path_in(dest, slashed(name@, host))),
                        ),
                        refused: None,
                    }
                },
            }
        }
    }
}

proof fn lemma_refusal_ends(
    src: Seq<char>,
    dest: Seq<char>,
    entries: Seq<Entry>,
    host: Host,
    k: int,
    n: int,
)
    requires
        0 <= k <= n <= entries.len(),
        copying(src, dest, entries, host, k).refused is Some,
    ensures
        copying(src, dest, entries, host, n) == copying(src, dest, entries, host, k),
    decreases n,
{
    if k < n {
        lemma_refusal_ends(src, dest, entries, host, k, n - 1);
    }
}

/// The steps that copy a listed directory, appended to `steps`. Where a name is refused, the steps
/// before it are still to be taken.
pub fn copy_tree(
    src: &str,
    dest: &str,
    entries: &Vec<Entry>,
    host: Host,
    steps: &mut Vec<CopyStep>,
) -> (r: Result<(), Error>)
    ensures
        ({
            let c = copying(src@, dest@, entries@, host, entries@.len() as int);
            &&& step_views(final(steps)@) == step_views(old(steps)@) + c.steps
            &&& match r {
                Ok(_) => c.refused is None,
                Err(e) => c.refused == Some(e@),
            }
        }),
    decreases entries,
{
    let ghost start = step_views(steps@);
    steps.push(CopyStep::MakeDir(dest.to_owned()));
    assert(step_views(steps@) =~= start + copying(src@, dest@, entries@, host, 0).steps);
    let ghost n = entries@.len() as int;
    let mut k: usize = 0;
    while k < entries.len()
        invariant
            k <= entries@.len(),
            n == entries@.len(),
            start == step_views(old(steps)@),
            step_views(steps@) == start + copying(src@, dest@, entries@, host, k as int).steps,
            copying(src@, dest@, entries@, host, k as int).refused is None,
        decreases entries@.len() - k,
    {
        let ghost before = step_views(steps@);
        match &entries[k] {
            Entry::Dir { name, entries: sub } => {
                let to = match safe_join(dest, name.as_str(), host) {
                    Ok(to) => to,
                    Err(e) => {
                        proof {
                            lemma_refusal_ends(src@, dest@, entries@, host, k + 1, n);
                        }
                        return Err(e);
                    },
                };
                let from = join_path(src, name.as_str());
                let done = copy_tree(from.as_str(), to.as_str(), sub, host, steps);
                assert(step_views(steps@) =~= start + copying(
                    src@,
                    dest@,
                    entries@,
                    host,
                    k + 1,
                ).steps);
                match done {
                    Ok(_) => {},
                    Err(e) => {
                        proof {
                            lemma_refusal_ends(src@, dest@, entries@, host, k + 1, n);
                        }
                        return Err(e);
                    },
                }
            },
            Entry::File { name, .. } => {
                let to = match safe_join(dest, name.as_str(), host) {
                    Ok(to) => to,
                    Err(e) => {
                        proof {
                            lemma_refusal_ends(src@, dest@, entries@, host, k + 1, n);
                        }
                        return Err(e);
                    },
                };
                if !is_base_game_nfs(name.as_str()) {
                    let step = CopyStep::CopyFile(join_path(src, name.as_str()), to);
                    let ghost v = step@;
                    steps.push(step);
                    assert(step_views(steps@) =~= before.push(v));
                }
                assert(step_views(steps@) =~= start + copying(
                    src@,
                    dest@,
                    entries@,
                    host,
                    k + 1,
                ).steps);
            },
        }
        k = k + 1;
    }
    Ok(())
}

/// Where a step writes.
pub open spec fn target(s: CopyView) -> Seq<char> {
    match s {
        CopyView::MakeDir(d) => d,
        CopyView::CopyFile(_, to) => to,
    }
}

/// The path is the directory, or what a relative path that stays below it leads to.
pub open spec fn at_or_below(p: Seq<char>, dir: Seq<char>) -> bool {
    p == dir || exists|rel: Seq<char>| stays_below(rel) && p == #[trigger] path_in(dir, rel)
}

proof fn lemma_below_below(a: Seq<char>, b: Seq<char>)
    requires
        stays_below(a),
        stays_below(b),
    ensures
        stays_below(path_in(a, b)),
{
    let (head, all) = if a.last() == '/' {
        (a.drop_last(), path_in(a, b))
    } else {
        (a, path_in(a, b))
    };
    let (ha, hb) = (pieces_from(head, '/', 0), pieces_from(b, '/', 0));
    assert(all =~= head.push('/') + b);
    pieces_of_joined(head, '/', b);
    assert(ha.len() > 0) by {
        crate::text::find_from_is_within(head, '/', 0);
    }
    assert(forall|i: int|
        0 <= i < ha.len() ==> #[trigger] ha[i] == pieces_from(a, '/', 0)[i] && i < pieces_from(
            a,
            '/',
            0,
        ).len()) by {
        if a.last() == '/' {
            assert(a =~= head.push('/') + Seq::empty());
            pieces_of_joined(head, '/', Seq::empty());
        }
    }
    let parts = pieces_from(all, '/', 0);
    assert forall|i: int| 0 <= i < parts.len() implies !is_dots(#[trigger] parts[i]) by {
        if i < ha.len() {
            assert(parts[i] == ha[i]);
        } else {
            assert(parts[i] == hb[i - ha.len()]);
        }
    }
    assert(parts[0] == ha[0]);
}

/// Copying writes nowhere but in the destination: each target is the destination itself, or what a
/// relative path without `.` and `..` leads to from there.
pub proof fn copying_stays_below(
    src: Seq<char>,
    dest: Seq<char>,
    entries: Seq<Entry>,
    host: Host,
    k: int,
    i: int,
)
    requires
        0 <= k <= entries.len(),
        0 <= i < copying(src, dest, entries, host, k).steps.len(),
    ensures
        at_or_below(target(copying(src, dest, entries, host, k).steps[i]), dest),
    decreases entries, k,
{
    let all = copying(src, dest, entries, host, k).steps;
    if k <= 0 {
        assert(all[i] == CopyView::MakeDir(dest));
    } else {
        let done = copying(src, dest, entries, host, k - 1);
        if i < done.steps.len() {
            copying_stays_below(src, dest, entries, host, k - 1, i);
            assert(all[i] == done.steps[i]);
        } else {
            match entries[k - 1] {
                Entry::Dir { name, entries: sub } => {
                    let to = path_in(dest, slashed(name@, host));
                    let m = sub@.len() as int;
                    let j = i - done.steps.len();
                    copying_stays_below(path_in(src, name@), to, sub@, host, m, j);
                    let t = target(copying(path_in(src, name@), to, sub@, host, m).steps[j]);
                    assert(all[i] == copying(path_in(src, name@), to, sub@, host, m).steps[j]);
                    if t != to {
                        let rel = choose|rel: Seq<char>|
                            stays_below(rel) && t == #[trigger] path_in(to, rel);
                        lemma_below_below(slashed(name@, host), rel);
                        path_in_nests(dest, slashed(name@, host), rel);
                        assert(t == path_in(dest, path_in(slashed(name@, host), rel)));
                    }
                },
                Entry::File { name, .. } => {
                    assert(target(all[i]) == path_in(dest, slashed(name@, host)));
                },
            }
        }
    }
}

/// The step copies no game data: the name of what it copies is not that of a game-data file.
pub open spec fn copies_no_game_data(s: CopyView) -> bool {
    match s {
        CopyView::MakeDir(_) => true,
        CopyView::CopyFile(_, to) => exists|dir: Seq<char>, name: Seq<char>|
            to == #[trigger] path_in(dir, name) && !hif_name(name),
    }
}

proof fn lemma_hif_in_slashes(name: Seq<char>, host: Host)
    ensures
        hif_name(slashed(name, host)) == hif_name(name),
{
    reveal_strlit("hif_");
    reveal_strlit(".nfs");
    let s = slashed(name, host);
    if hif_name(s) {
        assert forall|i: int| 0 <= i < 4 implies name[i] == "hif_"@[i] by {
            assert(s.take(4)[i] == s[i]);
        }
        assert forall|i: int| 0 <= i < 4 implies name[name.len() - 4 + i] == ".nfs"@[i] by {
            assert(s.skip(s.len() - 4)[i] == s[s.len() - 4 + i]);
        }
        assert(name.take(4) =~= "hif_"@);
        assert(name.skip(name.len() - 4) =~= ".nfs"@);
    }
    if hif_name(name) {
        assert forall|i: int| 0 <= i < 4 implies s[i] == "hif_"@[i] by {
            assert(name.take(4)[i] == name[i]);
        }
        assert forall|i: int| 0 <= i < 4 implies s[s.len() - 4 + i] == ".nfs"@[i] by {
            assert(name.skip(name.len() - 4)[i] == name[name.len() - 4 + i]);
        }
        assert(s.take(4) =~= "hif_"@);
        assert(s.skip(s.len() - 4) =~= ".nfs"@);
    }
}

/// Copying leaves out the base's own game data.
pub proof fn copying_skips_game_data(
    src: Seq<char>,
    dest: Seq<char>,
    entries: Seq<Entry>,
    host: Host,
    k: int,
    i: int,
)
    requires
        0 <= k <= entries.len(),
        0 <= i < copying(src, dest, entries, host, k).steps.len(),
    ensures
        copies_no_game_data(copying(src, dest, entries, host, k).steps[i]),
    decreases entries, k,
{
    let all = copying(src, dest, entries, host, k).steps;
    if k > 0 {
        let done = copying(src, dest, entries, host, k - 1);
        if i < done.steps.len() {
            copying_skips_game_data(src, dest, entries, host, k - 1, i);
            assert(all[i] == done.steps[i]);
        } else {
            match entries[k - 1] {
                Entry::Dir { name, entries: sub } => {
                    copying_skips_game_data(
                        path_in(src, name@),
                        path_in(dest, slashed(name@, host)),
                        sub@,
                        host,
                        sub@.len() as int,
                        i - done.steps.len(),
                    );
                },
                Entry::File { name, .. } => {
                    lemma_hif_in_slashes(name@, host);
                    assert(all[i] == CopyView::CopyFile(path_in(src, name@), path_in(dest, slashed(name@, host))));
                },
            }
        }
    }
}

/// An entry of an archive directory: its name, and whether it is a directory.
#[derive(Debug)]
pub struct ArchiveEntry {
    pub name: Vec<u8>,
    pub is_dir: bool,
}

/// The directory holds a directory `code`, as the root of a title does.
pub open spec fn holds_code(children: Seq<ArchiveEntry>) -> bool {
    exists|i: int|
        0 <= i < children.len() && (#[trigger] children[i]).is_dir && children[i].name@
            == crate::text::ascii("code"@)
}

/// Whether an archive directory with these children is the root of a title.
pub fn is_title_root(children: &Vec<ArchiveEntry>) -> (r: bool)
    ensures
        r == holds_code(children@),
{
    let code = crate::text::ascii_of("code");
    let mut i: usize = 0;
    while i < children.len()
        invariant
            i <= children@.len(),
            code@ == crate::text::ascii("code"@),
            forall|j: int|
                0 <= j < i ==> !((#[trigger] children@[j]).is_dir && children@[j].name@ == code@),
        decreases children@.len() - i,
    {
        if children[i].is_dir && same_bytes(children[i].name.as_slice(), code.as_slice()) {
            return true;
        }
        i = i + 1;
    }
    false
}

/// The error for an archive without a title.
pub fn no_title_error(path: &str) -> (r: Error)
    ensures
        r@ == ErrorView::InvalidTitle(
            "no Wii U title (a '<id>_v<n>/code/' tree) found in "@ + path@,
        ),
{
    Error::InvalidTitle(joined("no Wii U title (a '<id>_v<n>/code/' tree) found in ", path))
}

/// The error for an archive operation that failed.
pub fn wua_err(path: &str, op: &str, detail: &str) -> (r: Error)
    ensures
        r@ == ErrorView::Other(op@ + " on "@ + path@ + ": "@ + detail@),
{
    let mut m = joined(op, " on ");
    m.append(path);
    m.append(": ");
    m.append(detail);
    Error::Other(m)
}

/// An entry of an archive's root: whether it is a directory, and what it holds, or why that could
/// not be read.
#[derive(Debug)]
pub struct RootEntry {
    pub is_dir: bool,
    pub children: Result<Vec<ArchiveEntry>, String>,
}

/// A search for a title ends here: at a directory that is one, or that could not be read.
pub open spec fn search_ends_at(root: Seq<RootEntry>, i: int) -> bool {
    &&& root[i].is_dir
    &&& match root[i].children {
        Ok(c) => holds_code(c@),
        Err(_) => true,
    }
}

/// The first title in an archive. A directory before it that cannot be read is an error, because it
/// may be a title.
pub fn find_title(path: &str, root: &Vec<RootEntry>) -> (r: Result<usize, Error>)
    ensures
        match r {
            Ok(t) => {
                &&& t < root@.len()
                &&& search_ends_at(root@, t as int)
                &&& root@[t as int].children is Ok
                &&& forall|i: int| 0 <= i < t ==> !#[trigger] search_ends_at(root@, i)
            },
            Err(e) => {
                ||| (forall|i: int| 0 <= i < root@.len() ==> !#[trigger] search_ends_at(root@, i))
                    && e@ == ErrorView::InvalidTitle(
                    "no Wii U title (a '<id>_v<n>/code/' tree) found in "@ + path@,
                )
                ||| exists|t: int|
                    {
                        &&& 0 <= t < root@.len()
                        &&& #[trigger] search_ends_at(root@, t)
                        &&& forall|i: int| 0 <= i < t ==> !#[trigger] search_ends_at(root@, i)
                        &&& root@[t].children matches Err(detail) && e@ == ErrorView::Other(
                            "reading directory entries"@ + " on "@ + path@ + ": "@ + detail@,
                        )
                    }
            },
        },
{
    let mut k: usize = 0;
    while k < root.len()
        invariant
            k <= root@.len(),
            forall|i: int| 0 <= i < k ==> !#[trigger] search_ends_at(root@, i),
        decreases root@.len() - k,
    {
        if root[k].is_dir {
            match &root[k].children {
                Ok(children) => if is_title_root(children) {
                    assert(search_ends_at(root@, k as int));
                    return Ok(k);
                },
                Err(detail) => {
                    assert(search_ends_at(root@, k as int));
                    return Err(wua_err(path, "reading directory entries", detail.as_str()));
                },
            }
        }
        k = k + 1;
    }
    Err(no_title_error(path))
}

/// The base's own game data: what to copy where, with the key.
#[derive(Debug)]
pub struct NfsPlan {
    /// Names of the game-data files in `content/`, and where each is written.
    pub files: Vec<(String, String)>,
    /// Why a file cannot be written, if one cannot: those before it still are.
    pub refused: Option<Error>,
    /// Where the key is written, if the title has one.
    pub htk: Option<String>,
    /// The directory that holds the game data once all is written.
    pub content_dir: String,
}

/// The game-data files among the first `k` entries.
pub open spec fn game_files(entries: Seq<Entry>, k: int) -> Seq<Seq<char>>
    decreases k,
{
    if k <= 0 {
        Seq::empty()
    } else {
        match entries[k - 1] {
            Entry::File { name, .. } if hif_name(name@) => game_files(entries, k - 1).push(name@),
            _ => game_files(entries, k - 1),
        }
    }
}

/// A listing holds a file of this name.
pub open spec fn lists_file(entries: Seq<Entry>, name: Seq<char>) -> bool {
    exists|i: int|
        0 <= i < entries.len() && (#[trigger] entries[i] matches Entry::File { name: n, .. } && n@
            == name)
}

fn list_game_files(entries: &Vec<Entry>) -> (r: Vec<String>)
    ensures
        texts(r@) == game_files(entries@, entries@.len() as int),
{
    let mut r: Vec<String> = Vec::new();
    let mut k: usize = 0;
    assert(texts(r@) =~= game_files(entries@, 0));
    while k < entries.len()
        invariant
            k <= entries@.len(),
            texts(r@) == game_files(entries@, k as int),
        decreases entries@.len() - k,
    {
        let ghost before = texts(r@);
        if let Entry::File { name, .. } = &entries[k] {
            if is_base_game_nfs(name.as_str()) {
                r.push(name.clone());
                assert(texts(r@) =~= before.push(name@));
            }
        }
        k = k + 1;
    }
    r
}

fn has_entry_file(entries: &Vec<Entry>, name: &str) -> (r: bool)
    ensures
        r == lists_file(entries@, name@),
{
    let mut i: usize = 0;
    while i < entries.len()
        invariant
            i <= entries@.len(),
            forall|j: int|
                0 <= j < i ==> !(#[trigger] entries@[j] matches Entry::File { name: n, .. } && n@
                    == name@),
        decreases entries@.len() - i,
    {
        if let Entry::File { name: n, .. } = &entries[i] {
            if same_text(n.as_str(), name) {
                return true;
            }
        }
        i = i + 1;
    }
    false
}

/// How many of the names can be joined before one is refused.
pub open spec fn joinable(names: Seq<Seq<char>>, host: Host, k: int) -> int
    decreases names.len() - k,
{
    if k >= names.len() || join_error(names[k], host) is Some {
        k
    } else {
        joinable(names, host, k + 1)
    }
}

/// The values of name and target of the files.
pub open spec fn pair_views(v: Seq<(String, String)>) -> Seq<(Seq<char>, Seq<char>)> {
    Seq::new(v.len(), |i: int| (v[i].0@, v[i].1@))
}

proof fn lemma_joinable(names: Seq<Seq<char>>, host: Host, k: int)
    requires
        0 <= k <= names.len(),
    ensures
        k <= joinable(names, host, k) <= names.len(),
        joinable(names, host, k) < names.len() ==> join_error(names[joinable(names, host, k)], host) is Some,
    decreases names.len() - k,
{
    if k < names.len() && join_error(names[k], host) is None {
        lemma_joinable(names, host, k + 1);
    }
}

/// Plan to write the base's own game data below `dest`, from the listings of the title's `content/`
/// and `code/`. There is nothing to write where `content/` does not hold the first game-data file.
pub fn plan_original_nfs(
    dest: &str,
    content: Option<&Vec<Entry>>,
    code: Option<&Vec<Entry>>,
    host: Host,
) -> (r: Option<NfsPlan>)
    ensures
        match content {
            None => r is None,
            Some(c) => {
                let names = game_files(c@, c@.len() as int);
                let dir = path_in(dest@, "content"@);
                match r {
                    None => !names.contains("hif_000000.nfs"@),
                    Some(p) => {
                        let n = joinable(names, host, 0);
                        &&& names.contains("hif_000000.nfs"@)
                        &&& p.content_dir@ == dir
                        &&& pair_views(p.files@) == Seq::new(
                            n as nat,
                            |i: int| (names[i], path_in(dir, slashed(names[i], host))),
                        )
                        &&& match p.refused {
                            Some(e) => n < names.len() && join_error(names[n], host) == Some(e@),
                            None => n == names.len(),
                        }
                        &&& match p.htk {
                            Some(h) => (code matches Some(k) && lists_file(k@, "htk.bin"@)) && h@
                                == path_in(path_in(dest@, "code"@), "htk.bin"@),
                            None => !(code matches Some(k) && lists_file(k@, "htk.bin"@)),
                        }
                    },
                }
            },
        },
{
    let c = match content {
        None => return None,
        Some(c) => c,
    };
    let hifs = list_game_files(c);
    if !holds(&hifs, "hif_000000.nfs") {
        return None;
    }
    let ghost names = texts(hifs@);
    let content_dir = join_path(dest, "content");
    let ghost dir = content_dir@;
    let mut files: Vec<(String, String)> = Vec::new();
    let mut refused: Option<Error> = None;
    let mut i: usize = 0;
    proof {
        lemma_joinable(names, host, 0);
    }
    while i < hifs.len() && refused.is_none()
        invariant
            i <= hifs@.len(),
            names == texts(hifs@),
            dir == content_dir@,
            0 <= joinable(names, host, 0) <= names.len(),
            refused is None ==> joinable(names, host, 0) == joinable(names, host, i as int),
            refused matches Some(e) ==> joinable(names, host, 0) == i && i < names.len() && join_error(
                names[i as int],
                host,
            ) == Some(e@),
            pair_views(files@) == Seq::new(i as nat, |j: int| (names[j], path_in(dir, slashed(names[j], host)))),
        decreases hifs@.len() - i + if refused is None {
            1int
        } else {
            0int
        },
    {
        let ghost before = pair_views(files@);
        assert(names[i as int] == hifs@[i as int]@);
        match safe_join(content_dir.as_str(), hifs[i].as_str(), host) {
            Ok(to) => {
                let ghost pair = (hifs@[i as int]@, to@);
                files.push((hifs[i].clone(), to));
                assert(pair_views(files@) =~= before.push(pair));
                i = i + 1;
                assert(pair_views(files@) =~= Seq::new(
                    i as nat,
                    |j: int| (names[j], path_in(dir, slashed(names[j], host))),
                ));
            },
            Err(e) => {
                refused = Some(e);
            },
        }
    }
    let htk = match code {
        None => None,
        Some(k) => if has_entry_file(k, "htk.bin") {
            let code_dir = join_path(dest, "code");
            Some(join_path(code_dir.as_str(), "htk.bin"))
        } else {
            None
        },
    };
    Some(NfsPlan { files, refused, htk, content_dir })
}

/// A base title in a directory.
#[derive(Debug)]
pub struct DirBase {
    /// The directory that holds `code/`.
    pub root: String,
}

/// The first directory with a `code/` in it.
pub open spec fn first_with_code(candidates: Seq<(Seq<char>, bool)>, k: int) -> Option<Seq<char>>
    decreases k,
{
    if k <= 0 {
        None
    } else if first_with_code(candidates, k - 1) is Some {
        first_with_code(candidates, k - 1)
    } else if candidates[k - 1].1 {
        Some(candidates[k - 1].0)
    } else {
        None
    }
}

proof fn lemma_first_stays(candidates: Seq<(Seq<char>, bool)>, k: int, n: int)
    requires
        0 <= k <= n,
        first_with_code(candidates, k) is Some,
    ensures
        first_with_code(candidates, n) == first_with_code(candidates, k),
    decreases n,
{
    if k < n {
        lemma_first_stays(candidates, k, n - 1);
    }
}

impl DirBase {
    /// The base at `path`: the directory itself where `code/` is in it, else the first of its
    /// subdirectories that has one. `candidates` are its entries, and whether each is a directory
    /// with a `code/` in it.
    pub fn new(path: &str, has_code: bool, candidates: &Vec<(String, bool)>) -> (r: Result<
        DirBase,
        Error,
    >)
        ensures
            ({
                let found = first_with_code(
                    crate::package::output::listed(candidates@),
                    candidates@.len() as int,
                );
                match r {
                    Ok(d) => if has_code {
                        d.root@ == path@
                    } else {
                        found matches Some(n) && d.root@ == path_in(path@, n)
                    },
                    Err(e) => !has_code && found is None && e@ == ErrorView::InvalidTitle(
                        "no 'code/' directory found in base path "@ + path@,
                    ),
                }
            }),
    {
        if has_code {
            return Ok(DirBase { root: path.to_owned() });
        }
        let ghost cv = crate::package::output::listed(candidates@);
        let mut i: usize = 0;
        while i < candidates.len()
            invariant
                !has_code,
                i <= candidates@.len(),
                cv == crate::package::output::listed(candidates@),
                first_with_code(cv, i as int) is None,
            decreases candidates@.len() - i,
        {
            assert(cv[i as int] == (candidates@[i as int].0@, candidates@[i as int].1));
            if candidates[i].1 {
                proof {
                    lemma_first_stays(cv, i + 1, candidates@.len() as int);
                }
                return Ok(DirBase { root: join_path(path, candidates[i].0.as_str()) });
            }
            i = i + 1;
        }
        Err(Error::InvalidTitle(joined("no 'code/' directory found in base path ", path)))
    }

    /// The base's own game data, which is used where it is: its directory, if that holds the first
    /// game-data file and the title holds the key.
    pub fn original_nfs(&self, has_first_nfs: bool, has_htk: bool) -> (r: Option<String>)
        ensures
            match r {
                Some(d) => has_first_nfs && has_htk && d@ == path_in(self.root@, "content"@),
                None => !(has_first_nfs && has_htk),
            },
    {
        if has_first_nfs && has_htk {
            Some(join_path(self.root.as_str(), "content"))
        } else {
            None
        }
    }
}

/// What a base path leads to.
#[derive(Clone, Copy, Debug, PartialEq, Eq, Structural)]
pub enum BaseKind {
    Directory,
    Archive,
}

/// The last component of a path that is not empty and not `.`, among the first `k` pieces.
pub open spec fn last_component(parts: Seq<Seq<char>>, k: int) -> Seq<char>
    decreases k,
{
    if k <= 0 {
        Seq::empty()
    } else if parts[k - 1].len() > 0 && parts[k - 1] != seq!['.'] {
        parts[k - 1]
    } else {
        last_component(parts, k - 1)
    }
}

/// Where the last `.` stands in the first `k` characters, or -1.
pub open spec fn last_dot(s: Seq<char>, k: int) -> int
    decreases k,
{
    if k <= 0 {
        -1
    } else if s[k - 1] == '.' {
        k - 1
    } else {
        last_dot(s, k - 1)
    }
}

/// The extension of a path: what stands behind the last `.` of its last component, unless that
/// begins there or is `..`.
pub open spec fn extension_of(path: Seq<char>) -> Option<Seq<char>> {
    let parts = pieces_from(path, '/', 0);
    let name = last_component(parts, parts.len() as int);
    let dot = last_dot(name, name.len() as int);
    if name == seq!['.', '.'] || dot <= 0 {
        None
    } else {
        Some(name.skip(dot + 1))
    }
}

fn extension(path: &str) -> (r: Option<Vec<char>>)
    ensures
        match r {
            Some(e) => extension_of(path@) == Some(e@),
            None => extension_of(path@) is None,
        },
{
    let cs = chars_of(path);
    let parts = pieces(cs.as_slice(), '/');
    let ghost pv = pieces_from(path@, '/', 0);
    let mut k: usize = parts.len();
    while k > 0 && (parts[k - 1].len() == 0 || (parts[k - 1].len() == 1 && parts[k - 1][0] == '.'))
        invariant
            k <= parts@.len(),
            char_views(parts@) == pv,
            last_component(pv, pv.len() as int) == last_component(pv, k as int),
        decreases k,
    {
        assert(pv[k - 1] == parts@[k - 1]@);
        assert(pv[k - 1].len() > 0 ==> pv[k - 1] =~= seq!['.']);
        k = k - 1;
    }
    if k == 0 {
        return None;
    }
    let name = &parts[k - 1];
    proof {
        assert(pv[k - 1] == name@);
        if name@ == seq!['.'] {
            assert(name@.len() == 1 && name@[0] == '.');
        }
    }
    if name.len() == 2 && name[0] == '.' && name[1] == '.' {
        assert(name@ =~= seq!['.', '.']);
        return None;
    }
    proof {
        if name@ == seq!['.', '.'] {
            assert(name@.len() == 2 && name@[0] == '.' && name@[1] == '.');
        }
    }
    let mut d: usize = name.len();
    while d > 0 && name[d - 1] != '.'
        invariant
            d <= name@.len(),
            last_dot(name@, name@.len() as int) == last_dot(name@, d as int),
        decreases d,
    {
        d = d - 1;
    }
    if d <= 1 {
        return None;
    }
    let ext = vstd::slice::slice_to_vec(
        vstd::slice::slice_subrange(name.as_slice(), d, name.len()),
    );
    assert(ext@ =~= name@.skip(d as int));
    Some(ext)
}

/// What kind of base is at `path`: a directory, or else an archive with the extension `wua` in
/// either case.
pub fn open_base(path: &str, is_dir: bool) -> (r: Result<BaseKind, Error>)
    ensures
        ({
            let is_wua = extension_of(path@) matches Some(e) && same_ignoring_case(e, "wua"@);
            match r {
                Ok(BaseKind::Directory) => is_dir,
                Ok(BaseKind::Archive) => !is_dir && is_wua,
                Err(e) => !is_dir && !is_wua && e@ == ErrorView::InvalidTitle(
                    "base must be a directory or a .wua archive: "@ + path@,
                ),
            }
        }),
{
    if is_dir {
        return Ok(BaseKind::Directory);
    }
    if let Some(ext) = extension(path) {
        let wua = chars_of("wua");
        if eq_ignore_ascii_case(ext.as_slice(), wua.as_slice()) {
            return Ok(BaseKind::Archive);
        }
    }
    Err(Error::InvalidTitle(joined("base must be a directory or a .wua archive: ", path)))
}

/// A base title has what it needs in `code/` exactly where all of these files are there: `cos.xml`,
/// `frisbiiU.rpx`, `fw.img`, `fw.tmd`, `htk.bin` and `nn_hai_user.rpl`.
pub proof fn a_base_needs_six_files(present: Seq<Seq<char>>)
    ensures
        first_missing(present, 6) is None <==> {
            &&& present.contains("cos.xml"@)
            &&& present.contains("frisbiiU.rpx"@)
            &&& present.contains("fw.img"@)
            &&& present.contains("fw.tmd"@)
            &&& present.contains("htk.bin"@)
            &&& present.contains("nn_hai_user.rpl"@)
        },
        first_missing(present, 6) matches Some(n) ==> !present.contains(n),
{
    reveal_with_fuel(first_missing, 7);
}

/// Copying a directory makes the directory first and then copies every file of it under its own name
/// but for the base's game data, and every directory with all that is copied for that one, up to
/// the first name that is refused.
pub proof fn copying_takes_everything_else(
    src: Seq<char>,
    dest: Seq<char>,
    entries: Seq<Entry>,
    host: Host,
    k: int,
    i: int,
)
    requires
        0 <= i < k <= entries.len(),
        copying(src, dest, entries, host, k).refused is None,
    ensures
        ({
            let steps = copying(src, dest, entries, host, k).steps;
            &&& steps[0] == CopyView::MakeDir(dest)
            &&& match entries[i] {
                Entry::File { name, .. } => !(begins_with(name@, "hif_"@) && ends_in(
                    name@,
                    ".nfs"@,
                )) ==> steps.contains(
                    CopyView::CopyFile(
                        path_in(src, name@),
                        path_in(dest, slashed(name@, host)),
                    ),
                ),
                Entry::Dir { name, entries: sub } => forall|s: CopyView|
                    #![trigger steps.contains(s)]
                    copying(
                        path_in(src, name@),
                        path_in(dest, slashed(name@, host)),
                        sub@,
                        host,
                        sub@.len() as int,
                    ).steps.contains(s) ==> steps.contains(s),
            }
        }),
    decreases k,
{
    let before = copying(src, dest, entries, host, k - 1);
    let now = copying(src, dest, entries, host, k);
    assert(before.refused is None);
    lemma_begins_with_a_directory(src, dest, entries, host, k - 1);
    lemma_begins_with_a_directory(src, dest, entries, host, k);
    assert forall|s: CopyView| before.steps.contains(s) implies now.steps.contains(s) by {
        let x = choose|x: int| 0 <= x < before.steps.len() && before.steps[x] == s;
        assert(now.steps[x] == s);
    }
    if i < k - 1 {
        copying_takes_everything_else(src, dest, entries, host, k - 1, i);
    } else {
        match entries[i] {
            Entry::File { name, .. } => {
                if !hif_name(name@) {
                    assert(now.steps[before.steps.len() as int] == CopyView::CopyFile(
                        path_in(src, name@),
                        path_in(dest, slashed(name@, host)),
                    ));
                }
            },
            Entry::Dir { name, entries: sub } => {
                let inner = copying(
                    path_in(src, name@),
                    path_in(dest, slashed(name@, host)),
                    sub@,
                    host,
                    sub@.len() as int,
                );
                assert forall|s: CopyView| inner.steps.contains(s) implies now.steps.contains(s) by {
                    let x = choose|x: int| 0 <= x < inner.steps.len() && inner.steps[x] == s;
                    assert(now.steps[before.steps.len() + x] == s);
                }
            },
        }
    }
}

proof fn lemma_begins_with_a_directory(
    src: Seq<char>,
    dest: Seq<char>,
    entries: Seq<Entry>,
    host: Host,
    k: int,
)
    requires
        k <= entries.len(),
    ensures
        copying(src, dest, entries, host, k).steps.len() > 0,
        copying(src, dest, entries, host, k).steps[0] == CopyView::MakeDir(dest),
    decreases k,
{
    if k > 0 {
        lemma_begins_with_a_directory(src, dest, entries, host, k - 1);
    }
}

/// The base's own game data are the files `hif_*.nfs` of its `content/`, and all of them.
pub proof fn game_files_are_the_hif_files(entries: Seq<Entry>, k: int, name: Seq<char>)
    requires
        0 <= k <= entries.len(),
    ensures
        game_files(entries, k).contains(name) <==> begins_with(name, "hif_"@) && ends_in(
            name,
            ".nfs"@,
        ) && lists_file(entries.take(k), name),
    decreases k,
{
    let names = game_files(entries, k);
    let listed = entries.take(k);
    if k > 0 {
        game_files_are_the_hif_files(entries, k - 1, name);
        let before = game_files(entries, k - 1);
        let fewer = entries.take(k - 1);
        if lists_file(fewer, name) {
            let i = choose|i: int|
                0 <= i < fewer.len() && (#[trigger] fewer[i] matches Entry::File { name: n, .. }
                    && n@ == name);
            assert(listed[i] == fewer[i]);
            assert(lists_file(listed, name));
        }
        if lists_file(listed, name) && !lists_file(fewer, name) {
            let i = choose|i: int|
                0 <= i < listed.len() && (#[trigger] listed[i] matches Entry::File { name: n, .. }
                    && n@ == name);
            if i < k - 1 {
                assert(fewer[i] == listed[i]);
            }
            assert(i == k - 1);
        }
        match entries[k - 1] {
            Entry::File { name: n, .. } if hif_name(n@) => {
                assert(listed[k - 1] == entries[k - 1]);
                if names.contains(name) && name != n@ {
                    let i = choose|i: int| 0 <= i < names.len() && names[i] == name;
                    assert(before[i] == name);
                }
                if before.contains(name) {
                    let i = choose|i: int| 0 <= i < before.len() && before[i] == name;
                    assert(names[i] == name);
                }
                assert(names[names.len() - 1] == n@);
            },
            _ => {},
        }
    }
}

/// Of what a title holds, the directories `code`, `content` and `meta` are staged.
pub proof fn three_directories_are_staged(name: Seq<char>)
    ensures
        is_staged_dir(name) <==> name == "code"@ || name == "content"@ || name == "meta"@,
{
}

/// A plain name, without separators and not `.` or `..`, is joined on every host unless it begins with
/// a drive; an empty name, one that begins with a slash, and `.` and `..` are refused.
pub proof fn plain_names_are_joined(rel: Seq<char>, host: Host)
    requires
        !rel.contains('/'),
        !rel.contains('\\'),
    ensures
        join_error(rel, host) is None <==> rel.len() > 0 && rel != seq!['.'] && rel != seq!['.', '.']
            && !(host == Host::Windows && rel.len() >= 2 && rel[1] == ':' && ('a' <= rel[0] <= 'z'
            || 'A' <= rel[0] <= 'Z')),
        join_error(seq!['/'] + rel, host) is Some,
{
    let s = slashed(rel, host);
    assert forall|i: int| 0 <= i < rel.len() implies #[trigger] s[i] == rel[i] by {
        assert(rel.contains(rel[i]));
    }
    assert(s =~= rel);
    assert(!rel.contains('/'));
    crate::text::a_text_without_separators_is_one_piece(rel, '/');
    let parts = pieces_from(rel, '/', 0);
    if stays_below(rel) {
        assert(!is_dots(parts[0]));
    }
    let abs = slashed(seq!['/'] + rel, host);
    assert(abs[0] == '/');
    assert(crate::text::find_from(abs, '/', 0) == 0);
    assert(pieces_from(abs, '/', 0)[0] =~= Seq::<char>::empty());
}

/// A directory of an archive is the root of a title where one of its children is a directory named
/// `code`.
pub proof fn a_title_holds_code(children: Seq<ArchiveEntry>)
    ensures
        holds_code(children) <==> exists|i: int|
            0 <= i < children.len() && (#[trigger] children[i]).is_dir && children[i].name@ == seq![
                0x63u8,
                0x6F,
                0x64,
                0x65,
            ],
{
    reveal_strlit("code");
    assert(crate::text::ascii("code"@) =~= seq![0x63u8, 0x6F, 0x64, 0x65]);
}

/// A base directory without a `code/` of its own is the first of its subdirectories that has one.
pub proof fn the_first_directory_with_code_is_taken(candidates: Seq<(Seq<char>, bool)>, i: int)
    requires
        0 <= i <= candidates.len(),
        forall|j: int| 0 <= j < i ==> !(#[trigger] candidates[j]).1,
        i < candidates.len() ==> candidates[i].1,
    ensures
        first_with_code(candidates, candidates.len() as int) == if i < candidates.len() {
            Some(candidates[i].0)
        } else {
            None
        },
{
    lemma_none_with_code(candidates, i);
    if i < candidates.len() {
        lemma_first_stays(candidates, i + 1, candidates.len() as int);
    }
}

proof fn lemma_none_with_code(candidates: Seq<(Seq<char>, bool)>, k: int)
    requires
        0 <= k <= candidates.len(),
        forall|j: int| 0 <= j < k ==> !(#[trigger] candidates[j]).1,
    ensures
        first_with_code(candidates, k) is None,
    decreases k,
{
    if k > 0 {
        lemma_none_with_code(candidates, k - 1);
    }
}

/// The search for a title passes over files. It ends at a directory that cannot be read, and at one
/// that can exactly where that holds a directory `code`.
pub proof fn other_entries_are_passed_over(root: Seq<RootEntry>, i: int)
    ensures
        !root[i].is_dir ==> !search_ends_at(root, i),
        root[i].is_dir && root[i].children is Err ==> search_ends_at(root, i),
        root[i].is_dir && root[i].children is Ok ==> {
            let c = root[i].children->Ok_0@;
            search_ends_at(root, i) <==> exists|j: int|
                0 <= j < c.len() && (#[trigger] c[j]).is_dir && c[j].name@ == seq![
                    0x63u8,
                    0x6F,
                    0x64,
                    0x65,
                ]
        },
{
    if root[i].children is Ok {
        a_title_holds_code(root[i].children->Ok_0@);
    }
}

/// Of the base's game data, the files in front of the first that is refused are written.
pub proof fn files_before_a_refused_one_are_written(names: Seq<Seq<char>>, host: Host, i: int)
    requires
        0 <= i < names.len(),
    ensures
        ({
            let n = joinable(names, host, 0);
            &&& 0 <= n <= names.len()
            &&& i < n ==> join_error(names[i], host) is None
            &&& i == n ==> join_error(names[i], host) is Some
        }),
{
    lemma_joinable(names, host, 0);
    lemma_joined_in_front(names, host, 0, i);
}

proof fn lemma_joined_in_front(names: Seq<Seq<char>>, host: Host, k: int, i: int)
    requires
        0 <= k <= i < names.len(),
    ensures
        i < joinable(names, host, k) ==> join_error(names[i], host) is None,
    decreases i - k,
{
    if k < i {
        lemma_joined_in_front(names, host, k + 1, i);
    }
}

proof fn lemma_last_dot(stem: Seq<char>, ext: Seq<char>, k: int)
    requires
        !ext.contains('.'),
        stem.len() < k <= stem.len() + 1 + ext.len(),
    ensures
        last_dot(stem.push('.') + ext, k) == stem.len(),
    decreases k,
{
    let name = stem.push('.') + ext;
    if k > stem.len() + 1 {
        assert(name[k - 1] == ext[k - 2 - stem.len()]);
        assert(ext.contains(ext[k - 2 - stem.len()]));
        lemma_last_dot(stem, ext, k - 1);
    }
}

/// The extension of a file in any directory is what stands behind the last dot of its name.
pub proof fn an_extension_is_behind_the_last_dot(dir: Seq<char>, stem: Seq<char>, ext: Seq<char>)
    requires
        stem.len() > 0,
        !stem.contains('/'),
        !ext.contains('/'),
        !ext.contains('.'),
        stem != seq!['.'] || ext.len() > 0,
    ensures
        extension_of(stem.push('.') + ext) == Some(ext),
        extension_of(dir.push('/') + (stem.push('.') + ext)) == Some(ext),
{
    let name = stem.push('.') + ext;
    assert forall|i: int| 0 <= i < name.len() implies #[trigger] name[i] != '/' by {
        if i < stem.len() {
            assert(stem.contains(stem[i]));
        } else if i > stem.len() {
            assert(ext.contains(ext[i - 1 - stem.len()]));
        }
    }
    lemma_named_last(dir, name);
    lemma_last_dot(stem, ext, name.len() as int);
    if name == seq!['.', '.'] {
        assert(name.len() == 2);
        assert(stem =~= seq![name[0]]);
    }
    assert(name.skip(stem.len() as int + 1) =~= ext);
}

/// A name without a dot, or with its only one in front, has no extension.
pub proof fn a_plain_name_has_no_extension(dir: Seq<char>, name: Seq<char>)
    requires
        name.len() > 0,
        name != seq!['.'],
        !name.contains('/'),
        forall|i: int| 0 < i < name.len() ==> #[trigger] name[i] != '.',
    ensures
        extension_of(name) is None,
        extension_of(dir.push('/') + name) is None,
{
    lemma_named_last(dir, name);
    lemma_no_dot(name, name.len() as int);
}

proof fn lemma_no_dot(name: Seq<char>, k: int)
    requires
        0 <= k <= name.len(),
        forall|i: int| 0 < i < name.len() ==> #[trigger] name[i] != '.',
    ensures
        last_dot(name, k) <= 0,
    decreases k,
{
    if k > 0 {
        lemma_no_dot(name, k - 1);
    }
}

proof fn lemma_named_last(dir: Seq<char>, name: Seq<char>)
    requires
        name.len() > 0,
        name != seq!['.'],
        !name.contains('/'),
    ensures
        ({
            let (alone, below) = (
                pieces_from(name, '/', 0),
                pieces_from(dir.push('/') + name, '/', 0),
            );
            &&& last_component(alone, alone.len() as int) == name
            &&& last_component(below, below.len() as int) == name
        }),
{
    crate::text::a_text_without_separators_is_one_piece(name, '/');
    pieces_of_joined(dir, '/', name);
    assert(pieces_from(dir.push('/') + name, '/', 0).last() == name);
}

} // verus!

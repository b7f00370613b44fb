//! Paths as text, with `/` between their components and as the only separator.
//!
//! A path of a host that has other separators is brought into this form by [`to_slashes`].

use crate::text::{chars_of, strip_trailing, text_of, text_view, without_trailing};
use vstd::prelude::*;
use vstd::slice::slice_subrange;

verus! {

/// How a host reads paths.
#[derive(Clone, Copy, Debug, PartialEq, Eq, Structural)]
pub enum Host {
    /// `/` separates components.
    Posix,
    /// `/` and `\\` separate components, and a path can begin with a drive.
    Windows,
}

/// A path of a host with `/` as the only separator.
pub open spec fn slashed(path: Seq<char>, host: Host) -> Seq<char> {
    match host {
        Host::Posix => path,
        Host::Windows => path.map_values(
            |c: char| if c == '\\' {
                '/'
            } else {
                c
            },
        ),
    }
}

/// The path begins with a drive, such as `C:`.
pub open spec fn names_a_drive(path: Seq<char>, host: Host) -> bool {
    &&& host == Host::Windows
    &&& path.len() >= 2
    &&& ('a' <= path[0] <= 'z' || 'A' <= path[0] <= 'Z')
    &&& path[1] == ':'
}

/// A path of a host with `/` as the only separator.
pub fn to_slashes(path: &str, host: Host) -> (r: String)
    ensures
        r@ == slashed(path@, host),
{
    if host == Host::Posix {
        return path.to_owned();
    }
    let cs = chars_of(path);
    let mut r = String::new();
    let mut i: usize = 0;
    assert(r@ =~= slashed(path@, host).take(0));
    while i < cs.len()
        invariant
            i <= cs@.len(),
            cs@ == path@,
            host == Host::Windows,
            r@ == slashed(path@, host).take(i as int),
        decreases cs@.len() - i,
    {
        r.push(
            if cs[i] == '\\' {
                '/'
            } else {
                cs[i]
            },
        );
        i = i + 1;
        assert(r@ =~= slashed(path@, host).take(i as int));
    }
    assert(r@ =~= slashed(path@, host));
    r
}

/// `name` inside `dir`.
pub open spec fn path_in(dir: Seq<char>, name: Seq<char>) -> Seq<char> {
    if dir.len() == 0 {
        name
    } else if dir.last() == '/' {
        dir + name
    } else {
        dir.push('/') + name
    }
}

/// A path inside a path inside a directory is a longer path inside the directory.
pub proof fn path_in_nests(dir: Seq<char>, a: Seq<char>, b: Seq<char>)
    requires
        a.len() > 0,
    ensures
        path_in(path_in(dir, a), b) == path_in(dir, path_in(a, b)),
{
    assert(path_in(path_in(dir, a), b) =~= path_in(dir, path_in(a, b)));
}

/// `name` inside `dir`.
pub fn join_path(dir: &str, name: &str) -> (r: String)
    ensures
        r@ == path_in(dir@, name@),
{
    let cs = chars_of(dir);
    if cs.len() == 0 {
        return name.to_owned();
    }
    let mut r = dir.to_owned();
    if cs[cs.len() - 1] != '/' {
        r.push('/');
    }
    r.append(name);
    r
}

/// Where `c` stands last among the first `n` characters of `s`, or -1.
pub open spec fn last_place(s: Seq<char>, c: char, n: int) -> int
    decreases n,
{
    if n <= 0 {
        -1
    } else if s[n - 1] == c {
        n - 1
    } else {
        last_place(s, c, n - 1)
    }
}

/// The directory that a path is in. The root has none, and slashes at the end do not count.
pub open spec fn parent_of(path: Seq<char>) -> Option<Seq<char>> {
    let p = without_trailing(path, '/');
    let at = last_place(p, '/', p.len() as int);
    if p.len() == 0 {
        None
    } else if at < 0 {
        Some(Seq::empty())
    } else {
        let dir = without_trailing(p.take(at), '/');
        Some(
            if dir.len() == 0 {
                seq!['/']
            } else {
                dir
            },
        )
    }
}

/// The directory that a path is in. The root has none, and slashes at the end do not count.
pub fn parent_path(path: &str) -> (r: Option<String>)
    ensures
        text_view(r) == parent_of(path@),
{
    let cs = chars_of(path);
    let p = strip_trailing(cs.as_slice(), '/');
    if p.len() == 0 {
        return None;
    }
    let mut n = p.len();
    while n > 0 && p[n - 1] != '/'
        invariant
            n <= p@.len(),
            last_place(p@, '/', p@.len() as int) == last_place(p@, '/', n as int),
        decreases n,
    {
        n = n - 1;
    }
    if n == 0 {
        let none = String::new();
        assert(none@ =~= Seq::<char>::empty());
        return Some(none);
    }
    let head = slice_subrange(p, 0, n - 1);
    assert(head@ =~= p@.take(n - 1));
    let dir = strip_trailing(head, '/');
    if dir.len() == 0 {
        let mut top = String::new();
        top.push('/');
        assert(top@ =~= seq!['/']);
        Some(top)
    } else {
        Some(text_of(dir))
    }
}

proof fn lemma_last_place(s: Seq<char>, c: char, at: int, n: int)
    requires
        0 <= at < n <= s.len(),
        s[at] == c,
        forall|i: int| at < i < n ==> #[trigger] s[i] != c,
    ensures
        last_place(s, c, n) == at,
    decreases n,
{
    if at < n - 1 {
        lemma_last_place(s, c, at, n - 1);
    }
}

/// What is in a directory has that directory for its parent.
pub proof fn parent_is_the_directory(dir: Seq<char>, name: Seq<char>)
    requires
        dir.len() > 0,
        dir.last() != '/',
        name.len() > 0,
        !name.contains('/'),
    ensures
        parent_of(path_in(dir, name)) == Some(dir),
{
    let p = path_in(dir, name);
    let d = dir.len() as int;
    assert(p.last() == name.last());
    assert(name[name.len() - 1] != '/');
    assert forall|i: int| d < i < p.len() implies #[trigger] p[i] != '/' by {
        assert(p[i] == name[i - d - 1]);
    }
    lemma_last_place(p, '/', d, p.len() as int);
    assert(p.take(d) =~= dir);
}

/// On Windows a backslash separates components as a slash does; elsewhere it is a character like any
/// other. Nothing else of a path changes.
pub proof fn backslashes_separate_on_windows_alone(path: Seq<char>, i: int)
    requires
        0 <= i < path.len(),
    ensures
        slashed(path, Host::Posix) == path,
        slashed(path, Host::Windows).len() == path.len(),
        slashed(path, Host::Windows)[i] as int == if path[i] as int == 0x5C {
            0x2F
        } else {
            path[i] as int
        },
        !names_a_drive(path, Host::Posix),
{
}

/// A path in a directory is the directory, one slash and the name; in no directory it is the name.
pub proof fn one_slash_separates(dir: Seq<char>, name: Seq<char>)
    ensures
        path_in(Seq::empty(), name) == name,
        dir.len() > 0 && dir.last() != '/' ==> path_in(dir, name) == dir + seq!['/'] + name,
        path_in(dir + seq!['/'], name) == dir + seq!['/'] + name,
{
    assert(dir.push('/') =~= dir + seq!['/']);
    assert((dir + seq!['/']).last() == '/');
}

} // verus!

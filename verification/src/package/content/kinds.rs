//! Which files of `code/` and `meta/` share a content.

use super::assign::{
    assigned_each, assigned_each_is_sound, assigned_together, assigned_together_is_sound, inserted,
    next_index, present, sound, unassigned, Assigned,
};
use super::listing::{
    collected, entry_keys, entry_name, entry_order, entry_order_is_complete, executable_name,
    holds_file, Entry, OrderBy,
};
use super::placement::{
    all_assigned, due, every_staged_file_is_placed_once, lemma_due_is_from,
    lemma_packing_keeps_others, lemma_planned_contents, staged_assignments, staged_files,
};
use super::{
    assignment_is_sound, initial_assignment, planned, with_bundle, with_code, with_game, with_meta,
    with_meta_xml, with_singles, with_xml, StagedTree,
};
use crate::package::order::{key_le, order_is_sorted, text_le};
use crate::paths::path_in;
use crate::text::{begins_with, lower_case};
use vstd::prelude::*;

verus! {

/// The path leads below the directory.
pub open spec fn below(dir: Seq<char>, path: Seq<char>) -> bool {
    begins_with(path, dir.push('/'))
}

/// What a file of `code/` or `meta/` shares its content with.
pub enum Share {
    /// Nothing: the file is alone.
    Alone(Seq<char>),
    /// The boot files: the icon, the two boot textures and the boot sound.
    BootFiles,
    /// The other files of `meta/`.
    OtherMeta,
}

/// What the file at `path` shares its content with. Of `meta/`, `meta.xml`, the boot movie and the
/// boot logo are alone, and of `code/` every file.
pub open spec fn share(root: Seq<char>, path: Seq<char>) -> Share {
    let meta = path_in(root, "meta"@);
    if path == path_in(meta, "iconTex.tga"@) || path == path_in(meta, "bootTvTex.tga"@) || path
        == path_in(meta, "bootDrcTex.tga"@) || path == path_in(meta, "bootSound.btsnd"@) {
        Share::BootFiles
    } else if below(meta, path) && path != path_in(meta, "meta.xml"@) && path != path_in(
        meta,
        "bootMovie.h264"@,
    ) && path != path_in(meta, "bootLogoTex.tga"@) {
        Share::OtherMeta
    } else {
        Share::Alone(path)
    }
}

/// No two entries of a directory have one name, as in any file system.
pub open spec fn names_apart(entries: Seq<Entry>) -> bool {
    forall|i: int, j: int|
        0 <= i < j < entries.len() ==> entry_name(#[trigger] entries[i]) != entry_name(
            #[trigger] entries[j],
        )
}

/// Where the content of a file comes among the contents of `code/` and `meta/`: `app.xml`, `cos.xml`,
/// `meta.xml`, the boot files, the boot movie, the boot logo, the other files of `meta/`, and the
/// other files of `code/`.
pub open spec fn turn(root: Seq<char>, path: Seq<char>) -> int {
    let code = path_in(root, "code"@);
    let meta = path_in(root, "meta"@);
    if path == path_in(code, "app.xml"@) {
        1
    } else if path == path_in(code, "cos.xml"@) {
        2
    } else if path == path_in(meta, "meta.xml"@) {
        3
    } else if share(root, path) is BootFiles {
        4
    } else if path == path_in(meta, "bootMovie.h264"@) {
        5
    } else if path == path_in(meta, "bootLogoTex.tga"@) {
        6
    } else if below(meta, path) {
        7
    } else {
        8
    }
}

proof fn lemma_dirs(root: Seq<char>, p: Seq<char>)
    ensures
        ({
            let (code, content, meta) = (
                path_in(root, "code"@),
                path_in(root, "content"@),
                path_in(root, "meta"@),
            );
            &&& code.len() > 0 && code.last() != '/'
            &&& content.len() > 0 && content.last() != '/'
            &&& meta.len() > 0 && meta.last() != '/'
            &&& !(below(code, p) && below(meta, p))
            &&& !(below(code, p) && below(content, p))
            &&& !(below(content, p) && below(meta, p))
        }),
{
    reveal_strlit("code");
    reveal_strlit("content");
    reveal_strlit("meta");
    let n = path_in(root, Seq::empty()).len() as int;
    let (code, content, meta) = (
        path_in(root, "code"@),
        path_in(root, "content"@),
        path_in(root, "meta"@),
    );
    assert(code[n] == 'c' && code[n + 2] == 'd' && code.len() == n + 4);
    assert(content[n] == 'c' && content[n + 2] == 'n' && content.len() == n + 7);
    assert(meta[n] == 'm' && meta.len() == n + 4);
    if below(code, p) {
        let d = code.len() as int + 1;
        assert(p.take(d)[n] == p[n] && p.take(d)[n + 2] == p[n + 2]);
    }
    if below(content, p) {
        let d = content.len() as int + 1;
        assert(p.take(d)[n] == p[n] && p.take(d)[n + 2] == p[n + 2]);
    }
    if below(meta, p) {
        assert(p.take(meta.len() as int + 1)[n] == p[n]);
    }
}

proof fn lemma_below(dir: Seq<char>, name: Seq<char>)
    requires
        dir.len() > 0,
        dir.last() != '/',
    ensures
        below(dir, path_in(dir, name)),
        path_in(dir, name).skip(dir.len() as int + 1) == name,
{
    let p = path_in(dir, name);
    assert(p.take(dir.len() as int + 1) =~= dir.push('/'));
    assert(p.skip(dir.len() as int + 1) =~= name);
}

/// What tells the file names apart.
proof fn lemma_literals()
    ensures
        "app.xml"@[0] == 'a' && "cos.xml"@[0] == 'c',
        "meta.xml"@.len() == 8,
        "iconTex.tga"@.len() == 11,
        "bootTvTex.tga"@.len() == 13,
        "bootDrcTex.tga"@.len() == 14 && "bootDrcTex.tga"@[4] == 'D',
        "bootMovie.h264"@.len() == 14 && "bootMovie.h264"@[4] == 'M',
        "bootSound.btsnd"@.len() == 15 && "bootSound.btsnd"@[4] == 'S',
        "bootLogoTex.tga"@.len() == 15 && "bootLogoTex.tga"@[4] == 'L',
{
    reveal_strlit("app.xml");
    reveal_strlit("cos.xml");
    reveal_strlit("meta.xml");
    reveal_strlit("iconTex.tga");
    reveal_strlit("bootTvTex.tga");
    reveal_strlit("bootDrcTex.tga");
    reveal_strlit("bootSound.btsnd");
    reveal_strlit("bootMovie.h264");
    reveal_strlit("bootLogoTex.tga");
}

/// The turn of a file follows from what it shares its content with.
proof fn lemma_turn(root: Seq<char>, x: Seq<char>)
    ensures
        turn(root, x) == 4 <==> share(root, x) == Share::BootFiles,
        turn(root, x) == 7 <==> share(root, x) == Share::OtherMeta,
        turn(root, x) != 4 && turn(root, x) != 7 ==> share(root, x) == Share::Alone(x),
        turn(root, x) <= 2 ==> below(path_in(root, "code"@), x),
{
    lemma_dirs(root, x);
    lemma_literals();
    let meta = path_in(root, "meta"@);
    lemma_below(path_in(root, "code"@), "app.xml"@);
    lemma_below(path_in(root, "code"@), "cos.xml"@);
    lemma_below(meta, "meta.xml"@);
    lemma_below(meta, "iconTex.tga"@);
    lemma_below(meta, "bootTvTex.tga"@);
    lemma_below(meta, "bootDrcTex.tga"@);
    lemma_below(meta, "bootSound.btsnd"@);
    lemma_below(meta, "bootMovie.h264"@);
    lemma_below(meta, "bootLogoTex.tga"@);
}

/// The assignment gives every file so far, none later than turn `s`, a content of its type, and two
/// files one content exactly where they share it. The contents come in the order of the turns.
spec fn in_order(root: Seq<char>, a: Assigned, s: int) -> bool {
    let code = path_in(root, "code"@);
    let meta = path_in(root, "meta"@);
    &&& sound(a)
    &&& forall|p: Seq<char>|
        #[trigger] a.clusters.dom().contains(p) ==> {
            &&& below(code, p) || below(meta, p)
            &&& a.contents[a.clusters[p] as int].content_type == if below(code, p) {
                0x2001u16
            } else {
                0x2003u16
            }
            &&& turn(root, p) <= s
        }
    &&& forall|p: Seq<char>, q: Seq<char>|
        #[trigger] a.clusters.dom().contains(p) && #[trigger] a.clusters.dom().contains(q) ==> {
            &&& a.clusters[p] == a.clusters[q] <==> share(root, p) == share(root, q)
            &&& turn(root, p) < turn(root, q) ==> a.clusters[p] < a.clusters[q]
        }
}

/// The path belongs to a turn from `lo` to `hi` and to a content of this type.
spec fn belongs(root: Seq<char>, p: Seq<char>, content_type: u16, lo: int, hi: int) -> bool {
    &&& lo <= turn(root, p) <= hi
    &&& below(path_in(root, "code"@), p) && content_type == 0x2001 || below(
        path_in(root, "meta"@),
        p,
    ) && content_type == 0x2003
}

/// The paths belong to turns from `lo` to `hi`, and come in their order.
spec fn all_belong(
    root: Seq<char>,
    paths: Seq<Seq<char>>,
    content_type: u16,
    lo: int,
    hi: int,
) -> bool {
    &&& forall|i: int|
        0 <= i < paths.len() ==> belongs(root, #[trigger] paths[i], content_type, lo, hi)
    &&& forall|i: int, j: int|
        0 <= i < j < paths.len() ==> turn(root, #[trigger] paths[i]) <= turn(
            root,
            #[trigger] paths[j],
        )
}

/// `b` has the files of `a` and those of `paths`.
spec fn adds(a: Assigned, b: Assigned, paths: Seq<Seq<char>>, k: int) -> bool {
    &&& forall|p: Seq<char>|
        #[trigger] b.clusters.dom().contains(p) <==> a.clusters.dom().contains(p)
            || paths.take(k).contains(p)
}

proof fn lemma_each(
    root: Seq<char>,
    a: Assigned,
    paths: Seq<Seq<char>>,
    content_type: u16,
    lo: int,
    hi: int,
    k: int,
)
    requires
        in_order(root, a, lo - 1),
        !(lo <= 4 <= hi) && !(lo <= 7 <= hi),
        lo <= hi,
        0 <= k <= paths.len(),
        a.contents.len() + k <= 0x1_0000,
        all_belong(root, paths, content_type, lo, hi),
        paths.no_duplicates(),
    ensures
        in_order(root, assigned_each(a, paths, content_type, k), hi),
        forall|i: int|
            0 <= i < k ==> assigned_each(a, paths, content_type, k).clusters[#[trigger] paths[i]]
                == a.contents.len() + i,
        adds(a, assigned_each(a, paths, content_type, k), paths, k),
        assigned_each(a, paths, content_type, k).contents.len() == a.contents.len() + k,
    decreases k,
{
    assigned_each_is_sound(a, paths, content_type, k);
    let r = assigned_each(a, paths, content_type, k);
    if k == 0 {
        assert(paths.take(0) =~= Seq::<Seq<char>>::empty());
    } else {
        lemma_each(root, a, paths, content_type, lo, hi, k - 1);
        let b = assigned_each(a, paths, content_type, k - 1);
        let p = paths[k - 1];
        let (front, upto) = (paths.take(k - 1), paths.take(k));
        assert(belongs(root, p, content_type, lo, hi));
        assert(paths.take(k) =~= paths.take(k - 1).push(p));
        assert(!b.clusters.dom().contains(p)) by {
            if b.clusters.dom().contains(p) {
                assert(paths.take(k - 1).contains(p));
                let i = choose|i: int| 0 <= i < k - 1 && front[i] == p;
                assert(paths[i] == p);
            }
        }
        assert forall|x: Seq<char>|
            #[trigger] r.clusters.dom().contains(x) <==> a.clusters.dom().contains(x)
            || paths.take(k).contains(x) by {
            assert(r.clusters.dom().contains(x) <==> b.clusters.dom().contains(x) || x == p);
            if paths.take(k).contains(x) && x != p {
                let i = choose|i: int| 0 <= i < k && upto[i] == x;
                assert(paths.take(k - 1)[i] == x);
            }
            if paths.take(k - 1).contains(x) {
                let i = choose|i: int| 0 <= i < k - 1 && front[i] == x;
                assert(paths.take(k)[i] == x);
            }
            assert(paths.take(k)[k - 1] == p);
        }
        lemma_dirs(root, p);
        lemma_turn(root, p);
        assert forall|x: Seq<char>| #[trigger] b.clusters.dom().contains(x) implies turn(root, x)
            <= turn(root, p) by {
            if front.contains(x) {
                let i = choose|i: int| 0 <= i < k - 1 && front[i] == x;
                assert(turn(root, paths[i]) <= turn(root, paths[k - 1]));
            }
        }
        assert forall|x: Seq<char>, y: Seq<char>|
            #[trigger] r.clusters.dom().contains(x) && #[trigger] r.clusters.dom().contains(
            y,
        ) implies {
            &&& r.clusters[x] == r.clusters[y] <==> share(root, x) == share(root, y)
            &&& turn(root, x) < turn(root, y) ==> r.clusters[x] < r.clusters[y]
        } by {
            assert(x == p || b.clusters.dom().contains(x));
            assert(y == p || b.clusters.dom().contains(y));
        }
        assert forall|i: int| 0 <= i < k implies r.clusters[#[trigger] paths[i]]
            == a.contents.len() + i by {
            if i < k - 1 {
                assert(paths[i] != p);
                assert(b.clusters[paths[i]] == a.contents.len() + i);
            }
        }
        assert forall|x: Seq<char>| #[trigger] r.clusters.dom().contains(x) implies {
            &&& below(path_in(root, "code"@), x) || below(path_in(root, "meta"@), x)
            &&& r.contents[r.clusters[x] as int].content_type == if below(
                path_in(root, "code"@),
                x,
            ) {
                0x2001u16
            } else {
                0x2003u16
            }
            &&& turn(root, x) <= hi
        } by {
            assert(x == p || b.clusters.dom().contains(x));
        }
    }
}

proof fn lemma_inserted(clusters: Map<Seq<char>, u16>, paths: Seq<Seq<char>>, index: u16, k: int)
    requires
        0 <= k <= paths.len(),
    ensures
        forall|p: Seq<char>|
            #[trigger] inserted(clusters, paths, index, k).dom().contains(p)
                <==> clusters.dom().contains(p) || paths.take(k).contains(p),
        forall|p: Seq<char>|
            #[trigger] inserted(clusters, paths, index, k).dom().contains(p) ==> inserted(
                clusters,
                paths,
                index,
                k,
            )[p] == if paths.take(k).contains(p) {
                index
            } else {
                clusters[p]
            },
    decreases k,
{
    if k == 0 {
        assert(paths.take(0) =~= Seq::<Seq<char>>::empty());
    } else {
        lemma_inserted(clusters, paths, index, k - 1);
        let b = inserted(clusters, paths, index, k - 1);
        let r = inserted(clusters, paths, index, k);
        let last = paths[k - 1];
        let (front, upto) = (paths.take(k - 1), paths.take(k));
        assert forall|x: Seq<char>|
            paths.take(k).contains(x) <==> paths.take(k - 1).contains(x) || x == last by {
            if paths.take(k).contains(x) && x != last {
                let i = choose|i: int| 0 <= i < k && upto[i] == x;
                assert(paths.take(k - 1)[i] == x);
            }
            if paths.take(k - 1).contains(x) {
                let i = choose|i: int| 0 <= i < k - 1 && front[i] == x;
                assert(paths.take(k)[i] == x);
            }
            assert(paths.take(k)[k - 1] == last);
        }
        assert forall|p: Seq<char>| #[trigger] r.dom().contains(p) implies r[p] == if paths.take(
            k,
        ).contains(p) {
            index
        } else {
            clusters[p]
        } by {
            if p != last {
                assert(b.dom().contains(p));
            }
        }
        assert forall|p: Seq<char>|
            #[trigger] r.dom().contains(p) <==> clusters.dom().contains(p) || paths.take(
            k,
        ).contains(p) by {
            assert(r.dom().contains(p) <==> b.dom().contains(p) || p == last);
        }
    }
}

proof fn lemma_together(root: Seq<char>, a: Assigned, paths: Seq<Seq<char>>, s: int)
    requires
        in_order(root, a, s - 1),
        s == 4 || s == 7,
        all_belong(root, paths, 0x2003, s, s),
        assigned_together(a, paths, 0x2003).contents.len() <= 0x1_0000,
    ensures
        in_order(root, assigned_together(a, paths, 0x2003), s),
        adds(a, assigned_together(a, paths, 0x2003), paths, paths.len() as int),
{
    let r = assigned_together(a, paths, 0x2003);
    let n = paths.len() as int;
    assigned_together_is_sound(a, paths, 0x2003);
    assert(paths.take(n) =~= paths);
    if n > 0 {
        lemma_inserted(a.clusters, paths, next_index(a), n);
        assert forall|x: Seq<char>| #[trigger] r.clusters.dom().contains(x) implies {
            &&& below(path_in(root, "code"@), x) || below(path_in(root, "meta"@), x)
            &&& r.contents[r.clusters[x] as int].content_type == if below(
                path_in(root, "code"@),
                x,
            ) {
                0x2001u16
            } else {
                0x2003u16
            }
            &&& turn(root, x) <= s
        } by {
            lemma_dirs(root, x);
            if paths.contains(x) {
                let i = choose|i: int| 0 <= i < n && paths[i] == x;
                assert(belongs(root, paths[i], 0x2003, s, s));
            } else {
                assert(a.clusters.dom().contains(x));
            }
        }
        assert forall|x: Seq<char>, y: Seq<char>|
            #[trigger] r.clusters.dom().contains(x) && #[trigger] r.clusters.dom().contains(
            y,
        ) implies {
            &&& r.clusters[x] == r.clusters[y] <==> share(root, x) == share(root, y)
            &&& turn(root, x) < turn(root, y) ==> r.clusters[x] < r.clusters[y]
        } by {
            lemma_turn_and_share(root, paths, s, x);
            lemma_turn_and_share(root, paths, s, y);
            if !paths.contains(x) {
                assert(a.clusters.dom().contains(x));
            }
            if !paths.contains(y) {
                assert(a.clusters.dom().contains(y));
            }
        }
    }
}

proof fn lemma_turn_and_share(root: Seq<char>, paths: Seq<Seq<char>>, s: int, x: Seq<char>)
    requires
        s == 4 || s == 7,
        all_belong(root, paths, 0x2003, s, s),
    ensures
        paths.contains(x) ==> turn(root, x) == s && share(root, x) == if s == 4 {
            Share::BootFiles
        } else {
            Share::OtherMeta
        },
        turn(root, x) < s ==> share(root, x) != if s == 4 {
            Share::BootFiles
        } else {
            Share::OtherMeta
        },
{
    if paths.contains(x) {
        let i = choose|i: int| 0 <= i < paths.len() && paths[i] == x;
        assert(belongs(root, paths[i], 0x2003, s, s));
    }
    lemma_turn(root, x);
}

/// One of the first `k` names, in the directory.
spec fn named_in(dir: Seq<char>, names: Seq<Seq<char>>, k: int, p: Seq<char>) -> bool {
    exists|j: int| 0 <= j < k && p == path_in(dir, #[trigger] names[j])
}

proof fn lemma_present(dir: Seq<char>, entries: Seq<Entry>, names: Seq<Seq<char>>, k: int)
    requires
        dir.len() > 0,
        dir.last() != '/',
        0 <= k <= names.len(),
        names.no_duplicates(),
    ensures
        ({
            let r = present(dir, entries, names, k);
            &&& r.no_duplicates()
            &&& forall|i: int| 0 <= i < r.len() ==> named_in(dir, names, k, #[trigger] r[i])
            &&& forall|j: int|
                0 <= j < k && holds_file(entries, #[trigger] names[j]) ==> r.contains(
                    path_in(dir, names[j]),
                )
        }),
    decreases k,
{
    let r = present(dir, entries, names, k);
    if k > 0 {
        lemma_present(dir, entries, names, k - 1);
        let b = present(dir, entries, names, k - 1);
        let p = path_in(dir, names[k - 1]);
        lemma_below(dir, names[k - 1]);
        assert forall|i: int| 0 <= i < b.len() implies #[trigger] b[i] != p && named_in(
            dir,
            names,
            k,
            b[i],
        ) by {
            assert(named_in(dir, names, k - 1, b[i]));
            let j = choose|j: int| 0 <= j < k - 1 && b[i] == path_in(dir, #[trigger] names[j]);
            lemma_below(dir, names[j]);
            assert(0 <= j < k && b[i] == path_in(dir, names[j]));
        }
        assert(named_in(dir, names, k, p)) by {
            assert(0 <= k - 1 < k && p == path_in(dir, names[k - 1]));
        }
        assert forall|i: int| 0 <= i < r.len() implies named_in(
            dir,
            names,
            k,
            #[trigger] r[i],
        ) by {
            if i < b.len() {
                assert(r[i] == b[i]);
            }
        }
        assert forall|j: int| 0 <= j < k && holds_file(entries, #[trigger] names[j]) implies r.contains(
            path_in(dir, names[j]),
        ) by {
            if j < k - 1 {
                let q = path_in(dir, names[j]);
                assert(b.contains(q));
                let i = choose|i: int| 0 <= i < b.len() && b[i] == q;
                assert(r[i] == q);
            } else {
                assert(r[r.len() - 1] == p);
            }
        }
    }
}

/// A regular file of the directory without a content, from one of the first `k` places of the order.
spec fn left_over(
    dir: Seq<char>,
    entries: Seq<Entry>,
    order: Seq<int>,
    clusters: Map<Seq<char>, u16>,
    k: int,
    p: Seq<char>,
) -> bool {
    exists|m: int|
        {
            &&& 0 <= m < k
            &&& holds_file(entries, entry_name(entries[#[trigger] order[m]]))
            &&& p == path_in(dir, entry_name(entries[order[m]]))
            &&& !clusters.dom().contains(p)
        }
}

proof fn lemma_unassigned(
    dir: Seq<char>,
    entries: Seq<Entry>,
    order: Seq<int>,
    clusters: Map<Seq<char>, u16>,
    k: int,
)
    requires
        dir.len() > 0,
        dir.last() != '/',
        names_apart(entries),
        order.len() == entries.len(),
        forall|m: int| 0 <= m < order.len() ==> 0 <= #[trigger] order[m] < entries.len(),
        order.no_duplicates(),
        0 <= k <= entries.len(),
    ensures
        ({
            let r = unassigned(dir, entries, order, clusters, k);
            &&& r.no_duplicates()
            &&& forall|i: int|
                0 <= i < r.len() ==> left_over(dir, entries, order, clusters, k, #[trigger] r[i])
        }),
    decreases k,
{
    let r = unassigned(dir, entries, order, clusters, k);
    if k > 0 {
        lemma_unassigned(dir, entries, order, clusters, k - 1);
        let b = unassigned(dir, entries, order, clusters, k - 1);
        let x = order[k - 1];
        let p = path_in(dir, entry_name(entries[x]));
        lemma_below(dir, entry_name(entries[x]));
        assert forall|i: int| 0 <= i < b.len() implies #[trigger] b[i] != p && left_over(
            dir,
            entries,
            order,
            clusters,
            k,
            b[i],
        ) by {
            assert(left_over(dir, entries, order, clusters, k - 1, b[i]));
            let m = choose|m: int|
                {
                    &&& 0 <= m < k - 1
                    &&& holds_file(entries, entry_name(entries[#[trigger] order[m]]))
                    &&& b[i] == path_in(dir, entry_name(entries[order[m]]))
                    &&& !clusters.dom().contains(b[i])
                };
            lemma_below(dir, entry_name(entries[order[m]]));
            let y = order[m];
            assert(x != y);
            if x < y {
                assert(entry_name(entries[x]) != entry_name(entries[y]));
            } else {
                assert(entry_name(entries[y]) != entry_name(entries[x]));
            }
            assert(0 <= m < k && b[i] == path_in(dir, entry_name(entries[order[m]])));
        }
        if r.len() > b.len() {
            assert(holds_file(entries, entry_name(entries[x])));
            assert(0 <= k - 1 < k && p == path_in(dir, entry_name(entries[order[k - 1]])));
            assert(left_over(dir, entries, order, clusters, k, p));
        }
        assert forall|i: int| 0 <= i < r.len() implies left_over(
            dir,
            entries,
            order,
            clusters,
            k,
            #[trigger] r[i],
        ) by {
            if i < b.len() {
                assert(r[i] == b[i]);
            }
        }
    }
}

/// Both are in the directory, the first before the second in the order.
spec fn in_front(
    dir: Seq<char>,
    entries: Seq<Entry>,
    order: Seq<int>,
    p: Seq<char>,
    q: Seq<char>,
) -> bool {
    exists|m: int, n: int|
        0 <= m < n < order.len() && p == path_in(dir, entry_name(entries[#[trigger] order[m]])) && q
            == path_in(dir, entry_name(entries[#[trigger] order[n]]))
}

proof fn lemma_unassigned_order(
    dir: Seq<char>,
    entries: Seq<Entry>,
    order: Seq<int>,
    clusters: Map<Seq<char>, u16>,
    k: int,
    i: int,
    j: int,
)
    requires
        dir.len() > 0,
        dir.last() != '/',
        names_apart(entries),
        order.len() == entries.len(),
        forall|m: int| 0 <= m < order.len() ==> 0 <= #[trigger] order[m] < entries.len(),
        order.no_duplicates(),
        0 <= k <= entries.len(),
        0 <= i < j < unassigned(dir, entries, order, clusters, k).len(),
    ensures
        ({
            let r = unassigned(dir, entries, order, clusters, k);
            in_front(dir, entries, order, r[i], r[j])
        }),
    decreases k,
{
    let r = unassigned(dir, entries, order, clusters, k);
    if k > 0 {
        let b = unassigned(dir, entries, order, clusters, k - 1);
        if j < b.len() {
            lemma_unassigned_order(dir, entries, order, clusters, k - 1, i, j);
        } else {
            lemma_unassigned(dir, entries, order, clusters, k - 1);
            assert(left_over(dir, entries, order, clusters, k - 1, b[i]));
            let m = choose|m: int|
                {
                    &&& 0 <= m < k - 1
                    &&& holds_file(entries, entry_name(entries[#[trigger] order[m]]))
                    &&& b[i] == path_in(dir, entry_name(entries[order[m]]))
                    &&& !clusters.dom().contains(b[i])
                };
            assert(r[i] == b[i]);
            assert(r[j] == path_in(dir, entry_name(entries[order[k - 1]])));
            assert(0 <= m < k - 1 < order.len());
        }
    }
}

proof fn lemma_entry_order(entries: Seq<Entry>, by: OrderBy)
    ensures
        entry_order(entries, by).len() == entries.len(),
        forall|m: int|
            0 <= m < entries.len() ==> 0 <= #[trigger] entry_order(entries, by)[m] < entries.len(),
        entry_order(entries, by).no_duplicates(),
{
    entry_order_is_complete(entries, by);
    order_is_sorted(entry_keys(entries, by), entries.len() as int);
    let p = entry_order(entries, by);
    assert forall|i: int, j: int| 0 <= i < p.len() && 0 <= j < p.len() && i != j implies p[i]
        != p[j] by {
        if i < j {
            assert(p[i] != p[j]);
        } else {
            assert(p[j] != p[i]);
        }
    }
}

/// The names of a directory's own files that have a turn of their own all have a content.
spec fn has_all(a: Assigned, dir: Seq<char>, entries: Seq<Entry>, names: Seq<Seq<char>>) -> bool {
    forall|j: int|
        0 <= j < names.len() && holds_file(entries, #[trigger] names[j]) ==> a.clusters.dom().contains(
            path_in(dir, names[j]),
        )
}

proof fn lemma_named_each(
    root: Seq<char>,
    a: Assigned,
    dir: Seq<char>,
    entries: Seq<Entry>,
    names: Seq<Seq<char>>,
    content_type: u16,
    lo: int,
    hi: int,
)
    requires
        in_order(root, a, lo - 1),
        lo <= hi,
        !(lo <= 4 <= hi) && !(lo <= 7 <= hi),
        dir.len() > 0,
        dir.last() != '/',
        names.no_duplicates(),
        1 <= names.len() <= 2,
        forall|j: int|
            0 <= j < names.len() ==> belongs(
                root,
                path_in(dir, #[trigger] names[j]),
                content_type,
                lo,
                hi,
            ),
        names.len() == 2 ==> turn(root, path_in(dir, names[0])) <= turn(
            root,
            path_in(dir, names[1]),
        ),
        a.contents.len() + present(dir, entries, names, names.len() as int).len() <= 0x1_0000,
    ensures
        ({
            let paths = present(dir, entries, names, names.len() as int);
            let b = assigned_each(a, paths, content_type, paths.len() as int);
            &&& in_order(root, b, hi)
            &&& has_all(b, dir, entries, names)
            &&& forall|p: Seq<char>|
                a.clusters.dom().contains(p) ==> #[trigger] b.clusters.dom().contains(p)
        }),
{
    let n = names.len() as int;
    let paths = present(dir, entries, names, n);
    lemma_present(dir, entries, names, n);
    assert forall|i: int| 0 <= i < paths.len() implies belongs(
        root,
        #[trigger] paths[i],
        content_type,
        lo,
        hi,
    ) by {
        assert(named_in(dir, names, n, paths[i]));
        let j = choose|j: int| 0 <= j < n && paths[i] == path_in(dir, #[trigger] names[j]);
        assert(belongs(root, path_in(dir, names[j]), content_type, lo, hi));
    }
    reveal_with_fuel(present, 3);
    lemma_each(root, a, paths, content_type, lo, hi, paths.len() as int);
    assert(paths.take(paths.len() as int) =~= paths);
}

proof fn lemma_named_together(
    root: Seq<char>,
    a: Assigned,
    dir: Seq<char>,
    entries: Seq<Entry>,
    names: Seq<Seq<char>>,
)
    requires
        in_order(root, a, 3),
        dir.len() > 0,
        dir.last() != '/',
        names.no_duplicates(),
        forall|j: int|
            0 <= j < names.len() ==> belongs(
                root,
                path_in(dir, #[trigger] names[j]),
                0x2003,
                4,
                4,
            ),
        assigned_together(
            a,
            present(dir, entries, names, names.len() as int),
            0x2003,
        ).contents.len() <= 0x1_0000,
    ensures
        ({
            let paths = present(dir, entries, names, names.len() as int);
            let b = assigned_together(a, paths, 0x2003);
            &&& in_order(root, b, 4)
            &&& has_all(b, dir, entries, names)
            &&& forall|p: Seq<char>|
                a.clusters.dom().contains(p) ==> #[trigger] b.clusters.dom().contains(p)
        }),
{
    let n = names.len() as int;
    let paths = present(dir, entries, names, n);
    lemma_present(dir, entries, names, n);
    assert forall|i: int| 0 <= i < paths.len() implies belongs(
        root,
        #[trigger] paths[i],
        0x2003,
        4,
        4,
    ) by {
        assert(named_in(dir, names, n, paths[i]));
        let j = choose|j: int| 0 <= j < n && paths[i] == path_in(dir, #[trigger] names[j]);
        assert(belongs(root, path_in(dir, names[j]), 0x2003, 4, 4));
    }
    lemma_together(root, a, paths, 4);
    assert(paths.take(paths.len() as int) =~= paths);
}

spec fn xml_names() -> Seq<Seq<char>> {
    seq!["app.xml"@, "cos.xml"@]
}

spec fn boot_names() -> Seq<Seq<char>> {
    seq!["iconTex.tga"@, "bootTvTex.tga"@, "bootDrcTex.tga"@, "bootSound.btsnd"@]
}

spec fn single_names() -> Seq<Seq<char>> {
    seq!["bootMovie.h264"@, "bootLogoTex.tga"@]
}

proof fn lemma_names_belong(root: Seq<char>)
    ensures
        ({
            let code = path_in(root, "code"@);
            let meta = path_in(root, "meta"@);
            &&& code.len() > 0 && code.last() != '/' && meta.len() > 0 && meta.last() != '/'
            &&& xml_names().no_duplicates() && boot_names().no_duplicates()
                && single_names().no_duplicates()
            &&& forall|j: int|
                0 <= j < 2 ==> belongs(
                    root,
                    path_in(code, #[trigger] xml_names()[j]),
                    0x2001,
                    j + 1,
                    j + 1,
                )
            &&& belongs(root, path_in(meta, "meta.xml"@), 0x2003, 3, 3)
            &&& forall|j: int|
                0 <= j < 4 ==> belongs(
                    root,
                    path_in(meta, #[trigger] boot_names()[j]),
                    0x2003,
                    4,
                    4,
                )
            &&& forall|j: int|
                0 <= j < 2 ==> belongs(
                    root,
                    path_in(meta, #[trigger] single_names()[j]),
                    0x2003,
                    j + 5,
                    j + 5,
                )
        }),
{
    let code = path_in(root, "code"@);
    let meta = path_in(root, "meta"@);
    lemma_literals();
    lemma_dirs(root, Seq::empty());
    lemma_below(code, "app.xml"@);
    lemma_below(code, "cos.xml"@);
    lemma_below(meta, "meta.xml"@);
    lemma_below(meta, "iconTex.tga"@);
    lemma_below(meta, "bootTvTex.tga"@);
    lemma_below(meta, "bootDrcTex.tga"@);
    lemma_below(meta, "bootSound.btsnd"@);
    lemma_below(meta, "bootMovie.h264"@);
    lemma_below(meta, "bootLogoTex.tga"@);
    lemma_dirs(root, path_in(meta, "meta.xml"@));
    lemma_dirs(root, path_in(meta, "iconTex.tga"@));
    lemma_dirs(root, path_in(meta, "bootTvTex.tga"@));
    lemma_dirs(root, path_in(meta, "bootDrcTex.tga"@));
    lemma_dirs(root, path_in(meta, "bootSound.btsnd"@));
    lemma_dirs(root, path_in(meta, "bootMovie.h264"@));
    lemma_dirs(root, path_in(meta, "bootLogoTex.tga"@));
    assert(xml_names()[0] != xml_names()[1]);
    assert(single_names()[0] != single_names()[1]);
}

/// The files of `meta/` with a turn of their own all have a content.
spec fn meta_is_done(root: Seq<char>, t: StagedTree, a: Assigned) -> bool {
    let meta = path_in(root, "meta"@);
    &&& has_all(a, meta, t.meta@, seq!["meta.xml"@])
    &&& has_all(a, meta, t.meta@, boot_names())
    &&& has_all(a, meta, t.meta@, single_names())
}

proof fn lemma_rest_of_meta(root: Seq<char>, t: StagedTree, a: Assigned)
    requires
        names_apart(t.meta@),
        in_order(root, a, 6),
        meta_is_done(root, t, a),
    ensures
        ({
            let order = entry_order(t.meta@, OrderBy::Name);
            let rest = unassigned(
                path_in(root, "meta"@),
                t.meta@,
                order,
                a.clusters,
                t.meta@.len() as int,
            );
            all_belong(root, rest, 0x2003, 7, 7)
        }),
{
    let meta = path_in(root, "meta"@);
    let order = entry_order(t.meta@, OrderBy::Name);
    let n = t.meta@.len() as int;
    let rest = unassigned(meta, t.meta@, order, a.clusters, n);
    lemma_names_belong(root);
    lemma_entry_order(t.meta@, OrderBy::Name);
    lemma_unassigned(meta, t.meta@, order, a.clusters, n);
    assert forall|i: int| 0 <= i < rest.len() implies belongs(
        root,
        #[trigger] rest[i],
        0x2003,
        7,
        7,
    ) by {
        assert(left_over(meta, t.meta@, order, a.clusters, n, rest[i]));
        let p = rest[i];
        let m = choose|m: int|
            {
                &&& 0 <= m < n
                &&& holds_file(t.meta@, entry_name(t.meta@[#[trigger] order[m]]))
                &&& p == path_in(meta, entry_name(t.meta@[order[m]]))
                &&& !a.clusters.dom().contains(p)
            };
        let name = entry_name(t.meta@[order[m]]);
        lemma_below(meta, name);
        lemma_dirs(root, p);
        lemma_below(path_in(root, "code"@), "app.xml"@);
        lemma_below(path_in(root, "code"@), "cos.xml"@);
        lemma_same_name(meta, name, "meta.xml"@);
        lemma_same_name(meta, name, "iconTex.tga"@);
        lemma_same_name(meta, name, "bootTvTex.tga"@);
        lemma_same_name(meta, name, "bootDrcTex.tga"@);
        lemma_same_name(meta, name, "bootSound.btsnd"@);
        lemma_same_name(meta, name, "bootMovie.h264"@);
        lemma_same_name(meta, name, "bootLogoTex.tga"@);
        assert(seq!["meta.xml"@][0] == "meta.xml"@);
        assert(boot_names()[0] == "iconTex.tga"@ && boot_names()[1] == "bootTvTex.tga"@);
        assert(boot_names()[2] == "bootDrcTex.tga"@ && boot_names()[3] == "bootSound.btsnd"@);
        assert(single_names()[0] == "bootMovie.h264"@ && single_names()[1] == "bootLogoTex.tga"@);
    }
}

proof fn lemma_same_name(dir: Seq<char>, a: Seq<char>, b: Seq<char>)
    requires
        dir.len() > 0,
        dir.last() != '/',
    ensures
        path_in(dir, a) == path_in(dir, b) ==> a == b,
{
    lemma_below(dir, a);
    lemma_below(dir, b);
}

proof fn lemma_rest_of_code(root: Seq<char>, t: StagedTree, a: Assigned)
    requires
        names_apart(t.code@),
        in_order(root, a, 7),
        has_all(a, path_in(root, "code"@), t.code@, xml_names()),
    ensures
        ({
            let order = entry_order(t.code@, OrderBy::ExecutableFirst);
            let rest = unassigned(
                path_in(root, "code"@),
                t.code@,
                order,
                a.clusters,
                t.code@.len() as int,
            );
            rest.no_duplicates() && all_belong(root, rest, 0x2001, 8, 8)
        }),
{
    let code = path_in(root, "code"@);
    let meta = path_in(root, "meta"@);
    let order = entry_order(t.code@, OrderBy::ExecutableFirst);
    let n = t.code@.len() as int;
    let rest = unassigned(code, t.code@, order, a.clusters, n);
    lemma_names_belong(root);
    lemma_entry_order(t.code@, OrderBy::ExecutableFirst);
    lemma_unassigned(code, t.code@, order, a.clusters, n);
    assert forall|i: int| 0 <= i < rest.len() implies belongs(
        root,
        #[trigger] rest[i],
        0x2001,
        8,
        8,
    ) by {
        assert(left_over(code, t.code@, order, a.clusters, n, rest[i]));
        let p = rest[i];
        let m = choose|m: int|
            {
                &&& 0 <= m < n
                &&& holds_file(t.code@, entry_name(t.code@[#[trigger] order[m]]))
                &&& p == path_in(code, entry_name(t.code@[order[m]]))
                &&& !a.clusters.dom().contains(p)
            };
        let name = entry_name(t.code@[order[m]]);
        lemma_below(code, name);
        lemma_dirs(root, p);
        lemma_below(meta, "meta.xml"@);
        lemma_below(meta, "iconTex.tga"@);
        lemma_below(meta, "bootTvTex.tga"@);
        lemma_below(meta, "bootDrcTex.tga"@);
        lemma_below(meta, "bootSound.btsnd"@);
        lemma_below(meta, "bootMovie.h264"@);
        lemma_below(meta, "bootLogoTex.tga"@);
        lemma_same_name(code, name, "app.xml"@);
        lemma_same_name(code, name, "cos.xml"@);
        assert(xml_names()[0] == "app.xml"@ && xml_names()[1] == "cos.xml"@);
    }
}

proof fn lemma_sizes(root: Seq<char>, t: StagedTree)
    ensures
        ({
            let code = path_in(root, "code"@);
            let meta = path_in(root, "meta"@);
            let xml = present(code, t.code@, xml_names(), 2);
            let meta_xml = present(meta, t.meta@, seq!["meta.xml"@], 1);
            let singles = present(meta, t.meta@, single_names(), 2);
            &&& initial_assignment().contents.len() + xml.len() == with_xml(root, t).contents.len()
            &&& with_xml(root, t).contents.len() + meta_xml.len() == with_meta_xml(
                root,
                t,
            ).contents.len()
            &&& with_meta_xml(root, t).contents.len() <= with_bundle(root, t).contents.len()
            &&& with_bundle(root, t).contents.len() + singles.len() == with_singles(
                root,
                t,
            ).contents.len()
            &&& with_singles(root, t).contents.len() <= with_meta(root, t).contents.len()
        }),
{
    let code = path_in(root, "code"@);
    let meta = path_in(root, "meta"@);
    let xml = present(code, t.code@, xml_names(), 2);
    let meta_xml = present(meta, t.meta@, seq!["meta.xml"@], 1);
    let bundle = present(meta, t.meta@, boot_names(), 4);
    let singles = present(meta, t.meta@, single_names(), 2);
    let d = with_singles(root, t);
    let order = entry_order(t.meta@, OrderBy::Name);
    let left = unassigned(meta, t.meta@, order, d.clusters, t.meta@.len() as int);
    assigned_each_is_sound(initial_assignment(), xml, 0x2001, xml.len() as int);
    assigned_each_is_sound(with_xml(root, t), meta_xml, 0x2003, meta_xml.len() as int);
    assigned_together_is_sound(with_meta_xml(root, t), bundle, 0x2003);
    assigned_each_is_sound(with_bundle(root, t), singles, 0x2003, singles.len() as int);
    assigned_together_is_sound(d, left, 0x2003);
}

/// The files of `code/` that come last, in their order.
spec fn rest_of_code(root: Seq<char>, t: StagedTree) -> Seq<Seq<char>> {
    unassigned(
        path_in(root, "code"@),
        t.code@,
        entry_order(t.code@, OrderBy::ExecutableFirst),
        with_meta(root, t).clusters,
        t.code@.len() as int,
    )
}

proof fn lemma_system_in_order(root: Seq<char>, t: StagedTree)
    requires
        names_apart(t.code@),
        names_apart(t.meta@),
        with_code(root, t).contents.len() <= 0x1_0000,
    ensures
        in_order(root, with_code(root, t), 8),
        in_order(root, with_meta(root, t), 7),
        adds(
            with_meta(root, t),
            with_code(root, t),
            rest_of_code(root, t),
            rest_of_code(root, t).len() as int,
        ),
        forall|i: int|
            0 <= i < rest_of_code(root, t).len() ==> with_code(root, t).clusters[
            #[trigger] rest_of_code(root, t)[i]] == with_meta(root, t).contents.len() + i,
{
    let code = path_in(root, "code"@);
    let meta = path_in(root, "meta"@);
    lemma_names_belong(root);
    lemma_sizes(root, t);
    let e = with_meta(root, t);
    let order = entry_order(t.code@, OrderBy::ExecutableFirst);
    let rest = unassigned(code, t.code@, order, e.clusters, t.code@.len() as int);
    lemma_each_len(e, rest, rest.len() as int);
    let (a, b, c, d) = (
        with_xml(root, t),
        with_meta_xml(root, t),
        with_bundle(root, t),
        with_singles(root, t),
    );
    let start = initial_assignment();
    assert(sound(start));
    assert(in_order(root, start, 0));
    lemma_named_each(root, start, code, t.code@, xml_names(), 0x2001, 1, 2);
    let one = seq!["meta.xml"@];
    assert(one.no_duplicates());
    assert forall|j: int| 0 <= j < one.len() implies belongs(
        root,
        path_in(meta, #[trigger] one[j]),
        0x2003,
        3,
        3,
    ) by {}
    lemma_named_each(root, a, meta, t.meta@, one, 0x2003, 3, 3);
    lemma_named_together(root, b, meta, t.meta@, boot_names());
    lemma_named_each(root, c, meta, t.meta@, single_names(), 0x2003, 5, 6);
    assert(meta_is_done(root, t, d)) by {
        assert(has_all(b, meta, t.meta@, one));
        assert(has_all(c, meta, t.meta@, boot_names()));
        assert(has_all(d, meta, t.meta@, one)) by {
            assert forall|j: int| 0 <= j < one.len() && holds_file(
                t.meta@,
                #[trigger] one[j],
            ) implies d.clusters.dom().contains(path_in(meta, one[j])) by {
                assert(b.clusters.dom().contains(path_in(meta, one[j])));
                assert(c.clusters.dom().contains(path_in(meta, one[j])));
            }
        }
        assert(has_all(d, meta, t.meta@, boot_names())) by {
            assert forall|j: int| 0 <= j < boot_names().len() && holds_file(
                t.meta@,
                #[trigger] boot_names()[j],
            ) implies d.clusters.dom().contains(path_in(meta, boot_names()[j])) by {
                assert(c.clusters.dom().contains(path_in(meta, boot_names()[j])));
            }
        }
    }
    lemma_rest_of_meta(root, t, d);
    let by_name = entry_order(t.meta@, OrderBy::Name);
    let left = unassigned(meta, t.meta@, by_name, d.clusters, t.meta@.len() as int);
    lemma_together(root, d, left, 7);
    assert(has_all(e, code, t.code@, xml_names())) by {
        assert forall|j: int| 0 <= j < xml_names().len() && holds_file(
            t.code@,
            #[trigger] xml_names()[j],
        ) implies e.clusters.dom().contains(path_in(code, xml_names()[j])) by {
            let p = path_in(code, xml_names()[j]);
            assert(a.clusters.dom().contains(p));
            assert(b.clusters.dom().contains(p));
            assert(c.clusters.dom().contains(p));
            assert(d.clusters.dom().contains(p));
        }
    }
    lemma_rest_of_code(root, t, e);
    lemma_each(root, e, rest, 0x2001, 8, 8, rest.len() as int);
}

proof fn lemma_each_len(a: Assigned, paths: Seq<Seq<char>>, k: int)
    requires
        0 <= k,
    ensures
        assigned_each(a, paths, 0x2001, k).contents.len() == a.contents.len() + k,
    decreases k,
{
    if k > 0 {
        lemma_each_len(a, paths, k - 1);
    }
}

proof fn lemma_collected_below(dir: Seq<char>, top: Seq<char>, entries: Seq<Entry>, k: int, j: int)
    requires
        0 <= j < collected(dir, entries, k).len(),
        dir.len() > 0,
        top.len() > 0,
        top.last() != '/',
        dir == top || below(top, dir),
    ensures
        below(top, collected(dir, entries, k)[j].0),
    decreases entries, k,
{
    if !(k <= 0 || k > entries.len()) {
        entry_order_is_complete(entries, OrderBy::HifFirst);
        let done = collected(dir, entries, k - 1);
        match entries[entry_order(entries, OrderBy::HifFirst)[k - 1]] {
            Entry::Dir { name, entries: sub } => {
                let inner = path_in(dir, name@);
                lemma_deeper(top, dir, name@);
                if j < done.len() {
                    lemma_collected_below(dir, top, entries, k - 1, j);
                } else {
                    lemma_collected_below(inner, top, sub@, sub@.len() as int, j - done.len());
                }
            },
            Entry::File { name, .. } => {
                lemma_deeper(top, dir, name@);
                if j < done.len() {
                    lemma_collected_below(dir, top, entries, k - 1, j);
                }
            },
        }
    }
}

proof fn lemma_deeper(top: Seq<char>, dir: Seq<char>, name: Seq<char>)
    requires
        dir.len() > 0,
        top.len() > 0,
        top.last() != '/',
        dir == top || below(top, dir),
    ensures
        below(top, path_in(dir, name)),
        path_in(dir, name).len() > 0,
{
    let p = path_in(dir, name);
    let n = top.len() as int + 1;
    if dir == top {
        lemma_below(top, name);
    } else {
        assert(p.take(n) =~= dir.take(n));
    }
}

/// The files of `code/` are in contents without a hash tree, each in one of its own. Those of `meta/`
/// are in contents with one: `meta.xml`, the boot movie and the boot logo each in one of its own, the
/// icon, the two boot textures and the boot sound together in one, and all others together in
/// another. Their contents come in the order of their turns. None of them is in a game content.
/// Beyond 65536 contents their indices would run over.
pub proof fn system_files_are_grouped_by_their_use(
    root: Seq<char>,
    t: StagedTree,
    title_id: u64,
    c: int,
    i: int,
    d: int,
    j: int,
)
    requires
        t.fits_fst(),
        planned(root, t, title_id) is Ok,
        planned(root, t, title_id)->Ok_0.contents.len() <= 0x1_0000,
        names_apart(t.code@),
        names_apart(t.meta@),
        ({
            let contents = planned(root, t, title_id)->Ok_0.contents;
            &&& 0 <= c < contents.len() && 0 <= i < contents[c].files.len()
            &&& 0 <= d < contents.len() && 0 <= j < contents[d].files.len()
            &&& !below(path_in(root, "content"@), contents[c].files[i].path)
            &&& !below(path_in(root, "content"@), contents[d].files[j].path)
        }),
    ensures
        ({
            let contents = planned(root, t, title_id)->Ok_0.contents;
            let p = contents[c].files[i].path;
            let q = contents[d].files[j].path;
            &&& below(path_in(root, "code"@), p) ==> contents[c].content_type == 0x2001
            &&& below(path_in(root, "meta"@), p) ==> contents[c].content_type == 0x2003
            &&& below(path_in(root, "code"@), p) || below(path_in(root, "meta"@), p)
            &&& !contents[c].is_game
            &&& c == d <==> share(root, p) == share(root, q)
            &&& turn(root, p) < turn(root, q) ==> c < d
        }),
{
    lemma_planned_contents(root, t, title_id);
    assignment_is_sound(root, t);
    let contents = planned(root, t, title_id)->Ok_0.contents;
    let base = with_code(root, t);
    let game = collected(path_in(root, "content"@), t.content@, t.content@.len() as int);
    super::assign::packed_is_sound(base, game, game.len() as int);
    lemma_system_in_order(root, t);
    lemma_base_cluster(root, t, title_id, c, i);
    lemma_base_cluster(root, t, title_id, d, j);
    super::laws::planned_keeps_kinds(root, t, title_id, c);
    let a = with_game(root, t).assigned;
    assert(a.contents[c] == base.contents[c]);
    lemma_dirs(root, contents[c].files[i].path);
}

/// A placed file that is not game data has the content that the system files were given.
proof fn lemma_base_cluster(root: Seq<char>, t: StagedTree, title_id: u64, c: int, i: int)
    requires
        t.fits_fst(),
        planned(root, t, title_id) is Ok,
        ({
            let contents = planned(root, t, title_id)->Ok_0.contents;
            &&& 0 <= c < contents.len() && 0 <= i < contents[c].files.len()
            &&& !below(path_in(root, "content"@), contents[c].files[i].path)
        }),
    ensures
        ({
            let p = planned(root, t, title_id)->Ok_0.contents[c].files[i].path;
            let base = with_code(root, t);
            base.clusters.dom().contains(p) && base.clusters[p] == c
        }),
{
    let contents = planned(root, t, title_id)->Ok_0.contents;
    let p = contents[c].files[i].path;
    let base = with_code(root, t);
    let content = path_in(root, "content"@);
    let game = collected(content, t.content@, t.content@.len() as int);
    let fs = staged_assignments(root, t);
    let all = staged_files(root, t);
    lemma_planned_contents(root, t, title_id);
    every_staged_file_is_placed_once(root, t, title_id, c);
    lemma_due_is_from(fs, c, i);
    let mine = due(fs, c);
    let m = choose|m: int| 0 <= m < fs.len() && (#[trigger] fs[m]) == mine[i] && fs[m].cluster == c;
    assert(p == all[m].0);
    lemma_dirs(root, p);
    assert forall|x: int| 0 <= x < game.len() implies (#[trigger] game[x]).0 != p by {
        lemma_collected_below(content, content, t.content@, t.content@.len() as int, x);
    }
    lemma_packing_keeps_others(base, game, game.len() as int, p);
    assert(all_assigned(all, with_game(root, t).assigned.clusters));
}

/// The other files of `code/` have their contents in the order of their names without regard to
/// case, executables first.
pub proof fn executables_have_the_first_contents(
    root: Seq<char>,
    t: StagedTree,
    title_id: u64,
    c: int,
    i: int,
    d: int,
    j: int,
)
    requires
        t.fits_fst(),
        planned(root, t, title_id) is Ok,
        planned(root, t, title_id)->Ok_0.contents.len() <= 0x1_0000,
        names_apart(t.code@),
        names_apart(t.meta@),
        ({
            let contents = planned(root, t, title_id)->Ok_0.contents;
            &&& 0 <= c < d < contents.len()
            &&& 0 <= i < contents[c].files.len() && 0 <= j < contents[d].files.len()
            &&& below(path_in(root, "code"@), contents[c].files[i].path)
            &&& below(path_in(root, "code"@), contents[d].files[j].path)
            &&& turn(root, contents[c].files[i].path) == 8
            &&& turn(root, contents[d].files[j].path) == 8
        }),
    ensures
        ({
            let contents = planned(root, t, title_id)->Ok_0.contents;
            let n = path_in(root, "code"@).len() as int + 1;
            let a = contents[c].files[i].path.skip(n);
            let b = contents[d].files[j].path.skip(n);
            let (la, lb) = (lower_case(a), lower_case(b));
            &&& executable_name(lb) ==> executable_name(la)
            &&& executable_name(la) == executable_name(lb) ==> if la == lb {
                text_le(a, b)
            } else {
                text_le(la, lb)
            }
        }),
{
    lemma_planned_contents(root, t, title_id);
    assignment_is_sound(root, t);
    let contents = planned(root, t, title_id)->Ok_0.contents;
    let (p, q) = (contents[c].files[i].path, contents[d].files[j].path);
    let code = path_in(root, "code"@);
    let game = collected(path_in(root, "content"@), t.content@, t.content@.len() as int);
    super::assign::packed_is_sound(with_code(root, t), game, game.len() as int);
    lemma_dirs(root, p);
    lemma_dirs(root, q);
    lemma_system_in_order(root, t);
    lemma_base_cluster(root, t, title_id, c, i);
    lemma_base_cluster(root, t, title_id, d, j);
    let rest = rest_of_code(root, t);
    let base = with_code(root, t);
    assert(rest.take(rest.len() as int) =~= rest);
    assert(base.clusters.dom().contains(p) && base.clusters.dom().contains(q));
    assert(!with_meta(root, t).clusters.dom().contains(p));
    assert(!with_meta(root, t).clusters.dom().contains(q));
    assert(rest.contains(p) && rest.contains(q));
    let x = choose|x: int| 0 <= x < rest.len() && rest[x] == p;
    let y = choose|y: int| 0 <= y < rest.len() && rest[y] == q;
    assert(base.clusters[rest[x]] == with_meta(root, t).contents.len() + x);
    assert(base.clusters[rest[y]] == with_meta(root, t).contents.len() + y);
    let order = entry_order(t.code@, OrderBy::ExecutableFirst);
    let clusters = with_meta(root, t).clusters;
    let k = t.code@.len() as int;
    lemma_entry_order(t.code@, OrderBy::ExecutableFirst);
    lemma_unassigned_order(code, t.code@, order, clusters, k, x, y);
    let (m, n) = choose|m: int, n: int|
        0 <= m < n < order.len() && p == path_in(
            code,
            entry_name(t.code@[#[trigger] order[m]]),
        ) && q == path_in(code, entry_name(t.code@[#[trigger] order[n]]));
    lemma_below(code, entry_name(t.code@[order[m]]));
    lemma_below(code, entry_name(t.code@[order[n]]));
    let keys = entry_keys(t.code@, OrderBy::ExecutableFirst);
    order_is_sorted(keys, k);
    assert(key_le(keys[order[m]], keys[order[n]]));
}

} // verus!

//! Where the staged files end up.

use super::assign::{
    assigned_each, assigned_each_is_sound, assigned_together, assigned_together_is_sound, inserted,
    next_index, packed, packed_is_sound, placed_size, present, sound, unassigned, Assigned,
    MAX_GAME_CONTENT_BYTES,
};
use super::listing::{
    ascii_names_are_recognised, collected, entry_keys, entry_name, entry_order,
    entry_order_is_complete, hif_name, numbered_hif, Entry, OrderBy,
};
use super::planned::{ContentView, PlacedView};
use super::tree::{
    dir_node, dir_tree, flat, flat_one, forest_within, tree_within, with_file, Flat, TreeView,
};
use super::{
    assignment_is_sound, initial_assignment, planned, root_children, staged_tree, with_bundle,
    with_code, with_game, with_meta, with_meta_xml, with_singles, with_xml, StagedTree,
};
use crate::bytes::{aligned_up, aligned_up_is_least};
use crate::package::fst::OFFSET_FACTOR;
use crate::package::order::{
    key_le, key_order_is_total, order_is_onto, order_is_sorted, pointwise_order, text_le,
};
use crate::paths::path_in;
use crate::text::{lower_case, lowered};
use vstd::prelude::*;

verus! {

/// A staged file: its path, its size and its content.
pub struct Assignment {
    pub path: Seq<char>,
    pub size: u64,
    pub cluster: u16,
}

/// The files of a tree, in order.
pub open spec fn tree_files(t: TreeView) -> Seq<Assignment>
    decreases t,
{
    match t {
        TreeView::Dir { children, .. } => forest_files(children),
        TreeView::File { path, size, cluster, .. } => seq![Assignment { path, size, cluster }],
    }
}

/// The files of a list of trees, in order.
pub open spec fn forest_files(ts: Seq<TreeView>) -> Seq<Assignment>
    decreases ts,
{
    if ts.len() == 0 {
        Seq::empty()
    } else {
        forest_files(ts.drop_last()) + tree_files(ts[ts.len() - 1])
    }
}

/// The contents with files placed in them, one after the other.
pub open spec fn placed_all(contents: Seq<ContentView>, fs: Seq<Assignment>) -> Seq<ContentView>
    decreases fs.len(),
{
    if fs.len() == 0 {
        contents
    } else {
        let done = placed_all(contents, fs.drop_last());
        let f = fs.last();
        done.update(
            f.cluster as int,
            with_file(done[f.cluster as int], f.path, f.size as int),
        )
    }
}

proof fn lemma_placed_concat(contents: Seq<ContentView>, a: Seq<Assignment>, b: Seq<Assignment>)
    ensures
        placed_all(contents, a + b) == placed_all(placed_all(contents, a), b),
    decreases b.len(),
{
    if b.len() == 0 {
        assert(a + b =~= a);
    } else {
        lemma_placed_concat(contents, a, b.drop_last());
        assert((a + b).drop_last() =~= a + b.drop_last());
        assert((a + b).last() == b.last());
    }
}

proof fn lemma_flat_one_places_files(t: TreeView, parent: int, st: Flat)
    ensures
        flat_one(t, parent, st).contents == placed_all(st.contents, tree_files(t)),
    decreases t,
{
    match t {
        TreeView::Dir { name, flags, children } => {
            let my = st.nodes.len() as int;
            let st1 = Flat {
                nodes: st.nodes.push(dir_node(name, flags, parent, 0, 0)),
                contents: st.contents,
            };
            lemma_flat_places_files(children, my, st1);
        },
        TreeView::File { path, size, cluster, .. } => {
            let fs = seq![Assignment { path, size, cluster }];
            assert(fs.drop_last() =~= Seq::<Assignment>::empty());
            assert(placed_all(st.contents, fs.drop_last()) == st.contents);
        },
    }
}

/// Flattening places the files of the trees one after the other.
proof fn lemma_flat_places_files(ts: Seq<TreeView>, parent: int, st: Flat)
    ensures
        flat(ts, parent, st).contents == placed_all(st.contents, forest_files(ts)),
    decreases ts,
{
    if ts.len() > 0 {
        let before = flat(ts.drop_last(), parent, st);
        lemma_flat_places_files(ts.drop_last(), parent, st);
        lemma_flat_one_places_files(ts[ts.len() - 1], parent, before);
        lemma_placed_concat(
            st.contents,
            forest_files(ts.drop_last()),
            tree_files(ts[ts.len() - 1]),
        );
    }
}

/// Collected files with the contents that they are assigned to.
pub open spec fn with_clusters(
    fs: Seq<(Seq<char>, u64)>,
    clusters: Map<Seq<char>, u16>,
) -> Seq<Assignment> {
    Seq::new(
        fs.len(),
        |i: int| Assignment { path: fs[i].0, size: fs[i].1, cluster: clusters[fs[i].0] },
    )
}

/// Every collected file has a content.
pub open spec fn all_assigned(fs: Seq<(Seq<char>, u64)>, clusters: Map<Seq<char>, u16>) -> bool {
    forall|i: int| 0 <= i < fs.len() ==> clusters.dom().contains((#[trigger] fs[i]).0)
}

proof fn lemma_files_of_push(ts: Seq<TreeView>, t: TreeView)
    ensures
        forest_files(ts.push(t)) == forest_files(ts) + tree_files(t),
{
    assert(ts.push(t).drop_last() =~= ts);
}

/// The tree of a directory holds the files that are collected below it.
proof fn lemma_tree_holds_collected(
    dir: Seq<char>,
    entries: Seq<Entry>,
    flags: u16,
    clusters: Map<Seq<char>, u16>,
    k: int,
)
    requires
        0 <= k <= entries.len(),
        dir_tree(dir, entries, flags, clusters, k) is Ok,
    ensures
        forest_files(dir_tree(dir, entries, flags, clusters, k)->Ok_0) == with_clusters(
            collected(dir, entries, k),
            clusters,
        ),
        all_assigned(collected(dir, entries, k), clusters),
    decreases entries, k,
{
    if k <= 0 {
        assert(with_clusters(collected(dir, entries, k), clusters) =~= Seq::<Assignment>::empty());
    } else {
        entry_order_is_complete(entries, OrderBy::HifFirst);
        lemma_tree_holds_collected(dir, entries, flags, clusters, k - 1);
        let done = dir_tree(dir, entries, flags, clusters, k - 1)->Ok_0;
        let all = dir_tree(dir, entries, flags, clusters, k)->Ok_0;
        let before = collected(dir, entries, k - 1);
        assert(all.drop_last() =~= done);
        lemma_files_of_push(done, all.last());
        assert(all =~= done.push(all.last()));
        match entries[entry_order(entries, OrderBy::HifFirst)[k - 1]] {
            Entry::Dir { name, entries: sub } => {
                let path = path_in(dir, name@);
                let n = sub@.len() as int;
                lemma_tree_holds_collected(path, sub@, flags, clusters, n);
                let below = collected(path, sub@, n);
                assert(collected(dir, entries, k) == before + below);
                assert(with_clusters(before + below, clusters) =~= with_clusters(before, clusters)
                    + with_clusters(below, clusters));
                assert forall|i: int| 0 <= i < (before + below).len() implies clusters.dom().contains(
                    (#[trigger] (before + below)[i]).0,
                ) by {
                    if i < before.len() {
                        assert((before + below)[i] == before[i]);
                    } else {
                        assert((before + below)[i] == below[i - before.len()]);
                    }
                }
            },
            Entry::File { name, size, .. } => {
                let path = path_in(dir, name@);
                assert(with_clusters(before.push((path, size)), clusters) =~= with_clusters(
                    before,
                    clusters,
                ).push(Assignment { path, size, cluster: clusters[path] }));
            },
        }
    }
}

/// The staged files of a title with their sizes, in the order of the FST.
pub open spec fn staged_files(root: Seq<char>, t: StagedTree) -> Seq<(Seq<char>, u64)> {
    collected(path_in(root, "code"@), t.code@, t.code@.len() as int) + collected(
        path_in(root, "content"@),
        t.content@,
        t.content@.len() as int,
    ) + collected(path_in(root, "meta"@), t.meta@, t.meta@.len() as int)
}

/// The staged files of a title with their contents.
pub open spec fn staged_assignments(root: Seq<char>, t: StagedTree) -> Seq<Assignment> {
    with_clusters(staged_files(root, t), with_game(root, t).assigned.clusters)
}

proof fn lemma_staged_tree_files(
    root: Seq<char>,
    name: Seq<char>,
    entries: Seq<Entry>,
    flags: u16,
    clusters: Map<Seq<char>, u16>,
)
    requires
        staged_tree(root, name, entries, flags, clusters) is Ok,
    ensures
        forest_files(staged_tree(root, name, entries, flags, clusters)->Ok_0) == with_clusters(
            collected(path_in(root, name), entries, entries.len() as int),
            clusters,
        ),
        all_assigned(collected(path_in(root, name), entries, entries.len() as int), clusters),
{
    let dir = path_in(root, name);
    let n = entries.len() as int;
    lemma_tree_holds_collected(dir, entries, flags, clusters, n);
    let children = dir_tree(dir, entries, flags, clusters, n)->Ok_0;
    if children.len() > 0 {
        let top = TreeView::Dir { name, flags, children };
        let none = Seq::<TreeView>::empty();
        assert(seq![top] =~= none.push(top));
        lemma_files_of_push(none, top);
        assert(forest_files(none) + tree_files(top) =~= tree_files(top));
        assert(tree_files(top) == forest_files(children));
    }
}

proof fn lemma_files_of_concat(a: Seq<TreeView>, b: Seq<TreeView>)
    ensures
        forest_files(a + b) == forest_files(a) + forest_files(b),
    decreases b.len(),
{
    if b.len() == 0 {
        assert(a + b =~= a);
        assert(forest_files(a) + forest_files(b) =~= forest_files(a));
    } else {
        lemma_files_of_concat(a, b.drop_last());
        assert((a + b).drop_last() =~= a + b.drop_last());
        assert((a + b)[(a + b).len() - 1] == b[b.len() - 1]);
        assert(forest_files(a + b) =~= forest_files(a) + forest_files(b));
    }
}

proof fn lemma_root_files(root: Seq<char>, t: StagedTree, clusters: Map<Seq<char>, u16>)
    requires
        root_children(root, t, clusters) is Ok,
    ensures
        forest_files(root_children(root, t, clusters)->Ok_0) == with_clusters(
            staged_files(root, t),
            clusters,
        ),
        all_assigned(staged_files(root, t), clusters),
{
    let code = staged_tree(root, "code"@, t.code@, super::FST_FLAGS_CODE, clusters)->Ok_0;
    let content = staged_tree(
        root,
        "content"@,
        t.content@,
        super::FST_FLAGS_CONTENT,
        clusters,
    )->Ok_0;
    let meta = staged_tree(root, "meta"@, t.meta@, super::FST_FLAGS_META, clusters)->Ok_0;
    lemma_staged_tree_files(root, "code"@, t.code@, super::FST_FLAGS_CODE, clusters);
    lemma_staged_tree_files(root, "content"@, t.content@, super::FST_FLAGS_CONTENT, clusters);
    lemma_staged_tree_files(root, "meta"@, t.meta@, super::FST_FLAGS_META, clusters);
    lemma_files_of_concat(code, content);
    lemma_files_of_concat(code + content, meta);
    let a = collected(path_in(root, "code"@), t.code@, t.code@.len() as int);
    let b = collected(path_in(root, "content"@), t.content@, t.content@.len() as int);
    let c = collected(path_in(root, "meta"@), t.meta@, t.meta@.len() as int);
    assert(with_clusters(a + b + c, clusters) =~= with_clusters(a, clusters) + with_clusters(
        b,
        clusters,
    ) + with_clusters(c, clusters));
    assert forall|i: int| 0 <= i < (a + b + c).len() implies clusters.dom().contains(
        (#[trigger] (a + b + c)[i]).0,
    ) by {
        if i < a.len() {
            assert((a + b + c)[i] == a[i]);
        } else if i < a.len() + b.len() {
            assert((a + b + c)[i] == b[i - a.len()]);
        } else {
            assert((a + b + c)[i] == c[i - a.len() - b.len()]);
        }
    }
}

/// Those files that go to content `c`, in order.
pub open spec fn due(fs: Seq<Assignment>, c: int) -> Seq<Assignment>
    decreases fs.len(),
{
    if fs.len() == 0 {
        Seq::empty()
    } else if fs.last().cluster == c {
        due(fs.drop_last(), c).push(fs.last())
    } else {
        due(fs.drop_last(), c)
    }
}

/// Bytes that the files of content `c` take.
pub open spec fn due_bytes(fs: Seq<Assignment>, c: int) -> int
    decreases fs.len(),
{
    if fs.len() == 0 {
        0
    } else if fs.last().cluster == c {
        due_bytes(fs.drop_last(), c) + placed_size(fs.last().size as int)
    } else {
        due_bytes(fs.drop_last(), c)
    }
}

/// All files go to one of `n` contents.
pub open spec fn all_within(fs: Seq<Assignment>, n: nat) -> bool {
    forall|i: int| 0 <= i < fs.len() ==> (#[trigger] fs[i]).cluster < n
}

/// The files of a content are these, one after the other from its start.
pub open spec fn holds(c: ContentView, fs: Seq<Assignment>) -> bool {
    &&& c.files.len() == fs.len()
    &&& forall|i: int|
        0 <= i < fs.len() ==> (#[trigger] c.files[i]).path == fs[i].path && c.files[i].size
            == fs[i].size
    &&& fs.len() > 0 ==> c.files[0].offset == 0
}

proof fn lemma_placed_holds(contents: Seq<ContentView>, fs: Seq<Assignment>, c: int)
    requires
        all_within(fs, contents.len()),
        0 <= c < contents.len(),
        contents[c].files.len() == 0,
        contents[c].data_len == 0,
    ensures
        placed_all(contents, fs).len() == contents.len(),
        holds(placed_all(contents, fs)[c], due(fs, c)),
        due(fs, c).len() == 0 ==> placed_all(contents, fs)[c] == contents[c],
        0 <= placed_all(contents, fs)[c].data_len <= due_bytes(fs, c),
        aligned_up(placed_all(contents, fs)[c].data_len, OFFSET_FACTOR as int) == due_bytes(fs, c),
    decreases fs.len(),
{
    if fs.len() > 0 {
        let rest = fs.drop_last();
        assert(all_within(rest, contents.len())) by {
            assert forall|i: int| 0 <= i < rest.len() implies (#[trigger] rest[i]).cluster
                < contents.len() by {
                assert(rest[i] == fs[i]);
            }
        }
        lemma_placed_holds(contents, rest, c);
        let f = fs.last();
        assert(fs[fs.len() - 1].cluster < contents.len());
        let before = placed_all(contents, rest)[c];
        let after = placed_all(contents, fs)[c];
        if f.cluster == c {
            assert(after == with_file(before, f.path, f.size as int));
            aligned_up_is_least(before.data_len, OFFSET_FACTOR as int);
            aligned_up_is_least(f.size as int, OFFSET_FACTOR as int);
            aligned_up_is_least(after.data_len, OFFSET_FACTOR as int);
            assert(aligned_up(after.data_len, 0x20) == aligned_up(before.data_len, 0x20)
                + aligned_up(f.size as int, 0x20));
            assert forall|i: int| 0 <= i < after.files.len() implies (#[trigger] after.files[i]).path
                == due(fs, c)[i].path && after.files[i].size == due(fs, c)[i].size by {
                if i < before.files.len() {
                    assert(after.files[i] == before.files[i]);
                }
            }
            if before.files.len() > 0 {
                assert(after.files[0] == before.files[0]);
            } else {
                assert(before == contents[c]);
            }
        } else {
            assert(after == before);
        }
    }
}

proof fn lemma_files_within(t: TreeView, n: nat)
    requires
        tree_within(t, n),
    ensures
        all_within(tree_files(t), n),
    decreases t,
{
    match t {
        TreeView::Dir { children, .. } => lemma_forest_files_within(children, n),
        TreeView::File { .. } => {},
    }
}

proof fn lemma_forest_files_within(ts: Seq<TreeView>, n: nat)
    requires
        forest_within(ts, n),
    ensures
        all_within(forest_files(ts), n),
    decreases ts,
{
    if ts.len() > 0 {
        lemma_forest_files_within(ts.drop_last(), n);
        lemma_files_within(ts[ts.len() - 1], n);
        let a = forest_files(ts.drop_last());
        let b = tree_files(ts[ts.len() - 1]);
        assert forall|i: int| 0 <= i < (a + b).len() implies (#[trigger] (a + b)[i]).cluster < n by {
            if i < a.len() {
                assert((a + b)[i] == a[i]);
            } else {
                assert((a + b)[i] == b[i - a.len()]);
            }
        }
    }
}

/// The contents of a plan are those of the assignment with the staged files placed in them.
pub(crate) proof fn lemma_planned_contents(root: Seq<char>, t: StagedTree, title_id: u64)
    requires
        t.fits_fst(),
        planned(root, t, title_id) is Ok,
    ensures
        ({
            let a = with_game(root, t).assigned;
            let fs = staged_assignments(root, t);
            let contents = planned(root, t, title_id)->Ok_0.contents;
            &&& sound(a)
            &&& all_within(fs, a.contents.len())
            &&& all_assigned(staged_files(root, t), a.clusters)
            &&& placed_all(a.contents, fs).len() == a.contents.len()
            &&& contents.len() == a.contents.len()
            &&& contents[0].files == placed_all(a.contents, fs)[0].files
            &&& contents[0].is_game == placed_all(a.contents, fs)[0].is_game
            &&& forall|c: int|
                0 < c < contents.len() ==> #[trigger] contents[c] == placed_all(a.contents, fs)[c]
        }),
{
    super::plan_stays_in_bounds(root, t);
    let a = with_game(root, t).assigned;
    let ts = root_children(root, t, a.clusters)->Ok_0;
    let st = Flat { nodes: seq![dir_node(Seq::empty(), 0, 0, 0, 0)], contents: a.contents };
    lemma_flat_places_files(ts, 0, st);
    lemma_root_files(root, t, a.clusters);
    lemma_forest_files_within(ts, a.contents.len());
    lemma_placed_holds(a.contents, staged_assignments(root, t), 0);
}

/// Every staged file is placed exactly once, in the content that it is assigned to: the files of
/// each content are those assigned to it, in the order of the FST, from offset 0 on.
pub proof fn every_staged_file_is_placed_once(
    root: Seq<char>,
    t: StagedTree,
    title_id: u64,
    c: int,
)
    requires
        t.fits_fst(),
        planned(root, t, title_id) is Ok,
        0 <= c < planned(root, t, title_id)->Ok_0.contents.len(),
    ensures
        ({
            let contents = planned(root, t, title_id)->Ok_0.contents;
            let fs = staged_assignments(root, t);
            &&& holds(contents[c], due(fs, c))
            &&& all_within(fs, contents.len())
        }),
{
    lemma_planned_contents(root, t, title_id);
    let a = with_game(root, t).assigned;
    lemma_placed_holds(a.contents, staged_assignments(root, t), c);
}

/// No two staged files have one path, as in any file system.
pub open spec fn paths_apart(fs: Seq<(Seq<char>, u64)>) -> bool {
    forall|i: int, j: int|
        0 <= i < j < fs.len() ==> (#[trigger] fs[i]).0 != (#[trigger] fs[j]).0
}

/// Packing changes the content of no other file than those that are packed.
pub(crate) proof fn lemma_packing_keeps_others(
    a: Assigned,
    files: Seq<(Seq<char>, u64)>,
    k: int,
    path: Seq<char>,
)
    requires
        0 <= k <= files.len(),
        forall|i: int| 0 <= i < k ==> (#[trigger] files[i]).0 != path,
    ensures
        packed(a, files, k).assigned.clusters.dom().contains(path) == a.clusters.dom().contains(
            path,
        ),
        packed(a, files, k).assigned.clusters[path] == a.clusters[path],
    decreases k,
{
    if k > 0 {
        lemma_packing_keeps_others(a, files, k - 1, path);
        assert(files[k - 1].0 != path);
    }
}

/// What packing has put into each content so far is within the cap.
proof fn lemma_packed_bytes(a: Assigned, files: Seq<(Seq<char>, u64)>, k: int, c: int)
    requires
        sound(a),
        paths_apart(files),
        0 <= k <= files.len(),
        packed(a, files, k).refused is None,
        packed(a, files, k).assigned.contents.len() <= 0x1_0000,
        a.contents.len() <= c,
    ensures
        ({
            let p = packed(a, files, k);
            let fs = with_clusters(files.take(k), p.assigned.clusters);
            &&& due_bytes(fs, c) <= MAX_GAME_CONTENT_BYTES
            &&& p.current == Some(c as u16) && c < 0x1_0000 ==> due_bytes(fs, c) == p.current_size
            &&& c >= p.assigned.contents.len() ==> due_bytes(fs, c) == 0
            &&& p.current matches Some(i) ==> a.contents.len() <= i
            &&& p.current is None <==> k == 0
            &&& k > 0 ==> a.contents.len() < p.assigned.contents.len()
            &&& k > 0 ==> p.assigned.clusters[files[0].0] == a.contents.len()
        }),
    decreases k,
{
    let p = packed(a, files, k);
    let fs = with_clusters(files.take(k), p.assigned.clusters);
    packed_is_sound(a, files, k);
    if k > 0 {
        let q = packed(a, files, k - 1);
        assert(q.refused is None);
        packed_is_sound(a, files, k - 1);
        assert(q.assigned.contents.len() <= p.assigned.contents.len());
        lemma_packed_bytes(a, files, k - 1, c);
        let before = with_clusters(files.take(k - 1), q.assigned.clusters);
        let index = p.assigned.clusters[files[k - 1].0];
        let last = Assignment { path: files[k - 1].0, size: files[k - 1].1, cluster: index };
        assert(fs =~= before.push(last)) by {
            assert forall|i: int| 0 <= i < k - 1 implies #[trigger] fs[i] == before[i] by {
                assert(files[i].0 != files[k - 1].0);
                assert(files.take(k)[i] == files[i]);
                assert(files.take(k - 1)[i] == files[i]);
            }
            assert(files.take(k)[k - 1] == files[k - 1]);
        }
        assert(fs.drop_last() =~= before);
        if k > 1 {
            assert(files[0].0 != files[k - 1].0);
        }
    } else {
        assert(fs =~= Seq::<Assignment>::empty());
    }
}

proof fn lemma_due_concat(a: Seq<Assignment>, b: Seq<Assignment>, c: int)
    ensures
        due(a + b, c) == due(a, c) + due(b, c),
        due_bytes(a + b, c) == due_bytes(a, c) + due_bytes(b, c),
    decreases b.len(),
{
    if b.len() == 0 {
        assert(a + b =~= a);
        assert(due(a, c) + due(b, c) =~= due(a, c));
    } else {
        lemma_due_concat(a, b.drop_last(), c);
        assert((a + b).drop_last() =~= a + b.drop_last());
        assert((a + b).last() == b.last());
        assert(due(a + b, c) =~= due(a, c) + due(b, c));
    }
}

proof fn lemma_due_below(fs: Seq<Assignment>, n: nat, c: int)
    requires
        all_within(fs, n),
        n <= c,
    ensures
        due(fs, c).len() == 0,
        due_bytes(fs, c) == 0,
    decreases fs.len(),
{
    if fs.len() > 0 {
        assert(fs[fs.len() - 1].cluster < n);
        let rest = fs.drop_last();
        assert forall|i: int| 0 <= i < rest.len() implies (#[trigger] rest[i]).cluster < n by {
            assert(rest[i] == fs[i]);
        }
        lemma_due_below(rest, n, c);
    }
}

proof fn lemma_due_first(fs: Seq<Assignment>, c: int)
    requires
        fs.len() > 0,
        fs[0].cluster == c,
    ensures
        due(fs, c).len() > 0,
        due(fs, c)[0] == fs[0],
    decreases fs.len(),
{
    if fs.len() > 1 {
        assert(fs.drop_last()[0] == fs[0]);
        lemma_due_first(fs.drop_last(), c);
    } else {
        assert(due(fs.drop_last(), c).len() == 0);
        assert(due(fs, c) == due(fs.drop_last(), c).push(fs[0]));
    }
}

/// The system files, which are not game data, go to contents before the game contents.
proof fn lemma_system_files_come_first(
    root: Seq<char>,
    t: StagedTree,
    fs: Seq<(Seq<char>, u64)>,
    game: Seq<(Seq<char>, u64)>,
)
    requires
        game == collected(path_in(root, "content"@), t.content@, t.content@.len() as int),
        all_assigned(fs, with_game(root, t).assigned.clusters),
        forall|i: int, j: int|
            0 <= i < fs.len() && 0 <= j < game.len() ==> (#[trigger] fs[i]).0 != (
            #[trigger] game[j]).0,
    ensures
        all_within(
            with_clusters(fs, with_game(root, t).assigned.clusters),
            with_code(root, t).contents.len(),
        ),
{
    let a = with_code(root, t);
    assignment_is_sound(root, t);
    let clusters = with_game(root, t).assigned.clusters;
    let ws = with_clusters(fs, clusters);
    assert forall|i: int| 0 <= i < ws.len() implies (#[trigger] ws[i]).cluster
        < a.contents.len() by {
        assert(clusters.dom().contains(fs[i].0));
        lemma_packing_keeps_others(a, game, game.len() as int, fs[i].0);
        assert(a.clusters.dom().contains(fs[i].0));
    }
}

/// What the staged files of a title put into a game content.
proof fn lemma_game_content(root: Seq<char>, t: StagedTree, title_id: u64, c: int)
    requires
        t.fits_fst(),
        planned(root, t, title_id) is Ok,
        planned(root, t, title_id)->Ok_0.contents.len() <= 0x1_0000,
        paths_apart(staged_files(root, t)),
        with_code(root, t).contents.len() <= c < planned(root, t, title_id)->Ok_0.contents.len(),
    ensures
        ({
            let game = collected(path_in(root, "content"@), t.content@, t.content@.len() as int);
            let own = with_clusters(game, with_game(root, t).assigned.clusters);
            let fs = staged_assignments(root, t);
            &&& due(fs, c) == due(own, c)
            &&& due_bytes(fs, c) == due_bytes(own, c)
            &&& due_bytes(own, c) <= MAX_GAME_CONTENT_BYTES
            &&& game.len() > 0 && c == with_code(root, t).contents.len() ==> own[0].cluster == c
        }),
{
    lemma_planned_contents(root, t, title_id);
    assignment_is_sound(root, t);
    let clusters = with_game(root, t).assigned.clusters;
    let code = collected(path_in(root, "code"@), t.code@, t.code@.len() as int);
    let game = collected(path_in(root, "content"@), t.content@, t.content@.len() as int);
    let meta = collected(path_in(root, "meta"@), t.meta@, t.meta@.len() as int);
    let all = staged_files(root, t);
    let base = with_code(root, t);
    assert(all == code + game + meta);
    let g0 = code.len() as int;
    let m0 = g0 + game.len();
    assert forall|i: int| 0 <= i < code.len() implies #[trigger] code[i] == all[i] by {}
    assert forall|j: int| 0 <= j < game.len() implies #[trigger] game[j] == all[g0 + j] by {}
    assert forall|i: int| 0 <= i < meta.len() implies #[trigger] meta[i] == all[m0 + i] by {}
    assert forall|i: int| 0 <= i < code.len() implies clusters.dom().contains(
        (#[trigger] code[i]).0,
    ) by {
        assert(all[i].0 == code[i].0);
    }
    assert forall|i: int| 0 <= i < meta.len() implies clusters.dom().contains(
        (#[trigger] meta[i]).0,
    ) by {
        assert(all[m0 + i].0 == meta[i].0);
    }
    assert forall|i: int, j: int| 0 <= i < code.len() && 0 <= j < game.len() implies (
    #[trigger] code[i]).0 != (#[trigger] game[j]).0 by {
        assert(all[i].0 != all[g0 + j].0);
    }
    assert forall|i: int, j: int| 0 <= i < meta.len() && 0 <= j < game.len() implies (
    #[trigger] meta[i]).0 != (#[trigger] game[j]).0 by {
        assert(all[g0 + j].0 != all[m0 + i].0);
    }
    assert(paths_apart(game)) by {
        assert forall|i: int, j: int| 0 <= i < j < game.len() implies (#[trigger] game[i]).0 != (
        #[trigger] game[j]).0 by {
            assert(all[g0 + i].0 != all[g0 + j].0);
        }
    }
    lemma_system_files_come_first(root, t, code, game);
    lemma_system_files_come_first(root, t, meta, game);
    let (wa, wg, wm) = (
        with_clusters(code, clusters),
        with_clusters(game, clusters),
        with_clusters(meta, clusters),
    );
    assert(staged_assignments(root, t) =~= wa + wg + wm);
    lemma_due_below(wa, base.contents.len(), c);
    lemma_due_below(wm, base.contents.len(), c);
    lemma_due_concat(wa, wg, c);
    lemma_due_concat(wa + wg, wm, c);
    assert(due(wa + wg + wm, c) =~= due(wg, c));
    lemma_packed_bytes(base, game, game.len() as int, c);
    assert(game.take(game.len() as int) =~= game);
}

/// No game content is larger than the cap. Beyond 65536 contents their indices would run over.
pub proof fn game_contents_stay_within_the_cap(
    root: Seq<char>,
    t: StagedTree,
    title_id: u64,
    c: int,
)
    requires
        t.fits_fst(),
        planned(root, t, title_id) is Ok,
        planned(root, t, title_id)->Ok_0.contents.len() <= 0x1_0000,
        paths_apart(staged_files(root, t)),
        0 <= c < planned(root, t, title_id)->Ok_0.contents.len(),
        planned(root, t, title_id)->Ok_0.contents[c].is_game,
    ensures
        planned(root, t, title_id)->Ok_0.contents[c].data_len <= MAX_GAME_CONTENT_BYTES,
{
    lemma_planned_contents(root, t, title_id);
    assignment_is_sound(root, t);
    let a = with_game(root, t).assigned;
    let fs = staged_assignments(root, t);
    let base = with_code(root, t);
    let game = collected(path_in(root, "content"@), t.content@, t.content@.len() as int);
    packed_is_sound(base, game, game.len() as int);
    super::laws::game_contents_come_last(root, t, title_id, 0, c);
    lemma_placed_holds(a.contents, fs, c);
    super::laws::planned_keeps_kinds(root, t, title_id, c);
    if c < base.contents.len() {
        assert(a.contents[c] == base.contents[c]);
    }
    lemma_game_content(root, t, title_id, c);
}

/// The first game content begins with the first file of the game data.
pub proof fn game_data_starts_at_offset_zero(root: Seq<char>, t: StagedTree, title_id: u64)
    requires
        t.fits_fst(),
        planned(root, t, title_id) is Ok,
        planned(root, t, title_id)->Ok_0.contents.len() <= 0x1_0000,
        paths_apart(staged_files(root, t)),
        collected(path_in(root, "content"@), t.content@, t.content@.len() as int).len() > 0,
    ensures
        ({
            let contents = planned(root, t, title_id)->Ok_0.contents;
            let game = collected(path_in(root, "content"@), t.content@, t.content@.len() as int);
            let first = with_code(root, t).contents.len() as int;
            &&& first < contents.len()
            &&& contents[first].is_game
            &&& forall|c: int| 0 <= c < first ==> !(#[trigger] contents[c]).is_game
            &&& contents[first].files.len() > 0
            &&& contents[first].files[0] == PlacedView {
                path: game[0].0,
                offset: 0,
                size: game[0].1 as int,
            }
        }),
{
    lemma_planned_contents(root, t, title_id);
    assignment_is_sound(root, t);
    let a = with_game(root, t).assigned;
    let fs = staged_assignments(root, t);
    let base = with_code(root, t);
    let first = base.contents.len() as int;
    let contents = planned(root, t, title_id)->Ok_0.contents;
    let game = collected(path_in(root, "content"@), t.content@, t.content@.len() as int);
    packed_is_sound(base, game, game.len() as int);
    lemma_packed_grows(base, game, game.len() as int);
    super::laws::planned_keeps_kinds(root, t, title_id, first);
    assert(a.contents[first].is_game);
    assert forall|c: int| 0 <= c < first implies !(#[trigger] contents[c]).is_game by {
        super::laws::planned_keeps_kinds(root, t, title_id, c);
        assert(a.contents[c] == base.contents[c]);
    }
    lemma_placed_holds(a.contents, fs, first);
    lemma_game_content(root, t, title_id, first);
    let own = with_clusters(game, a.clusters);
    lemma_due_first(own, first);
    assert(contents[first].files[0].path == game[0].0);
}

proof fn lemma_packed_grows(a: Assigned, files: Seq<(Seq<char>, u64)>, k: int)
    requires
        sound(a),
        0 < k <= files.len(),
        packed(a, files, k).refused is None,
    ensures
        a.contents.len() < packed(a, files, k).assigned.contents.len(),
        packed(a, files, k).current is Some,
    decreases k,
{
    packed_is_sound(a, files, k - 1);
    if k > 1 {
        lemma_packed_grows(a, files, k - 1);
    }
}

/// Where a directory holds game data and the first of its entries is a file, the files below it are
/// collected from a game-data file on.
pub proof fn game_data_is_collected_first(dir: Seq<char>, entries: Seq<Entry>, i: int)
    requires
        0 <= i < entries.len(),
        hif_name(lower_case(entry_name(entries[i]))),
        entries[entry_order(entries, OrderBy::HifFirst)[0]] is File,
    ensures
        ({
            let first = entries[entry_order(entries, OrderBy::HifFirst)[0]];
            let files = collected(dir, entries, entries.len() as int);
            &&& hif_name(lower_case(entry_name(first)))
            &&& files.len() > 0
            &&& files[0].0 == path_in(dir, entry_name(first))
        }),
{
    let keys = entry_keys(entries, OrderBy::HifFirst);
    let n = entries.len() as int;
    order_is_sorted(keys, n);
    order_is_onto(keys, n, i);
    let p = entry_order(entries, OrderBy::HifFirst);
    let j = choose|j: int| 0 <= j < n && #[trigger] p[j] == i;
    assert(key_le(keys[p[0]], keys[p[j]]));
    lemma_first_collected(dir, entries, n);
}

proof fn lemma_first_collected(dir: Seq<char>, entries: Seq<Entry>, k: int)
    requires
        0 < k <= entries.len(),
        entries[entry_order(entries, OrderBy::HifFirst)[0]] is File,
    ensures
        collected(dir, entries, k).len() > 0,
        collected(dir, entries, k)[0].0 == path_in(
            dir,
            entry_name(entries[entry_order(entries, OrderBy::HifFirst)[0]]),
        ),
    decreases k,
{
    if k > 1 {
        lemma_first_collected(dir, entries, k - 1);
    } else {
        assert(collected(dir, entries, 0).len() == 0);
    }
}

proof fn lemma_numbered_order(name: Seq<char>)
    requires
        numbered_hif(name),
    ensures
        text_le("hif_000000.nfs"@, name),
{
    reveal_strlit("hif_");
    reveal_strlit(".nfs");
    reveal_strlit("hif_000000.nfs");
    let first = "hif_000000.nfs"@;
    assert forall|i: int| 0 <= i < 14 implies #[trigger] first[i] <= name[i] by {
        if i < 4 {
            assert(name.take(4)[i] == name[i]);
        } else if i >= 10 {
            assert(name.skip(10)[i - 10] == name[i]);
        }
    }
    pointwise_order(first, name);
}

proof fn lemma_first_disc_file(entries: Seq<Entry>, i: int)
    requires
        0 <= i < entries.len(),
        entries[i] is File,
        entry_name(entries[i]) == "hif_000000.nfs"@,
        forall|j: int|
            0 <= j < entries.len() && j != i && hif_name(
                lower_case(entry_name(#[trigger] entries[j])),
            ) ==> numbered_hif(lower_case(entry_name(entries[j]))) && lower_case(
                entry_name(entries[j]),
            ) != "hif_000000.nfs"@,
    ensures
        hif_name(lower_case("hif_000000.nfs"@)),
        entry_order(entries, OrderBy::HifFirst)[0] == i,
{
    let name = "hif_000000.nfs"@;
    reveal_strlit("hif_000000.nfs");
    reveal_strlit("hif_");
    reveal_strlit(".nfs");
    assert(name.take(4) =~= "hif_"@);
    assert(name.skip(10) =~= ".nfs"@);
    assert(lowered(name) =~= name);
    ascii_names_are_recognised(name);
    let keys = entry_keys(entries, OrderBy::HifFirst);
    let n = entries.len() as int;
    order_is_sorted(keys, n);
    order_is_onto(keys, n, i);
    let p = entry_order(entries, OrderBy::HifFirst);
    let j = choose|j: int| 0 <= j < n && #[trigger] p[j] == i;
    let f = p[0];
    assert(key_le(keys[f], keys[p[j]]));
    if f != i {
        lemma_numbered_order(lower_case(entry_name(entries[f])));
        key_order_is_total(keys[f], keys[i]);
    }
}

/// Where `content/` holds `hif_000000.nfs`, and all its other game data has other numbers, the first
/// game content begins with that file: the disc is read from there.
pub proof fn first_disc_file_starts_the_game_content(
    root: Seq<char>,
    t: StagedTree,
    title_id: u64,
    i: int,
)
    requires
        t.fits_fst(),
        planned(root, t, title_id) is Ok,
        planned(root, t, title_id)->Ok_0.contents.len() <= 0x1_0000,
        paths_apart(staged_files(root, t)),
        0 <= i < t.content@.len(),
        t.content@[i] is File,
        entry_name(t.content@[i]) == "hif_000000.nfs"@,
        forall|j: int|
            0 <= j < t.content@.len() && j != i && hif_name(
                lower_case(entry_name(#[trigger] t.content@[j])),
            ) ==> numbered_hif(lower_case(entry_name(t.content@[j]))) && lower_case(
                entry_name(t.content@[j]),
            ) != "hif_000000.nfs"@,
    ensures
        ({
            let contents = planned(root, t, title_id)->Ok_0.contents;
            let first = with_code(root, t).contents.len() as int;
            &&& first < contents.len()
            &&& contents[first].is_game
            &&& forall|c: int| 0 <= c < first ==> !(#[trigger] contents[c]).is_game
            &&& contents[first].files.len() > 0
            &&& contents[first].files[0].path == path_in(
                path_in(root, "content"@),
                "hif_000000.nfs"@,
            )
            &&& contents[first].files[0].offset == 0
        }),
{
    lemma_first_disc_file(t.content@, i);
    game_data_is_collected_first(path_in(root, "content"@), t.content@, i);
    game_data_starts_at_offset_zero(root, t, title_id);
}

/// No file is assigned to content 0.
spec fn none_in_front(clusters: Map<Seq<char>, u16>) -> bool {
    forall|p: Seq<char>| #[trigger] clusters.dom().contains(p) ==> clusters[p] != 0
}

proof fn lemma_each_behind(a: Assigned, paths: Seq<Seq<char>>, content_type: u16, k: int)
    requires
        sound(a),
        none_in_front(a.clusters),
        0 <= k,
        a.contents.len() + k <= 0x1_0000,
    ensures
        none_in_front(assigned_each(a, paths, content_type, k).clusters),
    decreases k,
{
    if k > 0 {
        lemma_each_behind(a, paths, content_type, k - 1);
        assigned_each_is_sound(a, paths, content_type, k - 1);
        let b = assigned_each(a, paths, content_type, k - 1);
        let r = assigned_each(a, paths, content_type, k).clusters;
        assert forall|p: Seq<char>| #[trigger] r.dom().contains(p) implies r[p] != 0 by {
            if p != paths[k - 1] {
                assert(b.clusters.dom().contains(p));
            }
        }
    }
}

proof fn lemma_inserted_behind(
    clusters: Map<Seq<char>, u16>,
    paths: Seq<Seq<char>>,
    index: u16,
    k: int,
)
    requires
        none_in_front(clusters),
        index != 0,
    ensures
        none_in_front(inserted(clusters, paths, index, k)),
    decreases k,
{
    if k > 0 {
        lemma_inserted_behind(clusters, paths, index, k - 1);
        let b = inserted(clusters, paths, index, k - 1);
        let r = inserted(clusters, paths, index, k);
        assert forall|p: Seq<char>| #[trigger] r.dom().contains(p) implies r[p] != 0 by {
            if p != paths[k - 1] {
                assert(b.dom().contains(p));
            }
        }
    }
}

proof fn lemma_together_behind(a: Assigned, paths: Seq<Seq<char>>, content_type: u16)
    requires
        sound(a),
        none_in_front(a.clusters),
        assigned_together(a, paths, content_type).contents.len() <= 0x1_0000,
    ensures
        none_in_front(assigned_together(a, paths, content_type).clusters),
{
    if paths.len() > 0 {
        lemma_inserted_behind(a.clusters, paths, next_index(a), paths.len() as int);
    }
}

proof fn lemma_system_behind(root: Seq<char>, t: StagedTree)
    requires
        with_code(root, t).contents.len() <= 0x1_0000,
    ensures
        none_in_front(with_code(root, t).clusters),
{
    let code = path_in(root, "code"@);
    let meta = path_in(root, "meta"@);
    let start = initial_assignment();
    let xml = present(code, t.code@, seq!["app.xml"@, "cos.xml"@], 2);
    let meta_xml = present(meta, t.meta@, seq!["meta.xml"@], 1);
    let names = seq![
        "iconTex.tga"@,
        "bootTvTex.tga"@,
        "bootDrcTex.tga"@,
        "bootSound.btsnd"@,
    ];
    let bundle = present(meta, t.meta@, names, 4);
    let singles = present(meta, t.meta@, seq!["bootMovie.h264"@, "bootLogoTex.tga"@], 2);
    let (a, b, c, d, e, f) = (
        with_xml(root, t),
        with_meta_xml(root, t),
        with_bundle(root, t),
        with_singles(root, t),
        with_meta(root, t),
        with_code(root, t),
    );
    let order = entry_order(t.meta@, OrderBy::Name);
    let left = unassigned(meta, t.meta@, order, d.clusters, t.meta@.len() as int);
    let order = entry_order(t.code@, OrderBy::ExecutableFirst);
    let rest = unassigned(code, t.code@, order, e.clusters, t.code@.len() as int);
    assigned_each_is_sound(start, xml, super::TYPE_NONHASHED, xml.len() as int);
    assigned_each_is_sound(a, meta_xml, super::TYPE_HASHED, meta_xml.len() as int);
    assigned_together_is_sound(b, bundle, super::TYPE_HASHED);
    assigned_each_is_sound(c, singles, super::TYPE_HASHED, singles.len() as int);
    assigned_together_is_sound(d, left, super::TYPE_HASHED);
    assigned_each_is_sound(e, rest, super::TYPE_NONHASHED, rest.len() as int);
    lemma_each_behind(start, xml, super::TYPE_NONHASHED, xml.len() as int);
    lemma_each_behind(a, meta_xml, super::TYPE_HASHED, meta_xml.len() as int);
    lemma_together_behind(b, bundle, super::TYPE_HASHED);
    lemma_each_behind(c, singles, super::TYPE_HASHED, singles.len() as int);
    lemma_together_behind(d, left, super::TYPE_HASHED);
    lemma_each_behind(e, rest, super::TYPE_NONHASHED, rest.len() as int);
}

/// One of the first `k` files goes to content `c`.
spec fn gets_a_file(
    clusters: Map<Seq<char>, u16>,
    files: Seq<(Seq<char>, u64)>,
    k: int,
    c: int,
) -> bool {
    exists|j: int| 0 <= j < k && clusters[(#[trigger] files[j]).0] == c
}

/// Packed files go to the new contents, and every new content gets one of them.
proof fn lemma_packed_fills(a: Assigned, files: Seq<(Seq<char>, u64)>, k: int)
    requires
        sound(a),
        paths_apart(files),
        0 <= k <= files.len(),
        packed(a, files, k).refused is None,
        packed(a, files, k).assigned.contents.len() <= 0x1_0000,
    ensures
        ({
            let p = packed(a, files, k);
            &&& p.current matches Some(i) ==> a.contents.len() <= i
            &&& forall|j: int|
                0 <= j < k ==> p.assigned.clusters[(#[trigger] files[j]).0] >= a.contents.len()
            &&& forall|c: int|
                a.contents.len() <= c < p.assigned.contents.len() ==> #[trigger] gets_a_file(
                    p.assigned.clusters,
                    files,
                    k,
                    c,
                )
        }),
    decreases k,
{
    if k > 0 {
        let p = packed(a, files, k);
        let q = packed(a, files, k - 1);
        packed_is_sound(a, files, k - 1);
        lemma_packed_fills(a, files, k - 1);
        let last = files[k - 1].0;
        assert forall|j: int| 0 <= j < k implies p.assigned.clusters[(#[trigger] files[j]).0]
            >= a.contents.len() by {
            if j < k - 1 {
                assert(files[j].0 != last);
            }
        }
        assert forall|c: int|
            a.contents.len() <= c < p.assigned.contents.len() implies #[trigger] gets_a_file(
            p.assigned.clusters,
            files,
            k,
            c,
        ) by {
            if c < q.assigned.contents.len() {
                assert(gets_a_file(q.assigned.clusters, files, k - 1, c));
                let j = choose|j: int|
                    0 <= j < k - 1 && q.assigned.clusters[(#[trigger] files[j]).0] == c;
                assert(files[j].0 != last);
                assert(p.assigned.clusters[files[j].0] == c);
            } else {
                assert(p.assigned.clusters[files[k - 1].0] == c);
            }
        }
    }
}

pub(crate) proof fn lemma_due_is_from(fs: Seq<Assignment>, c: int, i: int)
    requires
        0 <= i < due(fs, c).len(),
    ensures
        exists|j: int| 0 <= j < fs.len() && (#[trigger] fs[j]) == due(fs, c)[i] && fs[j].cluster == c,
    decreases fs.len(),
{
    if fs.len() > 0 {
        let rest = fs.drop_last();
        if fs.last().cluster == c && i == due(fs, c).len() - 1 {
            assert(fs[fs.len() - 1] == due(fs, c)[i]);
        } else {
            lemma_due_is_from(rest, c, i);
            let j = choose|j: int|
                0 <= j < rest.len() && (#[trigger] rest[j]) == due(rest, c)[i] && rest[j].cluster
                    == c;
            assert(fs[j] == due(fs, c)[i]);
        }
    }
}

proof fn lemma_due_has(fs: Seq<Assignment>, c: int, j: int)
    requires
        0 <= j < fs.len(),
        fs[j].cluster == c,
    ensures
        due(fs, c).len() > 0,
    decreases fs.len(),
{
    if j < fs.len() - 1 {
        assert(fs.drop_last()[j] == fs[j]);
        lemma_due_has(fs.drop_last(), c, j);
    }
}

/// The path of one of the files of `content/`.
pub open spec fn is_content_file(root: Seq<char>, t: StagedTree, path: Seq<char>) -> bool {
    let game = collected(path_in(root, "content"@), t.content@, t.content@.len() as int);
    exists|j: int| 0 <= j < game.len() && (#[trigger] game[j]).0 == path
}

/// Content 0, which is the FST, holds no file, and exactly the contents of the files of `content/`
/// are marked as game data: each of those holds such files and no others, and none of them is in any
/// other content. Beyond 65536 contents their indices would run over.
pub proof fn game_contents_are_those_of_content_files(
    root: Seq<char>,
    t: StagedTree,
    title_id: u64,
    c: int,
)
    requires
        t.fits_fst(),
        planned(root, t, title_id) is Ok,
        planned(root, t, title_id)->Ok_0.contents.len() <= 0x1_0000,
        paths_apart(staged_files(root, t)),
        0 <= c < planned(root, t, title_id)->Ok_0.contents.len(),
    ensures
        ({
            let contents = planned(root, t, title_id)->Ok_0.contents;
            let files = contents[c].files;
            &&& contents[0].files.len() == 0
            &&& !contents[0].is_game
            &&& contents[c].is_game ==> files.len() > 0
            &&& forall|i: int|
                0 <= i < files.len() ==> is_content_file(root, t, (#[trigger] files[i]).path)
                    == contents[c].is_game
        }),
{
    lemma_planned_contents(root, t, title_id);
    assignment_is_sound(root, t);
    let contents = planned(root, t, title_id)->Ok_0.contents;
    let base = with_code(root, t);
    let a = with_game(root, t).assigned;
    let fs = staged_assignments(root, t);
    let all = staged_files(root, t);
    let code = collected(path_in(root, "code"@), t.code@, t.code@.len() as int);
    let game = collected(path_in(root, "content"@), t.content@, t.content@.len() as int);
    let meta = collected(path_in(root, "meta"@), t.meta@, t.meta@.len() as int);
    let n = game.len() as int;
    let g0 = code.len() as int;
    assert(paths_apart(game)) by {
        assert forall|i: int, j: int| 0 <= i < j < game.len() implies (#[trigger] game[i]).0 != (
        #[trigger] game[j]).0 by {
            assert(all[g0 + i] == game[i] && all[g0 + j] == game[j]);
        }
    }
    packed_is_sound(base, game, n);
    lemma_packed_fills(base, game, n);
    lemma_no_file_in_front(root, t, title_id);
    super::laws::planned_keeps_kinds(root, t, title_id, 0);
    super::laws::planned_keeps_kinds(root, t, title_id, c);
    assert(!base.contents[0].is_game);
    assert(a.contents[0] == base.contents[0]);
    if c < base.contents.len() {
        assert(a.contents[c] == base.contents[c]);
        assert(!base.contents[c].is_game);
    }
    assert(contents[c].is_game == (c >= base.contents.len()));
    every_staged_file_is_placed_once(root, t, title_id, c);
    let mine = due(fs, c);
    let files = contents[c].files;
    if c >= base.contents.len() {
        assert(gets_a_file(a.clusters, game, n, c));
        let j = choose|j: int| 0 <= j < n && a.clusters[(#[trigger] game[j]).0] == c;
        assert(all[g0 + j] == game[j]);
        lemma_due_has(fs, c, g0 + j);
    }
    assert forall|i: int| 0 <= i < files.len() implies is_content_file(
        root,
        t,
        (#[trigger] files[i]).path,
    ) == contents[c].is_game by {
        lemma_due_is_from(fs, c, i);
        let m = choose|m: int|
            0 <= m < fs.len() && (#[trigger] fs[m]) == mine[i] && fs[m].cluster == c;
        let path = files[i].path;
        assert(path == all[m].0);
        if g0 <= m < g0 + n {
            assert(game[m - g0] == all[m]);
            assert(a.clusters[game[m - g0].0] == c);
        } else {
            if is_content_file(root, t, path) {
                let j = choose|j: int| 0 <= j < game.len() && (#[trigger] game[j]).0 == path;
                assert(all[g0 + j] == game[j]);
                assert(all[g0 + j].0 == all[m].0);
            }
            lemma_staged_outside(root, t, m);
        }
    }
}

/// A file of `code/` or `meta/` is in no game content.
proof fn lemma_staged_outside(root: Seq<char>, t: StagedTree, m: int)
    requires
        all_assigned(staged_files(root, t), with_game(root, t).assigned.clusters),
        paths_apart(staged_files(root, t)),
        0 <= m < staged_files(root, t).len(),
        ({
            let code = collected(path_in(root, "code"@), t.code@, t.code@.len() as int);
            let game = collected(path_in(root, "content"@), t.content@, t.content@.len() as int);
            m < code.len() || code.len() + game.len() <= m
        }),
    ensures
        staged_assignments(root, t)[m].cluster < with_code(root, t).contents.len(),
{
    let all = staged_files(root, t);
    let code = collected(path_in(root, "code"@), t.code@, t.code@.len() as int);
    let game = collected(path_in(root, "content"@), t.content@, t.content@.len() as int);
    let one = seq![all[m]];
    let clusters = with_game(root, t).assigned.clusters;
    assert(clusters.dom().contains(all[m].0));
    assert forall|i: int, j: int| 0 <= i < one.len() && 0 <= j < game.len() implies (
    #[trigger] one[i]).0 != (#[trigger] game[j]).0 by {
        assert(all[code.len() + j] == game[j]);
    }
    lemma_system_files_come_first(root, t, one, game);
    assert(with_clusters(one, clusters)[0].cluster == clusters[all[m].0]);
}

pub(crate) proof fn lemma_no_file_in_front(root: Seq<char>, t: StagedTree, title_id: u64)
    requires
        t.fits_fst(),
        planned(root, t, title_id) is Ok,
        planned(root, t, title_id)->Ok_0.contents.len() <= 0x1_0000,
    ensures
        planned(root, t, title_id)->Ok_0.contents[0].files.len() == 0,
{
    lemma_planned_contents(root, t, title_id);
    assignment_is_sound(root, t);
    let base = with_code(root, t);
    let game = collected(path_in(root, "content"@), t.content@, t.content@.len() as int);
    let n = game.len() as int;
    packed_is_sound(base, game, n);
    lemma_system_behind(root, t);
    lemma_packing_stays_behind(base, game, n);
    every_staged_file_is_placed_once(root, t, title_id, 0);
    let fs = staged_assignments(root, t);
    let all = staged_files(root, t);
    if due(fs, 0).len() > 0 {
        lemma_due_is_from(fs, 0, 0);
        let m = choose|m: int|
            0 <= m < fs.len() && (#[trigger] fs[m]) == due(fs, 0)[0] && fs[m].cluster == 0;
        assert(with_game(root, t).assigned.clusters.dom().contains(all[m].0));
    }
}

proof fn lemma_packing_stays_behind(a: Assigned, files: Seq<(Seq<char>, u64)>, k: int)
    requires
        sound(a),
        none_in_front(a.clusters),
        0 <= k,
        packed(a, files, k).assigned.contents.len() <= 0x1_0000,
    ensures
        none_in_front(packed(a, files, k).assigned.clusters),
        packed(a, files, k).current != Some(0u16),
    decreases k,
{
    if k > 0 {
        let p = packed(a, files, k);
        let q = packed(a, files, k - 1);
        packed_is_sound(a, files, k - 1);
        lemma_packing_stays_behind(a, files, k - 1);
        let r = p.assigned.clusters;
        assert forall|x: Seq<char>| #[trigger] r.dom().contains(x) implies r[x] != 0 by {
            if x != files[k - 1].0 {
                assert(q.assigned.clusters.dom().contains(x));
            }
        }
    }
}

} // verus!

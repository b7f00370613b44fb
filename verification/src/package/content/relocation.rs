//! A plan does not depend on the directory that the title is staged in.

use super::assign::{
    assigned_each, assigned_together, inserted, packed, packed_is_sound, present, unassigned,
    Assigned,
};
use super::determinism::{alike, distinct_names, plan_ignores_the_listing_order};
use super::listing::{collected, entry_order, entry_order_is_complete, Entry, OrderBy};
use super::planned::{ContentView, PlacedView};
use super::tree::{dir_node, dir_tree, flat, flat_one, forest_within, tree_within, Flat, TreeView};
use super::{
    assignment_is_sound, flattened, initial_assignment, lemma_root_children, planned,
    root_children, sector_count, sectors_before, sized_contents, staged_tree, with_bundle,
    with_code, with_game, with_meta, with_meta_xml, with_singles, with_xml, StagedTree,
};
use crate::paths::{path_in, path_in_nests};
use vstd::prelude::*;

verus! {

/// A content whose files, found relative to a title, are found below `root`.
pub open spec fn content_below(root: Seq<char>, c: ContentView) -> ContentView {
    ContentView {
        files: c.files.map_values(
            |f: PlacedView| PlacedView { path: path_in(root, f.path), ..f },
        ),
        ..c
    }
}

/// Contents whose files, found relative to a title, are found below `root`.
pub open spec fn contents_below(root: Seq<char>, contents: Seq<ContentView>) -> Seq<ContentView> {
    contents.map_values(|c: ContentView| content_below(root, c))
}

/// The same contents, but for the directory that their files are found in.
pub open spec fn same_but_for_the_root(
    a: Seq<char>,
    x: Seq<ContentView>,
    b: Seq<char>,
    y: Seq<ContentView>,
) -> bool {
    exists|rel: Seq<ContentView>|
        x == #[trigger] contents_below(a, rel) && y == contents_below(b, rel)
}

spec fn paths_below(root: Seq<char>, paths: Seq<Seq<char>>) -> Seq<Seq<char>> {
    paths.map_values(|p: Seq<char>| path_in(root, p))
}

spec fn files_below(root: Seq<char>, fs: Seq<(Seq<char>, u64)>) -> Seq<(Seq<char>, u64)> {
    fs.map_values(|f: (Seq<char>, u64)| (path_in(root, f.0), f.1))
}

/// `m` has below `root` what `rel` has.
spec fn map_below(root: Seq<char>, rel: Map<Seq<char>, u16>, m: Map<Seq<char>, u16>) -> bool {
    forall|p: Seq<char>|
        {
            let q = #[trigger] path_in(root, p);
            &&& m.dom().contains(q) == rel.dom().contains(p)
            &&& rel.dom().contains(p) ==> m[q] == rel[p]
        }
}

spec fn assigned_below(root: Seq<char>, rel: Assigned, a: Assigned) -> bool {
    a.contents == rel.contents && map_below(root, rel.clusters, a.clusters)
}

spec fn tree_below(root: Seq<char>, t: TreeView) -> TreeView
    decreases t,
{
    match t {
        TreeView::Dir { name, flags, children } => TreeView::Dir {
            name,
            flags,
            children: forest_below(root, children),
        },
        TreeView::File { name, path, size, cluster, flags, type_flags } => TreeView::File {
            name,
            path: path_in(root, path),
            size,
            cluster,
            flags,
            type_flags,
        },
    }
}

spec fn forest_below(root: Seq<char>, ts: Seq<TreeView>) -> Seq<TreeView>
    decreases ts,
{
    if ts.len() == 0 {
        Seq::empty()
    } else {
        forest_below(root, ts.drop_last()).push(tree_below(root, ts[ts.len() - 1]))
    }
}

proof fn lemma_path_is_injective(root: Seq<char>, p: Seq<char>, q: Seq<char>)
    ensures
        path_in(root, p) == path_in(root, q) ==> p == q,
{
    let n = path_in(root, Seq::empty()).len() as int;
    assert(path_in(root, p).skip(n) =~= p);
    assert(path_in(root, q).skip(n) =~= q);
}

proof fn lemma_insert_below(
    root: Seq<char>,
    rel: Map<Seq<char>, u16>,
    m: Map<Seq<char>, u16>,
    path: Seq<char>,
    index: u16,
)
    requires
        map_below(root, rel, m),
    ensures
        map_below(root, rel.insert(path, index), m.insert(path_in(root, path), index)),
{
    let (x, y) = (rel.insert(path, index), m.insert(path_in(root, path), index));
    assert forall|p: Seq<char>|
        {
            let q = #[trigger] path_in(root, p);
            &&& y.dom().contains(q) == x.dom().contains(p)
            &&& x.dom().contains(p) ==> y[q] == x[p]
        } by {
        lemma_path_is_injective(root, p, path);
    }
}

proof fn lemma_present_below(
    root: Seq<char>,
    dir: Seq<char>,
    entries: Seq<Entry>,
    names: Seq<Seq<char>>,
    k: int,
)
    requires
        dir.len() > 0,
    ensures
        present(path_in(root, dir), entries, names, k) == paths_below(
            root,
            present(dir, entries, names, k),
        ),
    decreases k,
{
    if k > 0 {
        lemma_present_below(root, dir, entries, names, k - 1);
        path_in_nests(root, dir, names[k - 1]);
    }
    assert(present(path_in(root, dir), entries, names, k) =~= paths_below(
        root,
        present(dir, entries, names, k),
    ));
}

proof fn lemma_collected_below(root: Seq<char>, dir: Seq<char>, entries: Seq<Entry>, k: int)
    requires
        dir.len() > 0,
    ensures
        collected(path_in(root, dir), entries, k) == files_below(
            root,
            collected(dir, entries, k),
        ),
    decreases entries, k,
{
    if 0 < k <= entries.len() {
        entry_order_is_complete(entries, OrderBy::HifFirst);
        lemma_collected_below(root, dir, entries, k - 1);
        match entries[entry_order(entries, OrderBy::HifFirst)[k - 1]] {
            Entry::Dir { name, entries: sub } => {
                path_in_nests(root, dir, name@);
                lemma_collected_below(root, path_in(dir, name@), sub@, sub@.len() as int);
            },
            Entry::File { name, .. } => {
                path_in_nests(root, dir, name@);
            },
        }
    }
    assert(collected(path_in(root, dir), entries, k) =~= files_below(
        root,
        collected(dir, entries, k),
    ));
}

proof fn lemma_unassigned_below(
    root: Seq<char>,
    dir: Seq<char>,
    entries: Seq<Entry>,
    order: Seq<int>,
    rel: Map<Seq<char>, u16>,
    m: Map<Seq<char>, u16>,
    k: int,
)
    requires
        dir.len() > 0,
        map_below(root, rel, m),
    ensures
        unassigned(path_in(root, dir), entries, order, m, k) == paths_below(
            root,
            unassigned(dir, entries, order, rel, k),
        ),
    decreases k,
{
    if k > 0 {
        lemma_unassigned_below(root, dir, entries, order, rel, m, k - 1);
        match entries[order[k - 1]] {
            Entry::File { name, .. } => {
                path_in_nests(root, dir, name@);
                assert(m.dom().contains(path_in(root, path_in(dir, name@))) == rel.dom().contains(
                    path_in(dir, name@),
                ));
            },
            Entry::Dir { .. } => {},
        }
    }
    assert(unassigned(path_in(root, dir), entries, order, m, k) =~= paths_below(
        root,
        unassigned(dir, entries, order, rel, k),
    ));
}

proof fn lemma_each_below(
    root: Seq<char>,
    rel: Assigned,
    a: Assigned,
    paths: Seq<Seq<char>>,
    content_type: u16,
    k: int,
)
    requires
        assigned_below(root, rel, a),
        k <= paths.len(),
    ensures
        assigned_below(
            root,
            assigned_each(rel, paths, content_type, k),
            assigned_each(a, paths_below(root, paths), content_type, k),
        ),
    decreases k,
{
    if k > 0 {
        lemma_each_below(root, rel, a, paths, content_type, k - 1);
        let b = assigned_each(rel, paths, content_type, k - 1);
        let c = assigned_each(a, paths_below(root, paths), content_type, k - 1);
        lemma_insert_below(
            root,
            b.clusters,
            c.clusters,
            paths[k - 1],
            super::assign::next_index(b),
        );
    }
}

proof fn lemma_inserted_below(
    root: Seq<char>,
    rel: Map<Seq<char>, u16>,
    m: Map<Seq<char>, u16>,
    paths: Seq<Seq<char>>,
    index: u16,
    k: int,
)
    requires
        map_below(root, rel, m),
        k <= paths.len(),
    ensures
        map_below(
            root,
            inserted(rel, paths, index, k),
            inserted(m, paths_below(root, paths), index, k),
        ),
    decreases k,
{
    if k > 0 {
        lemma_inserted_below(root, rel, m, paths, index, k - 1);
        lemma_insert_below(
            root,
            inserted(rel, paths, index, k - 1),
            inserted(m, paths_below(root, paths), index, k - 1),
            paths[k - 1],
            index,
        );
    }
}

proof fn lemma_together_below(
    root: Seq<char>,
    rel: Assigned,
    a: Assigned,
    paths: Seq<Seq<char>>,
    content_type: u16,
)
    requires
        assigned_below(root, rel, a),
    ensures
        assigned_below(
            root,
            assigned_together(rel, paths, content_type),
            assigned_together(a, paths_below(root, paths), content_type),
        ),
{
    lemma_inserted_below(
        root,
        rel.clusters,
        a.clusters,
        paths,
        super::assign::next_index(rel),
        paths.len() as int,
    );
}

proof fn lemma_packed_below(
    root: Seq<char>,
    rel: Assigned,
    a: Assigned,
    files: Seq<(Seq<char>, u64)>,
    k: int,
)
    requires
        assigned_below(root, rel, a),
        k <= files.len(),
    ensures
        ({
            let p = packed(rel, files, k);
            let q = packed(a, files_below(root, files), k);
            &&& assigned_below(root, p.assigned, q.assigned)
            &&& p.current == q.current
            &&& p.current_size == q.current_size
            &&& p.refused is Some == q.refused is Some
        }),
    decreases k,
{
    if k > 0 {
        lemma_packed_below(root, rel, a, files, k - 1);
        let p = packed(rel, files, k - 1);
        let q = packed(a, files_below(root, files), k - 1);
        if p.current is Some {
            lemma_insert_below(
                root,
                p.assigned.clusters,
                q.assigned.clusters,
                files[k - 1].0,
                p.current->0,
            );
        }
        lemma_insert_below(
            root,
            p.assigned.clusters,
            q.assigned.clusters,
            files[k - 1].0,
            super::assign::next_index(p.assigned),
        );
    }
}

proof fn lemma_below_of_push(root: Seq<char>, ts: Seq<TreeView>, t: TreeView)
    ensures
        forest_below(root, ts.push(t)) == forest_below(root, ts).push(tree_below(root, t)),
{
    assert(ts.push(t).drop_last() =~= ts);
}

proof fn lemma_tree_below(
    root: Seq<char>,
    dir: Seq<char>,
    entries: Seq<Entry>,
    flags: u16,
    rel: Map<Seq<char>, u16>,
    m: Map<Seq<char>, u16>,
    k: int,
)
    requires
        dir.len() > 0,
        map_below(root, rel, m),
    ensures
        match dir_tree(dir, entries, flags, rel, k) {
            Ok(ts) => dir_tree(path_in(root, dir), entries, flags, m, k) == Ok::<
                Seq<TreeView>,
                Seq<char>,
            >(forest_below(root, ts)),
            Err(_) => dir_tree(path_in(root, dir), entries, flags, m, k) is Err,
        },
    decreases entries, k,
{
    if 0 < k <= entries.len() {
        entry_order_is_complete(entries, OrderBy::HifFirst);
        lemma_tree_below(root, dir, entries, flags, rel, m, k - 1);
        if dir_tree(dir, entries, flags, rel, k - 1) is Ok {
            let done = dir_tree(dir, entries, flags, rel, k - 1)->Ok_0;
            match entries[entry_order(entries, OrderBy::HifFirst)[k - 1]] {
                Entry::Dir { name, entries: sub } => {
                    let path = path_in(dir, name@);
                    let n = sub@.len() as int;
                    path_in_nests(root, dir, name@);
                    lemma_tree_below(root, path, sub@, flags, rel, m, n);
                    if dir_tree(path, sub@, flags, rel, n) is Ok {
                        let children = dir_tree(path, sub@, flags, rel, n)->Ok_0;
                        lemma_below_of_push(
                            root,
                            done,
                            TreeView::Dir { name: name@, flags, children },
                        );
                    }
                },
                Entry::File { name, .. } => {
                    let path = path_in(dir, name@);
                    path_in_nests(root, dir, name@);
                    assert(m.dom().contains(path_in(root, path)) == rel.dom().contains(path));
                    if rel.dom().contains(path) {
                        let all = dir_tree(dir, entries, flags, rel, k)->Ok_0;
                        lemma_below_of_push(root, done, all.last());
                    }
                },
            }
        }
    } else {
        assert(forest_below(root, Seq::empty()) == Seq::<TreeView>::empty());
    }
}

proof fn lemma_below_of_concat(root: Seq<char>, a: Seq<TreeView>, b: Seq<TreeView>)
    ensures
        forest_below(root, a + b) == forest_below(root, a) + forest_below(root, b),
    decreases b.len(),
{
    if b.len() == 0 {
        assert(a + b =~= a);
        assert(forest_below(root, a) + forest_below(root, b) =~= forest_below(root, a));
    } else {
        lemma_below_of_concat(root, a, b.drop_last());
        assert((a + b).drop_last() =~= a + b.drop_last());
        assert((a + b)[(a + b).len() - 1] == b[b.len() - 1]);
        assert(forest_below(root, a + b) =~= forest_below(root, a) + forest_below(root, b));
    }
}

proof fn lemma_below_keeps_length(root: Seq<char>, ts: Seq<TreeView>)
    ensures
        forest_below(root, ts).len() == ts.len(),
    decreases ts.len(),
{
    if ts.len() > 0 {
        lemma_below_keeps_length(root, ts.drop_last());
    }
}

proof fn lemma_staged_below(
    root: Seq<char>,
    name: Seq<char>,
    entries: Seq<Entry>,
    flags: u16,
    rel: Map<Seq<char>, u16>,
    m: Map<Seq<char>, u16>,
)
    requires
        name.len() > 0,
        map_below(root, rel, m),
    ensures
        match staged_tree(Seq::empty(), name, entries, flags, rel) {
            Ok(ts) => staged_tree(root, name, entries, flags, m) matches Ok(us) && us
                == forest_below(root, ts),
            Err(_) => staged_tree(root, name, entries, flags, m) is Err,
        },
{
    let n = entries.len() as int;
    lemma_tree_below(root, name, entries, flags, rel, m, n);
    assert(path_in(Seq::empty(), name) == name);
    if dir_tree(name, entries, flags, rel, n) is Ok {
        let children = dir_tree(name, entries, flags, rel, n)->Ok_0;
        lemma_below_keeps_length(root, children);
        let none = Seq::<TreeView>::empty();
        let top = TreeView::Dir { name, flags, children };
        lemma_below_of_push(root, none, top);
        assert(none.push(top) =~= seq![top]);
        assert(forest_below(root, none).push(tree_below(root, top)) =~= seq![
            tree_below(root, top),
        ]);
    }
}

proof fn lemma_root_below(
    root: Seq<char>,
    t: StagedTree,
    rel: Map<Seq<char>, u16>,
    m: Map<Seq<char>, u16>,
)
    requires
        map_below(root, rel, m),
    ensures
        match root_children(Seq::empty(), t, rel) {
            Ok(ts) => root_children(root, t, m) matches Ok(us) && us == forest_below(root, ts),
            Err(_) => root_children(root, t, m) is Err,
        },
{
    reveal_strlit("code");
    reveal_strlit("content");
    reveal_strlit("meta");
    lemma_staged_below(root, "code"@, t.code@, super::FST_FLAGS_CODE, rel, m);
    lemma_staged_below(root, "content"@, t.content@, super::FST_FLAGS_CONTENT, rel, m);
    lemma_staged_below(root, "meta"@, t.meta@, super::FST_FLAGS_META, rel, m);
    if root_children(Seq::empty(), t, rel) is Ok {
        let none = Seq::<char>::empty();
        let a = staged_tree(none, "code"@, t.code@, super::FST_FLAGS_CODE, rel)->Ok_0;
        let b = staged_tree(none, "content"@, t.content@, super::FST_FLAGS_CONTENT, rel)->Ok_0;
        let c = staged_tree(none, "meta"@, t.meta@, super::FST_FLAGS_META, rel)->Ok_0;
        lemma_below_of_concat(root, a, b);
        lemma_below_of_concat(root, a + b, c);
    }
}

spec fn flat_below(root: Seq<char>, f: Flat) -> Flat {
    Flat { nodes: f.nodes, contents: contents_below(root, f.contents) }
}

proof fn lemma_flat_one_below(root: Seq<char>, t: TreeView, parent: int, st: Flat)
    requires
        tree_within(t, st.contents.len()),
    ensures
        flat_one(tree_below(root, t), parent, flat_below(root, st)) == flat_below(
            root,
            flat_one(t, parent, st),
        ),
        flat_one(t, parent, st).contents.len() == st.contents.len(),
    decreases t,
{
    match t {
        TreeView::Dir { name, flags, children } => {
            let st1 = Flat {
                nodes: st.nodes.push(dir_node(name, flags, parent, 0, 0)),
                contents: st.contents,
            };
            lemma_flat_below(root, children, st.nodes.len() as int, st1);
        },
        TreeView::File { path, size, cluster, .. } => {
            let c = st.contents[cluster as int];
            assert(contents_below(root, st.contents)[cluster as int] == content_below(root, c));
            let one = super::tree::with_file(c, path, size as int);
            let two = super::tree::with_file(
                content_below(root, c),
                path_in(root, path),
                size as int,
            );
            assert(content_below(root, one).files =~= two.files);
            assert(content_below(root, one) == two);
            assert(contents_below(root, st.contents.update(cluster as int, one))
                =~= contents_below(root, st.contents).update(cluster as int, two));
        },
    }
}

proof fn lemma_flat_below(root: Seq<char>, ts: Seq<TreeView>, parent: int, st: Flat)
    requires
        forest_within(ts, st.contents.len()),
    ensures
        flat(forest_below(root, ts), parent, flat_below(root, st)) == flat_below(
            root,
            flat(ts, parent, st),
        ),
        flat(ts, parent, st).contents.len() == st.contents.len(),
    decreases ts,
{
    if ts.len() > 0 {
        let init = ts.drop_last();
        lemma_flat_below(root, init, parent, st);
        lemma_flat_one_below(root, ts[ts.len() - 1], parent, flat(init, parent, st));
        let all = forest_below(root, ts);
        assert(all.drop_last() =~= forest_below(root, init));
        assert(all[all.len() - 1] == tree_below(root, ts[ts.len() - 1]));
    }
}

proof fn lemma_empty_contents_below(root: Seq<char>, contents: Seq<ContentView>)
    requires
        forall|c: int| 0 <= c < contents.len() ==> (#[trigger] contents[c]).files.len() == 0,
    ensures
        contents_below(root, contents) == contents,
{
    assert forall|c: int| 0 <= c < contents.len() implies #[trigger] contents_below(
        root,
        contents,
    )[c] == contents[c] by {
        assert(content_below(root, contents[c]).files =~= contents[c].files);
    }
    assert(contents_below(root, contents) =~= contents);
}

proof fn lemma_code_below(root: Seq<char>, t: StagedTree)
    ensures
        assigned_below(root, with_code(Seq::empty(), t), with_code(root, t)),
{
    reveal_strlit("code");
    reveal_strlit("meta");
    let none = Seq::<char>::empty();
    let (code, meta) = ("code"@, "meta"@);
    assert(path_in(none, code) == code && path_in(none, meta) == meta);
    assert(assigned_below(root, initial_assignment(), initial_assignment()));
    let xml = seq!["app.xml"@, "cos.xml"@];
    lemma_present_below(root, code, t.code@, xml, 2);
    let p = present(code, t.code@, xml, 2);
    lemma_each_below(
        root,
        initial_assignment(),
        initial_assignment(),
        p,
        super::TYPE_NONHASHED,
        p.len() as int,
    );
    assert(assigned_below(root, with_xml(none, t), with_xml(root, t)));
    lemma_present_below(root, meta, t.meta@, seq!["meta.xml"@], 1);
    let p = present(meta, t.meta@, seq!["meta.xml"@], 1);
    lemma_each_below(
        root,
        with_xml(none, t),
        with_xml(root, t),
        p,
        super::TYPE_HASHED,
        p.len() as int,
    );
    assert(assigned_below(root, with_meta_xml(none, t), with_meta_xml(root, t)));
    let bundle = seq![
        "iconTex.tga"@,
        "bootTvTex.tga"@,
        "bootDrcTex.tga"@,
        "bootSound.btsnd"@,
    ];
    lemma_present_below(root, meta, t.meta@, bundle, 4);
    lemma_together_below(
        root,
        with_meta_xml(none, t),
        with_meta_xml(root, t),
        present(meta, t.meta@, bundle, 4),
        super::TYPE_HASHED,
    );
    assert(assigned_below(root, with_bundle(none, t), with_bundle(root, t)));
    let singles = seq!["bootMovie.h264"@, "bootLogoTex.tga"@];
    lemma_present_below(root, meta, t.meta@, singles, 2);
    let p = present(meta, t.meta@, singles, 2);
    lemma_each_below(
        root,
        with_bundle(none, t),
        with_bundle(root, t),
        p,
        super::TYPE_HASHED,
        p.len() as int,
    );
    let (s0, s1) = (with_singles(none, t), with_singles(root, t));
    assert(assigned_below(root, s0, s1));
    let order = entry_order(t.meta@, OrderBy::Name);
    let n = t.meta@.len() as int;
    lemma_unassigned_below(root, meta, t.meta@, order, s0.clusters, s1.clusters, n);
    lemma_together_below(
        root,
        s0,
        s1,
        unassigned(meta, t.meta@, order, s0.clusters, n),
        super::TYPE_HASHED,
    );
    let (m0, m1) = (with_meta(none, t), with_meta(root, t));
    assert(assigned_below(root, m0, m1));
    let order = entry_order(t.code@, OrderBy::ExecutableFirst);
    let n = t.code@.len() as int;
    lemma_unassigned_below(root, code, t.code@, order, m0.clusters, m1.clusters, n);
    let p = unassigned(code, t.code@, order, m0.clusters, n);
    lemma_each_below(root, m0, m1, p, super::TYPE_NONHASHED, p.len() as int);
}

proof fn lemma_sectors_below(root: Seq<char>, contents: Seq<ContentView>, k: int)
    requires
        k <= contents.len(),
    ensures
        sectors_before(contents_below(root, contents), k) == sectors_before(contents, k),
    decreases k,
{
    if k > 0 {
        lemma_sectors_below(root, contents, k - 1);
        assert(sector_count(contents_below(root, contents)[k - 1]) == sector_count(
            contents[k - 1],
        ));
    }
}

proof fn lemma_planned_below(root: Seq<char>, t: StagedTree, title_id: u64)
    requires
        t.fits_fst(),
    ensures
        match planned(Seq::empty(), t, title_id) {
            Ok(rel) => planned(root, t, title_id) matches Ok(p) && p.fst == rel.fst && p.contents
                == contents_below(root, rel.contents),
            Err(_) => planned(root, t, title_id) is Err,
        },
{
    reveal_strlit("content");
    let none = Seq::<char>::empty();
    let (c0, c1) = (with_code(none, t), with_code(root, t));
    let content = "content"@;
    let n = t.content@.len() as int;
    lemma_code_below(root, t);
    lemma_collected_below(root, content, t.content@, n);
    assert(path_in(none, content) == content);
    let files = collected(content, t.content@, n);
    lemma_packed_below(root, c0, c1, files, files.len() as int);
    assert(files_below(root, files).len() == files.len());
    let (g0, g1) = (with_game(none, t), with_game(root, t));
    lemma_root_below(root, t, g0.assigned.clusters, g1.assigned.clusters);
    if planned(none, t, title_id) is Ok {
        let a = g0.assigned;
        assignment_is_sound(none, t);
        packed_is_sound(c0, files, files.len() as int);
        let ts = root_children(none, t, a.clusters)->Ok_0;
        lemma_root_children(none, t, a.clusters, a.contents.len());
        lemma_empty_contents_below(root, a.contents);
        let st = Flat { nodes: seq![dir_node(Seq::empty(), 0, 0, 0, 0)], contents: a.contents };
        assert(flat_below(root, st) == st);
        lemma_flat_below(root, ts, 0, st);
        let f = flattened(ts, a.contents);
        let h = flattened(forest_below(root, ts), a.contents);
        assert(h.nodes == f.nodes);
        assert(h.contents == contents_below(root, f.contents));
        let (x, y) = (sized_contents(f), sized_contents(h));
        assert(y =~= contents_below(root, x)) by {
            let first = ContentView {
                data_len: crate::package::fst::fst_len(f.contents.len(), f.nodes) as int,
                ..f.contents[0]
            };
            assert(content_below(root, first).files =~= content_below(root, f.contents[0]).files);
        }
        let (p, q) = (super::content_table(x, title_id), super::content_table(y, title_id));
        assert forall|i: int| 0 <= i < p.len() implies p[i] == q[i] by {
            lemma_sectors_below(root, x, i);
            assert(y[i] == content_below(root, x[i]));
        }
        assert(p =~= q);
    }
}

/// The plan of a title depends on its files and their sizes alone: staged in another directory and
/// listed in another order, it has the same FST, byte for byte, and the same contents but for the
/// directory that their files are found in.
pub proof fn plan_depends_on_the_title_alone(
    a: Seq<char>,
    ta: StagedTree,
    b: Seq<char>,
    tb: StagedTree,
    title_id: u64,
)
    requires
        ta.fits_fst(),
        alike(ta.code@, tb.code@) && distinct_names(ta.code@),
        alike(ta.content@, tb.content@) && distinct_names(ta.content@),
        alike(ta.meta@, tb.meta@) && distinct_names(ta.meta@),
    ensures
        match planned(a, ta, title_id) {
            Ok(x) => planned(b, tb, title_id) matches Ok(y) && x.fst == y.fst
                && same_but_for_the_root(a, x.contents, b, y.contents),
            Err(_) => planned(b, tb, title_id) is Err,
        },
{
    plan_ignores_the_listing_order(b, ta, tb, title_id);
    lemma_planned_below(a, ta, title_id);
    lemma_planned_below(b, ta, title_id);
    if planned(a, ta, title_id) is Ok {
        let rel = planned(Seq::empty(), ta, title_id)->Ok_0.contents;
        assert(planned(a, ta, title_id)->Ok_0.contents == contents_below(a, rel));
    }
}

} // verus!

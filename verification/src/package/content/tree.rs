//! The directory tree of a package, and its flattening into FST nodes and placed files.

use super::assign::ClusterMap;
use super::listing::{
    entry_order, entry_order_is_complete, hif_name, is_hif, names_at, order_entries,
    order_keeps_measures, weight_at, Entry, OrderBy,
};
use super::planned::{content_views, ContentView, PlacedFile, PlacedView, PlannedContent};
use crate::bytes::{align_up, aligned_up, aligned_up_is_least};
use crate::package::fst::{names_room, node_views, FstNode, FstNodeKind, NodeView, OFFSET_FACTOR};
use crate::package::order::{index_sum, ints};
use crate::paths::{join_path, path_in};
use vstd::prelude::*;
use vstd::utf8::encode_utf8;

verus! {

/// Type flag of game-data files in the FST.
pub const ENTRY_TYPE_HIF: u8 = 0x02;

/// A file or directory of the package, with the content that each file goes to.
#[derive(Debug)]
pub enum Tree {
    Dir { name: String, flags: u16, children: Vec<Tree> },
    File { name: String, path: String, size: u64, cluster: u16, flags: u16, type_flags: u8 },
}

/// The value of a [`Tree`].
pub enum TreeView {
    Dir { name: Seq<char>, flags: u16, children: Seq<TreeView> },
    File {
        name: Seq<char>,
        path: Seq<char>,
        size: u64,
        cluster: u16,
        flags: u16,
        type_flags: u8,
    },
}

/// The value of a tree.
pub open spec fn tree_view(t: Tree) -> TreeView
    decreases t,
{
    match t {
        Tree::Dir { name, flags, children } => TreeView::Dir {
            name: name@,
            flags,
            children: forest_view(children@),
        },
        Tree::File { name, path, size, cluster, flags, type_flags } => TreeView::File {
            name: name@,
            path: path@,
            size,
            cluster,
            flags,
            type_flags,
        },
    }
}

/// The values of a list of trees.
pub open spec fn forest_view(ts: Seq<Tree>) -> Seq<TreeView>
    decreases ts,
{
    if ts.len() == 0 {
        Seq::empty()
    } else {
        forest_view(ts.drop_last()).push(tree_view(ts[ts.len() - 1]))
    }
}

proof fn lemma_forest_view(ts: Seq<Tree>)
    ensures
        forest_view(ts).len() == ts.len(),
        forall|i: int| 0 <= i < ts.len() ==> #[trigger] forest_view(ts)[i] == tree_view(ts[i]),
    decreases ts.len(),
{
    if ts.len() > 0 {
        lemma_forest_view(ts.drop_last());
    }
}

/// A list of trees has as many values as trees.
pub proof fn forest_view_keeps_length(ts: Seq<Tree>)
    ensures
        forest_view(ts).len() == ts.len(),
{
    lemma_forest_view(ts);
}

/// The subtree of a directory, from the contents of its files: the first `k` of its entries, or the
/// path of the first file that has no content.
pub open spec fn dir_tree(
    dir: Seq<char>,
    entries: Seq<Entry>,
    flags: u16,
    clusters: Map<Seq<char>, u16>,
    k: int,
) -> Result<Seq<TreeView>, Seq<char>>
    decreases entries, k,
{
    if k <= 0 || k > entries.len() {
        Ok(Seq::empty())
    } else {
        proof {
            entry_order_is_complete(entries, OrderBy::HifFirst);
        }
        match dir_tree(dir, entries, flags, clusters, k - 1) {
            Err(path) => Err(path),
            Ok(done) => match entries[entry_order(entries, OrderBy::HifFirst)[k - 1]] {
                Entry::Dir { name, entries: sub } => match dir_tree(
                    path_in(dir, name@),
                    sub@,
                    flags,
                    clusters,
                    sub@.len() as int,
                ) {
                    Err(path) => Err(path),
                    Ok(children) => Ok(
                        done.push(TreeView::Dir { name: name@, flags, children }),
                    ),
                },
                Entry::File { name, size, .. } => {
                    let path = path_in(dir, name@);
                    if clusters.dom().contains(path) {
                        Ok(
                            done.push(
                                TreeView::File {
                                    name: name@,
                                    path,
                                    size,
                                    cluster: clusters[path],
                                    flags,
                                    type_flags: if hif_name(name@) {
                                        ENTRY_TYPE_HIF
                                    } else {
                                        0
                                    },
                                },
                            ),
                        )
                    } else {
                        Err(path)
                    }
                },
            },
        }
    }
}

proof fn lemma_dir_tree_error(
    dir: Seq<char>,
    entries: Seq<Entry>,
    flags: u16,
    clusters: Map<Seq<char>, u16>,
    k: int,
    n: int,
)
    requires
        0 <= k <= n <= entries.len(),
        dir_tree(dir, entries, flags, clusters, k) is Err,
    ensures
        dir_tree(dir, entries, flags, clusters, n) == dir_tree(dir, entries, flags, clusters, k),
    decreases n,
{
    if k < n {
        lemma_dir_tree_error(dir, entries, flags, clusters, k, n - 1);
    }
}

/// Build the subtree of a directory. Game-data files carry [`ENTRY_TYPE_HIF`]. The error is the path
/// of the first file that no content was assigned to.
pub fn build_dir_tree(
    dir: &str,
    entries: &Vec<Entry>,
    flags: u16,
    clusters: &ClusterMap,
) -> (r: Result<Vec<Tree>, String>)
    ensures
        match r {
            Ok(v) => dir_tree(dir@, entries@, flags, clusters@, entries@.len() as int) == Ok::<
                Seq<TreeView>,
                Seq<char>,
            >(forest_view(v@)),
            Err(path) => dir_tree(dir@, entries@, flags, clusters@, entries@.len() as int) == Err::<
                Seq<TreeView>,
                Seq<char>,
            >(path@),
        },
    decreases entries,
{
    let order = order_entries(entries, OrderBy::HifFirst);
    let ghost n = entries@.len() as int;
    let mut out: Vec<Tree> = Vec::new();
    let mut k: usize = 0;
    while k < order.len()
        invariant
            k <= order@.len(),
            order@.len() == entries@.len(),
            n == entries@.len(),
            ints(order@) == entry_order(entries@, OrderBy::HifFirst),
            forall|i: int| 0 <= i < order@.len() ==> #[trigger] order@[i] < entries@.len(),
            dir_tree(dir@, entries@, flags, clusters@, k as int) == Ok::<Seq<TreeView>, Seq<char>>(
                forest_view(out@),
            ),
        decreases order@.len() - k,
    {
        assert(ints(order@)[k as int] == order@[k as int]);
        let ghost before = out@;
        match &entries[order[k]] {
            Entry::Dir { name, entries: sub } => {
                let path = join_path(dir, name.as_str());
                match build_dir_tree(path.as_str(), sub, flags, clusters) {
                    Err(bad) => {
                        proof {
                            lemma_dir_tree_error(dir@, entries@, flags, clusters@, k + 1, n);
                        }
                        return Err(bad);
                    },
                    Ok(children) => {
                        out.push(Tree::Dir { name: name.clone(), flags, children });
                    },
                }
            },
            Entry::File { name, size, .. } => {
                let path = join_path(dir, name.as_str());
                match clusters.get(path.as_str()) {
                    None => {
                        proof {
                            lemma_dir_tree_error(dir@, entries@, flags, clusters@, k + 1, n);
                        }
                        return Err(path);
                    },
                    Some(cluster) => {
                        let type_flags = if is_hif(name.as_str()) {
                            ENTRY_TYPE_HIF
                        } else {
                            0
                        };
                        out.push(
                            Tree::File {
                                name: name.clone(),
                                path,
                                size: *size,
                                cluster,
                                flags,
                                type_flags,
                            },
                        );
                    },
                }
            },
        }
        proof {
            reveal_with_fuel(tree_view, 2);
            assert(out@.drop_last() =~= before);
            assert(forest_view(out@) == forest_view(before).push(tree_view(out@[out@.len() - 1])));
        }
        k = k + 1;
    }
    Ok(out)
}

/// FST nodes and contents while a tree is being flattened.
#[verifier::ext_equal]
pub struct Flat {
    pub nodes: Seq<NodeView>,
    pub contents: Seq<ContentView>,
}

/// A content with one more file, behind those that it has.
pub open spec fn with_file(c: ContentView, path: Seq<char>, size: int) -> ContentView {
    let offset = aligned_up(c.data_len, OFFSET_FACTOR as int);
    ContentView {
        files: c.files.push(PlacedView { path, offset, size }),
        data_len: offset + size,
        ..c
    }
}

/// The node of a directory.
pub open spec fn dir_node(
    name: Seq<char>,
    flags: u16,
    parent: int,
    end: int,
    cluster: u16,
) -> NodeView {
    NodeView {
        name,
        kind: FstNodeKind::Dir { parent_index: parent as u32, end_index: end as u32 },
        type_flags: 0,
        flags,
        cluster,
    }
}

/// One tree flattened behind what there is: a directory node knows its parent, the end of its
/// descendants and the content of the node behind it; a file is placed in its content.
pub open spec fn flat_one(t: TreeView, parent: int, st: Flat) -> Flat
    decreases t,
{
    match t {
        TreeView::Dir { name, flags, children } => {
            let my = st.nodes.len() as int;
            let inner = flat(
                children,
                my,
                Flat {
                    nodes: st.nodes.push(dir_node(name, flags, parent, 0, 0)),
                    contents: st.contents,
                },
            );
            let end = inner.nodes.len() as int;
            let cluster = if my + 1 < end {
                inner.nodes[my + 1].cluster
            } else {
                0
            };
            Flat {
                nodes: inner.nodes.update(my, dir_node(name, flags, parent, end, cluster)),
                contents: inner.contents,
            }
        },
        TreeView::File { name, path, size, cluster, flags, type_flags } => {
            let c = st.contents[cluster as int];
            let offset = aligned_up(c.data_len, OFFSET_FACTOR as int);
            Flat {
                nodes: st.nodes.push(
                    NodeView {
                        name,
                        kind: FstNodeKind::File { offset: offset as u64, size },
                        type_flags,
                        flags,
                        cluster,
                    },
                ),
                contents: st.contents.update(cluster as int, with_file(c, path, size as int)),
            }
        },
    }
}

/// A list of trees flattened behind what there is.
pub open spec fn flat(children: Seq<TreeView>, parent: int, st: Flat) -> Flat
    decreases children,
{
    if children.len() == 0 {
        st
    } else {
        flat_one(
            children[children.len() - 1],
            parent,
            flat(children.drop_last(), parent, st),
        )
    }
}

/// Nodes of a tree.
pub open spec fn tree_nodes(t: TreeView) -> nat
    decreases t,
{
    match t {
        TreeView::Dir { children, .. } => 1 + forest_nodes(children),
        TreeView::File { .. } => 1,
    }
}

/// Nodes of a list of trees.
pub open spec fn forest_nodes(ts: Seq<TreeView>) -> nat
    decreases ts,
{
    if ts.len() == 0 {
        0
    } else {
        forest_nodes(ts.drop_last()) + tree_nodes(ts[ts.len() - 1])
    }
}

/// Bytes that the files of a tree take at most.
pub open spec fn tree_weight(t: TreeView) -> nat
    decreases t,
{
    match t {
        TreeView::Dir { children, .. } => forest_weight(children),
        TreeView::File { size, .. } => size as nat + 0x20,
    }
}

/// Bytes that the files of a list of trees take at most.
pub open spec fn forest_weight(ts: Seq<TreeView>) -> nat
    decreases ts,
{
    if ts.len() == 0 {
        0
    } else {
        forest_weight(ts.drop_last()) + tree_weight(ts[ts.len() - 1])
    }
}

/// Every file of a tree goes to one of `n` contents.
pub open spec fn tree_within(t: TreeView, n: nat) -> bool
    decreases t,
{
    match t {
        TreeView::Dir { children, .. } => forest_within(children, n),
        TreeView::File { cluster, .. } => cluster < n,
    }
}

/// Every file of a list of trees goes to one of `n` contents.
pub open spec fn forest_within(ts: Seq<TreeView>, n: nat) -> bool
    decreases ts,
{
    ts.len() == 0 || (forest_within(ts.drop_last(), n) && tree_within(ts[ts.len() - 1], n))
}

/// The bytes of all contents.
pub open spec fn total_len(contents: Seq<ContentView>) -> int
    decreases contents.len(),
{
    if contents.len() == 0 {
        0
    } else {
        total_len(contents.drop_last()) + contents.last().data_len
    }
}

proof fn lemma_total_len_update(contents: Seq<ContentView>, i: int, c: ContentView)
    requires
        0 <= i < contents.len(),
    ensures
        total_len(contents.update(i, c)) == total_len(contents) - contents[i].data_len + c.data_len,
    decreases contents.len(),
{
    let u = contents.update(i, c);
    if i == contents.len() - 1 {
        assert(u.drop_last() =~= contents.drop_last());
    } else {
        lemma_total_len_update(contents.drop_last(), i, c);
        assert(u.drop_last() =~= contents.drop_last().update(i, c));
    }
}

/// What flattening keeps: no content comes or goes, each grows at most by the bytes of the files,
/// and there is one node for each file and directory.
pub open spec fn flat_bounds(st: Flat, r: Flat, nodes: nat, weight: nat) -> bool {
    &&& r.nodes.len() == st.nodes.len() + nodes
    &&& r.contents.len() == st.contents.len()
    &&& forall|c: int|
        0 <= c < st.contents.len() ==> st.contents[c].data_len <= (
        #[trigger] r.contents[c]).data_len <= st.contents[c].data_len + weight
    &&& total_len(r.contents) <= total_len(st.contents) + weight
}

proof fn lemma_flat_one_bounds(t: TreeView, parent: int, st: Flat)
    requires
        tree_within(t, st.contents.len()),
        forall|c: int| 0 <= c < st.contents.len() ==> 0 <= (#[trigger] st.contents[c]).data_len,
    ensures
        flat_bounds(st, flat_one(t, parent, st), tree_nodes(t), tree_weight(t)),
    decreases t,
{
    match t {
        TreeView::Dir { name, flags, children } => {
            let my = st.nodes.len() as int;
            let st1 = Flat {
                nodes: st.nodes.push(dir_node(name, flags, parent, 0, 0)),
                contents: st.contents,
            };
            lemma_flat_bounds(children, my, st1);
        },
        TreeView::File { name, path, size, cluster, flags, type_flags } => {
            let c = st.contents[cluster as int];
            aligned_up_is_least(c.data_len, OFFSET_FACTOR as int);
            lemma_total_len_update(
                st.contents,
                cluster as int,
                with_file(c, path, size as int),
            );
        },
    }
}

proof fn lemma_flat_bounds(ts: Seq<TreeView>, parent: int, st: Flat)
    requires
        forest_within(ts, st.contents.len()),
        forall|c: int| 0 <= c < st.contents.len() ==> 0 <= (#[trigger] st.contents[c]).data_len,
    ensures
        flat_bounds(st, flat(ts, parent, st), forest_nodes(ts), forest_weight(ts)),
    decreases ts,
{
    if ts.len() > 0 {
        let a = flat(ts.drop_last(), parent, st);
        lemma_flat_bounds(ts.drop_last(), parent, st);
        lemma_flat_one_bounds(ts[ts.len() - 1], parent, a);
    }
}

proof fn lemma_forest_take(ts: Seq<TreeView>, k: int, n: nat)
    requires
        0 <= k < ts.len(),
        forest_within(ts, n),
    ensures
        forest_within(ts.take(k), n),
        tree_within(ts[k], n),
        forest_nodes(ts.take(k)) + tree_nodes(ts[k]) <= forest_nodes(ts),
        forest_weight(ts.take(k)) + tree_weight(ts[k]) <= forest_weight(ts),
    decreases ts.len(),
{
    if k < ts.len() - 1 {
        lemma_forest_take(ts.drop_last(), k, n);
        assert(ts.drop_last().take(k) =~= ts.take(k));
    } else {
        assert(ts.drop_last() =~= ts.take(k));
    }
}

/// Place a file in its content: behind the files that it has, on a multiple of 0x20.
fn place_file(contents: &mut Vec<PlannedContent>, cluster: usize, path: &String, size: u64) -> (r:
    u64)
    requires
        cluster < old(contents)@.len(),
        old(contents)@[cluster as int].data_len + size + 0x20 <= u64::MAX,
    ensures
        r == aligned_up(old(contents)@[cluster as int].data_len as int, OFFSET_FACTOR as int),
        content_views(final(contents)@) == content_views(old(contents)@).update(
            cluster as int,
            with_file(content_views(old(contents)@)[cluster as int], path@, size as int),
        ),
{
    let ghost before = contents@;
    let offset = align_up(contents[cluster].data_len, OFFSET_FACTOR as u64);
    contents[cluster].files.push(PlacedFile { path: path.clone(), offset, size });
    contents[cluster].data_len = offset + size;
    proof {
        let c = contents@[cluster as int];
        assert(c@.files =~= before[cluster as int]@.files.push(
            PlacedView { path: path@, offset: offset as int, size: size as int },
        ));
        assert(c@ =~= with_file(before[cluster as int]@, path@, size as int));
        assert(content_views(contents@) =~= content_views(before).update(cluster as int, c@));
    }
    offset
}

/// Flatten trees into FST nodes in depth-first order, placing each file in its content on the way.
pub fn flatten(
    children: &Vec<Tree>,
    parent_index: u32,
    nodes: &mut Vec<FstNode>,
    contents: &mut Vec<PlannedContent>,
)
    requires
        old(nodes)@.len() + forest_nodes(forest_view(children@)) <= u32::MAX,
        forest_within(forest_view(children@), old(contents)@.len()),
        forall|c: int|
            0 <= c < old(contents)@.len() ==> (#[trigger] old(contents)@[c]).data_len
                + forest_weight(forest_view(children@)) <= u64::MAX,
    ensures
        ({
            let st = Flat {
                nodes: node_views(old(nodes)@),
                contents: content_views(old(contents)@),
            };
            let r = flat(forest_view(children@), parent_index as int, st);
            &&& node_views(final(nodes)@) == r.nodes
            &&& content_views(final(contents)@) == r.contents
            &&& flat_bounds(
                st,
                r,
                forest_nodes(forest_view(children@)),
                forest_weight(forest_view(children@)),
            )
        }),
    decreases children,
{
    let ghost fv = forest_view(children@);
    let ghost st = Flat { nodes: node_views(nodes@), contents: content_views(contents@) };
    let ghost parent = parent_index as int;
    let mut i: usize = 0;
    assert(fv.take(0).len() == 0);
    proof {
        lemma_forest_view(children@);
        assert forall|c: int| 0 <= c < st.contents.len() implies 0 <= (
        #[trigger] st.contents[c]).data_len by {
            assert(st.contents[c] == contents@[c]@);
        }
        lemma_flat_bounds(fv, parent, st);
    }
    while i < children.len()
        invariant
            i <= children@.len(),
            fv == forest_view(children@),
            fv.len() == children@.len(),
            forall|j: int| 0 <= j < fv.len() ==> #[trigger] fv[j] == tree_view(children@[j]),
            parent == parent_index,
            st.nodes.len() + forest_nodes(fv) <= u32::MAX,
            forest_within(fv, st.contents.len()),
            forall|c: int|
                0 <= c < st.contents.len() ==> 0 <= (#[trigger] st.contents[c]).data_len,
            forall|c: int|
                0 <= c < st.contents.len() ==> (#[trigger] st.contents[c]).data_len + forest_weight(
                    fv,
                ) <= u64::MAX,
            node_views(nodes@) == flat(fv.take(i as int), parent, st).nodes,
            content_views(contents@) == flat(fv.take(i as int), parent, st).contents,
        decreases children@.len() - i,
    {
        let ghost now = flat(fv.take(i as int), parent, st);
        proof {
            lemma_forest_take(fv, i as int, st.contents.len());
            lemma_flat_bounds(fv.take(i as int), parent, st);
            assert(fv.take(i + 1).drop_last() =~= fv.take(i as int));
            assert(fv.take(i + 1)[i as int] == fv[i as int]);
            assert(flat(fv.take(i + 1), parent, st) == flat_one(fv[i as int], parent, now));
        }
        match &children[i] {
            Tree::Dir { name, flags, children: sub } => {
                let my_index = nodes.len();
                proof {
                    assert(fv[i as int] == (TreeView::Dir {
                        name: name@,
                        flags: *flags,
                        children: forest_view(sub@),
                    }));
                    assert forall|c: int| 0 <= c < contents@.len() implies (
                    #[trigger] contents@[c]).data_len + forest_weight(forest_view(sub@))
                        <= u64::MAX by {
                        assert(content_views(contents@)[c] == contents@[c]@);
                        assert(now.contents[c].data_len <= st.contents[c].data_len + forest_weight(
                            fv.take(i as int),
                        ));
                    }
                }
                let ghost before = nodes@;
                nodes.push(
                    FstNode {
                        name: name.clone(),
                        kind: FstNodeKind::Dir { parent_index, end_index: 0 },
                        type_flags: 0,
                        flags: *flags,
                        cluster: 0,
                    },
                );
                assert(node_views(nodes@) =~= now.nodes.push(
                    dir_node(name@, *flags, parent, 0, 0),
                ));
                flatten(sub, my_index as u32, nodes, contents);
                let end = nodes.len();
                let cluster = if my_index + 1 < end {
                    nodes[my_index + 1].cluster
                } else {
                    0
                };
                let ghost inner = nodes@;
                assert(my_index + 1 < end ==> node_views(inner)[my_index + 1].cluster == cluster);
                nodes.set(
                    my_index,
                    FstNode {
                        name: name.clone(),
                        kind: FstNodeKind::Dir { parent_index, end_index: end as u32 },
                        type_flags: 0,
                        flags: *flags,
                        cluster,
                    },
                );
                assert(node_views(nodes@) =~= node_views(inner).update(
                    my_index as int,
                    dir_node(name@, *flags, parent, end as int, cluster),
                ));
            },
            Tree::File { name, path, size, cluster, flags, type_flags } => {
                proof {
                    assert(fv[i as int] == (TreeView::File {
                        name: name@,
                        path: path@,
                        size: *size,
                        cluster: *cluster,
                        flags: *flags,
                        type_flags: *type_flags,
                    }));
                    assert(content_views(contents@)[*cluster as int]
                        == contents@[*cluster as int]@);
                    assert(now.contents[*cluster as int].data_len
                        <= st.contents[*cluster as int].data_len + forest_weight(
                        fv.take(i as int),
                    ));
                }
                let offset = place_file(contents, *cluster as usize, path, *size);
                let node = FstNode {
                    name: name.clone(),
                    kind: FstNodeKind::File { offset, size: *size },
                    type_flags: *type_flags,
                    flags: *flags,
                    cluster: *cluster,
                };
                let ghost v = node@;
                nodes.push(node);
                assert(node_views(nodes@) =~= now.nodes.push(v));
            },
        }
        i = i + 1;
    }
    assert(fv.take(i as int) =~= fv);
}

/// Bytes that the names of a tree take in the FST.
pub open spec fn tree_names(t: TreeView) -> nat
    decreases t,
{
    match t {
        TreeView::Dir { name, children, .. } => encode_utf8(name).len() + 1 + forest_names(
            children,
        ),
        TreeView::File { name, .. } => encode_utf8(name).len() + 1,
    }
}

/// Bytes that the names of a list of trees take in the FST.
pub open spec fn forest_names(ts: Seq<TreeView>) -> nat
    decreases ts,
{
    if ts.len() == 0 {
        0
    } else {
        forest_names(ts.drop_last()) + tree_names(ts[ts.len() - 1])
    }
}

proof fn lemma_forest_push(ts: Seq<TreeView>, t: TreeView, n: nat)
    ensures
        forest_names(ts.push(t)) == forest_names(ts) + tree_names(t),
        forest_weight(ts.push(t)) == forest_weight(ts) + tree_weight(t),
        forest_within(ts.push(t), n) == (forest_within(ts, n) && tree_within(t, n)),
{
    assert(ts.push(t).drop_last() =~= ts);
}

/// The measures of two lists of trees add up.
pub proof fn forest_measures_add_up(a: Seq<TreeView>, b: Seq<TreeView>, n: nat)
    ensures
        forest_names(a + b) == forest_names(a) + forest_names(b),
        forest_weight(a + b) == forest_weight(a) + forest_weight(b),
        forest_within(a, n) && forest_within(b, n) ==> forest_within(a + b, n),
    decreases b.len(),
{
    if b.len() == 0 {
        assert(a + b =~= a);
    } else {
        forest_measures_add_up(a, b.drop_last(), n);
        assert((a + b).drop_last() =~= a + b.drop_last());
    }
}

/// The measures of a single tree.
pub proof fn single_tree_measures(t: TreeView, n: nat)
    ensures
        forest_names(seq![t]) == tree_names(t),
        forest_weight(seq![t]) == tree_weight(t),
        forest_within(seq![t], n) == tree_within(t, n),
{
    let none = Seq::<TreeView>::empty();
    assert(forest_names(none) == 0 && forest_weight(none) == 0 && forest_within(none, n));
    assert(seq![t] =~= none.push(t));
    lemma_forest_push(none, t, n);
}

/// The subtree of a directory has the names and the bytes of its listing, and its files go where the
/// assignment says.
pub proof fn dir_tree_keeps_measures(
    dir: Seq<char>,
    entries: Seq<Entry>,
    flags: u16,
    clusters: Map<Seq<char>, u16>,
    k: int,
    n: nat,
)
    requires
        0 <= k <= entries.len(),
        forall|p: Seq<char>| #[trigger] clusters.dom().contains(p) ==> clusters[p] < n,
    ensures
        dir_tree(dir, entries, flags, clusters, k) matches Ok(ts) ==> {
            let p = entry_order(entries, OrderBy::HifFirst);
            &&& forest_names(ts) == index_sum(p, names_at(entries), k)
            &&& forest_weight(ts) == index_sum(p, weight_at(entries), k)
            &&& forest_within(ts, n)
        },
    decreases entries, k,
{
    let p = entry_order(entries, OrderBy::HifFirst);
    entry_order_is_complete(entries, OrderBy::HifFirst);
    if k > 0 && dir_tree(dir, entries, flags, clusters, k) is Ok {
        dir_tree_keeps_measures(dir, entries, flags, clusters, k - 1, n);
        let done = dir_tree(dir, entries, flags, clusters, k - 1)->Ok_0;
        let all = dir_tree(dir, entries, flags, clusters, k)->Ok_0;
        match entries[p[k - 1]] {
            Entry::Dir { name, entries: sub } => {
                let m = sub@.len() as int;
                dir_tree_keeps_measures(path_in(dir, name@), sub@, flags, clusters, m, n);
                order_keeps_measures(sub@, OrderBy::HifFirst);
                let children = dir_tree(path_in(dir, name@), sub@, flags, clusters, m)->Ok_0;
                let t = TreeView::Dir { name: name@, flags, children };
                assert(all == done.push(t));
                lemma_forest_push(done, t, n);
            },
            Entry::File { name, size, .. } => {
                let path = path_in(dir, name@);
                assert(clusters.dom().contains(path));
                let t = all[all.len() - 1];
                assert(all == done.push(t));
                lemma_forest_push(done, t, n);
            },
        }
    }
}

proof fn lemma_names_room_prefix(a: Seq<NodeView>, b: Seq<NodeView>, k: int)
    requires
        0 <= k <= a.len(),
        k <= b.len(),
        forall|i: int| 0 <= i < k ==> (#[trigger] a[i]).name == b[i].name,
    ensures
        names_room(a, k) == names_room(b, k),
    decreases k,
{
    if k > 0 {
        lemma_names_room_prefix(a, b, k - 1);
        assert(a[k - 1].name == b[k - 1].name);
    }
}

/// The bytes of the names of all nodes.
pub open spec fn all_names(nodes: Seq<NodeView>) -> nat {
    names_room(nodes, nodes.len() as int)
}

proof fn lemma_all_names_push(nodes: Seq<NodeView>, n: NodeView)
    ensures
        all_names(nodes.push(n)) == all_names(nodes) + encode_utf8(n.name).len() + 1,
{
    lemma_names_room_prefix(nodes, nodes.push(n), nodes.len() as int);
}

proof fn lemma_flat_one_names(t: TreeView, parent: int, st: Flat)
    ensures
        all_names(flat_one(t, parent, st).nodes) == all_names(st.nodes) + tree_names(t),
        flat_one(t, parent, st).nodes.len() == st.nodes.len() + tree_nodes(t),
        tree_nodes(t) <= tree_names(t),
        forall|i: int|
            0 <= i < st.nodes.len() ==> #[trigger] flat_one(t, parent, st).nodes[i] == st.nodes[i],
    decreases t,
{
    match t {
        TreeView::Dir { name, flags, children } => {
            let my = st.nodes.len() as int;
            let node = dir_node(name, flags, parent, 0, 0);
            let st1 = Flat { nodes: st.nodes.push(node), contents: st.contents };
            lemma_all_names_push(st.nodes, node);
            lemma_flat_names(children, my, st1);
            let inner = flat(children, my, st1);
            let r = flat_one(t, parent, st);
            assert(inner.nodes[my] == node);
            assert forall|i: int| 0 <= i < inner.nodes.len() implies (#[trigger] r.nodes[i]).name
                == inner.nodes[i].name by {}
            lemma_names_room_prefix(r.nodes, inner.nodes, inner.nodes.len() as int);
            assert forall|i: int| 0 <= i < st.nodes.len() implies #[trigger] r.nodes[i]
                == st.nodes[i] by {
                assert(inner.nodes[i] == st1.nodes[i]);
            }
        },
        TreeView::File { name, path, size, cluster, flags, type_flags } => {
            let r = flat_one(t, parent, st);
            lemma_all_names_push(st.nodes, r.nodes[st.nodes.len() as int]);
        },
    }
}

proof fn lemma_flat_names(ts: Seq<TreeView>, parent: int, st: Flat)
    ensures
        all_names(flat(ts, parent, st).nodes) == all_names(st.nodes) + forest_names(ts),
        flat(ts, parent, st).nodes.len() == st.nodes.len() + forest_nodes(ts),
        forest_nodes(ts) <= forest_names(ts),
        forall|i: int|
            0 <= i < st.nodes.len() ==> #[trigger] flat(ts, parent, st).nodes[i] == st.nodes[i],
    decreases ts,
{
    if ts.len() > 0 {
        let a = flat(ts.drop_last(), parent, st);
        let t = ts[ts.len() - 1];
        lemma_flat_names(ts.drop_last(), parent, st);
        lemma_flat_one_names(t, parent, a);
        assert forall|i: int| 0 <= i < st.nodes.len() implies #[trigger] flat(
            ts,
            parent,
            st,
        ).nodes[i] == st.nodes[i] by {
            assert(flat_one(t, parent, a).nodes[i] == a.nodes[i]);
        }
    }
}

/// Flattening keeps the contents, and each grows by no more than the bytes of the files.
pub proof fn flat_keeps_bounds(ts: Seq<TreeView>, parent: int, st: Flat)
    requires
        forest_within(ts, st.contents.len()),
        forall|c: int| 0 <= c < st.contents.len() ==> 0 <= (#[trigger] st.contents[c]).data_len,
    ensures
        flat_bounds(st, flat(ts, parent, st), forest_nodes(ts), forest_weight(ts)),
{
    lemma_flat_bounds(ts, parent, st);
}

/// Nodes with the same names take the same room for them.
pub proof fn same_names_same_room(a: Seq<NodeView>, b: Seq<NodeView>)
    requires
        a.len() == b.len(),
        forall|i: int| 0 <= i < a.len() ==> (#[trigger] a[i]).name == b[i].name,
    ensures
        all_names(a) == all_names(b),
{
    lemma_names_room_prefix(a, b, a.len() as int);
}

/// Contents without data have no bytes.
pub proof fn empty_contents_have_no_bytes(contents: Seq<ContentView>)
    requires
        forall|c: int| 0 <= c < contents.len() ==> (#[trigger] contents[c]).data_len == 0,
    ensures
        total_len(contents) == 0,
    decreases contents.len(),
{
    if contents.len() > 0 {
        empty_contents_have_no_bytes(contents.drop_last());
    }
}

/// Replacing one content changes the bytes of all contents by the difference.
pub proof fn total_len_after_update(contents: Seq<ContentView>, i: int, c: ContentView)
    requires
        0 <= i < contents.len(),
    ensures
        total_len(contents.update(i, c)) == total_len(contents) - contents[i].data_len + c.data_len,
{
    lemma_total_len_update(contents, i, c);
}

/// Flattening one more tree keeps the nodes that are there.
pub proof fn flat_one_keeps_nodes(t: TreeView, parent: int, st: Flat)
    ensures
        flat_one(t, parent, st).nodes.len() == st.nodes.len() + tree_nodes(t),
        forall|i: int|
            0 <= i < st.nodes.len() ==> #[trigger] flat_one(t, parent, st).nodes[i] == st.nodes[i],
{
    lemma_flat_one_names(t, parent, st);
}

/// Flattening keeps what is there, and its nodes have the names of the trees.
pub proof fn flat_keeps_names(ts: Seq<TreeView>, parent: int, st: Flat)
    ensures
        all_names(flat(ts, parent, st).nodes) == all_names(st.nodes) + forest_names(ts),
        flat(ts, parent, st).nodes.len() == st.nodes.len() + forest_nodes(ts),
        forest_nodes(ts) <= forest_names(ts),
        forall|i: int|
            0 <= i < st.nodes.len() ==> #[trigger] flat(ts, parent, st).nodes[i] == st.nodes[i],
{
    lemma_flat_names(ts, parent, st);
}

} // verus!

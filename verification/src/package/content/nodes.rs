//! Where the nodes in the FST of a plan lead.

use super::listing::{entry_order_is_complete, entry_order, hif_name, Entry, OrderBy};
use super::laws::{all_well_placed, lemma_flat_nests, lemma_flat_places, nested};
use super::placement::lemma_no_file_in_front;
use super::planned::ContentView;
use super::tree::{
    dir_node, dir_tree, flat, flat_keeps_names, flat_one, flat_one_keeps_nodes, forest_nodes,
    forest_within, tree_nodes, tree_within, with_file, Flat, TreeView,
};
use super::{
    content_table, flattened, planned, root_children, sized_contents, staged_tree, with_game,
    StagedTree,
};
use crate::bytes::{be16, be32, be32_at, be32_at_its_bytes};
use crate::package::fst::{
    be24, fst_bytes, fst_len, fst_reads_back, name_room, names_room, node_bytes, FstContent,
    FstNodeKind, NodeView, OFFSET_FACTOR,
};
use crate::paths::path_in;
use crate::text::ends_in;
use vstd::prelude::*;
use vstd::utf8::encode_utf8;

verus! {

/// The path of every file of the tree ends in its name, and exactly the game-data files among them
/// have the type 2.
spec fn named(t: TreeView) -> bool
    decreases t,
{
    match t {
        TreeView::Dir { children, .. } => all_named(children),
        TreeView::File { name, path, type_flags, .. } => ends_in(path, name) && type_flags
            == if hif_name(name) {
            2u8
        } else {
            0u8
        },
    }
}

spec fn all_named(ts: Seq<TreeView>) -> bool
    decreases ts,
{
    if ts.len() == 0 {
        true
    } else {
        all_named(ts.drop_last()) && named(ts[ts.len() - 1])
    }
}

/// Every node of the tree has these flags.
spec fn flagged(t: TreeView, f: u16) -> bool
    decreases t,
{
    match t {
        TreeView::Dir { flags, children, .. } => flags == f && all_flagged(children, f),
        TreeView::File { flags, .. } => flags == f,
    }
}

spec fn all_flagged(ts: Seq<TreeView>, f: u16) -> bool
    decreases ts,
{
    if ts.len() == 0 {
        true
    } else {
        all_flagged(ts.drop_last(), f) && flagged(ts[ts.len() - 1], f)
    }
}

proof fn lemma_path_ends(dir: Seq<char>, name: Seq<char>)
    ensures
        ends_in(path_in(dir, name), name),
{
    let p = path_in(dir, name);
    assert(p.skip(p.len() - name.len()) =~= name);
}

proof fn lemma_dir_tree(
    dir: Seq<char>,
    entries: Seq<Entry>,
    flags: u16,
    clusters: Map<Seq<char>, u16>,
    k: int,
)
    ensures
        dir_tree(dir, entries, flags, clusters, k) matches Ok(ts) ==> all_named(ts) && all_flagged(
            ts,
            flags,
        ),
    decreases entries, k,
{
    if !(k <= 0 || k > entries.len()) {
        entry_order_is_complete(entries, OrderBy::HifFirst);
        lemma_dir_tree(dir, entries, flags, clusters, k - 1);
        if let Ok(done) = dir_tree(dir, entries, flags, clusters, k - 1) {
            match entries[entry_order(entries, OrderBy::HifFirst)[k - 1]] {
                Entry::Dir { name, entries: sub } => {
                    let below = path_in(dir, name@);
                    lemma_dir_tree(below, sub@, flags, clusters, sub@.len() as int);
                    if let Ok(children) = dir_tree(
                        below,
                        sub@,
                        flags,
                        clusters,
                        sub@.len() as int,
                    ) {
                        let t = TreeView::Dir { name: name@, flags, children };
                        assert(named(t) && flagged(t, flags));
                        assert(done.push(t).drop_last() =~= done);
                    }
                },
                Entry::File { name, size, .. } => {
                    let path = path_in(dir, name@);
                    lemma_path_ends(dir, name@);
                    let type_flags = if hif_name(name@) {
                        2u8
                    } else {
                        0u8
                    };
                    let cluster = clusters[path];
                    let t = TreeView::File { name: name@, path, size, cluster, flags, type_flags };
                    assert(named(t) && flagged(t, flags));
                    assert(done.push(t).drop_last() =~= done);
                },
            }
        }
    }
}

/// A file of this name, place and size is placed in the content.
spec fn places(c: ContentView, name: Seq<char>, offset: u64, size: u64) -> bool {
    exists|i: int| #[trigger] placed_at(c, i, name, offset, size)
}

spec fn placed_at(c: ContentView, i: int, name: Seq<char>, offset: u64, size: u64) -> bool {
    &&& 0 <= i < c.files.len()
    &&& ends_in(c.files[i].path, name)
    &&& c.files[i].offset as u64 == offset
    &&& c.files[i].size == size
}

/// A file node leads to a file in its content.
spec fn leads(n: NodeView, contents: Seq<ContentView>) -> bool {
    match n.kind {
        FstNodeKind::Dir { .. } => n.type_flags == 0,
        FstNodeKind::File { offset, size } => n.cluster < contents.len() && places(
            contents[n.cluster as int],
            n.name,
            offset,
            size,
        ) && n.type_flags == if hif_name(n.name) {
            2u8
        } else {
            0u8
        },
    }
}

spec fn all_lead(st: Flat) -> bool {
    forall|i: int| 0 <= i < st.nodes.len() ==> leads(#[trigger] st.nodes[i], st.contents)
}

proof fn lemma_leads_on(n: NodeView, contents: Seq<ContentView>, c: int, path: Seq<char>, size: int)
    requires
        leads(n, contents),
        0 <= c < contents.len(),
    ensures
        leads(n, contents.update(c, with_file(contents[c], path, size))),
{
    if let FstNodeKind::File { offset, size: s } = n.kind {
        let old_content = contents[n.cluster as int];
        let i = choose|i: int| #[trigger] placed_at(old_content, i, n.name, offset, s);
        let after = contents.update(c, with_file(contents[c], path, size));
        assert(placed_at(after[n.cluster as int], i, n.name, offset, s));
    }
}

proof fn lemma_flat_one_leads(t: TreeView, parent: int, st: Flat)
    requires
        tree_within(t, st.contents.len()),
        named(t),
        all_lead(st),
    ensures
        all_lead(flat_one(t, parent, st)),
        flat_one(t, parent, st).contents.len() == st.contents.len(),
    decreases t,
{
    let r = flat_one(t, parent, st);
    match t {
        TreeView::Dir { name, flags, children } => {
            let my = st.nodes.len() as int;
            let st1 = Flat {
                nodes: st.nodes.push(dir_node(name, flags, parent, 0, 0)),
                contents: st.contents,
            };
            lemma_flat_leads(children, my, st1);
            flat_keeps_names(children, my, st1);
            let inner = flat(children, my, st1);
            assert forall|i: int| 0 <= i < r.nodes.len() implies leads(
                #[trigger] r.nodes[i],
                r.contents,
            ) by {
                if i != my {
                    assert(r.nodes[i] == inner.nodes[i]);
                }
            }
        },
        TreeView::File { name, path, size, cluster, flags, type_flags } => {
            let c = st.contents[cluster as int];
            assert forall|i: int| 0 <= i < r.nodes.len() implies leads(
                #[trigger] r.nodes[i],
                r.contents,
            ) by {
                if i < st.nodes.len() {
                    assert(r.nodes[i] == st.nodes[i]);
                    lemma_leads_on(st.nodes[i], st.contents, cluster as int, path, size as int);
                } else if let FstNodeKind::File { offset, size: s } = r.nodes[i].kind {
                    assert(placed_at(
                        r.contents[cluster as int],
                        c.files.len() as int,
                        name,
                        offset,
                        s,
                    ));
                }
            }
        },
    }
}

proof fn lemma_flat_leads(ts: Seq<TreeView>, parent: int, st: Flat)
    requires
        forest_within(ts, st.contents.len()),
        all_named(ts),
        all_lead(st),
    ensures
        all_lead(flat(ts, parent, st)),
        flat(ts, parent, st).contents.len() == st.contents.len(),
    decreases ts,
{
    if ts.len() > 0 {
        lemma_flat_leads(ts.drop_last(), parent, st);
        lemma_flat_one_leads(ts[ts.len() - 1], parent, flat(ts.drop_last(), parent, st));
    }
}

/// From node `from` on all nodes have these flags, and no directory among them but the first is a
/// child of a node before `from`.
spec fn flagged_from(nodes: Seq<NodeView>, from: int, f: u16) -> bool {
    forall|i: int|
        from <= i < nodes.len() ==> {
            &&& (#[trigger] nodes[i]).flags == f
            &&& nodes[i].kind matches FstNodeKind::Dir { parent_index, .. } ==> i == from
                || parent_index >= from
        }
}

proof fn lemma_flat_one_flags(t: TreeView, parent: int, st: Flat, from: int, f: u16)
    requires
        flagged(t, f),
        st.nodes.len() + tree_nodes(t) <= u32::MAX,
        0 <= from <= st.nodes.len(),
        flagged_from(st.nodes, from, f),
        from == st.nodes.len() || from <= parent,
        0 <= parent <= u32::MAX,
    ensures
        flagged_from(flat_one(t, parent, st).nodes, from, f),
    decreases t,
{
    let r = flat_one(t, parent, st);
    match t {
        TreeView::Dir { name, flags, children } => {
            let my = st.nodes.len() as int;
            let st1 = Flat {
                nodes: st.nodes.push(dir_node(name, flags, parent, 0, 0)),
                contents: st.contents,
            };
            lemma_flat_flags(children, my, st1, from, f);
            flat_keeps_names(children, my, st1);
            let inner = flat(children, my, st1);
            assert forall|i: int| from <= i < r.nodes.len() implies {
                &&& (#[trigger] r.nodes[i]).flags == f
                &&& r.nodes[i].kind matches FstNodeKind::Dir { parent_index, .. } ==> i == from
                    || parent_index >= from
            } by {
                if i != my {
                    assert(r.nodes[i] == inner.nodes[i]);
                }
            }
        },
        TreeView::File { .. } => {
            assert forall|i: int| from <= i < r.nodes.len() implies {
                &&& (#[trigger] r.nodes[i]).flags == f
                &&& r.nodes[i].kind matches FstNodeKind::Dir { parent_index, .. } ==> i == from
                    || parent_index >= from
            } by {
                if i < st.nodes.len() {
                    assert(r.nodes[i] == st.nodes[i]);
                }
            }
        },
    }
}

proof fn lemma_flat_flags(ts: Seq<TreeView>, parent: int, st: Flat, from: int, f: u16)
    requires
        all_flagged(ts, f),
        st.nodes.len() + forest_nodes(ts) <= u32::MAX,
        0 <= from <= parent < st.nodes.len(),
        flagged_from(st.nodes, from, f),
    ensures
        flagged_from(flat(ts, parent, st).nodes, from, f),
    decreases ts,
{
    if ts.len() > 0 {
        lemma_flat_flags(ts.drop_last(), parent, st, from, f);
        flat_keeps_names(ts.drop_last(), parent, st);
        let mid = flat(ts.drop_last(), parent, st);
        lemma_flat_one_flags(ts[ts.len() - 1], parent, mid, from, f);
    }
}

/// The flags of a directory of a title.
pub open spec fn top_flags(name: Seq<char>) -> int {
    if name == "code"@ {
        0x0000
    } else if name == "content"@ {
        0x0400
    } else {
        0x0040
    }
}

/// One of the three directories of a title, with its flags on every node.
spec fn is_top(t: TreeView) -> bool {
    t matches TreeView::Dir { name, flags, .. } && flagged(t, flags) && flags == top_flags(name) && (
    name == "code"@ || name == "content"@ || name == "meta"@)
}

spec fn all_top(ts: Seq<TreeView>) -> bool {
    forall|i: int| 0 <= i < ts.len() ==> is_top(#[trigger] ts[i])
}

proof fn lemma_names_differ()
    ensures
        "code"@ != "content"@,
        "code"@ != "meta"@,
        "content"@ != "meta"@,
{
    reveal_strlit("code");
    reveal_strlit("content");
    reveal_strlit("meta");
    assert("code"@[0] != "meta"@[0]);
    assert("code"@.len() != "content"@.len());
    assert("content"@.len() != "meta"@.len());
}

proof fn lemma_named_concat(a: Seq<TreeView>, b: Seq<TreeView>)
    requires
        all_named(a),
        all_named(b),
    ensures
        all_named(a + b),
    decreases b.len(),
{
    if b.len() == 0 {
        assert(a + b =~= a);
    } else {
        lemma_named_concat(a, b.drop_last());
        assert((a + b).drop_last() =~= a + b.drop_last());
    }
}

proof fn lemma_staged(
    root: Seq<char>,
    name: Seq<char>,
    entries: Seq<Entry>,
    flags: u16,
    clusters: Map<Seq<char>, u16>,
)
    requires
        name == "code"@ || name == "content"@ || name == "meta"@,
        flags == top_flags(name),
    ensures
        staged_tree(root, name, entries, flags, clusters) matches Ok(ts) ==> all_named(ts)
            && all_top(ts),
{
    lemma_dir_tree(path_in(root, name), entries, flags, clusters, entries.len() as int);
    if let Ok(children) = dir_tree(
        path_in(root, name),
        entries,
        flags,
        clusters,
        entries.len() as int,
    ) {
        let t = TreeView::Dir { name, flags, children };
        let ts = seq![t];
        assert(named(t) && flagged(t, flags));
        assert(ts.drop_last() =~= Seq::<TreeView>::empty());
        assert(all_named(Seq::<TreeView>::empty()));
        assert(all_named(ts));
    }
}

proof fn lemma_root(root: Seq<char>, t: StagedTree, clusters: Map<Seq<char>, u16>)
    ensures
        root_children(root, t, clusters) matches Ok(ts) ==> all_named(ts) && all_top(ts),
{
    lemma_names_differ();
    lemma_staged(root, "code"@, t.code@, 0x0000, clusters);
    lemma_staged(root, "content"@, t.content@, 0x0400, clusters);
    lemma_staged(root, "meta"@, t.meta@, 0x0040, clusters);
    if root_children(root, t, clusters) is Ok {
        let code = staged_tree(root, "code"@, t.code@, 0x0000, clusters)->Ok_0;
        let content = staged_tree(root, "content"@, t.content@, 0x0400, clusters)->Ok_0;
        let meta = staged_tree(root, "meta"@, t.meta@, 0x0040, clusters)->Ok_0;
        lemma_named_concat(code, content);
        lemma_named_concat(code + content, meta);
    }
}

/// A child of the root that is a directory has its own flags on every node below it.
spec fn flags_go_down(nodes: Seq<NodeView>) -> bool {
    forall|d: int, n: int|
        #![trigger nodes[d], nodes[n]]
        1 <= d <= n < nodes.len() ==> (nodes[d].kind matches FstNodeKind::Dir {
            parent_index,
            end_index,
        } ==> parent_index == 0 && n < end_index ==> nodes[n].flags == top_flags(nodes[d].name))
}

/// Every node behind the root is the root's child or behind one that is: each directory that is a
/// child of the root is one of the three.
spec fn top_names(nodes: Seq<NodeView>) -> bool {
    forall|d: int|
        1 <= d < nodes.len() ==> ((#[trigger] nodes[d]).kind matches FstNodeKind::Dir {
            parent_index,
            ..
        } ==> parent_index == 0 ==> nodes[d].name == "code"@ || nodes[d].name == "content"@
            || nodes[d].name == "meta"@)
}

#[verifier::spinoff_prover]
proof fn lemma_top_one(t: TreeView, st: Flat)
    requires
        is_top(t),
        1 <= st.nodes.len(),
        st.nodes.len() + tree_nodes(t) <= u32::MAX,
        nested(st.nodes, 1),
        flags_go_down(st.nodes),
        top_names(st.nodes),
    ensures
        flags_go_down(flat_one(t, 0, st).nodes),
        top_names(flat_one(t, 0, st).nodes),
{
    let my = st.nodes.len() as int;
    let r = flat_one(t, 0, st).nodes;
    flat_one_keeps_nodes(t, 0, st);
    if let TreeView::Dir { name, flags, children } = t {
        lemma_flat_one_flags(t, 0, st, my, flags);
        flat_keeps_names(
            children,
            my,
            Flat {
                nodes: st.nodes.push(dir_node(name, flags, 0, 0, 0)),
                contents: st.contents,
            },
        );
        assert(r[my].name == name);
        assert forall|d: int, n: int|
            #![trigger r[d], r[n]]
            1 <= d <= n < r.len() implies (r[d].kind matches FstNodeKind::Dir {
            parent_index,
            end_index,
        } ==> parent_index == 0 && n < end_index ==> r[n].flags == top_flags(r[d].name)) by {
            if d < my {
                assert(r[d] == st.nodes[d]);
                if n < my {
                    assert(r[n] == st.nodes[n]);
                }
            } else {
                assert(r[d].flags == flags && r[n].flags == flags);
            }
        }
        assert forall|d: int| 1 <= d < r.len() implies ((#[trigger] r[d]).kind
            matches FstNodeKind::Dir { parent_index, .. } ==> parent_index == 0 ==> r[d].name
            == "code"@ || r[d].name == "content"@ || r[d].name == "meta"@) by {
            if d < my {
                assert(r[d] == st.nodes[d]);
            }
        }
    }
}

proof fn lemma_top(ts: Seq<TreeView>, st: Flat)
    requires
        all_top(ts),
        1 <= st.nodes.len(),
        st.nodes.len() + forest_nodes(ts) <= u32::MAX,
        nested(st.nodes, 1),
        flags_go_down(st.nodes),
        top_names(st.nodes),
    ensures
        flags_go_down(flat(ts, 0, st).nodes),
        top_names(flat(ts, 0, st).nodes),
    decreases ts.len(),
{
    if ts.len() > 0 {
        assert forall|i: int| 0 <= i < ts.drop_last().len() implies is_top(
            #[trigger] ts.drop_last()[i],
        ) by {
            assert(is_top(ts[i]));
        }
        lemma_top(ts.drop_last(), st);
        flat_keeps_names(ts.drop_last(), 0, st);
        lemma_flat_nests(ts.drop_last(), 0, st);
        lemma_top_one(ts[ts.len() - 1], flat(ts.drop_last(), 0, st));
    }
}

/// The numbers of a node entry at `at`: its type, where its name begins among the names, two numbers,
/// its flags and its content.
pub open spec fn node_at(fst: Seq<u8>, at: int) -> (int, int, u32, u32, int, int) {
    (
        fst[at] as int,
        fst[at + 1] * 0x1_0000 + fst[at + 2] * 0x100 + fst[at + 3],
        be32_at(fst, at + 4),
        be32_at(fst, at + 8),
        fst[at + 0xC] * 0x100 + fst[at + 0xD],
        fst[at + 0xE] * 0x100 + fst[at + 0xF],
    )
}

/// What the entry of a node says, if its name begins at `name_at`.
spec fn node_numbers(n: NodeView, name_at: int) -> (int, int, u32, u32, int, int) {
    match n.kind {
        FstNodeKind::Dir { parent_index, end_index } => (
            1int,
            name_at,
            parent_index,
            end_index,
            n.flags as int,
            n.cluster as int,
        ),
        FstNodeKind::File { offset, size } => (
            n.type_flags as int,
            name_at,
            (offset / 0x20) as u32,
            size as u32,
            n.flags as int,
            n.cluster as int,
        ),
    }
}

#[verifier::rlimit(40)]
proof fn lemma_node(fst: Seq<u8>, at: int, n: NodeView, name_at: nat)
    requires
        0 <= at,
        at + 0x10 <= fst.len(),
        name_at < 0x100_0000,
        n.type_flags == 0 || n.kind is File,
        fst.subrange(at, at + 0x10) == node_bytes(n, name_at, OFFSET_FACTOR),
    ensures
        node_at(fst, at) == node_numbers(n, name_at as int),
{
    let e = fst.subrange(at, at + 0x10);
    let b = node_bytes(n, name_at, OFFSET_FACTOR);
    let (first, second) = match n.kind {
        FstNodeKind::Dir { parent_index, end_index } => (parent_index, end_index),
        FstNodeKind::File { offset, size } => ((offset / 0x20) as u32, size as u32),
    };
    assert(0u8 | 1 == 1) by (bit_vector);
    assert(e[0] == fst[at]);
    assert(e[1] == fst[at + 1] && e[2] == fst[at + 2] && e[3] == fst[at + 3]);
    assert(b[1] == be24(name_at)[0] && b[2] == be24(name_at)[1] && b[3] == be24(name_at)[2]);
    assert(fst.subrange(at + 4, at + 8) =~= e.subrange(4, 8));
    assert(fst.subrange(at + 8, at + 0xC) =~= e.subrange(8, 0xC));
    assert(b.subrange(4, 8) =~= be32(first));
    assert(b.subrange(8, 0xC) =~= be32(second));
    be32_at_its_bytes(fst, at + 4, first);
    be32_at_its_bytes(fst, at + 8, second);
    assert(e[0xC] == fst[at + 0xC] && e[0xD] == fst[at + 0xD]);
    assert(e[0xE] == fst[at + 0xE] && e[0xF] == fst[at + 0xF]);
    assert(b[0xC] == be16(n.flags)[0] && b[0xD] == be16(n.flags)[1]);
    assert(b[0xE] == be16(n.cluster)[0] && b[0xF] == be16(n.cluster)[1]);
}

/// Where the nodes of a plan's FST begin.
pub open spec fn nodes_begin(contents: nat) -> int {
    0x20 + 0x20 * contents as int
}

/// Node `n` of a table reads back from its bytes, and so does its name.
proof fn lemma_read(table: Seq<FstContent>, nodes: Seq<NodeView>, n: int)
    requires
        0 <= n < nodes.len(),
        table.len() > 0,
        names_room(nodes, nodes.len() as int) <= 0x100_0000,
        nodes[n].type_flags == 0 || nodes[n].kind is File,
    ensures
        ({
            let fst = fst_bytes(OFFSET_FACTOR, table, nodes);
            let base = nodes_begin(table.len());
            let at = base + 0x10 * nodes.len() + names_room(nodes, n);
            let bytes = encode_utf8(nodes[n].name);
            &&& node_at(fst, base + 0x10 * n) == node_numbers(
                nodes[n],
                names_room(nodes, n) as int,
            )
            &&& fst.subrange(at, at + bytes.len()) == bytes
            &&& fst[at + bytes.len()] == 0
        }),
{
    let fst = fst_bytes(OFFSET_FACTOR, table, nodes);
    let base = nodes_begin(table.len());
    fst_reads_back(OFFSET_FACTOR, table, nodes, 0, n);
    crate::package::fst::names_room_grows(nodes, n, nodes.len() as int);
    crate::package::fst::names_room_grows(nodes, n + 1, nodes.len() as int);
    let at = base + 0x10 * nodes.len() + names_room(nodes, n);
    assert(fst.len() == fst_len(table.len(), nodes));
    lemma_node(fst, base + 0x10 * n, nodes[n], names_room(nodes, n));
    let bytes = encode_utf8(nodes[n].name);
    let whole = fst.subrange(at, at + name_room(nodes[n]));
    assert(whole == bytes + seq![0u8]);
    assert(fst.subrange(at, at + bytes.len()) =~= whole.take(bytes.len() as int));
    assert(whole.take(bytes.len() as int) =~= bytes);
    assert(fst[at + bytes.len()] == whole[bytes.len() as int]);
}

/// What flattening gives for a plan.
spec fn plan_nodes(root: Seq<char>, t: StagedTree) -> Flat {
    let a = with_game(root, t).assigned;
    flattened(root_children(root, t, a.clusters)->Ok_0, a.contents)
}

#[verifier::spinoff_prover]
proof fn lemma_flattened(ts: Seq<TreeView>, contents: Seq<ContentView>)
    requires
        all_named(ts),
        all_top(ts),
        forest_within(ts, contents.len()),
        all_well_placed(contents),
        forest_nodes(ts) <= 0x100_0000,
    ensures
        ({
            let f = flattened(ts, contents);
            &&& f.nodes.len() == 1 + forest_nodes(ts)
            &&& all_lead(f)
            &&& all_well_placed(f.contents)
            &&& flags_go_down(f.nodes)
            &&& top_names(f.nodes)
            &&& f.nodes[0].kind == FstNodeKind::Dir {
                parent_index: 0,
                end_index: f.nodes.len() as u32,
            }
        }),
{
    let f = flattened(ts, contents);
    let st = Flat { nodes: seq![dir_node(Seq::empty(), 0, 0, 0, 0)], contents };
    let r = flat(ts, 0, st);
    assert(all_lead(st));
    lemma_flat_leads(ts, 0, st);
    lemma_flat_places(ts, 0, st);
    lemma_top(ts, st);
    flat_keeps_names(ts, 0, st);
    assert forall|i: int| 1 <= i < f.nodes.len() implies #[trigger] f.nodes[i] == r.nodes[i] by {}
    assert forall|i: int| 0 <= i < f.nodes.len() implies leads(
        #[trigger] f.nodes[i],
        f.contents,
    ) by {
        if i > 0 {
            assert(leads(r.nodes[i], r.contents));
        }
    }
    assert forall|d: int, n: int|
        #![trigger f.nodes[d], f.nodes[n]]
        1 <= d <= n < f.nodes.len() implies (f.nodes[d].kind matches FstNodeKind::Dir {
        parent_index,
        end_index,
    } ==> parent_index == 0 && n < end_index ==> f.nodes[n].flags == top_flags(f.nodes[d].name)) by {
        assert(f.nodes[d] == r.nodes[d] && f.nodes[n] == r.nodes[n]);
    }
}

proof fn lemma_plan_nodes(root: Seq<char>, t: StagedTree, title_id: u64)
    requires
        t.fits_fst(),
        planned(root, t, title_id) is Ok,
    ensures
        ({
            let f = plan_nodes(root, t);
            &&& 1 <= f.nodes.len() <= 0x100_0001
            &&& all_lead(f)
            &&& all_well_placed(f.contents)
            &&& flags_go_down(f.nodes)
            &&& top_names(f.nodes)
            &&& f.nodes[0].kind == FstNodeKind::Dir {
                parent_index: 0,
                end_index: f.nodes.len() as u32,
            }
            &&& names_room(f.nodes, f.nodes.len() as int) <= 0x100_0000
            &&& f.contents.len() == planned(root, t, title_id)->Ok_0.contents.len()
            &&& f.contents.len() > 0
            &&& planned(root, t, title_id)->Ok_0.fst == fst_bytes(
                OFFSET_FACTOR,
                content_table(planned(root, t, title_id)->Ok_0.contents, title_id),
                f.nodes,
            )
            &&& planned(root, t, title_id)->Ok_0.contents == sized_contents(f)
            &&& forall|c: int|
                0 < c < f.contents.len() ==> (#[trigger] f.contents[c]).data_len
                    <= 0x7F00_0000_0000
        }),
{
    super::plan_stays_in_bounds(root, t);
    let a = with_game(root, t).assigned;
    let ts = root_children(root, t, a.clusters)->Ok_0;
    let f = plan_nodes(root, t);
    lemma_root(root, t, a.clusters);
    lemma_flattened(ts, a.contents);
    let contents = sized_contents(f);
    assert forall|c: int| 0 < c < f.contents.len() implies (#[trigger] f.contents[c]).data_len
        <= 0x7F00_0000_0000 by {
        assert(contents[c] == f.contents[c]);
    }
}

/// Following a file node in the FST of a plan leads to the file: the content that it names holds, at
/// 32 times the node's offset, a file of the node's size whose path ends in the node's name, which
/// stands among the names where the node says. Its type is 2 for game data and 0 for everything
/// else. The nodes are counted by the root. Beyond 65536 contents their indices would run over, and
/// in a content of 4 GiB the places would.
pub proof fn fst_leads_to_every_file(root: Seq<char>, t: StagedTree, title_id: u64, n: int) -> (r: (
    Seq<char>,
    int,
))
    requires
        t.fits_fst(),
        planned(root, t, title_id) is Ok,
        ({
            let plan = planned(root, t, title_id)->Ok_0;
            let base = nodes_begin(plan.contents.len());
            let (kind, _, _, _, _, cluster) = node_at(plan.fst, base + 0x10 * n);
            &&& plan.contents.len() <= 0x1_0000
            &&& 1 <= n < be32_at(plan.fst, base + 8)
            &&& kind != 1
            &&& plan.contents[cluster].data_len <= u32::MAX
        }),
    ensures
        ({
            let plan = planned(root, t, title_id)->Ok_0;
            let base = nodes_begin(plan.contents.len());
            let names = base + 0x10 * be32_at(plan.fst, base + 8);
            let (kind, name_off, offset, size, _, cluster) = node_at(plan.fst, base + 0x10 * n);
            let (name, i) = r;
            let bytes = encode_utf8(name);
            &&& 0 < cluster < plan.contents.len()
            &&& 0 <= i < plan.contents[cluster].files.len()
            &&& plan.contents[cluster].files[i].offset == offset * 0x20
            &&& plan.contents[cluster].files[i].size == size
            &&& ends_in(plan.contents[cluster].files[i].path, name)
            &&& plan.fst.subrange(names + name_off, names + name_off + bytes.len()) == bytes
            &&& plan.fst[names + name_off + bytes.len()] == 0
            &&& kind == if hif_name(name) {
                2int
            } else {
                0
            }
        }),
{
    let plan = planned(root, t, title_id)->Ok_0;
    let f = plan_nodes(root, t);
    lemma_plan_nodes(root, t, title_id);
    let table = content_table(plan.contents, title_id);
    lemma_read(table, f.nodes, 0);
    assert(leads(f.nodes[n], f.contents));
    lemma_read(table, f.nodes, n);
    lemma_no_file_in_front(root, t, title_id);
    let node = f.nodes[n];
    let c = node.cluster as int;
    let (offset, size) = match node.kind {
        FstNodeKind::File { offset, size } => (offset, size),
        _ => (0, 0),
    };
    assert(node.kind is File);
    let i = choose|i: int| #[trigger] placed_at(f.contents[c], i, node.name, offset, size);
    assert(placed_at(f.contents[c], i, node.name, offset, size));
    assert(plan.contents[0].files == f.contents[0].files);
    assert(plan.contents[c] == f.contents[c]);
    let file = f.contents[c].files[i];
    assert(file.offset % 0x20 == 0 && 0 <= file.offset && file.offset + file.size
        <= f.contents[c].data_len);
    (node.name, i)
}

/// The nodes of a title's three directories carry the flags of their directory: a directory that is a
/// child of the root is `code`, `content` or `meta`, and every node from it to its end has the flags
/// 0x0000, 0x0400 or 0x0040.
pub proof fn fst_flags_tell_the_directory(
    root: Seq<char>,
    t: StagedTree,
    title_id: u64,
    d: int,
    n: int,
) -> (name: Seq<char>)
    requires
        t.fits_fst(),
        planned(root, t, title_id) is Ok,
        ({
            let plan = planned(root, t, title_id)->Ok_0;
            let base = nodes_begin(plan.contents.len());
            let (kind, _, parent, end, _, _) = node_at(plan.fst, base + 0x10 * d);
            &&& 1 <= d <= n < be32_at(plan.fst, base + 8)
            &&& kind == 1
            &&& parent == 0
            &&& n < end
        }),
    ensures
        ({
            let plan = planned(root, t, title_id)->Ok_0;
            let base = nodes_begin(plan.contents.len());
            let names = base + 0x10 * be32_at(plan.fst, base + 8);
            let name_off = node_at(plan.fst, base + 0x10 * d).1;
            let flags = node_at(plan.fst, base + 0x10 * n).4;
            let bytes = encode_utf8(name);
            &&& plan.fst.subrange(names + name_off, names + name_off + bytes.len()) == bytes
            &&& name == "code"@ && flags == 0x0000 || name == "content"@ && flags == 0x0400 || name
                == "meta"@ && flags == 0x0040
        }),
{
    let plan = planned(root, t, title_id)->Ok_0;
    let f = plan_nodes(root, t);
    lemma_plan_nodes(root, t, title_id);
    lemma_names_differ();
    let table = content_table(plan.contents, title_id);
    lemma_read(table, f.nodes, 0);
    assert(leads(f.nodes[d], f.contents) && leads(f.nodes[n], f.contents));
    lemma_read(table, f.nodes, d);
    lemma_read(table, f.nodes, n);
    let name = f.nodes[d].name;
    name
}

} // verus!

//! What holds of every package plan.

use super::assign::packed_is_sound;
use super::listing::collected;
use super::planned::ContentView;
use super::tree::{
    dir_node, flat, flat_keeps_names, flat_one, forest_nodes, forest_within, tree_nodes,
    tree_within, with_file, Flat, TreeView,
};
use super::{
    assignment_is_sound, content_table, flattened, planned, root_children, sectors_before,
    sized_contents, with_code, with_game, StagedTree, SECTOR,
};
use crate::bytes::aligned_up_is_least;
use crate::package::fst::{
    serialized_length_depends_on_the_shape_alone, FstNodeKind, OFFSET_FACTOR,
};
use crate::paths::path_in;
use vstd::prelude::*;

verus! {

/// Each content begins at the sector where the one before it ends.
pub proof fn content_offsets_are_cumulative(contents: Seq<ContentView>, title_id: u64, i: int)
    requires
        0 < i < contents.len(),
        sectors_before(contents, contents.len() as int) <= u32::MAX,
        forall|c: int| 0 <= c < contents.len() ==> 0 <= (#[trigger] contents[c]).data_len,
    ensures
        ({
            let table = content_table(contents, title_id);
            &&& table[0].offset_sectors == 0
            &&& table[i].offset_sectors == table[i - 1].offset_sectors + table[i - 1].size_sectors
        }),
{
    super::sectors_grow(contents, i, contents.len() as int);
    super::sectors_grow(contents, i - 1, i);
    super::sectors_grow(contents, 0, i - 1);
    super::sector_count_covers(contents[i - 1]);
}

/// Content 0 is sized by the FST itself: its sectors hold the whole of it, and no content overlaps
/// it.
pub proof fn content_zero_holds_the_fst(root: Seq<char>, t: StagedTree, title_id: u64)
    requires
        t.fits_fst(),
        planned(root, t, title_id) is Ok,
    ensures
        ({
            let plan = planned(root, t, title_id)->Ok_0;
            let table = content_table(plan.contents, title_id);
            &&& plan.contents.len() > 0
            &&& plan.contents[0].data_len == plan.fst.len()
            &&& table[0].offset_sectors == 0
            &&& plan.fst.len() <= table[0].size_sectors * SECTOR < plan.fst.len() + SECTOR
            &&& plan.contents.len() > 1 ==> table[1].offset_sectors == table[0].size_sectors
        }),
{
    super::plan_stays_in_bounds(root, t);
    let a = with_game(root, t).assigned;
    let ts = root_children(root, t, a.clusters)->Ok_0;
    let f = flattened(ts, a.contents);
    let contents = sized_contents(f);
    serialized_length_depends_on_the_shape_alone(
        OFFSET_FACTOR,
        content_table(contents, title_id),
        f.nodes,
    );
    super::sector_count_covers(contents[0]);
    aligned_up_is_least(contents[0].data_len, SECTOR as int);
    super::sectors_grow(contents, 1, contents.len() as int);
    if contents.len() > 1 {
        content_offsets_are_cumulative(contents, title_id, 1);
    }
}

/// The files of a content stand on multiples of 0x20, in order, none running into the next, and the
/// last ends within the content.
pub open spec fn well_placed(c: ContentView) -> bool {
    &&& 0 <= c.data_len
    &&& forall|i: int|
        0 <= i < c.files.len() ==> 0 <= (#[trigger] c.files[i]).offset && c.files[i].offset % 0x20
            == 0 && 0 <= c.files[i].size && c.files[i].offset + c.files[i].size <= c.data_len
    &&& forall|i: int, j: int|
        0 <= i < j < c.files.len() ==> (#[trigger] c.files[i]).offset + c.files[i].size <= (
        #[trigger] c.files[j]).offset
}

proof fn lemma_with_file(c: ContentView, path: Seq<char>, size: int)
    requires
        well_placed(c),
        0 <= size,
    ensures
        well_placed(with_file(c, path, size)),
        with_file(c, path, size).is_game == c.is_game,
        with_file(c, path, size).content_type == c.content_type,
        with_file(c, path, size).index == c.index,
{
    aligned_up_is_least(c.data_len, OFFSET_FACTOR as int);
    let d = with_file(c, path, size);
    let n = c.files.len() as int;
    assert forall|i: int| 0 <= i < d.files.len() implies 0 <= (#[trigger] d.files[i]).offset
        && d.files[i].offset % 0x20 == 0 && 0 <= d.files[i].size && d.files[i].offset
        + d.files[i].size <= d.data_len by {
        if i < n {
            assert(d.files[i] == c.files[i]);
        }
    }
    assert forall|i: int, j: int| 0 <= i < j < d.files.len() implies (#[trigger] d.files[i]).offset
        + d.files[i].size <= (#[trigger] d.files[j]).offset by {
        assert(d.files[i] == c.files[i]);
        if j < n {
            assert(d.files[j] == c.files[j]);
        }
    }
}

/// What flattening keeps of each content.
pub open spec fn same_kinds(a: Seq<ContentView>, b: Seq<ContentView>) -> bool {
    &&& a.len() == b.len()
    &&& forall|c: int|
        0 <= c < a.len() ==> (#[trigger] b[c]).is_game == a[c].is_game && b[c].content_type
            == a[c].content_type && b[c].index == a[c].index
}

/// All contents are well placed.
pub open spec fn all_well_placed(contents: Seq<ContentView>) -> bool {
    forall|c: int| 0 <= c < contents.len() ==> well_placed(#[trigger] contents[c])
}

proof fn lemma_flat_one_places(t: TreeView, parent: int, st: Flat)
    requires
        tree_within(t, st.contents.len()),
        all_well_placed(st.contents),
    ensures
        all_well_placed(flat_one(t, parent, st).contents),
        same_kinds(st.contents, flat_one(t, parent, st).contents),
    decreases t,
{
    match t {
        TreeView::Dir { name, flags, children } => {
            let my = st.nodes.len() as int;
            let st1 = Flat {
                nodes: st.nodes.push(dir_node(name, flags, parent, 0, 0)),
                contents: st.contents,
            };
            lemma_flat_places(children, my, st1);
        },
        TreeView::File { name, path, size, cluster, flags, type_flags } => {
            lemma_with_file(st.contents[cluster as int], path, size as int);
        },
    }
}

pub(crate) proof fn lemma_flat_places(ts: Seq<TreeView>, parent: int, st: Flat)
    requires
        forest_within(ts, st.contents.len()),
        all_well_placed(st.contents),
    ensures
        all_well_placed(flat(ts, parent, st).contents),
        same_kinds(st.contents, flat(ts, parent, st).contents),
    decreases ts,
{
    if ts.len() > 0 {
        lemma_flat_places(ts.drop_last(), parent, st);
        lemma_flat_one_places(ts[ts.len() - 1], parent, flat(ts.drop_last(), parent, st));
    }
}

/// In every plan, the files of each content behind the FST stand on multiples of 0x20, in order,
/// without overlapping, and within the content.
pub proof fn planned_files_do_not_overlap(root: Seq<char>, t: StagedTree, title_id: u64, c: int)
    requires
        t.fits_fst(),
        planned(root, t, title_id) is Ok,
        0 < c < planned(root, t, title_id)->Ok_0.contents.len(),
    ensures
        well_placed(planned(root, t, title_id)->Ok_0.contents[c]),
{
    super::plan_stays_in_bounds(root, t);
    let a = with_game(root, t).assigned;
    let ts = root_children(root, t, a.clusters)->Ok_0;
    let st = Flat { nodes: seq![dir_node(Seq::empty(), 0, 0, 0, 0)], contents: a.contents };
    lemma_flat_places(ts, 0, st);
}

/// Placing files changes neither the index of a content, nor its type, nor whether it is game data.
pub proof fn planned_keeps_kinds(root: Seq<char>, t: StagedTree, title_id: u64, c: int)
    requires
        t.fits_fst(),
        planned(root, t, title_id) is Ok,
        0 <= c < planned(root, t, title_id)->Ok_0.contents.len(),
    ensures
        ({
            let before = with_game(root, t).assigned.contents;
            let after = planned(root, t, title_id)->Ok_0.contents;
            &&& after.len() == before.len()
            &&& after[c].is_game == before[c].is_game
            &&& after[c].content_type == before[c].content_type
            &&& after[c].index == before[c].index
        }),
{
    super::plan_stays_in_bounds(root, t);
    let a = with_game(root, t).assigned;
    let ts = root_children(root, t, a.clusters)->Ok_0;
    let st = Flat { nodes: seq![dir_node(Seq::empty(), 0, 0, 0, 0)], contents: a.contents };
    lemma_flat_places(ts, 0, st);
    let after = planned(root, t, title_id)->Ok_0.contents;
    assert(same_kinds(a.contents, after));
}

/// In every plan the game data comes last: behind a game content there are only game contents, and
/// only they have an owner.
pub proof fn game_contents_come_last(
    root: Seq<char>,
    t: StagedTree,
    title_id: u64,
    i: int,
    j: int,
)
    requires
        t.fits_fst(),
        planned(root, t, title_id) is Ok,
        0 <= i <= j < planned(root, t, title_id)->Ok_0.contents.len(),
    ensures
        ({
            let contents = planned(root, t, title_id)->Ok_0.contents;
            let table = content_table(contents, title_id);
            &&& !contents[0].is_game
            &&& contents[i].is_game ==> contents[j].is_game
            &&& contents[i].is_game <==> table[i].owner_title_id != 0
        }),
{
    super::plan_stays_in_bounds(root, t);
    assignment_is_sound(root, t);
    let a = with_game(root, t).assigned;
    let ts = root_children(root, t, a.clusters)->Ok_0;
    let st = Flat { nodes: seq![dir_node(Seq::empty(), 0, 0, 0, 0)], contents: a.contents };
    lemma_flat_places(ts, 0, st);
    let files = collected(path_in(root, "content"@), t.content@, t.content@.len() as int);
    let before = with_code(root, t);
    packed_is_sound(before, files, files.len() as int);
    let contents = planned(root, t, title_id)->Ok_0.contents;
    assert(same_kinds(a.contents, contents));
    assert(contents[0].is_game == a.contents[0].is_game);
    assert(contents[i].is_game == a.contents[i].is_game);
    assert(contents[j].is_game == a.contents[j].is_game);
    assert(a.contents[0] == before.contents[0]);
    if i < before.contents.len() {
        assert(a.contents[i] == before.contents[i]);
    }
}

/// The descendants of a directory stand right behind it, up to its end, and each directory begins
/// behind its parent.
pub open spec fn nested(nodes: Seq<crate::package::fst::NodeView>, from: int) -> bool {
    forall|i: int|
        from <= i < nodes.len() ==> ((#[trigger] nodes[i]).kind matches FstNodeKind::Dir {
            parent_index,
            end_index,
        } ==> parent_index < i < end_index <= nodes.len())
}

proof fn lemma_flat_one_nests(t: TreeView, parent: int, st: Flat)
    requires
        0 <= parent < st.nodes.len(),
        st.nodes.len() + tree_nodes(t) <= u32::MAX,
        nested(st.nodes, 1),
        st.nodes.len() > 0,
    ensures
        nested(flat_one(t, parent, st).nodes, 1),
    decreases t,
{
    match t {
        TreeView::Dir { name, flags, children } => {
            let my = st.nodes.len() as int;
            let node = dir_node(name, flags, parent, my + 1, 0);
            let hollow = dir_node(name, flags, parent, 0, 0);
            let st1 = Flat { nodes: st.nodes.push(hollow), contents: st.contents };
            let st2 = Flat { nodes: st.nodes.push(node), contents: st.contents };
            lemma_flat_ignores_old_nodes(children, my, st1, st2);
            flat_keeps_names(children, my, st1);
            flat_keeps_names(children, my, st2);
            lemma_flat_nests(children, my, st2);
            let a = flat(children, my, st1);
            let b = flat(children, my, st2);
            let r = flat_one(t, parent, st);
            assert(r.nodes.len() == a.nodes.len());
            assert forall|i: int| 1 <= i < r.nodes.len() implies ((#[trigger] r.nodes[i]).kind
                matches FstNodeKind::Dir { parent_index, end_index } ==> parent_index < i
                < end_index <= r.nodes.len()) by {
                if i < my {
                    assert(b.nodes[i] == st2.nodes[i]);
                    assert(a.nodes[i] == st1.nodes[i]);
                } else if i > my {
                    assert(b.nodes[i] == a.nodes[i]);
                }
            }
        },
        TreeView::File { .. } => {
            let r = flat_one(t, parent, st);
            assert forall|i: int| 1 <= i < r.nodes.len() implies ((#[trigger] r.nodes[i]).kind
                matches FstNodeKind::Dir { parent_index, end_index } ==> parent_index < i
                < end_index <= r.nodes.len()) by {
                if i < st.nodes.len() {
                    assert(r.nodes[i] == st.nodes[i]);
                }
            }
        },
    }
}

pub(crate) proof fn lemma_flat_nests(ts: Seq<TreeView>, parent: int, st: Flat)
    requires
        0 <= parent < st.nodes.len(),
        st.nodes.len() + forest_nodes(ts) <= u32::MAX,
        nested(st.nodes, 1),
    ensures
        nested(flat(ts, parent, st).nodes, 1),
    decreases ts,
{
    if ts.len() > 0 {
        flat_keeps_names(ts.drop_last(), parent, st);
        lemma_flat_nests(ts.drop_last(), parent, st);
        lemma_flat_one_nests(ts[ts.len() - 1], parent, flat(ts.drop_last(), parent, st));
    }
}

/// Two states with the same number of nodes and the same contents.
pub open spec fn same_shape(a: Flat, b: Flat) -> bool {
    a.nodes.len() == b.nodes.len() && a.contents == b.contents
}

proof fn lemma_flat_one_ignores_old_nodes(t: TreeView, parent: int, a: Flat, b: Flat)
    requires
        same_shape(a, b),
    ensures
        same_shape(flat_one(t, parent, a), flat_one(t, parent, b)),
        forall|i: int|
            a.nodes.len() <= i < flat_one(t, parent, a).nodes.len() ==> #[trigger] flat_one(
                t,
                parent,
                a,
            ).nodes[i] == flat_one(t, parent, b).nodes[i],
    decreases t,
{
    match t {
        TreeView::Dir { name, flags, children } => {
            let my = a.nodes.len() as int;
            let hollow = dir_node(name, flags, parent, 0, 0);
            let a1 = Flat { nodes: a.nodes.push(hollow), contents: a.contents };
            let b1 = Flat { nodes: b.nodes.push(hollow), contents: b.contents };
            lemma_flat_ignores_old_nodes(children, my, a1, b1);
            flat_keeps_names(children, my, a1);
            flat_keeps_names(children, my, b1);
            let (x, y) = (flat(children, my, a1), flat(children, my, b1));
            assert(my + 1 < x.nodes.len() ==> x.nodes[my + 1] == y.nodes[my + 1]);
            let (p, q) = (flat_one(t, parent, a), flat_one(t, parent, b));
            assert forall|i: int| a.nodes.len() <= i < p.nodes.len() implies #[trigger] p.nodes[i]
                == q.nodes[i] by {
                if i > my {
                    assert(x.nodes[i] == y.nodes[i]);
                }
            }
        },
        TreeView::File { .. } => {},
    }
}

proof fn lemma_flat_ignores_old_nodes(ts: Seq<TreeView>, parent: int, a: Flat, b: Flat)
    requires
        same_shape(a, b),
    ensures
        same_shape(flat(ts, parent, a), flat(ts, parent, b)),
        forall|i: int|
            a.nodes.len() <= i < flat(ts, parent, a).nodes.len() ==> #[trigger] flat(
                ts,
                parent,
                a,
            ).nodes[i] == flat(ts, parent, b).nodes[i],
    decreases ts,
{
    if ts.len() > 0 {
        let (x, y) = (flat(ts.drop_last(), parent, a), flat(ts.drop_last(), parent, b));
        let t = ts[ts.len() - 1];
        lemma_flat_ignores_old_nodes(ts.drop_last(), parent, a, b);
        lemma_flat_one_ignores_old_nodes(t, parent, x, y);
        flat_keeps_names(ts.drop_last(), parent, a);
        flat_keeps_names(ts.drop_last(), parent, b);
        super::tree::flat_one_keeps_nodes(t, parent, x);
        super::tree::flat_one_keeps_nodes(t, parent, y);
        let (p, q) = (flat(ts, parent, a), flat(ts, parent, b));
        assert forall|i: int| a.nodes.len() <= i < p.nodes.len() implies #[trigger] p.nodes[i]
            == q.nodes[i] by {
            if i < x.nodes.len() {
                assert(p.nodes[i] == x.nodes[i]);
                assert(q.nodes[i] == y.nodes[i]);
            } else {
                assert(flat_one(t, parent, x).nodes[i] == flat_one(t, parent, y).nodes[i]);
            }
        }
    }
}

/// In the FST of every plan, each directory stands behind its parent and before the end of its
/// descendants, and the root spans all nodes.
pub proof fn fst_directories_are_nested(children: Seq<TreeView>, contents: Seq<ContentView>)
    requires
        1 + forest_nodes(children) <= u32::MAX,
    ensures
        ({
            let nodes = flattened(children, contents).nodes;
            &&& nested(nodes, 1)
            &&& nodes[0].kind == FstNodeKind::Dir {
                parent_index: 0,
                end_index: nodes.len() as u32,
            }
        }),
{
    let st = Flat { nodes: seq![dir_node(Seq::empty(), 0, 0, 0, 0)], contents };
    lemma_flat_nests(children, 0, st);
    flat_keeps_names(children, 0, st);
    let r = flat(children, 0, st);
    let nodes = flattened(children, contents).nodes;
    assert forall|i: int| 1 <= i < nodes.len() implies ((#[trigger] nodes[i]).kind
        matches FstNodeKind::Dir { parent_index, end_index } ==> parent_index < i < end_index
        <= nodes.len()) by {
        assert(nodes[i] == r.nodes[i]);
    }
}

} // verus!

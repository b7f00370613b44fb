//! Assigning the staged `code/`, `content/` and `meta/` files to contents, and building the FST.
//!
//! The Wii U installer hangs on other layouts than this one:
//!
//! 1. content 0 is the FST;
//! 2. `code/app.xml`, then `code/cos.xml`, each in a non-hashed content of its own;
//! 3. `meta/` in hashed contents: `meta.xml` alone, the boot bundle together, two more files alone,
//!    then whatever is left in one;
//! 4. the remaining `code/` files, executables first, each in a non-hashed content of its own;
//! 5. `content/`, the game data, in title-owned hashed contents of limited size, behind all others.

pub mod assign;
pub mod determinism;
pub mod grouping;
pub mod kinds;
pub mod laws;
pub mod listing;
pub mod nodes;
pub mod placement;
pub mod planned;
pub mod reading;
pub mod relocation;
pub mod tree;

use crate::bytes::{align_up, aligned_up, aligned_up_is_least};
use crate::error::{Error, ErrorView};
use crate::package::fst::{
    fst_bytes, fst_len, node_views, serialized_len, Fst, FstContent, FstNode, FstNodeKind,
    OFFSET_FACTOR,
};
use crate::paths::{join_path, path_in};
use assign::{
    assign_each, assign_game, assign_together, assigned_each, assigned_each_is_sound,
    assigned_together, assigned_together_is_sound, no_game, packed, packed_is_sound, present,
    present_files, present_is_bounded, sound, unassigned, unassigned_files,
    unassigned_is_bounded, Assigned, ClusterMap, Packing,
};
use listing::{
    collect_files, collected, collected_is_bounded, entry_order, listing_names, listing_weight,
    order_keeps_measures, room_behind, sized_files, Entry, OrderBy,
};
use planned::{
    alloc_content, content_views, fresh_content, ContentView, PlannedContent, TYPE_HASHED,
    TYPE_NONHASHED,
};
use tree::{
    all_names, build_dir_tree, dir_node, dir_tree, dir_tree_keeps_measures, flat, flat_keeps_names,
    flatten, forest_names, forest_nodes, forest_view, forest_weight, forest_within, total_len, Flat,
    Tree, TreeView,
};
use vstd::prelude::*;
use vstd::utf8::encode_utf8;

verus! {

/// FST flags of the code directory and its files.
pub const FST_FLAGS_CODE: u16 = 0x0000;

/// FST flags of the content directory and its files.
pub const FST_FLAGS_CONTENT: u16 = 0x0400;

/// FST flags of the meta directory and its files.
pub const FST_FLAGS_META: u16 = 0x0040;

/// FST content flags of hashed content.
pub const CONTENT_FLAG_HASHED: u16 = 0x0200;

/// FST content flags of non-hashed content.
pub const CONTENT_FLAG_NONHASHED: u16 = 0x0100;

/// Group id of hashed metadata contents.
pub const CONTENT_GROUP_META: u32 = 0x0400;

/// Bytes of a content sector.
pub const SECTOR: u64 = 0x8000;

/// The staged directories of a title. One that does not exist has no entries.
#[derive(Debug)]
pub struct StagedTree {
    pub code: Vec<Entry>,
    pub content: Vec<Entry>,
    pub meta: Vec<Entry>,
}

impl StagedTree {
    /// The names fit the 24 bits that the FST has for their offsets, and the files fit the 32 bits
    /// that it has for sectors.
    pub open spec fn fits_fst(&self) -> bool {
        &&& listing_names(self.code@) + listing_names(self.content@) + listing_names(self.meta@)
            <= 0xFF_FFED
        &&& listing_weight(self.code@) + listing_weight(self.content@) + listing_weight(self.meta@)
            <= 0x7F00_0000_0000
    }

    /// Whether the names and the files fit the FST.
    pub fn fits(&self) -> (r: bool)
        ensures
            r == self.fits_fst(),
    {
        if let Some((names, weight)) = room_behind(&self.code, 0xFF_FFED, 0x7F00_0000_0000) {
            if let Some((names, weight)) = room_behind(&self.content, names, weight) {
                return room_behind(&self.meta, names, weight).is_some();
            }
        }
        false
    }
}

/// The package plan: the serialized FST and the files of every content.
#[derive(Debug)]
pub struct PackagePlan {
    /// The data of content 0.
    pub fst: Vec<u8>,
    /// All contents, that of the FST first.
    pub contents: Vec<PlannedContent>,
}

/// The assignment before any file: content 0 is the FST.
pub open spec fn initial_assignment() -> Assigned {
    Assigned {
        contents: seq![fresh_content(0, TYPE_NONHASHED, false)],
        clusters: Map::empty(),
    }
}

/// `app.xml` and `cos.xml`, each in a content of its own.
pub open spec fn with_xml(root: Seq<char>, t: StagedTree) -> Assigned {
    let paths = present(path_in(root, "code"@), t.code@, seq!["app.xml"@, "cos.xml"@], 2);
    assigned_each(initial_assignment(), paths, TYPE_NONHASHED, paths.len() as int)
}

/// Then `meta/`: `meta.xml` alone.
pub open spec fn with_meta_xml(root: Seq<char>, t: StagedTree) -> Assigned {
    let paths = present(path_in(root, "meta"@), t.meta@, seq!["meta.xml"@], 1);
    assigned_each(with_xml(root, t), paths, TYPE_HASHED, paths.len() as int)
}

/// Then the boot bundle together.
pub open spec fn with_bundle(root: Seq<char>, t: StagedTree) -> Assigned {
    let names = seq![
        "iconTex.tga"@,
        "bootTvTex.tga"@,
        "bootDrcTex.tga"@,
        "bootSound.btsnd"@,
    ];
    let paths = present(path_in(root, "meta"@), t.meta@, names, 4);
    assigned_together(with_meta_xml(root, t), paths, TYPE_HASHED)
}

/// Then the boot movie and the boot logo, each alone.
pub open spec fn with_singles(root: Seq<char>, t: StagedTree) -> Assigned {
    let names = seq!["bootMovie.h264"@, "bootLogoTex.tga"@];
    let paths = present(path_in(root, "meta"@), t.meta@, names, 2);
    assigned_each(with_bundle(root, t), paths, TYPE_HASHED, paths.len() as int)
}

/// Then the other files of `meta/` together.
pub open spec fn with_meta(root: Seq<char>, t: StagedTree) -> Assigned {
    let a = with_singles(root, t);
    let paths = unassigned(
        path_in(root, "meta"@),
        t.meta@,
        entry_order(t.meta@, OrderBy::Name),
        a.clusters,
        t.meta@.len() as int,
    );
    assigned_together(a, paths, TYPE_HASHED)
}

/// Then the other files of `code/`, each alone, executables first.
pub open spec fn with_code(root: Seq<char>, t: StagedTree) -> Assigned {
    let a = with_meta(root, t);
    let paths = unassigned(
        path_in(root, "code"@),
        t.code@,
        entry_order(t.code@, OrderBy::ExecutableFirst),
        a.clusters,
        t.code@.len() as int,
    );
    assigned_each(a, paths, TYPE_NONHASHED, paths.len() as int)
}

/// Then the game data, packed into contents of limited size.
pub open spec fn with_game(root: Seq<char>, t: StagedTree) -> Packing {
    let files = collected(path_in(root, "content"@), t.content@, t.content@.len() as int);
    packed(with_code(root, t), files, files.len() as int)
}

/// The error for a file that no content was assigned to.
pub open spec fn unassigned_error(path: Seq<char>) -> ErrorView {
    ErrorView::UnsupportedDisc(path + " was not assigned to a content"@)
}

/// The subtree of one of the three staged directories.
pub open spec fn staged_tree(
    root: Seq<char>,
    name: Seq<char>,
    entries: Seq<Entry>,
    flags: u16,
    clusters: Map<Seq<char>, u16>,
) -> Result<Seq<TreeView>, ErrorView> {
    match dir_tree(path_in(root, name), entries, flags, clusters, entries.len() as int) {
        Err(path) => Err(unassigned_error(path)),
        Ok(children) => if children.len() == 0 {
            Ok(Seq::empty())
        } else {
            Ok(seq![TreeView::Dir { name, flags, children }])
        },
    }
}

/// The children of the root: the staged directories that hold anything, or the first file without
/// a content.
pub open spec fn root_children(
    root: Seq<char>,
    t: StagedTree,
    clusters: Map<Seq<char>, u16>,
) -> Result<Seq<TreeView>, ErrorView> {
    let code = staged_tree(root, "code"@, t.code@, FST_FLAGS_CODE, clusters);
    let content = staged_tree(root, "content"@, t.content@, FST_FLAGS_CONTENT, clusters);
    let meta = staged_tree(root, "meta"@, t.meta@, FST_FLAGS_META, clusters);
    if code is Err {
        code
    } else if content is Err {
        content
    } else if meta is Err {
        meta
    } else {
        Ok(code->Ok_0 + content->Ok_0 + meta->Ok_0)
    }
}

/// The flattened package: a root node that spans all nodes, and the contents with their files.
pub open spec fn flattened(children: Seq<TreeView>, contents: Seq<ContentView>) -> Flat {
    let root = dir_node(Seq::empty(), 0, 0, 0, 0);
    let r = flat(children, 0, Flat { nodes: seq![root], contents });
    Flat {
        nodes: r.nodes.update(0, dir_node(Seq::empty(), 0, 0, r.nodes.len() as int, 0)),
        contents: r.contents,
    }
}

/// The contents once the size of the FST is known.
pub open spec fn sized_contents(f: Flat) -> Seq<ContentView> {
    f.contents.update(
        0,
        ContentView { data_len: fst_len(f.contents.len(), f.nodes) as int, ..f.contents[0] },
    )
}

/// Sectors that a content takes: at least one.
pub open spec fn sector_count(c: ContentView) -> int {
    let len = if c.data_len < 1 {
        1
    } else {
        c.data_len
    };
    aligned_up(len, SECTOR as int) / SECTOR as int
}

/// Sectors that the first `k` contents take.
pub open spec fn sectors_before(contents: Seq<ContentView>, k: int) -> int
    decreases k,
{
    if k <= 0 {
        0
    } else {
        sectors_before(contents, k - 1) + sector_count(contents[k - 1])
    }
}

/// The FST entry of a content that begins at sector `offset`. Game contents are owned by the disc
/// title, with the low bits of the title id as their group.
pub open spec fn fst_content(c: ContentView, title_id: u64, offset: int) -> FstContent {
    FstContent {
        offset_sectors: offset as u32,
        size_sectors: sector_count(c) as u32,
        owner_title_id: if c.is_game {
            (0x0005_0000_0000_0000 + title_id % 0x1_0000_0000) as u64
        } else {
            0
        },
        group_id: if c.is_game {
            (title_id % 0x1_0000) as u32
        } else if c.content_type == TYPE_HASHED {
            CONTENT_GROUP_META
        } else {
            0
        },
        flags: if c.is_game || c.content_type == TYPE_HASHED {
            CONTENT_FLAG_HASHED
        } else {
            CONTENT_FLAG_NONHASHED
        },
    }
}

/// The content table of the FST.
pub open spec fn content_table(contents: Seq<ContentView>, title_id: u64) -> Seq<FstContent> {
    Seq::new(
        contents.len(),
        |i: int| fst_content(contents[i], title_id, sectors_before(contents, i)),
    )
}

/// The value of a [`PackagePlan`].
pub struct PlanView {
    pub fst: Seq<u8>,
    pub contents: Seq<ContentView>,
}

/// The plan for a staged tree, or why there is none: a game file beyond the cap, or else a file that
/// has no content.
pub open spec fn planned(root: Seq<char>, t: StagedTree, title_id: u64) -> Result<
    PlanView,
    ErrorView,
> {
    let p = with_game(root, t);
    if p.refused is Some {
        Err(p.refused->0)
    } else {
        match root_children(root, t, p.assigned.clusters) {
            Err(e) => Err(e),
            Ok(children) => {
                let f = flattened(children, p.assigned.contents);
                let contents = sized_contents(f);
                Ok(
                    PlanView {
                        fst: fst_bytes(
                            OFFSET_FACTOR,
                            content_table(contents, title_id),
                            f.nodes,
                        ),
                        contents,
                    },
                )
            },
        }
    }
}

/// The assignment before the game data is sound and not larger than the listings.
pub proof fn assignment_is_sound(root: Seq<char>, t: StagedTree)
    ensures
        sound(with_code(root, t)),
        no_game(with_code(root, t)),
        with_code(root, t).contents.len() <= 8 + t.code@.len(),
{
    let code = path_in(root, "code"@);
    let meta = path_in(root, "meta"@);
    let a0 = initial_assignment();
    assert(sound(a0));
    let xml = present(code, t.code@, seq!["app.xml"@, "cos.xml"@], 2);
    present_is_bounded(code, t.code@, seq!["app.xml"@, "cos.xml"@], 2);
    assigned_each_is_sound(a0, xml, TYPE_NONHASHED, xml.len() as int);
    let meta_xml = present(meta, t.meta@, seq!["meta.xml"@], 1);
    present_is_bounded(meta, t.meta@, seq!["meta.xml"@], 1);
    assigned_each_is_sound(with_xml(root, t), meta_xml, TYPE_HASHED, meta_xml.len() as int);
    let bundle = seq![
        "iconTex.tga"@,
        "bootTvTex.tga"@,
        "bootDrcTex.tga"@,
        "bootSound.btsnd"@,
    ];
    assigned_together_is_sound(
        with_meta_xml(root, t),
        present(meta, t.meta@, bundle, 4),
        TYPE_HASHED,
    );
    let singles = seq!["bootMovie.h264"@, "bootLogoTex.tga"@];
    let alone = present(meta, t.meta@, singles, 2);
    present_is_bounded(meta, t.meta@, singles, 2);
    assigned_each_is_sound(with_bundle(root, t), alone, TYPE_HASHED, alone.len() as int);
    let b = with_singles(root, t);
    let by_name = entry_order(t.meta@, OrderBy::Name);
    assigned_together_is_sound(
        b,
        unassigned(meta, t.meta@, by_name, b.clusters, t.meta@.len() as int),
        TYPE_HASHED,
    );
    let c = with_meta(root, t);
    let exec_first = entry_order(t.code@, OrderBy::ExecutableFirst);
    let n = t.code@.len() as int;
    let rest = unassigned(code, t.code@, exec_first, c.clusters, n);
    unassigned_is_bounded(code, t.code@, exec_first, c.clusters, n);
    assigned_each_is_sound(c, rest, TYPE_NONHASHED, rest.len() as int);
}

/// Assign the files before the game data.
fn assign_system_files(root: &str, t: &StagedTree) -> (r: (Vec<PlannedContent>, ClusterMap))
    ensures
        content_views(r.0@) == with_code(root@, *t).contents,
        r.1@ == with_code(root@, *t).clusters,
{
    let code_dir = join_path(root, "code");
    let meta_dir = join_path(root, "meta");
    let code = code_dir.as_str();
    let meta = meta_dir.as_str();
    let mut contents: Vec<PlannedContent> = Vec::new();
    let mut clusters = ClusterMap::new();
    alloc_content(&mut contents, TYPE_NONHASHED, false);
    assert(content_views(contents@) =~= initial_assignment().contents);

    let names = vec!["app.xml", "cos.xml"];
    let xml = present_files(code, &t.code, &names);
    assert(Seq::new(names@.len(), |i: int| names@[i]@) =~= seq!["app.xml"@, "cos.xml"@]);
    assign_each(xml, TYPE_NONHASHED, &mut contents, &mut clusters);
    assert(content_views(contents@) == with_xml(root@, *t).contents);
    assert(clusters@ == with_xml(root@, *t).clusters);

    let names = vec!["meta.xml"];
    let meta_xml = present_files(meta, &t.meta, &names);
    assert(Seq::new(names@.len(), |i: int| names@[i]@) =~= seq!["meta.xml"@]);
    assign_each(meta_xml, TYPE_HASHED, &mut contents, &mut clusters);
    assert(content_views(contents@) == with_meta_xml(root@, *t).contents);
    assert(clusters@ == with_meta_xml(root@, *t).clusters);

    let names = vec!["iconTex.tga", "bootTvTex.tga", "bootDrcTex.tga", "bootSound.btsnd"];
    let bundle = present_files(meta, &t.meta, &names);
    assert(Seq::new(names@.len(), |i: int| names@[i]@) =~= seq![
        "iconTex.tga"@,
        "bootTvTex.tga"@,
        "bootDrcTex.tga"@,
        "bootSound.btsnd"@,
    ]);
    assign_together(bundle, TYPE_HASHED, &mut contents, &mut clusters);
    assert(content_views(contents@) == with_bundle(root@, *t).contents);
    assert(clusters@ == with_bundle(root@, *t).clusters);

    let names = vec!["bootMovie.h264", "bootLogoTex.tga"];
    let singles = present_files(meta, &t.meta, &names);
    assert(Seq::new(names@.len(), |i: int| names@[i]@) =~= seq![
        "bootMovie.h264"@,
        "bootLogoTex.tga"@,
    ]);
    assign_each(singles, TYPE_HASHED, &mut contents, &mut clusters);
    assert(content_views(contents@) == with_singles(root@, *t).contents);
    assert(clusters@ == with_singles(root@, *t).clusters);

    let leftover = unassigned_files(meta, &t.meta, OrderBy::Name, &clusters);
    assign_together(leftover, TYPE_HASHED, &mut contents, &mut clusters);
    assert(content_views(contents@) == with_meta(root@, *t).contents);
    assert(clusters@ == with_meta(root@, *t).clusters);

    let rest = unassigned_files(code, &t.code, OrderBy::ExecutableFirst, &clusters);
    assign_each(rest, TYPE_NONHASHED, &mut contents, &mut clusters);
    (contents, clusters)
}

/// The subtree of one of the three staged directories, appended to the children of the root.
fn push_staged_tree(
    root: &str,
    name: &str,
    entries: &Vec<Entry>,
    flags: u16,
    clusters: &ClusterMap,
    out: &mut Vec<Tree>,
) -> (r: Result<(), Error>)
    ensures
        match r {
            Ok(_) => staged_tree(root@, name@, entries@, flags, clusters@) is Ok && forest_view(
                final(out)@,
            ) == forest_view(old(out)@) + staged_tree(
                root@,
                name@,
                entries@,
                flags,
                clusters@,
            )->Ok_0,
            Err(e) => staged_tree(root@, name@, entries@, flags, clusters@) == Err::<
                Seq<TreeView>,
                ErrorView,
            >(e@),
        },
{
    let dir = join_path(root, name);
    let children = match build_dir_tree(dir.as_str(), entries, flags, clusters) {
        Ok(children) => children,
        Err(path) => {
            let mut m = path;
            m.append(" was not assigned to a content");
            return Err(Error::UnsupportedDisc(m));
        },
    };
    let ghost before = out@;
    proof {
        tree::forest_view_keeps_length(children@);
    }
    if children.len() > 0 {
        let t = Tree::Dir { name: name.to_owned(), flags, children };
        proof {
            reveal_with_fuel(tree::tree_view, 2);
        }
        out.push(t);
        assert(out@.drop_last() =~= before);
        assert(forest_view(out@) =~= forest_view(before) + seq![tree::tree_view(t)]);
    } else {
        assert(forest_view(before) + Seq::<TreeView>::empty() =~= forest_view(before));
    }
    Ok(())
}

/// The children of the root.
fn build_root_children(root: &str, t: &StagedTree, clusters: &ClusterMap) -> (r: Result<
    Vec<Tree>,
    Error,
>)
    ensures
        match r {
            Ok(v) => root_children(root@, *t, clusters@) == Ok::<Seq<TreeView>, ErrorView>(
                forest_view(v@),
            ),
            Err(e) => root_children(root@, *t, clusters@) == Err::<Seq<TreeView>, ErrorView>(e@),
        },
{
    let mut out: Vec<Tree> = Vec::new();
    match push_staged_tree(root, "code", &t.code, FST_FLAGS_CODE, clusters, &mut out) {
        Ok(_) => {},
        Err(e) => return Err(e),
    }
    match push_staged_tree(root, "content", &t.content, FST_FLAGS_CONTENT, clusters, &mut out) {
        Ok(_) => {},
        Err(e) => return Err(e),
    }
    match push_staged_tree(root, "meta", &t.meta, FST_FLAGS_META, clusters, &mut out) {
        Ok(_) => {},
        Err(e) => return Err(e),
    }
    proof {
        let code = staged_tree(root@, "code"@, t.code@, FST_FLAGS_CODE, clusters@)->Ok_0;
        assert(Seq::<TreeView>::empty() + code =~= code);
    }
    Ok(out)
}

proof fn lemma_staged_tree(
    root: Seq<char>,
    name: Seq<char>,
    entries: Seq<Entry>,
    flags: u16,
    clusters: Map<Seq<char>, u16>,
    n: nat,
)
    requires
        forall|p: Seq<char>| #[trigger] clusters.dom().contains(p) ==> clusters[p] < n,
    ensures
        staged_tree(root, name, entries, flags, clusters) matches Ok(ts) ==> {
            &&& forest_names(ts) <= listing_names(entries) + encode_utf8(name).len() + 1
            &&& forest_weight(ts) <= listing_weight(entries)
            &&& forest_within(ts, n)
        },
{
    let k = entries.len() as int;
    dir_tree_keeps_measures(path_in(root, name), entries, flags, clusters, k, n);
    order_keeps_measures(entries, OrderBy::HifFirst);
    if let Ok(children) = dir_tree(path_in(root, name), entries, flags, clusters, k) {
        if children.len() > 0 {
            tree::single_tree_measures(TreeView::Dir { name, flags, children }, n);
        }
    }
}

proof fn lemma_root_children(
    root: Seq<char>,
    t: StagedTree,
    clusters: Map<Seq<char>, u16>,
    n: nat,
)
    requires
        t.fits_fst(),
        forall|p: Seq<char>| #[trigger] clusters.dom().contains(p) ==> clusters[p] < n,
    ensures
        root_children(root, t, clusters) matches Ok(ts) ==> {
            &&& forest_names(ts) <= 0xFF_FFFF
            &&& forest_weight(ts) <= 0x7F00_0000_0000
            &&& forest_within(ts, n)
        },
{
    lemma_staged_tree(root, "code"@, t.code@, FST_FLAGS_CODE, clusters, n);
    lemma_staged_tree(root, "content"@, t.content@, FST_FLAGS_CONTENT, clusters, n);
    lemma_staged_tree(root, "meta"@, t.meta@, FST_FLAGS_META, clusters, n);
    reveal_strlit("code");
    reveal_strlit("content");
    reveal_strlit("meta");
    vstd::utf8::is_ascii_chars_encode_utf8("code"@);
    vstd::utf8::is_ascii_chars_encode_utf8("content"@);
    vstd::utf8::is_ascii_chars_encode_utf8("meta"@);
    if root_children(root, t, clusters) is Ok {
        let code = staged_tree(root, "code"@, t.code@, FST_FLAGS_CODE, clusters)->Ok_0;
        let content = staged_tree(
            root,
            "content"@,
            t.content@,
            FST_FLAGS_CONTENT,
            clusters,
        )->Ok_0;
        let meta = staged_tree(root, "meta"@, t.meta@, FST_FLAGS_META, clusters)->Ok_0;
        tree::forest_measures_add_up(code, content, n);
        tree::forest_measures_add_up(code + content, meta, n);
    }
}

/// A content fits its sectors, and would not fit one less.
pub proof fn sector_count_covers(c: ContentView)
    requires
        c.data_len >= 0,
    ensures
        1 <= sector_count(c),
        sector_count(c) * SECTOR <= c.data_len + SECTOR,
        c.data_len <= sector_count(c) * SECTOR,
{
    let len = if c.data_len < 1 {
        1
    } else {
        c.data_len
    };
    aligned_up_is_least(len, SECTOR as int);
}

proof fn lemma_sectors_bound(contents: Seq<ContentView>, k: int)
    requires
        0 <= k <= contents.len(),
        forall|c: int| 0 <= c < contents.len() ==> 0 <= (#[trigger] contents[c]).data_len,
    ensures
        0 <= sectors_before(contents, k),
        sectors_before(contents, k) * SECTOR <= total_len(contents.take(k)) + SECTOR * k,
    decreases k,
{
    if k > 0 {
        lemma_sectors_bound(contents, k - 1);
        sector_count_covers(contents[k - 1]);
        assert(contents.take(k).drop_last() =~= contents.take(k - 1));
    } else {
        assert(contents.take(0) =~= Seq::empty());
    }
}

/// Contents only ever take more sectors.
pub proof fn sectors_grow(contents: Seq<ContentView>, a: int, b: int)
    requires
        0 <= a <= b <= contents.len(),
        forall|c: int| 0 <= c < contents.len() ==> 0 <= (#[trigger] contents[c]).data_len,
    ensures
        sectors_before(contents, a) <= sectors_before(contents, b),
    decreases b,
{
    if a < b {
        sectors_grow(contents, a, b - 1);
        sector_count_covers(contents[b - 1]);
    }
}

/// The content table of the FST: each content begins where the one before it ends.
pub fn build_content_table(contents: &Vec<PlannedContent>, title_id: u64) -> (r: Vec<FstContent>)
    requires
        sectors_before(content_views(contents@), contents@.len() as int) <= u32::MAX,
        forall|c: int|
            0 <= c < contents@.len() ==> (#[trigger] contents@[c]).data_len <= u64::MAX - 0x8000,
    ensures
        r@ == content_table(content_views(contents@), title_id),
{
    let ghost cv = content_views(contents@);
    let owner = 0x0005_0000_0000_0000 + title_id % 0x1_0000_0000;
    let group = (title_id % 0x1_0000) as u32;
    let mut r: Vec<FstContent> = Vec::new();
    let mut cursor: u32 = 0;
    let mut i: usize = 0;
    proof {
        assert forall|c: int| 0 <= c < cv.len() implies 0 <= (#[trigger] cv[c]).data_len by {
            assert(cv[c] == contents@[c]@);
        }
    }
    while i < contents.len()
        invariant
            i <= contents@.len(),
            cv == content_views(contents@),
            forall|c: int| 0 <= c < cv.len() ==> 0 <= (#[trigger] cv[c]).data_len,
            forall|c: int|
                0 <= c < contents@.len() ==> (#[trigger] contents@[c]).data_len <= u64::MAX
                    - 0x8000,
            sectors_before(cv, contents@.len() as int) <= u32::MAX,
            owner == 0x0005_0000_0000_0000 + title_id % 0x1_0000_0000,
            group == title_id % 0x1_0000,
            cursor == sectors_before(cv, i as int),
            r@ == content_table(cv, title_id).take(i as int),
        decreases contents@.len() - i,
    {
        let c = &contents[i];
        let len = if c.data_len < 1 {
            1
        } else {
            c.data_len
        };
        proof {
            assert(cv[i as int] == contents@[i as int]@);
            sectors_grow(cv, i + 1, contents@.len() as int);
            sector_count_covers(cv[i as int]);
            lemma_sectors_bound(cv, i as int);
        }
        let sectors = align_up(len, SECTOR) / SECTOR;
        let hashed = c.is_game || c.content_type == TYPE_HASHED;
        r.push(
            FstContent {
                offset_sectors: cursor,
                size_sectors: sectors as u32,
                owner_title_id: if c.is_game {
                    owner
                } else {
                    0
                },
                group_id: if c.is_game {
                    group
                } else if hashed {
                    CONTENT_GROUP_META
                } else {
                    0
                },
                flags: if hashed {
                    CONTENT_FLAG_HASHED
                } else {
                    CONTENT_FLAG_NONHASHED
                },
            },
        );
        cursor = cursor + sectors as u32;
        i = i + 1;
        assert(r@ =~= content_table(cv, title_id).take(i as int));
    }
    assert(r@ =~= content_table(cv, title_id));
    r
}

/// Every plan stays within the fields of the FST.
pub proof fn plan_stays_in_bounds(root: Seq<char>, t: StagedTree)
    requires
        t.fits_fst(),
        with_game(root, t).refused is None,
        root_children(root, t, with_game(root, t).assigned.clusters) is Ok,
    ensures
        ({
            let a = with_game(root, t).assigned;
            let ts = root_children(root, t, a.clusters)->Ok_0;
            let f = flattened(ts, a.contents);
            let contents = sized_contents(f);
            &&& sound(a)
            &&& forest_within(ts, a.contents.len())
            &&& forest_weight(ts) <= 0x7F00_0000_0000
            &&& forest_nodes(ts) <= 0x100_0000
            &&& all_names(f.nodes) <= 0x100_0000
            &&& f.nodes.len() == 1 + forest_nodes(ts)
            &&& f.contents.len() == a.contents.len()
            &&& fst_len(f.contents.len(), f.nodes) <= 0x7FFF_FFFF
            &&& sectors_before(contents, contents.len() as int) <= u32::MAX
            &&& forall|c: int|
                0 <= c < contents.len() ==> 0 <= (#[trigger] contents[c]).data_len
                    <= 0x7F00_0000_0000
        }),
{
    let a = with_game(root, t).assigned;
    let ts = root_children(root, t, a.clusters)->Ok_0;
    let dir = path_in(root, "content"@);
    let n = t.content@.len() as int;
    let files = collected(dir, t.content@, n);
    assignment_is_sound(root, t);
    collected_is_bounded(dir, t.content@, n);
    order_keeps_measures(t.content@, OrderBy::HifFirst);
    order_keeps_measures(t.code@, OrderBy::HifFirst);
    packed_is_sound(with_code(root, t), files, files.len() as int);
    lemma_root_children(root, t, a.clusters, a.contents.len());
    let node = dir_node(Seq::empty(), 0, 0, 0, 0);
    let st = Flat { nodes: seq![node], contents: a.contents };
    let r = flat(ts, 0, st);
    flat_keeps_names(ts, 0, st);
    tree::flat_keeps_bounds(ts, 0, st);
    let f = flattened(ts, a.contents);
    assert(f.nodes[0].name == r.nodes[0].name) by {
        assert(r.nodes[0] == st.nodes[0]);
    }
    tree::same_names_same_room(f.nodes, r.nodes);
    assert(all_names(st.nodes) == 1) by {
        vstd::utf8::is_ascii_chars_encode_utf8(Seq::<char>::empty());
        reveal_with_fuel(crate::package::fst::names_room, 2);
    }
    tree::empty_contents_have_no_bytes(a.contents);
    let contents = sized_contents(f);
    tree::total_len_after_update(
        f.contents,
        0,
        ContentView { data_len: fst_len(f.contents.len(), f.nodes) as int, ..f.contents[0] },
    );
    assert forall|c: int| 0 <= c < contents.len() implies 0 <= (#[trigger] contents[c]).data_len
        <= 0x7F00_0000_0000 by {
        if c > 0 {
            assert(contents[c] == r.contents[c]);
        }
    }
    lemma_sectors_bound(contents, contents.len() as int);
    assert(contents.take(contents.len() as int) =~= contents);
}

/// Plan the package of a staged tree under `root`. `title_id` gives the owner and the group of the
/// game contents.
pub fn plan(root: &str, t: &StagedTree, title_id: u64) -> (r: Result<PackagePlan, Error>)
    requires
        t.fits_fst(),
    ensures
        match r {
            Ok(p) => planned(root@, *t, title_id) == Ok::<PlanView, ErrorView>(
                PlanView { fst: p.fst@, contents: content_views(p.contents@) },
            ),
            Err(e) => planned(root@, *t, title_id) == Err::<PlanView, ErrorView>(e@),
        },
{
    let (mut contents, mut clusters) = assign_system_files(root, t);
    let content_dir = join_path(root, "content");
    let mut files: Vec<(String, u64)> = Vec::new();
    collect_files(content_dir.as_str(), &t.content, &mut files);
    proof {
        let n = t.content@.len() as int;
        collected_is_bounded(content_dir@, t.content@, n);
        order_keeps_measures(t.content@, OrderBy::HifFirst);
        assert(sized_files(files@) =~= collected(content_dir@, t.content@, n));
        assert forall|i: int| 0 <= i < files@.len() implies (#[trigger] files@[i]).1 <= u64::MAX
            - 0x1F by {
            assert(sized_files(files@)[i].1 == files@[i].1);
        }
        assert(with_code(root@, *t) == (Assigned {
            contents: content_views(contents@),
            clusters: clusters@,
        }));
    }
    match assign_game(&files, &mut contents, &mut clusters) {
        Ok(_) => {},
        Err(e) => return Err(e),
    }
    let children = match build_root_children(root, t, &clusters) {
        Ok(children) => children,
        Err(e) => return Err(e),
    };
    let ghost a = with_game(root@, *t).assigned;
    let ghost ts = forest_view(children@);
    proof {
        plan_stays_in_bounds(root@, *t);
        assert forall|c: int| 0 <= c < contents@.len() implies (#[trigger] contents@[c]).data_len
            == 0 by {
            assert(content_views(contents@)[c] == contents@[c]@);
        }
    }
    let mut nodes: Vec<FstNode> = Vec::new();
    nodes.push(
        FstNode {
            name: String::new(),
            kind: FstNodeKind::Dir { parent_index: 0, end_index: 0 },
            type_flags: 0,
            flags: 0,
            cluster: 0,
        },
    );
    assert(node_views(nodes@) =~= seq![dir_node(Seq::empty(), 0, 0, 0, 0)]);
    flatten(&children, 0, &mut nodes, &mut contents);
    let ghost inner = nodes@;
    let total = nodes.len() as u32;
    nodes.set(
        0,
        FstNode {
            name: String::new(),
            kind: FstNodeKind::Dir { parent_index: 0, end_index: total },
            type_flags: 0,
            flags: 0,
            cluster: 0,
        },
    );
    let ghost f = flattened(ts, a.contents);
    assert(node_views(nodes@) =~= f.nodes);
    assert(content_views(contents@) == f.contents);

    let ghost unsized_contents = contents@;
    contents[0].data_len = serialized_len(contents.len(), &nodes) as u64;
    proof {
        assert(contents@[0]@ =~= ContentView {
            data_len: fst_len(f.contents.len(), f.nodes) as int,
            ..f.contents[0]
        }) by {
            assert(content_views(unsized_contents)[0] == unsized_contents[0]@);
        }
        assert(content_views(contents@) =~= sized_contents(f)) by {
            assert forall|c: int| 0 < c < contents@.len() implies (
            #[trigger] contents@[c])@ == f.contents[c] by {
                assert(content_views(unsized_contents)[c] == unsized_contents[c]@);
            }
        }
        assert forall|c: int| 0 <= c < contents@.len() implies (#[trigger] contents@[c]).data_len
            <= u64::MAX - 0x8000 by {
            assert(content_views(contents@)[c] == contents@[c]@);
        }
    }
    let table = build_content_table(&contents, title_id);
    let fst = Fst { offset_factor: OFFSET_FACTOR, contents: table, nodes };
    Ok(PackagePlan { fst: fst.serialize(), contents })
}

} // verus!

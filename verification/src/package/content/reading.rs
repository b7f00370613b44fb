//! What a reader finds in the FST of a plan.

use super::assign::{
    assigned_each, assigned_together, packed, present, unassigned, Assigned,
};
use super::listing::{collected, entry_order, listing_names, listing_weight, OrderBy};
use super::planned::ContentView;
use super::{
    content_table, flattened, initial_assignment, planned, root_children, sectors_before,
    sized_contents, with_bundle, with_code, with_game, with_meta, with_meta_xml, with_singles,
    with_xml, StagedTree,
};
use crate::bytes::{aligned_up_is_least, be32, be32_at, be32_at_its_bytes, be64};
use crate::package::fst::{
    content_bytes, fst_bytes, fst_reads_back, header_bytes, FstContent, NodeView, OFFSET_FACTOR,
};
use crate::paths::path_in;
use vstd::prelude::*;

verus! {

/// Every content has one of the two types, game data has a hash tree, and the FST has none.
spec fn typed(contents: Seq<ContentView>) -> bool {
    &&& contents.len() > 0
    &&& contents[0].content_type == 0x2001
    &&& forall|c: int|
        0 <= c < contents.len() ==> {
            &&& (#[trigger] contents[c]).content_type == 0x2001 || contents[c].content_type
                == 0x2003
            &&& contents[c].is_game ==> contents[c].content_type == 0x2003
        }
}

proof fn lemma_each_typed(a: Assigned, paths: Seq<Seq<char>>, content_type: u16, k: int)
    requires
        typed(a.contents),
        content_type == 0x2001 || content_type == 0x2003,
    ensures
        typed(assigned_each(a, paths, content_type, k).contents),
    decreases k,
{
    if k > 0 {
        lemma_each_typed(a, paths, content_type, k - 1);
    }
}

proof fn lemma_packed_typed(a: Assigned, files: Seq<(Seq<char>, u64)>, k: int)
    requires
        typed(a.contents),
    ensures
        typed(packed(a, files, k).assigned.contents),
    decreases k,
{
    if k > 0 {
        lemma_packed_typed(a, files, k - 1);
    }
}

proof fn lemma_typed(root: Seq<char>, t: StagedTree)
    ensures
        typed(with_game(root, t).assigned.contents),
{
    let code = path_in(root, "code"@);
    let meta = path_in(root, "meta"@);
    let xml = present(code, t.code@, seq!["app.xml"@, "cos.xml"@], 2);
    let meta_xml = present(meta, t.meta@, seq!["meta.xml"@], 1);
    let singles = present(meta, t.meta@, seq!["bootMovie.h264"@, "bootLogoTex.tga"@], 2);
    lemma_each_typed(initial_assignment(), xml, 0x2001, xml.len() as int);
    lemma_each_typed(with_xml(root, t), meta_xml, 0x2003, meta_xml.len() as int);
    lemma_each_typed(with_bundle(root, t), singles, 0x2003, singles.len() as int);
    let e = with_meta(root, t);
    let order = entry_order(t.code@, OrderBy::ExecutableFirst);
    let rest = unassigned(code, t.code@, order, e.clusters, t.code@.len() as int);
    lemma_each_typed(e, rest, 0x2001, rest.len() as int);
    let game = collected(path_in(root, "content"@), t.content@, t.content@.len() as int);
    lemma_packed_typed(with_code(root, t), game, game.len() as int);
}

/// The numbers of a content entry at `at`: the first sector, the number of sectors, the two halves of
/// the owner's title id, the group id and the flags.
pub open spec fn entry_at(fst: Seq<u8>, at: int) -> (u32, u32, u32, u32, u32, int) {
    (
        be32_at(fst, at),
        be32_at(fst, at + 4),
        be32_at(fst, at + 8),
        be32_at(fst, at + 0xC),
        be32_at(fst, at + 0x10),
        fst[at + 0x14] * 0x100 + fst[at + 0x15],
    )
}

/// What the entry of a content says.
spec fn entry_of(c: FstContent) -> (u32, u32, u32, u32, u32, int) {
    (
        c.offset_sectors,
        c.size_sectors,
        (c.owner_title_id / 0x1_0000_0000) as u32,
        (c.owner_title_id % 0x1_0000_0000) as u32,
        c.group_id,
        c.flags as int,
    )
}

proof fn lemma_entry(fst: Seq<u8>, at: int, c: FstContent)
    requires
        0 <= at,
        at + 0x20 <= fst.len(),
        fst.subrange(at, at + 0x20) == content_bytes(c),
    ensures
        entry_at(fst, at) == entry_of(c),
        forall|i: int| at + 0x16 <= i < at + 0x20 ==> #[trigger] fst[i] == 0,
{
    let e = fst.subrange(at, at + 0x20);
    assert(fst.subrange(at, at + 4) =~= e.subrange(0, 4));
    assert(e.subrange(0, 4) =~= be32(c.offset_sectors));
    assert(fst.subrange(at + 4, at + 8) =~= e.subrange(4, 8));
    assert(e.subrange(4, 8) =~= be32(c.size_sectors));
    assert(fst.subrange(at + 8, at + 0xC) =~= e.subrange(8, 0xC));
    assert(e.subrange(8, 0xC) =~= be32((c.owner_title_id / 0x1_0000_0000) as u32));
    assert(fst.subrange(at + 0xC, at + 0x10) =~= e.subrange(0xC, 0x10));
    assert(e.subrange(0xC, 0x10) =~= be32((c.owner_title_id % 0x1_0000_0000) as u32));
    assert(fst.subrange(at + 0x10, at + 0x14) =~= e.subrange(0x10, 0x14));
    assert(e.subrange(0x10, 0x14) =~= be32(c.group_id));
    be32_at_its_bytes(fst, at, c.offset_sectors);
    be32_at_its_bytes(fst, at + 4, c.size_sectors);
    be32_at_its_bytes(fst, at + 8, (c.owner_title_id / 0x1_0000_0000) as u32);
    be32_at_its_bytes(fst, at + 0xC, (c.owner_title_id % 0x1_0000_0000) as u32);
    be32_at_its_bytes(fst, at + 0x10, c.group_id);
    assert(e[0x14] == fst[at + 0x14] && e[0x15] == fst[at + 0x15]);
    assert(e[0x14] == (c.flags / 0x100) as u8 && e[0x15] == (c.flags % 0x100) as u8);
    assert forall|i: int| at + 0x16 <= i < at + 0x20 implies #[trigger] fst[i] == 0 by {
        assert(e[i - at] == 0);
    }
}

/// The FST of every plan, read back from its bytes, says of each content what the content is. The
/// header gives the magic, the unit of file offsets and the number of contents. Behind it content `c`
/// has the flags 0x0200 where it has a hash tree and 0x0100 where it has none. Game data is owned by
/// the disc title of the title id, with the low 16 bits of the title id as its group; other contents
/// have no owner, and those with a hash tree the group 0x0400. The contents follow each other in
/// sectors of 0x8000 bytes, each in as few as hold it, and at least in one.
pub proof fn fst_describes_every_content(root: Seq<char>, t: StagedTree, title_id: u64, c: int)
    requires
        t.fits_fst(),
        planned(root, t, title_id) is Ok,
        0 <= c < planned(root, t, title_id)->Ok_0.contents.len(),
    ensures
        ({
            let plan = planned(root, t, title_id)->Ok_0;
            let x = plan.contents[c];
            let at = 0x20 + 0x20 * c;
            let (first, sectors, owner_high, owner_low, group, flags) = entry_at(plan.fst, at);
            &&& plan.fst.take(4) == seq![0x46u8, 0x53, 0x54, 0x00]
            &&& be32_at(plan.fst, 4) == 0x20
            &&& be32_at(plan.fst, 8) == plan.contents.len()
            &&& forall|i: int| 0xC <= i < 0x20 ==> #[trigger] plan.fst[i] == 0
            &&& at + 0x20 <= plan.fst.len()
            &&& x.content_type == 0x2001 || x.content_type == 0x2003
            &&& x.is_game ==> x.content_type == 0x2003
            &&& plan.contents[0].content_type == 0x2001
            &&& !plan.contents[0].is_game
            &&& x.content_type == 0x2003 ==> flags == 0x0200
            &&& x.content_type == 0x2001 ==> flags == 0x0100
            &&& x.is_game ==> group == title_id % 0x1_0000 && owner_high == 0x0005_0000 && owner_low
                == title_id % 0x1_0000_0000
            &&& !x.is_game ==> owner_high == 0 && owner_low == 0
            &&& !x.is_game && x.content_type == 0x2003 ==> group == 0x0400
            &&& x.content_type == 0x2001 ==> group == 0
            &&& c == 0 ==> first == 0
            &&& c > 0 ==> first == be32_at(plan.fst, at - 0x20) + be32_at(plan.fst, at - 0x1C)
            &&& x.data_len <= sectors * 0x8000
            &&& sectors == 1 || x.data_len > (sectors - 1) * 0x8000
            &&& sectors >= 1
            &&& forall|i: int| at + 0x16 <= i < at + 0x20 ==> #[trigger] plan.fst[i] == 0
        }),
{
    super::plan_stays_in_bounds(root, t);
    let a = with_game(root, t).assigned;
    let ts = root_children(root, t, a.clusters)->Ok_0;
    let f = flattened(ts, a.contents);
    let contents = sized_contents(f);
    lemma_typed(root, t);
    assert(typed(contents)) by {
        assert forall|k: int| 0 <= k < contents.len() implies {
            &&& (#[trigger] contents[k]).content_type == 0x2001 || contents[k].content_type
                == 0x2003
            &&& contents[k].is_game ==> contents[k].content_type == 0x2003
        } by {
            super::laws::planned_keeps_kinds(root, t, title_id, k);
            assert(a.contents[k].content_type == 0x2001 || a.contents[k].content_type == 0x2003);
        }
        super::laws::planned_keeps_kinds(root, t, title_id, 0);
    }
    super::laws::game_contents_come_last(root, t, title_id, 0, 0);
    lemma_header_reads_back(contents, f.nodes, title_id);
    lemma_entry_reads_back(contents, f.nodes, title_id, c);
    let fst = fst_bytes(OFFSET_FACTOR, content_table(contents, title_id), f.nodes);
    let at = 0x20 + 0x20 * c;
    let end = if c == 0 {
        0
    } else {
        entry_at(fst, at - 0x20).0 + entry_at(fst, at - 0x20).1
    };
    lemma_described(fst, at, end, contents[c], title_id);
}

/// What [`fst_describes_every_content`] says of the header.
proof fn lemma_header_reads_back(contents: Seq<ContentView>, nodes: Seq<NodeView>, title_id: u64)
    requires
        forall|k: int| 0 <= k < contents.len() ==> 0 <= (#[trigger] contents[k]).data_len,
        sectors_before(contents, contents.len() as int) <= u32::MAX,
    ensures
        ({
            let fst = fst_bytes(OFFSET_FACTOR, content_table(contents, title_id), nodes);
            &&& fst.take(4) == seq![0x46u8, 0x53, 0x54, 0x00]
            &&& be32_at(fst, 4) == 0x20
            &&& be32_at(fst, 8) == contents.len()
            &&& forall|i: int| 0xC <= i < 0x20 ==> #[trigger] fst[i] == 0
        }),
{
    let table = content_table(contents, title_id);
    let fst = fst_bytes(OFFSET_FACTOR, table, nodes);
    let h = header_bytes(0x20, table.len());
    lemma_each_takes_a_sector(contents, contents.len() as int);
    assert forall|i: int| 0 <= i < 0x20 implies fst[i] == #[trigger] h[i] by {}
    assert(fst.take(4) =~= seq![0x46u8, 0x53, 0x54, 0x00]) by {
        assert(h[0] == 0x46 && h[1] == 0x53 && h[2] == 0x54 && h[3] == 0x00);
    }
    assert(h.subrange(4, 8) =~= be32(0x20));
    assert(h.subrange(8, 0xC) =~= be32(table.len() as u32));
    assert(fst.subrange(4, 8) =~= h.subrange(4, 8));
    assert(fst.subrange(8, 0xC) =~= h.subrange(8, 0xC));
    be32_at_its_bytes(fst, 4, 0x20);
    be32_at_its_bytes(fst, 8, table.len() as u32);
    assert forall|i: int| 0xC <= i < 0x20 implies #[trigger] fst[i] == 0 by {
        assert(h[i] == 0);
    }
}

/// The entry of a content reads back from the bytes of a table.
proof fn lemma_read(table: Seq<FstContent>, nodes: Seq<NodeView>, c: int)
    requires
        nodes.len() > 0,
        0 <= c < table.len(),
    ensures
        ({
            let fst = fst_bytes(OFFSET_FACTOR, table, nodes);
            let at = 0x20 + 0x20 * c;
            &&& at + 0x20 <= fst.len()
            &&& entry_at(fst, at) == entry_of(table[c])
            &&& forall|i: int| at + 0x16 <= i < at + 0x20 ==> #[trigger] fst[i] == 0
        }),
{
    let fst = fst_bytes(OFFSET_FACTOR, table, nodes);
    fst_reads_back(OFFSET_FACTOR, table, nodes, c, 0);
    assert(fst.len() >= 0x20 + 0x20 * table.len());
    lemma_entry(fst, 0x20 + 0x20 * c, table[c]);
}

/// What the entry `e` of content `c` says of it, where the contents in front end at sector `end`.
#[verifier::opaque]
spec fn describes(
    e: (u32, u32, u32, u32, u32, int),
    end: int,
    x: ContentView,
    title_id: u64,
) -> bool {
    let (first, sectors, owner_high, owner_low, group, flags) = e;
    &&& x.content_type == 0x2003 ==> flags == 0x0200
    &&& x.content_type == 0x2001 ==> flags == 0x0100
    &&& x.is_game ==> group == title_id % 0x1_0000 && owner_high == 0x0005_0000 && owner_low
        == title_id % 0x1_0000_0000
    &&& !x.is_game ==> owner_high == 0 && owner_low == 0
    &&& !x.is_game && x.content_type == 0x2003 ==> group == 0x0400
    &&& x.content_type == 0x2001 ==> group == 0
    &&& first == end
    &&& x.data_len <= sectors * 0x8000
    &&& sectors == 1 || x.data_len > (sectors - 1) * 0x8000
    &&& sectors >= 1
}

/// The entry of a content, from what the content is.
proof fn lemma_entry_of(contents: Seq<ContentView>, title_id: u64, c: int)
    requires
        typed(contents),
        forall|k: int| 0 <= k < contents.len() ==> 0 <= (#[trigger] contents[k]).data_len,
        sectors_before(contents, contents.len() as int) <= u32::MAX,
        0 <= c < contents.len(),
    ensures
        ({
            let table = content_table(contents, title_id);
            let end = if c == 0 {
                0
            } else {
                entry_of(table[c - 1]).0 + entry_of(table[c - 1]).1
            };
            describes(entry_of(table[c]), end, contents[c], title_id)
        }),
{
    reveal(describes);
    let x = contents[c];
    super::sectors_grow(contents, c + 1, contents.len() as int);
    super::sectors_grow(contents, c, c + 1);
    super::sectors_grow(contents, 0, c);
    super::sector_count_covers(x);
    let len = if x.data_len < 1 {
        1
    } else {
        x.data_len
    };
    aligned_up_is_least(len, 0x8000);
    if c > 0 {
        super::laws::content_offsets_are_cumulative(contents, title_id, c);
    }
}

/// What [`fst_describes_every_content`] says of the entries, from what they describe.
proof fn lemma_described(fst: Seq<u8>, at: int, end: int, x: ContentView, title_id: u64)
    requires
        describes(entry_at(fst, at), end, x, title_id),
    ensures
        ({
            let (first, sectors, owner_high, owner_low, group, flags) = entry_at(fst, at);
            &&& x.content_type == 0x2003 ==> flags == 0x0200
            &&& x.content_type == 0x2001 ==> flags == 0x0100
            &&& x.is_game ==> group == title_id % 0x1_0000 && owner_high == 0x0005_0000 && owner_low
                == title_id % 0x1_0000_0000
            &&& !x.is_game ==> owner_high == 0 && owner_low == 0
            &&& !x.is_game && x.content_type == 0x2003 ==> group == 0x0400
            &&& x.content_type == 0x2001 ==> group == 0
            &&& first == end
            &&& x.data_len <= sectors * 0x8000
            &&& sectors == 1 || x.data_len > (sectors - 1) * 0x8000
            &&& sectors >= 1
        }),
{
    reveal(describes);
}

/// The entries of a plan's contents describe them.
proof fn lemma_entry_reads_back(
    contents: Seq<ContentView>,
    nodes: Seq<NodeView>,
    title_id: u64,
    c: int,
)
    requires
        typed(contents),
        nodes.len() > 0,
        forall|k: int| 0 <= k < contents.len() ==> 0 <= (#[trigger] contents[k]).data_len,
        sectors_before(contents, contents.len() as int) <= u32::MAX,
        0 <= c < contents.len(),
    ensures
        ({
            let fst = fst_bytes(OFFSET_FACTOR, content_table(contents, title_id), nodes);
            let at = 0x20 + 0x20 * c;
            let end = if c == 0 {
                0
            } else {
                entry_at(fst, at - 0x20).0 + entry_at(fst, at - 0x20).1
            };
            &&& at + 0x20 <= fst.len()
            &&& describes(entry_at(fst, at), end, contents[c], title_id)
            &&& forall|i: int| at + 0x16 <= i < at + 0x20 ==> #[trigger] fst[i] == 0
        }),
{
    let table = content_table(contents, title_id);
    assert(table.len() == contents.len());
    lemma_read(table, nodes, c);
    lemma_entry_of(contents, title_id, c);
    if c > 0 {
        lemma_read(table, nodes, c - 1);
        assert(0x20 + 0x20 * c - 0x20 == 0x20 + 0x20 * (c - 1));
    }
}

proof fn lemma_each_takes_a_sector(contents: Seq<ContentView>, k: int)
    requires
        0 <= k <= contents.len(),
        forall|c: int| 0 <= c < contents.len() ==> 0 <= (#[trigger] contents[c]).data_len,
    ensures
        k <= sectors_before(contents, k),
    decreases k,
{
    if k > 0 {
        lemma_each_takes_a_sector(contents, k - 1);
        super::sector_count_covers(contents[k - 1]);
    }
}

/// A title can be planned where its names take no more than 0xFF_FFED bytes and its files no more
/// than 0x7F00_0000_0000.
pub proof fn names_and_files_have_room(t: StagedTree)
    ensures
        t.fits_fst() <==> {
            &&& listing_names(t.code@) + listing_names(t.content@) + listing_names(t.meta@)
                <= 0xFF_FFED
            &&& listing_weight(t.code@) + listing_weight(t.content@) + listing_weight(t.meta@)
                <= 0x7F00_0000_0000
        },
{
}

} // verus!

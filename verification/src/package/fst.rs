//! The filesystem table (FST) of a package.
//!
//! A header, one entry per content, one entry per node in depth-first order, and the node names.

use crate::bytes::{append_bytes, be16, be16_bytes, be32, be32_bytes, be64, zeroed, zeros};
use vstd::prelude::*;
use vstd::utf8::encode_utf8;

verus! {

/// File offsets are stored in units of this many bytes.
pub const OFFSET_FACTOR: u32 = 0x20;

/// What a node is.
#[derive(Clone, Copy, Debug, PartialEq, Eq, Structural)]
pub enum FstNodeKind {
    /// A directory: the index of its parent and the index behind its last descendant.
    Dir { parent_index: u32, end_index: u32 },
    /// A file: where it begins in its content, and its size.
    File { offset: u64, size: u64 },
}

/// A file or directory.
#[derive(Debug)]
pub struct FstNode {
    pub name: String,
    pub kind: FstNodeKind,
    pub type_flags: u8,
    pub flags: u16,
    /// The index of the content that holds the file.
    pub cluster: u16,
}

/// The value of an [`FstNode`].
#[verifier::ext_equal]
pub struct NodeView {
    pub name: Seq<char>,
    pub kind: FstNodeKind,
    pub type_flags: u8,
    pub flags: u16,
    pub cluster: u16,
}

impl View for FstNode {
    type V = NodeView;

    open spec fn view(&self) -> NodeView {
        NodeView {
            name: self.name@,
            kind: self.kind,
            type_flags: self.type_flags,
            flags: self.flags,
            cluster: self.cluster,
        }
    }
}

/// The values of a list of nodes.
pub open spec fn node_views(nodes: Seq<FstNode>) -> Seq<NodeView> {
    Seq::new(nodes.len(), |i: int| nodes[i]@)
}

/// One content of the package.
#[derive(Clone, Copy, Debug, PartialEq, Eq, Structural)]
pub struct FstContent {
    pub offset_sectors: u32,
    pub size_sectors: u32,
    pub owner_title_id: u64,
    pub group_id: u32,
    pub flags: u16,
}

/// A filesystem table.
#[derive(Debug)]
pub struct Fst {
    pub offset_factor: u32,
    pub contents: Vec<FstContent>,
    pub nodes: Vec<FstNode>,
}

/// The three low big-endian bytes of `v`.
pub open spec fn be24(v: nat) -> Seq<u8> {
    seq![(v / 0x1_0000 % 0x100) as u8, (v / 0x100 % 0x100) as u8, (v % 0x100) as u8]
}

/// Bytes that a node's name takes, with the zero behind it.
pub open spec fn name_room(n: NodeView) -> nat {
    encode_utf8(n.name).len() + 1
}

/// Bytes that the names of the first `k` nodes take: where the name of node `k` begins.
pub open spec fn names_room(nodes: Seq<NodeView>, k: int) -> nat
    decreases k,
{
    if k <= 0 {
        0
    } else {
        names_room(nodes, k - 1) + name_room(nodes[k - 1])
    }
}

/// The header.
pub open spec fn header_bytes(factor: u32, count: nat) -> Seq<u8> {
    seq![0x46u8, 0x53, 0x54, 0x00] + be32(factor) + be32(count as u32) + zeros(0x14)
}

/// The entry of a content.
pub open spec fn content_bytes(c: FstContent) -> Seq<u8> {
    be32(c.offset_sectors) + be32(c.size_sectors) + be64(c.owner_title_id) + be32(c.group_id)
        + be16(c.flags) + zeros(0x0A)
}

/// The entry of a node whose name begins at `name_at` in the name table.
pub open spec fn node_bytes(n: NodeView, name_at: nat, factor: u32) -> Seq<u8> {
    match n.kind {
        FstNodeKind::Dir { parent_index, end_index } => seq![(n.type_flags | 1) as u8] + be24(
            name_at,
        ) + be32(parent_index) + be32(end_index) + be16(n.flags) + be16(n.cluster),
        FstNodeKind::File { offset, size } => seq![n.type_flags] + be24(name_at) + be32(
            (offset / factor as u64) as u32,
        ) + be32(size as u32) + be16(n.flags) + be16(n.cluster),
    }
}

/// The entries of the first `k` contents.
pub open spec fn contents_table(contents: Seq<FstContent>, k: int) -> Seq<u8>
    decreases k,
{
    if k <= 0 {
        Seq::empty()
    } else {
        contents_table(contents, k - 1) + content_bytes(contents[k - 1])
    }
}

/// The entries of the first `k` nodes.
pub open spec fn nodes_table(nodes: Seq<NodeView>, factor: u32, k: int) -> Seq<u8>
    decreases k,
{
    if k <= 0 {
        Seq::empty()
    } else {
        nodes_table(nodes, factor, k - 1) + node_bytes(
            nodes[k - 1],
            names_room(nodes, k - 1),
            factor,
        )
    }
}

/// The names of the first `k` nodes, each with a zero behind it.
pub open spec fn names_table(nodes: Seq<NodeView>, k: int) -> Seq<u8>
    decreases k,
{
    if k <= 0 {
        Seq::empty()
    } else {
        names_table(nodes, k - 1) + encode_utf8(nodes[k - 1].name) + seq![0u8]
    }
}

/// A filesystem table as it stands in the package.
pub open spec fn fst_bytes(
    factor: u32,
    contents: Seq<FstContent>,
    nodes: Seq<NodeView>,
) -> Seq<u8> {
    header_bytes(factor, contents.len()) + contents_table(contents, contents.len() as int)
        + nodes_table(nodes, factor, nodes.len() as int) + names_table(nodes, nodes.len() as int)
}

/// The length of a filesystem table, which does not depend on what its fields hold.
pub open spec fn fst_len(contents: nat, nodes: Seq<NodeView>) -> nat {
    0x20 + 0x20 * contents + 0x10 * nodes.len() + names_room(nodes, nodes.len() as int)
}

proof fn lemma_contents_table(contents: Seq<FstContent>, k: int, i: int)
    requires
        0 <= k <= contents.len(),
    ensures
        contents_table(contents, k).len() == 0x20 * k,
        0 <= i < k ==> contents_table(contents, k).subrange(0x20 * i, 0x20 * i + 0x20)
            == content_bytes(contents[i]),
    decreases k,
{
    if k > 0 {
        lemma_contents_table(contents, k - 1, i);
        if 0 <= i < k {
            let t = contents_table(contents, k).subrange(0x20 * i, 0x20 * i + 0x20);
            if i < k - 1 {
                assert(t =~= contents_table(contents, k - 1).subrange(0x20 * i, 0x20 * i + 0x20));
            } else {
                assert(t =~= content_bytes(contents[i]));
            }
        }
    }
}

proof fn lemma_nodes_table(nodes: Seq<NodeView>, factor: u32, k: int, i: int)
    requires
        0 <= k <= nodes.len(),
    ensures
        nodes_table(nodes, factor, k).len() == 0x10 * k,
        0 <= i < k ==> nodes_table(nodes, factor, k).subrange(0x10 * i, 0x10 * i + 0x10)
            == node_bytes(nodes[i], names_room(nodes, i), factor),
    decreases k,
{
    if k > 0 {
        lemma_nodes_table(nodes, factor, k - 1, i);
        let last = node_bytes(nodes[k - 1], names_room(nodes, k - 1), factor);
        assert(last.len() == 0x10);
        if 0 <= i < k {
            let t = nodes_table(nodes, factor, k).subrange(0x10 * i, 0x10 * i + 0x10);
            if i < k - 1 {
                assert(t =~= nodes_table(nodes, factor, k - 1).subrange(
                    0x10 * i,
                    0x10 * i + 0x10,
                ));
            } else {
                assert(t =~= last);
            }
        }
    }
}

proof fn lemma_names_table(nodes: Seq<NodeView>, k: int, i: int)
    requires
        0 <= k <= nodes.len(),
    ensures
        names_table(nodes, k).len() == names_room(nodes, k),
        0 <= i < k ==> names_room(nodes, i) + name_room(nodes[i]) <= names_room(nodes, k)
            && names_table(nodes, k).subrange(
            names_room(nodes, i) as int,
            (names_room(nodes, i) + name_room(nodes[i])) as int,
        ) == encode_utf8(nodes[i].name) + seq![0u8],
    decreases k,
{
    if k > 0 {
        lemma_names_table(nodes, k - 1, i);
        if 0 <= i < k {
            let lo = names_room(nodes, i) as int;
            let hi = lo + name_room(nodes[i]);
            let t = names_table(nodes, k).subrange(lo, hi);
            if i < k - 1 {
                assert(t =~= names_table(nodes, k - 1).subrange(lo, hi));
            } else {
                assert(t =~= encode_utf8(nodes[i].name) + seq![0u8]);
            }
        }
    }
}

proof fn lemma_parts(h: Seq<u8>, c: Seq<u8>, n: Seq<u8>, m: Seq<u8>, lo: int, hi: int)
    requires
        0 <= lo <= hi,
    ensures
        ({
            let image = h + c + n + m;
            &&& hi <= c.len() ==> image.subrange(h.len() + lo, h.len() + hi) == c.subrange(lo, hi)
            &&& hi <= n.len() ==> image.subrange(h.len() + c.len() + lo, h.len() + c.len() + hi)
                == n.subrange(lo, hi)
            &&& hi <= m.len() ==> image.subrange(
                h.len() + c.len() + n.len() + lo,
                h.len() + c.len() + n.len() + hi,
            ) == m.subrange(lo, hi)
        }),
{
    let image = h + c + n + m;
    if hi <= c.len() {
        assert(image.subrange(h.len() + lo, h.len() + hi) =~= c.subrange(lo, hi));
    }
    if hi <= n.len() {
        assert(image.subrange(h.len() + c.len() + lo, h.len() + c.len() + hi) =~= n.subrange(
            lo,
            hi,
        ));
    }
    if hi <= m.len() {
        assert(image.subrange(
            h.len() + c.len() + n.len() + lo,
            h.len() + c.len() + n.len() + hi,
        ) =~= m.subrange(lo, hi));
    }
}

/// A filesystem table reads back: its length is known from its shape alone, each content entry and
/// each node entry stands at its index, and each name stands where its node says.
pub proof fn fst_reads_back(
    factor: u32,
    contents: Seq<FstContent>,
    nodes: Seq<NodeView>,
    c: int,
    n: int,
)
    requires
        0 <= c < contents.len(),
        0 <= n < nodes.len(),
    ensures
        ({
            let image = fst_bytes(factor, contents, nodes);
            let nodes_at = 0x20int + 0x20 * contents.len();
            let names_at = nodes_at + 0x10 * nodes.len();
            let name_at = names_at + names_room(nodes, n);
            &&& image.len() == fst_len(contents.len(), nodes)
            &&& image.subrange(0x20 + 0x20 * c, 0x40 + 0x20 * c) == content_bytes(contents[c])
            &&& image.subrange(nodes_at + 0x10 * n, nodes_at + 0x10 * n + 0x10) == node_bytes(
                nodes[n],
                names_room(nodes, n),
                factor,
            )
            &&& image.subrange(name_at, name_at + name_room(nodes[n])) == encode_utf8(nodes[n].name)
                + seq![0u8]
        }),
{
    let (nc, nn) = (contents.len() as int, nodes.len() as int);
    lemma_contents_table(contents, nc, c);
    lemma_nodes_table(nodes, factor, nn, n);
    lemma_names_table(nodes, nn, n);
    let h = header_bytes(factor, contents.len());
    let ct = contents_table(contents, nc);
    let nt = nodes_table(nodes, factor, nn);
    let names = names_table(nodes, nn);
    let at = names_room(nodes, n) as int;
    assert(h.len() == 0x20);
    lemma_parts(h, ct, nt, names, 0x20 * c, 0x20 * c + 0x20);
    lemma_parts(h, ct, nt, names, 0x10 * n, 0x10 * n + 0x10);
    lemma_parts(h, ct, nt, names, at, at + name_room(nodes[n]));
}

/// The serialized length is that of the serialized table, whatever the table holds.
pub proof fn serialized_length_depends_on_the_shape_alone(
    factor: u32,
    contents: Seq<FstContent>,
    nodes: Seq<NodeView>,
)
    ensures
        fst_bytes(factor, contents, nodes).len() == fst_len(contents.len(), nodes),
{
    lemma_contents_table(contents, contents.len() as int, 0);
    lemma_nodes_table(nodes, factor, nodes.len() as int, 0);
    lemma_names_table(nodes, nodes.len() as int, 0);
}

/// The names before a node never take more than all names.
pub proof fn names_room_grows(nodes: Seq<NodeView>, a: int, b: int)
    requires
        0 <= a <= b,
    ensures
        names_room(nodes, a) + (b - a) <= names_room(nodes, b),
    decreases b,
{
    if a < b {
        names_room_grows(nodes, a, b - 1);
    }
}

/// The length of the table with `content_count` contents and these nodes, before any of its fields
/// is known.
pub fn serialized_len(content_count: usize, nodes: &Vec<FstNode>) -> (r: usize)
    requires
        fst_len(content_count as nat, node_views(nodes@)) <= usize::MAX,
    ensures
        r == fst_len(content_count as nat, node_views(nodes@)),
{
    let ghost nv = node_views(nodes@);
    let mut names: usize = 0;
    let mut k: usize = 0;
    while k < nodes.len()
        invariant
            k <= nodes@.len(),
            nv == node_views(nodes@),
            names == names_room(nv, k as int),
            fst_len(content_count as nat, nv) <= usize::MAX,
        decreases nodes@.len() - k,
    {
        proof {
            names_room_grows(nv, k + 1, nv.len() as int);
            assert(nv[k as int] == nodes@[k as int]@);
        }
        names = names + (nodes[k].name.as_str().as_bytes().len() + 1);
        k = k + 1;
    }
    0x20 + 0x20 * content_count + 0x10 * nodes.len() + names
}

fn put_node(out: &mut Vec<u8>, node: &FstNode, name_at: u32, factor: u32)
    requires
        factor > 0,
    ensures
        final(out)@ == old(out)@ + node_bytes(node@, name_at as nat, factor),
{
    let ghost before = out@;
    let (tag, first, second): (u8, u32, u32) = match node.kind {
        FstNodeKind::Dir { parent_index, end_index } => (
            node.type_flags | 1,
            parent_index,
            end_index,
        ),
        FstNodeKind::File { offset, size } => (
            node.type_flags,
            (offset / factor as u64) as u32,
            size as u32,
        ),
    };
    let name = [
        (name_at / 0x1_0000 % 0x100) as u8,
        (name_at / 0x100 % 0x100) as u8,
        (name_at % 0x100) as u8,
    ];
    out.push(tag);
    append_bytes(out, name.as_slice());
    append_bytes(out, be32_bytes(first).as_slice());
    append_bytes(out, be32_bytes(second).as_slice());
    append_bytes(out, be16_bytes(node.flags).as_slice());
    append_bytes(out, be16_bytes(node.cluster).as_slice());
    assert(out@ =~= before + node_bytes(node@, name_at as nat, factor));
}

fn put_content(out: &mut Vec<u8>, c: &FstContent)
    ensures
        final(out)@ == old(out)@ + content_bytes(*c),
{
    let ghost before = out@;
    append_bytes(out, be32_bytes(c.offset_sectors).as_slice());
    append_bytes(out, be32_bytes(c.size_sectors).as_slice());
    append_bytes(out, be32_bytes((c.owner_title_id / 0x1_0000_0000) as u32).as_slice());
    append_bytes(out, be32_bytes((c.owner_title_id % 0x1_0000_0000) as u32).as_slice());
    append_bytes(out, be32_bytes(c.group_id).as_slice());
    append_bytes(out, be16_bytes(c.flags).as_slice());
    append_bytes(out, zeroed(0x0A).as_slice());
    assert(out@ =~= before + content_bytes(*c));
}

impl Fst {
    /// The table as it stands in the package.
    pub fn serialize(&self) -> (r: Vec<u8>)
        requires
            self.offset_factor > 0,
            names_room(node_views(self.nodes@), self.nodes@.len() as int) <= 0x100_0000,
        ensures
            r@ == fst_bytes(self.offset_factor, self.contents@, node_views(self.nodes@)),
    {
        let factor = self.offset_factor;
        let ghost cs = self.contents@;
        let ghost nv = node_views(self.nodes@);
        let magic = [0x46u8, 0x53, 0x54, 0x00];
        let mut out: Vec<u8> = Vec::new();
        append_bytes(&mut out, magic.as_slice());
        append_bytes(&mut out, be32_bytes(factor).as_slice());
        append_bytes(&mut out, be32_bytes(self.contents.len() as u32).as_slice());
        append_bytes(&mut out, zeroed(0x14).as_slice());
        let ghost head = header_bytes(factor, cs.len());
        assert(out@ =~= head);
        let mut i: usize = 0;
        while i < self.contents.len()
            invariant
                i <= self.contents@.len(),
                cs == self.contents@,
                out@ == head + contents_table(cs, i as int),
            decreases self.contents@.len() - i,
        {
            put_content(&mut out, &self.contents[i]);
            i = i + 1;
            assert(out@ =~= head + contents_table(cs, i as int));
        }
        let ghost upto = out@;
        let mut name_at: u32 = 0;
        let mut j: usize = 0;
        while j < self.nodes.len()
            invariant
                j <= self.nodes@.len(),
                factor > 0,
                nv == node_views(self.nodes@),
                name_at == names_room(nv, j as int),
                names_room(nv, nv.len() as int) <= 0x100_0000,
                out@ == upto + nodes_table(nv, factor, j as int),
            decreases self.nodes@.len() - j,
        {
            proof {
                names_room_grows(nv, j + 1, nv.len() as int);
                assert(nv[j as int] == self.nodes@[j as int]@);
            }
            put_node(&mut out, &self.nodes[j], name_at, factor);
            let room = self.nodes[j].name.as_str().as_bytes().len();
            name_at = name_at + (room as u32 + 1);
            j = j + 1;
            assert(out@ =~= upto + nodes_table(nv, factor, j as int));
        }
        let ghost upto = out@;
        let mut k: usize = 0;
        while k < self.nodes.len()
            invariant
                k <= self.nodes@.len(),
                nv == node_views(self.nodes@),
                out@ == upto + names_table(nv, k as int),
            decreases self.nodes@.len() - k,
        {
            assert(nv[k as int] == self.nodes@[k as int]@);
            append_bytes(&mut out, self.nodes[k].name.as_str().as_bytes());
            out.push(0u8);
            k = k + 1;
            assert(out@ =~= upto + names_table(nv, k as int));
        }
        out
    }
}

} // verus!

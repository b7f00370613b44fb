//! Authoring a synthetic Wii disc that boots Nintendont, for GameCube injection.
//!
//! The disc's `main.dol` is Nintendont and the GameCube image sits in its filesystem as
//! `game.iso`. The disc is built in its decrypted form:
//!
//! ```text
//! 0x000000   disc header (game id, Wii magic, disc title)
//! 0x040000   partition table: one group, one DATA partition
//! 0x04E000   region info
//! 0x04FFFC   second disc magic
//! (sparse gap, never stored)
//! 0xF800000  partition:
//!              +0x00000  ticket
//!              +0x002C0  TMD
//!              +0x004E0  certificate chain
//!              +0x08000  H3 table
//!              +0x20000  data (clusters of 0x8000 bytes: hash block, then data)
//! ```
//!
//! In its logical (hash-stripped) address space the partition data is
//! `boot.bin | bi2.bin | apploader | main.dol | FST | game.iso`.
//!
//! A caller that streams the image asks [`lay_out_gc_disc`] for the layout, then for each hash
//! group reads the piece of the image that [`GcDiscLayout::iso_range`] names and hands it to
//! [`GcDiscLayout::encode_group`], and ends with [`finish_gc_disc`]. [`author_gc_disc`] does all of
//! that for an image in memory.

pub mod images;
pub mod laws;

use crate::bytes::{
    append_bytes, ascending_fields_are_apart, be32, be32_at, be32_at_its_bytes, fields_ascend,
    in_field, layout_reads_back, place, put, zeroed, zeros,
};
use crate::consts::{
    CLUSTER_DATA, DISC_SECTOR_SIZE, H0_REGION, H1_OFF, H1_REGION, H2_OFF, H2_REGION, HASH_BLOCK,
    N_SUBBLOCKS, SECTORS_PER_GROUP,
};
use crate::digest::{sha1, sha1_of};
use crate::disc_plan::{DiscPlan, PartitionPlan};
use crate::error::{Error, ErrorView};
use crate::hash_tree::{
    cluster, cluster_data, clusters, digest_in, every_sector_validates, h3_entry, lemma_clusters,
    put_h3_entry, recompute_group, stored_sub_block, stripping_hashes_gives_the_data_back,
    EncodedGroup, GROUP_LOGICAL_SIZE, H3_TABLE_SIZE, MAX_H3_GROUPS,
};
use crate::text::{dec, dec_text};
use images::{
    boot_image, boot_image_holds_the_offsets, build_disc_header, build_partition_header,
    build_sys_blob, build_wii_ticket, build_wii_tmd, disc_header_image, disc_title_id, dol_off,
    fst_error, fst_image, fst_image_holds_the_file, fst_off, iso_off, logical_layout_is_ordered,
    partition_header_image, sys_image, sys_image_holds_the_files, ticket_image, tmd_image,
    wii_disc_title_id, APPLOADER_OFF, CERT_PART_OFF, DATA_PART_OFF, H3_PART_OFF,
};
use vstd::prelude::*;
use vstd::slice::slice_subrange;

verus! {

/// Largest logical partition-data size that the fixed-size `H3` table can describe.
pub const MAX_LOGICAL_SIZE: u64 = 9_985_392_640;

/// Largest `game.iso` that can be recorded: the disc FST stores a file's size in 32 bits.
pub const MAX_ISO_SIZE: u64 = 0xFFFF_FFFF;

/// Absolute offset of the partition data.
pub const DATA_ABS: u64 = 0xF82_0000;

/// First sector of the partition.
pub const START_SECTOR: u32 = 0x1F00;

/// First sector of the partition data.
pub const DATA_START_SECTOR: u32 = 0x1F04;

/// The inputs of a synthetic disc, except the game image itself.
#[derive(Debug)]
pub struct GcDiscInputs<'a> {
    /// Disc game id: by convention that of the GameCube game.
    pub game_id: [u8; 6],
    /// Disc title, written into the disc and boot headers.
    pub disc_title: &'a str,
    /// The `main.dol` to boot: Nintendont's `boot.dol`.
    pub main_dol: &'a [u8],
    /// The Wii apploader; it may be empty where the disc is never booted.
    pub apploader: &'a [u8],
    /// The Wii certificate chain for the partition header; it may be empty too.
    pub cert_chain: &'a [u8],
}

impl<'a> GcDiscInputs<'a> {
    /// The sizes can be added up in memory.
    pub open spec fn fits_memory(&self) -> bool {
        self.apploader@.len() + self.main_dol@.len() + 0x20_0000 <= usize::MAX
    }

    /// Where `game.iso` begins in the logical data.
    pub open spec fn iso_at(&self) -> int {
        iso_off(self.apploader@.len() as int, self.main_dol@.len() as int)
    }

    /// The logical data before `game.iso`.
    pub open spec fn sys(&self, iso_size: int) -> Seq<u8> {
        sys_image(self.game_id@, self.disc_title@, self.apploader@, self.main_dol@, iso_size)
    }
}

/// Why no disc can hold the image, if none can, in the order in which the reasons are looked for.
pub open spec fn gc_disc_error(inputs: GcDiscInputs, iso_size: int) -> Option<ErrorView> {
    if CERT_PART_OFF + inputs.cert_chain@.len() > H3_PART_OFF {
        Some(
            ErrorView::FormatLimit(
                "certificate chain ("@ + dec(inputs.cert_chain@.len())
                    + " bytes) does not fit before the H3 table"@,
            ),
        )
    } else if iso_size > MAX_ISO_SIZE {
        Some(
            ErrorView::FormatLimit(
                "game image is "@ + dec(iso_size as nat)
                    + " bytes; the disc FST records a file size in a u32 (max "@ + dec(
                    MAX_ISO_SIZE as nat,
                ) + " bytes)"@,
            ),
        )
    } else if fst_error(inputs.iso_at(), iso_size) is Some {
        fst_error(inputs.iso_at(), iso_size)
    } else if inputs.iso_at() + iso_size > MAX_LOGICAL_SIZE {
        Some(
            ErrorView::FormatLimit(
                "synthetic disc would hold "@ + dec((inputs.iso_at() + iso_size) as nat)
                    + " logical bytes; a Wii partition's H3 table covers at most "@ + dec(
                    MAX_H3_GROUPS as nat,
                ) + " hash groups ("@ + dec(MAX_LOGICAL_SIZE as nat) + " bytes)"@,
            ),
        )
    } else {
        None
    }
}

/// Clusters that `size` logical bytes take.
pub open spec fn clusters_for(size: int) -> int {
    (size + CLUSTER_DATA - 1) / CLUSTER_DATA as int
}

/// Hash groups that `n` clusters take.
pub open spec fn groups_for(n: int) -> int {
    (n + SECTORS_PER_GROUP - 1) / SECTORS_PER_GROUP as int
}

/// The `len` bytes of `content` from `start` on, with zeros behind its end.
pub open spec fn window(content: Seq<u8>, start: int, len: nat) -> Seq<u8> {
    Seq::new(
        len,
        |i: int|
            if start + i < content.len() {
                content[start + i]
            } else {
                0u8
            },
    )
}

/// The logical bytes of hash group `g`.
pub open spec fn group_bytes(content: Seq<u8>, g: int) -> Seq<u8> {
    window(content, g * GROUP_LOGICAL_SIZE, GROUP_LOGICAL_SIZE as nat)
}

/// How many of the clusters of group `g` are stored, of `total` in all.
pub open spec fn stored_in_group(total: int, g: int) -> int {
    if total - g * SECTORS_PER_GROUP < SECTORS_PER_GROUP {
        total - g * SECTORS_PER_GROUP
    } else {
        SECTORS_PER_GROUP as int
    }
}

/// The first `g` groups of the data region of a disc with `total` clusters.
pub open spec fn data_region(content: Seq<u8>, total: int, g: int) -> Seq<u8>
    decreases g,
{
    if g <= 0 {
        Seq::empty()
    } else {
        data_region(content, total, g - 1) + clusters(
            group_bytes(content, g - 1),
            stored_in_group(total, g - 1),
        )
    }
}

/// The `H3` table with the entries of the first `g` groups.
pub open spec fn h3_table(content: Seq<u8>, g: int) -> Seq<u8>
    decreases g,
{
    if g <= 0 {
        zeros(H3_TABLE_SIZE as nat)
    } else {
        place(h3_table(content, g - 1), (g - 1) * 20, h3_entry(group_bytes(content, g - 1)))
    }
}

/// The piece of the image that stands in `[start, start + len)` of the logical data: where it
/// begins in the image, where it begins in that window, and its length.
pub open spec fn iso_piece(start: int, len: int, iso_at: int, iso_size: int) -> (int, int, int) {
    let s = if start < iso_at {
        iso_at
    } else {
        start
    };
    let e = if start + len < iso_at + iso_size {
        start + len
    } else {
        iso_at + iso_size
    };
    if s < e {
        (s - iso_at, s - start, e - s)
    } else {
        (0, 0, 0)
    }
}

/// The layout of a synthetic disc.
#[derive(Debug)]
pub struct GcDiscLayout {
    /// The logical data before `game.iso`.
    pub sys_blob: Vec<u8>,
    /// Size of `game.iso`.
    pub iso_size: u64,
    /// Clusters of the data region.
    pub total_clusters: usize,
    /// Hash groups of the data region.
    pub num_groups: usize,
}

impl GcDiscLayout {
    /// The counts are those of the logical data, which the `H3` table covers.
    pub open spec fn wf(&self) -> bool {
        let size = self.sys_blob@.len() + self.iso_size;
        &&& self.iso_size <= MAX_ISO_SIZE
        &&& size <= MAX_LOGICAL_SIZE
        &&& self.total_clusters == clusters_for(size)
        &&& self.num_groups == groups_for(self.total_clusters as int)
        &&& self.num_groups <= MAX_H3_GROUPS
    }

    /// The logical data, with `iso` as the image.
    pub open spec fn content(&self, iso: Seq<u8>) -> Seq<u8> {
        self.sys_blob@ + iso
    }

    /// The piece of the image that group `g` holds.
    pub open spec fn piece(&self, g: int) -> (int, int, int) {
        iso_piece(
            g * GROUP_LOGICAL_SIZE,
            GROUP_LOGICAL_SIZE as int,
            self.sys_blob@.len() as int,
            self.iso_size as int,
        )
    }

    /// The part of the image that has to be read for group `g`: where it begins, and its length.
    pub fn iso_range(&self, g: usize) -> (r: (u64, usize))
        requires
            self.wf(),
            g < self.num_groups,
        ensures
            r.0 == self.piece(g as int).0,
            r.1 == self.piece(g as int).2,
            r.0 + r.1 <= self.iso_size,
    {
        let (at, _, n) = self.iso_window(g);
        (at, n)
    }

    fn iso_window(&self, g: usize) -> (r: (u64, usize, usize))
        requires
            self.wf(),
            g < self.num_groups,
        ensures
            (r.0 as int, r.1 as int, r.2 as int) == self.piece(g as int),
            r.0 + r.2 <= self.iso_size,
            r.1 + r.2 <= GROUP_LOGICAL_SIZE,
    {
        let start = g as u64 * GROUP_LOGICAL_SIZE as u64;
        let end = start + GROUP_LOGICAL_SIZE as u64;
        let iso_at = self.sys_blob.len() as u64;
        let iso_end = iso_at + self.iso_size;
        let s = if start < iso_at {
            iso_at
        } else {
            start
        };
        let e = if end < iso_end {
            end
        } else {
            iso_end
        };
        if s < e {
            (s - iso_at, (s - start) as usize, (e - s) as usize)
        } else {
            (0, 0, 0)
        }
    }

    /// The logical bytes of group `g`, drawn from the system part and from the piece of the image
    /// that belongs to it. Bytes behind the end of the image are zero.
    fn fill_group(&self, g: usize, iso_part: &[u8]) -> (r: Vec<u8>)
        requires
            self.wf(),
            g < self.num_groups,
            iso_part@.len() == self.piece(g as int).2,
        ensures
            r@.len() == GROUP_LOGICAL_SIZE,
            forall|iso: Seq<u8>|
                iso.len() == self.iso_size && #[trigger] self.part_of(iso, g as int) == iso_part@
                    ==> r@ == group_bytes(self.content(iso), g as int),
    {
        let start = g as u64 * GROUP_LOGICAL_SIZE as u64;
        let sys_len = self.sys_blob.len() as u64;
        let mut out = zeroed(GROUP_LOGICAL_SIZE);
        if start < sys_len {
            let s = start as usize;
            let e = if sys_len - start < GROUP_LOGICAL_SIZE as u64 {
                self.sys_blob.len()
            } else {
                s + GROUP_LOGICAL_SIZE
            };
            put(&mut out, 0, slice_subrange(self.sys_blob.as_slice(), s, e));
        }
        let ghost before = out@;
        let (_, at, _) = self.iso_window(g);
        put(&mut out, at, iso_part);
        proof {
            assert forall|iso: Seq<u8>|
                iso.len() == self.iso_size && #[trigger] self.part_of(iso, g as int)
                    == iso_part@ implies out@ == group_bytes(self.content(iso), g as int) by {
                let (from, _, n) = self.piece(g as int);
                assert forall|i: int| 0 <= i < n implies iso_part@[i] == iso[from + i] by {
                    assert(self.part_of(iso, g as int)[i] == iso[from + i]);
                }
                assert(out@ =~= group_bytes(self.content(iso), g as int));
            }
        }
        out
    }

    /// The piece of `iso` that group `g` holds.
    pub open spec fn part_of(&self, iso: Seq<u8>, g: int) -> Seq<u8> {
        iso.subrange(self.piece(g).0, self.piece(g).0 + self.piece(g).2)
    }

    /// Encode group `g`, given the piece of the image that belongs to it: the clusters to append to
    /// the data region, and the group's `H3` entry.
    pub fn encode_group(&self, g: usize, iso_part: &[u8]) -> (r: EncodedGroup)
        requires
            self.wf(),
            g < self.num_groups,
            iso_part@.len() == self.piece(g as int).2,
        ensures
            forall|iso: Seq<u8>|
                iso.len() == self.iso_size && #[trigger] self.part_of(iso, g as int) == iso_part@
                    ==> {
                    let group = group_bytes(self.content(iso), g as int);
                    &&& r.clusters@ == clusters(
                        group,
                        stored_in_group(self.total_clusters as int, g as int),
                    )
                    &&& r.h3@ == h3_entry(group)
                },
    {
        let data = self.fill_group(g, iso_part);
        let left = self.total_clusters - g * SECTORS_PER_GROUP;
        let n = if left < SECTORS_PER_GROUP {
            left
        } else {
            SECTORS_PER_GROUP
        };
        recompute_group(data.as_slice(), n)
    }
}

/// Check that the image fits and lay the disc out.
pub fn lay_out_gc_disc(iso_size: u64, inputs: &GcDiscInputs) -> (r: Result<GcDiscLayout, Error>)
    requires
        inputs.fits_memory(),
    ensures
        match r {
            Ok(l) => {
                &&& gc_disc_error(*inputs, iso_size as int) is None
                &&& l.wf()
                &&& l.sys_blob@ == inputs.sys(iso_size as int)
                &&& l.sys_blob@.len() == inputs.iso_at()
                &&& l.iso_size == iso_size
            },
            Err(e) => gc_disc_error(*inputs, iso_size as int) == Some(e@),
        },
{
    if inputs.cert_chain.len() > H3_PART_OFF - CERT_PART_OFF {
        let mut m = "certificate chain (".to_owned();
        m.append(dec_text(inputs.cert_chain.len() as u64).as_str());
        m.append(" bytes) does not fit before the H3 table");
        return Err(Error::FormatLimit(m));
    }
    if iso_size > MAX_ISO_SIZE {
        let mut m = "game image is ".to_owned();
        m.append(dec_text(iso_size).as_str());
        m.append(" bytes; the disc FST records a file size in a u32 (max ");
        m.append(dec_text(MAX_ISO_SIZE).as_str());
        m.append(" bytes)");
        return Err(Error::FormatLimit(m));
    }
    let built = build_sys_blob(
        &inputs.game_id,
        inputs.disc_title,
        inputs.apploader,
        inputs.main_dol,
        iso_size,
    );
    let (sys_blob, iso_at) = match built {
        Ok(v) => v,
        Err(e) => return Err(e),
    };
    let logical_size = iso_at + iso_size;
    if logical_size > MAX_LOGICAL_SIZE {
        let mut m = "synthetic disc would hold ".to_owned();
        m.append(dec_text(logical_size).as_str());
        m.append(" logical bytes; a Wii partition's H3 table covers at most ");
        m.append(dec_text(MAX_H3_GROUPS as u64).as_str());
        m.append(" hash groups (");
        m.append(dec_text(MAX_LOGICAL_SIZE).as_str());
        m.append(" bytes)");
        return Err(Error::FormatLimit(m));
    }
    let total_clusters = ((logical_size + (CLUSTER_DATA as u64 - 1)) / CLUSTER_DATA as u64) as usize;
    let num_groups = (total_clusters + (SECTORS_PER_GROUP - 1)) / SECTORS_PER_GROUP;
    Ok(GcDiscLayout { sys_blob, iso_size, total_clusters, num_groups })
}

/// A synthetic Wii disc, except its data region, which is handed out group by group.
#[derive(Debug)]
pub struct AuthoredDisc {
    /// The size of the disc in bytes.
    pub disc_size: u64,
    /// What the NFS packer is told: one partition, with nothing to patch, and the hash that its TMD
    /// carries.
    pub plan: DiscPlan,
    /// The disc's ticket, to be written as `code/rvlt.tik`.
    pub rvlt_ticket: Vec<u8>,
    /// The disc's TMD, to be written as `code/rvlt.tmd`.
    pub rvlt_tmd: Vec<u8>,
    /// The bytes at the start of the disc.
    pub disc_header: Vec<u8>,
    /// The bytes at the start of the partition.
    pub partition_header: Vec<u8>,
}

impl AuthoredDisc {
    /// The size of the disc in bytes.
    pub fn disc_size(&self) -> (r: u64)
        ensures
            r == self.disc_size,
    {
        self.disc_size
    }

    /// The disc is the one for `inputs`, with `total` clusters of data and the `H3` table `h3`.
    pub open spec fn is_authored(&self, inputs: GcDiscInputs, total: int, h3: Seq<u8>) -> bool {
        let title_id = disc_title_id(inputs.game_id@);
        let hash = sha1_of(h3);
        &&& self.disc_size == DATA_ABS + total * DISC_SECTOR_SIZE
        &&& self.plan.partitions@.len() == 1
        &&& self.plan.partitions@[0].start_sector == START_SECTOR
        &&& self.plan.partitions@[0].data_start_sector == DATA_START_SECTOR
        &&& self.plan.partitions@[0].data_end_sector == (DATA_START_SECTOR + total) as u32
        &&& self.plan.partitions@[0].is_plain()
        &&& self.plan.disc_patches@.len() == 0
        &&& self.plan.applied@.len() == 0
        &&& self.plan.rvlt_content_hash matches Some(h) && h@ == hash
        &&& self.rvlt_ticket@ == ticket_image(title_id)
        &&& self.rvlt_tmd@ == tmd_image(title_id, hash)
        &&& self.disc_header@ == disc_header_image(inputs.game_id@, inputs.disc_title@)
        &&& self.partition_header@ == partition_header_image(
            ticket_image(title_id),
            tmd_image(title_id, hash),
            inputs.cert_chain@,
            h3,
            total * DISC_SECTOR_SIZE,
        )
    }
}

/// Complete the disc, once the `H3` entries of all its groups are known.
pub fn finish_gc_disc(inputs: &GcDiscInputs, layout: &GcDiscLayout, h3_table: &[u8]) -> (r:
    AuthoredDisc)
    requires
        CERT_PART_OFF + inputs.cert_chain@.len() <= H3_PART_OFF,
        layout.wf(),
        h3_table@.len() == H3_TABLE_SIZE,
    ensures
        r.is_authored(*inputs, layout.total_clusters as int, h3_table@),
{
    let title_id = wii_disc_title_id(&inputs.game_id);
    let content_hash = sha1(h3_table);
    let ticket = build_wii_ticket(title_id);
    let tmd = build_wii_tmd(title_id, &content_hash);
    let disc_header = build_disc_header(&inputs.game_id, inputs.disc_title);
    let data_size = layout.total_clusters as u64 * DISC_SECTOR_SIZE as u64;
    let partition_header = match build_partition_header(
        ticket.as_slice(),
        tmd.as_slice(),
        inputs.cert_chain,
        h3_table,
        data_size,
    ) {
        Ok(p) => p,
        Err(_) => {
            assert(false);
            Vec::new()
        },
    };
    let mut partitions: Vec<PartitionPlan> = Vec::new();
    partitions.push(
        PartitionPlan {
            start_sector: START_SECTOR,
            data_start_sector: DATA_START_SECTOR,
            data_end_sector: DATA_START_SECTOR + layout.total_clusters as u32,
            header_patches: Vec::new(),
            edits: Vec::new(),
            stored_data_groups: Vec::new(),
        },
    );
    AuthoredDisc {
        disc_size: DATA_ABS + data_size,
        plan: DiscPlan {
            partitions,
            disc_patches: Vec::new(),
            rvlt_content_hash: Some(content_hash),
            applied: Vec::new(),
        },
        rvlt_ticket: ticket,
        rvlt_tmd: tmd,
        disc_header,
        partition_header,
    }
}

/// The error of an image that ends before the size that was announced.
pub open spec fn short_iso() -> ErrorView {
    ErrorView::Io { path: "<game.iso>"@, detail: "failed to fill whole buffer"@ }
}

/// Author a synthetic Wii disc booting Nintendont, with the first `iso_size` bytes of `iso`
/// embedded as `game.iso`: the disc, and its data region.
pub fn author_gc_disc(iso: &[u8], iso_size: u64, inputs: &GcDiscInputs) -> (r: Result<
    (AuthoredDisc, Vec<u8>),
    Error,
>)
    requires
        inputs.fits_memory(),
    ensures
        match r {
            Ok((disc, data)) => {
                let content = inputs.sys(iso_size as int) + iso@.take(iso_size as int);
                let total = clusters_for(content.len() as int);
                let groups = groups_for(total);
                &&& gc_disc_error(*inputs, iso_size as int) is None
                &&& iso_size <= iso@.len()
                &&& groups <= MAX_H3_GROUPS
                &&& data@ == data_region(content, total, groups)
                &&& disc.is_authored(*inputs, total, h3_table(content, groups))
            },
            Err(e) => if gc_disc_error(*inputs, iso_size as int) is Some {
                gc_disc_error(*inputs, iso_size as int) == Some(e@)
            } else {
                iso_size > iso@.len() && e@ == short_iso()
            },
        },
{
    let layout = match lay_out_gc_disc(iso_size, inputs) {
        Ok(l) => l,
        Err(e) => return Err(e),
    };
    if (iso.len() as u64) < iso_size {
        return Err(
            Error::Io {
                path: "<game.iso>".to_owned(),
                detail: "failed to fill whole buffer".to_owned(),
            },
        );
    }
    let ghost image = iso@.take(iso_size as int);
    let ghost content = layout.content(image);
    let mut table = zeroed(H3_TABLE_SIZE);
    let mut data: Vec<u8> = Vec::new();
    let mut g: usize = 0;
    while g < layout.num_groups
        invariant
            layout.wf(),
            iso_size == layout.iso_size,
            iso_size <= iso@.len(),
            image == iso@.take(iso_size as int),
            content == layout.content(image),
            g <= layout.num_groups,
            table@.len() == H3_TABLE_SIZE,
            table@ == h3_table(content, g as int),
            data@ == data_region(content, layout.total_clusters as int, g as int),
        decreases layout.num_groups - g,
    {
        let (at, n) = layout.iso_range(g);
        let part = slice_subrange(iso, at as usize, at as usize + n);
        assert(part@ =~= layout.part_of(image, g as int));
        let encoded = layout.encode_group(g, part);
        put_h3_entry(&mut table, g, &encoded.h3);
        append_bytes(&mut data, encoded.clusters.as_slice());
        g = g + 1;
    }
    let disc = finish_gc_disc(inputs, &layout, table.as_slice());
    Ok((disc, data))
}

/// The byte at logical offset `l` of a data region: behind the hash block of its cluster.
pub open spec fn logical_byte(data: Seq<u8>, l: int) -> u8 {
    data[l / CLUSTER_DATA as int * DISC_SECTOR_SIZE + HASH_BLOCK + l % CLUSTER_DATA as int]
}

proof fn lemma_data_region_len(content: Seq<u8>, total: int, g: int)
    requires
        0 <= g,
        0 <= total,
        g > 0 ==> (g - 1) * SECTORS_PER_GROUP < total,
    ensures
        data_region(content, total, g).len() == DISC_SECTOR_SIZE * if total < g
            * SECTORS_PER_GROUP {
            total
        } else {
            g * SECTORS_PER_GROUP
        },
    decreases g,
{
    if g > 0 {
        lemma_data_region_len(content, total, g - 1);
        let group = group_bytes(content, g - 1);
        let n = stored_in_group(total, g - 1);
        stripping_hashes_gives_the_data_back(group, n, 0);
    }
}

proof fn lemma_data_region_cluster(content: Seq<u8>, total: int, g: int, ci: int)
    requires
        0 < g,
        (g - 1) * SECTORS_PER_GROUP < total,
        0 <= ci < total,
        ci < g * SECTORS_PER_GROUP,
    ensures
        data_region(content, total, g).subrange(
            ci * DISC_SECTOR_SIZE + HASH_BLOCK,
            (ci + 1) * DISC_SECTOR_SIZE,
        ) == window(content, ci * CLUSTER_DATA, CLUSTER_DATA as nat),
    decreases g,
{
    lemma_data_region_len(content, total, g - 1);
    lemma_data_region_len(content, total, g);
    let lo = ci * DISC_SECTOR_SIZE + HASH_BLOCK;
    let hi = (ci + 1) * DISC_SECTOR_SIZE;
    let whole = data_region(content, total, g).subrange(lo, hi);
    let first = (g - 1) * SECTORS_PER_GROUP;
    if ci < first {
        lemma_data_region_cluster(content, total, g - 1, ci);
        assert(whole =~= data_region(content, total, g - 1).subrange(lo, hi));
    } else {
        let group = group_bytes(content, g - 1);
        let n = stored_in_group(total, g - 1);
        let k = ci - first;
        stripping_hashes_gives_the_data_back(group, n, k);
        assert(whole =~= clusters(group, n).subrange(
            k * DISC_SECTOR_SIZE + HASH_BLOCK,
            (k + 1) * DISC_SECTOR_SIZE,
        ));
        assert(cluster_data(group, k) =~= window(content, ci * CLUSTER_DATA, CLUSTER_DATA as nat));
    }
}

/// The data region of a disc, read by logical offsets past the hash blocks, gives back the logical
/// data that it was authored from.
pub proof fn data_region_reads_back(content: Seq<u8>, l: int)
    requires
        0 <= l < content.len(),
    ensures
        ({
            let total = clusters_for(content.len() as int);
            let data = data_region(content, total, groups_for(total));
            &&& data.len() == total * DISC_SECTOR_SIZE
            &&& logical_byte(data, l) == content[l]
        }),
{
    let total = clusters_for(content.len() as int);
    let groups = groups_for(total);
    let ci = l / CLUSTER_DATA as int;
    let at = l % CLUSTER_DATA as int;
    lemma_data_region_len(content, total, groups);
    lemma_data_region_cluster(content, total, groups, ci);
    let data = data_region(content, total, groups);
    let cluster = data.subrange(ci * DISC_SECTOR_SIZE + HASH_BLOCK, (ci + 1) * DISC_SECTOR_SIZE);
    assert(cluster[at] == window(content, ci * CLUSTER_DATA, CLUSTER_DATA as nat)[at]);
    assert(ci * CLUSTER_DATA + at == l);
}

/// `game.iso` comes back byte for byte from the data region of a disc that it was embedded in.
pub proof fn game_iso_reads_back(sys: Seq<u8>, iso: Seq<u8>, i: int)
    requires
        0 <= i < iso.len(),
    ensures
        ({
            let total = clusters_for((sys + iso).len() as int);
            logical_byte(data_region(sys + iso, total, groups_for(total)), sys.len() + i) == iso[i]
        }),
{
    data_region_reads_back(sys + iso, sys.len() + i);
}

proof fn lemma_h3_table_len(content: Seq<u8>, g: int)
    ensures
        h3_table(content, g).len() == H3_TABLE_SIZE,
    decreases g,
{
    if g > 0 {
        lemma_h3_table_len(content, g - 1);
    }
}

/// The `H3` table holds, for each group, the hash that stands over the group's data.
pub proof fn h3_table_covers_every_group(content: Seq<u8>, groups: int, g: int)
    requires
        0 <= g < groups <= MAX_H3_GROUPS,
    ensures
        h3_table(content, groups).len() == H3_TABLE_SIZE,
        h3_table(content, groups).subrange(g * 20, g * 20 + 20) == h3_entry(
            group_bytes(content, g),
        ),
    decreases groups,
{
    lemma_h3_table_len(content, groups);
    lemma_h3_table_len(content, groups - 1);
    let entry = h3_table(content, groups).subrange(g * 20, g * 20 + 20);
    if g < groups - 1 {
        h3_table_covers_every_group(content, groups - 1, g);
        assert(entry =~= h3_table(content, groups - 1).subrange(g * 20, g * 20 + 20));
    } else {
        assert(entry =~= h3_entry(group_bytes(content, g)));
    }
}

proof fn lemma_data_region_sector(content: Seq<u8>, total: int, g: int, ci: int)
    requires
        0 < g,
        (g - 1) * SECTORS_PER_GROUP < total,
        0 <= ci < total,
        ci < g * SECTORS_PER_GROUP,
    ensures
        data_region(content, total, g).subrange(ci * DISC_SECTOR_SIZE, (ci + 1) * DISC_SECTOR_SIZE)
            == cluster(
            group_bytes(content, ci / SECTORS_PER_GROUP as int),
            ci % SECTORS_PER_GROUP as int,
        ),
    decreases g,
{
    lemma_data_region_len(content, total, g - 1);
    lemma_data_region_len(content, total, g);
    let lo = ci * DISC_SECTOR_SIZE;
    let hi = (ci + 1) * DISC_SECTOR_SIZE;
    let before = data_region(content, total, g - 1);
    let all = data_region(content, total, g);
    let first = (g - 1) * SECTORS_PER_GROUP;
    if ci < first {
        lemma_data_region_sector(content, total, g - 1, ci);
        assert(all.subrange(lo, hi) =~= before.subrange(lo, hi));
    } else {
        let group = group_bytes(content, g - 1);
        let n = stored_in_group(total, g - 1);
        let k = ci - first;
        assert(ci / SECTORS_PER_GROUP as int == g - 1 && ci % SECTORS_PER_GROUP as int == k);
        lemma_clusters(group, n, k);
        let stored = clusters(group, n);
        let at = before.len() as int;
        assert(at == first * DISC_SECTOR_SIZE);
        assert(all.skip(at) =~= stored);
        assert(all.subrange(lo, hi) =~= all.skip(at).subrange(lo - at, hi - at));
        assert(lo - at == k * DISC_SECTOR_SIZE);
        assert(hi - at == k * DISC_SECTOR_SIZE + DISC_SECTOR_SIZE);
    }
}

/// Every sector of an authored data region passes a disc reader's validation up to the partition's
/// `H3` table: sector `ci` holds the digest of each of its sub-blocks `j`, of its `H0` table and of
/// its `H1` table, and the `H3` table holds, at the sector's group, the digest of its `H2` table.
pub proof fn authored_sectors_validate(content: Seq<u8>, ci: int, j: int)
    requires
        content.len() <= MAX_LOGICAL_SIZE,
        0 <= ci < clusters_for(content.len() as int),
        0 <= j < N_SUBBLOCKS,
    ensures
        ({
            let total = clusters_for(content.len() as int);
            let groups = groups_for(total);
            let sector = data_region(content, total, groups).subrange(
                ci * DISC_SECTOR_SIZE,
                (ci + 1) * DISC_SECTOR_SIZE,
            );
            let g = ci / SECTORS_PER_GROUP as int;
            let k = ci % SECTORS_PER_GROUP as int;
            &&& digest_in(sector, 0, j) == sha1_of(stored_sub_block(sector, j))
            &&& digest_in(sector, H1_OFF as int, k % 8) == sha1_of(sector.take(H0_REGION as int))
            &&& digest_in(sector, H2_OFF as int, k / 8) == sha1_of(
                sector.subrange(H1_OFF as int, H1_OFF + H1_REGION),
            )
            &&& h3_table(content, groups).subrange(g * 20, g * 20 + 20) == sha1_of(
                sector.subrange(H2_OFF as int, H2_OFF + H2_REGION),
            )
        }),
{
    let total = clusters_for(content.len() as int);
    let groups = groups_for(total);
    let g = ci / SECTORS_PER_GROUP as int;
    let k = ci % SECTORS_PER_GROUP as int;
    accepted_sizes_fit_the_h3_table(content.len() as int);
    lemma_data_region_sector(content, total, groups, ci);
    every_sector_validates(group_bytes(content, g), k, j);
    h3_table_covers_every_group(content, groups, g);
}

/// Every image that the size checks accept needs no more hash groups than the `H3` table holds,
/// and every image size that the FST can record passes the logical limit by itself.
pub proof fn accepted_sizes_fit_the_h3_table(logical_size: int)
    requires
        0 <= logical_size <= MAX_LOGICAL_SIZE,
    ensures
        groups_for(clusters_for(logical_size)) <= MAX_H3_GROUPS,
        groups_for(clusters_for(MAX_LOGICAL_SIZE as int)) == MAX_H3_GROUPS,
        MAX_ISO_SIZE < MAX_LOGICAL_SIZE,
{
}

pub(crate) proof fn lemma_follow_offsets(
    sys: Seq<u8>,
    iso: Seq<u8>,
    boot: Seq<u8>,
    fst: Seq<u8>,
    dol_at: int,
    dol: Seq<u8>,
    fst_at: int,
    iso_at: int,
)
    requires
        APPLOADER_OFF <= dol_at <= dol_at + dol.len() <= fst_at <= fst_at + 36 <= iso_at,
        sys.len() == iso_at,
        iso_at / 4 <= u32::MAX,
        iso.len() <= u32::MAX,
        dol_at % 4 == 0,
        fst_at % 4 == 0,
        iso_at % 4 == 0,
        boot.len() == APPLOADER_OFF,
        boot.subrange(0x420, 0x424) == be32((dol_at / 4) as u32),
        boot.subrange(0x424, 0x428) == be32((fst_at / 4) as u32),
        fst.len() == 36,
        fst.subrange(16, 20) == be32((iso_at / 4) as u32),
        fst.subrange(20, 24) == be32(iso.len() as u32),
        sys.take(APPLOADER_OFF as int) == boot,
        sys.subrange(dol_at, dol_at + dol.len()) == dol,
        sys.subrange(fst_at, fst_at + 36) == fst,
    ensures
        ({
            let content = sys + iso;
            &&& be32_at(content, 0x420) * 4 == dol_at
            &&& be32_at(content, 0x424) * 4 == fst_at
            &&& be32_at(content, fst_at + 16) * 4 == iso_at
            &&& be32_at(content, fst_at + 20) == iso.len()
            &&& content.subrange(dol_at, dol_at + dol.len()) == dol
            &&& content.subrange(fst_at, fst_at + 36) == fst
            &&& content.skip(iso_at) == iso
        }),
{
    let content = sys + iso;
    assert(content.subrange(0x420, 0x424) =~= boot.subrange(0x420, 0x424));
    assert(content.subrange(0x424, 0x428) =~= boot.subrange(0x424, 0x428));
    be32_at_its_bytes(content, 0x420, (dol_at / 4) as u32);
    be32_at_its_bytes(content, 0x424, (fst_at / 4) as u32);
    assert(content.subrange(dol_at, dol_at + dol.len()) =~= dol);
    assert(content.subrange(fst_at, fst_at + 36) =~= fst);
    assert(content.subrange(fst_at + 16, fst_at + 20) =~= fst.subrange(16, 20));
    assert(content.subrange(fst_at + 20, fst_at + 24) =~= fst.subrange(20, 24));
    be32_at_its_bytes(content, fst_at + 16, (iso_at / 4) as u32);
    be32_at_its_bytes(content, fst_at + 20, iso.len() as u32);
    assert(content.skip(iso_at) =~= iso);
}

/// Following the offsets in `boot.bin` through the logical data leads to `main.dol` and to the FST,
/// and following the FST leads to `game.iso` and its size.
#[verifier::spinoff_prover]
#[verifier::rlimit(60)]
pub proof fn boot_offsets_lead_to_the_files(inputs: GcDiscInputs, iso: Seq<u8>)
    requires
        gc_disc_error(inputs, iso.len() as int) is None,
    ensures
        ({
            let content = inputs.sys(iso.len() as int) + iso;
            let dol_at = be32_at(content, 0x420) * 4;
            let fst_at = be32_at(content, 0x424) * 4;
            let iso_at = be32_at(content, fst_at + 16) * 4;
            &&& content.subrange(dol_at, dol_at + inputs.main_dol@.len()) == inputs.main_dol@
            &&& content.subrange(fst_at, fst_at + 36) == fst_image(
                inputs.iso_at(),
                iso.len() as int,
            )
            &&& content.skip(iso_at) == iso
            &&& be32_at(content, fst_at + 20) == iso.len()
        }),
{
    let al = inputs.apploader@.len() as int;
    let dol = inputs.main_dol@;
    logical_layout_is_ordered(al, dol.len() as int);
    let dol_at = dol_off(al);
    let fst_at = fst_off(al, dol.len() as int);
    let iso_at = iso_off(al, dol.len() as int);
    let n = iso.len() as int;
    let (id, title) = (inputs.game_id@, inputs.disc_title@);
    sys_image_holds_the_files(id, title, inputs.apploader@, dol, n);
    boot_image_holds_the_offsets(id, title, dol_at, fst_at);
    fst_image_holds_the_file(iso_at, n);
    assert(iso_at % 4 == 0);
    lemma_follow_offsets(
        sys_image(id, title, inputs.apploader@, dol, n),
        iso,
        boot_image(id, title, dol_at, fst_at),
        fst_image(iso_at, n),
        dol_at,
        dol,
        fst_at,
        iso_at,
    );
}

/// An authored disc carries its ticket, its TMD, the certificate chain and the `H3` table where the
/// partition header says; ticket and TMD are unsigned, and the content hash of the TMD is the
/// SHA-1 of the `H3` table.
pub proof fn partition_header_is_consistent(inputs: GcDiscInputs, h3: Seq<u8>, total: int)
    requires
        CERT_PART_OFF + inputs.cert_chain@.len() <= H3_PART_OFF,
        h3.len() == H3_TABLE_SIZE,
    ensures
        ({
            let id = disc_title_id(inputs.game_id@);
            let ticket = ticket_image(id);
            let tmd = tmd_image(id, sha1_of(h3));
            let header = partition_header_image(
                ticket,
                tmd,
                inputs.cert_chain@,
                h3,
                total * DISC_SECTOR_SIZE,
            );
            &&& header.len() == DATA_PART_OFF
            &&& header.take(0x2A4) == ticket
            &&& header.subrange(0x2C0, 0x4C8) == tmd
            &&& header.subrange(0x4E0, 0x4E0int + inputs.cert_chain@.len()) == inputs.cert_chain@
            &&& header.skip(0x8000) == h3
            &&& tmd.subrange(0x1F4, 0x208) == sha1_of(h3)
            &&& ticket.subrange(4, 0x104) == zeros(0x100)
            &&& tmd.subrange(4, 0x104) == zeros(0x100)
        }),
{
    let id = disc_title_id(inputs.game_id@);
    let hash = sha1_of(h3);
    let ticket = ticket_image(id);
    let tmd = tmd_image(id, hash);
    reveal_strlit("Root-CA00000001-XS00000003");
    reveal_strlit("Root-CA00000001-CP00000004");
    reveal_strlit("01");
    let tf = images::ticket_fields(id);
    assert(fields_ascend(0x2A4, tf));
    ascending_fields_are_apart(0x2A4, tf);
    layout_reads_back(0x2A4, tf);
    assert forall|i: int| 4 <= i < 0x104 implies #[trigger] ticket[i] == 0 by {
        assert(!in_field(tf, i));
    }
    assert(ticket.subrange(4, 0x104) =~= zeros(0x100));
    let mf = images::tmd_fields(id, hash);
    assert(fields_ascend(0x208, mf));
    ascending_fields_are_apart(0x208, mf);
    layout_reads_back(0x208, mf);
    assert forall|i: int| 4 <= i < 0x104 implies #[trigger] tmd[i] == 0 by {
        assert(!in_field(mf, i));
    }
    assert(tmd.subrange(4, 0x104) =~= zeros(0x100));
    assert(mf[10].off == 0x1F4);
    let pf = images::partition_header_fields(
        ticket,
        tmd,
        inputs.cert_chain@,
        h3,
        total * DISC_SECTOR_SIZE,
    );
    assert(fields_ascend(0x2_0000, pf));
    ascending_fields_are_apart(0x2_0000, pf);
    layout_reads_back(0x2_0000, pf);
    assert(pf[0].off == 0 && pf[8].off == 0x2C0 && pf[9].off == 0x4E0 && pf[10].off == 0x8000);
    let header = partition_header_image(
        ticket,
        tmd,
        inputs.cert_chain@,
        h3,
        total * DISC_SECTOR_SIZE,
    );
    assert(header.take(0x2A4) =~= header.subrange(0, 0x2A4));
    assert(header.skip(0x8000) =~= header.subrange(0x8000, 0x2_0000));
}

} // verus!

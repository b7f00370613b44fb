//! The hash tree of a Wii partition.
//!
//! A hash group is 64 clusters. Each cluster holds 31 sub-blocks of data behind a hash block with
//! three tables: `H0`, the SHA-1 of each of its own sub-blocks; `H1`, the SHA-1 of the `H0` tables
//! of the 8 clusters of its subgroup; `H2`, the SHA-1 of the `H1` tables of the 8 subgroups of its
//! group. The SHA-1 of the group's `H2` table is its entry in the partition's `H3` table.

use crate::bytes::{append_bytes, place, put, zeroed, zeros};
use crate::consts::{
    CLUSTER_DATA, DISC_SECTOR_SIZE, H0_REGION, H1_OFF, H1_REGION, H2_OFF, H2_REGION, HASH_BLOCK,
    N_SUBBLOCKS, SECTORS_PER_GROUP, SECTORS_PER_SUBGROUP, SHA1_LEN, SUBBLOCK,
};
use crate::digest::{sha1, sha1_of};
use vstd::prelude::*;
use vstd::slice::slice_subrange;

verus! {

/// Logical (hash-stripped) bytes that one group carries.
pub const GROUP_LOGICAL_SIZE: usize = 0x1F_0000;

/// Size of a partition's `H3` table.
pub const H3_TABLE_SIZE: usize = 0x1_8000;

/// Entries that an `H3` table has room for.
pub const MAX_H3_GROUPS: usize = 4915;

/// The data of cluster `k` of a group.
pub open spec fn cluster_data(group: Seq<u8>, k: int) -> Seq<u8> {
    group.subrange(k * CLUSTER_DATA, k * CLUSTER_DATA + CLUSTER_DATA)
}

/// Sub-block `j` of cluster `k` of a group.
pub open spec fn sub_block(group: Seq<u8>, k: int, j: int) -> Seq<u8> {
    group.subrange(
        k * CLUSTER_DATA + j * SUBBLOCK,
        k * CLUSTER_DATA + j * SUBBLOCK + SUBBLOCK,
    )
}

/// The digests of the first `n` sub-blocks of cluster `k`.
pub open spec fn h0_digests(group: Seq<u8>, k: int, n: int) -> Seq<u8>
    decreases n,
{
    if n <= 0 {
        Seq::empty()
    } else {
        h0_digests(group, k, n - 1) + sha1_of(sub_block(group, k, n - 1))
    }
}

/// The `H0` table of cluster `k`.
pub open spec fn h0_table(group: Seq<u8>, k: int) -> Seq<u8> {
    h0_digests(group, k, N_SUBBLOCKS as int)
}

/// The digests of the `H0` tables of the first `n` clusters of subgroup `s`.
pub open spec fn h1_digests(group: Seq<u8>, s: int, n: int) -> Seq<u8>
    decreases n,
{
    if n <= 0 {
        Seq::empty()
    } else {
        h1_digests(group, s, n - 1) + sha1_of(h0_table(group, s * SECTORS_PER_SUBGROUP + n - 1))
    }
}

/// The `H1` table of subgroup `s`.
pub open spec fn h1_table(group: Seq<u8>, s: int) -> Seq<u8> {
    h1_digests(group, s, SECTORS_PER_SUBGROUP as int)
}

/// The digests of the `H1` tables of the first `n` subgroups.
pub open spec fn h2_digests(group: Seq<u8>, n: int) -> Seq<u8>
    decreases n,
{
    if n <= 0 {
        Seq::empty()
    } else {
        h2_digests(group, n - 1) + sha1_of(h1_table(group, n - 1))
    }
}

/// The `H2` table of a group.
pub open spec fn h2_table(group: Seq<u8>) -> Seq<u8> {
    h2_digests(group, 8)
}

/// The `H3` entry of a group.
pub open spec fn h3_entry(group: Seq<u8>) -> Seq<u8> {
    sha1_of(h2_table(group))
}

/// The hash block of cluster `k` of a group.
pub open spec fn hash_block(group: Seq<u8>, k: int) -> Seq<u8> {
    h0_table(group, k) + zeros(0x14) + h1_table(group, k / 8) + zeros(0x20) + h2_table(group)
        + zeros(0x20)
}

/// Cluster `k` of a group as it stands on the disc.
pub open spec fn cluster(group: Seq<u8>, k: int) -> Seq<u8> {
    hash_block(group, k) + cluster_data(group, k)
}

/// The first `n` clusters of a group as they stand on the disc.
pub open spec fn clusters(group: Seq<u8>, n: int) -> Seq<u8>
    decreases n,
{
    if n <= 0 {
        Seq::empty()
    } else {
        clusters(group, n - 1) + cluster(group, n - 1)
    }
}

proof fn lemma_h0_len(group: Seq<u8>, k: int, n: int)
    ensures
        h0_digests(group, k, n).len() == if n > 0 {
            n * 20
        } else {
            0
        },
    decreases n,
{
    if n > 0 {
        lemma_h0_len(group, k, n - 1);
    }
}

proof fn lemma_h1_len(group: Seq<u8>, s: int, n: int)
    ensures
        h1_digests(group, s, n).len() == if n > 0 {
            n * 20
        } else {
            0
        },
    decreases n,
{
    if n > 0 {
        lemma_h1_len(group, s, n - 1);
    }
}

proof fn lemma_h2_len(group: Seq<u8>, n: int)
    ensures
        h2_digests(group, n).len() == if n > 0 {
            n * 20
        } else {
            0
        },
    decreases n,
{
    if n > 0 {
        lemma_h2_len(group, n - 1);
    }
}

/// A cluster is one sector: a hash block and the cluster's data behind it.
pub proof fn cluster_is_a_sector(group: Seq<u8>, k: int)
    requires
        group.len() == GROUP_LOGICAL_SIZE,
        0 <= k < SECTORS_PER_GROUP,
    ensures
        hash_block(group, k).len() == HASH_BLOCK,
        cluster(group, k).len() == DISC_SECTOR_SIZE,
        cluster(group, k).skip(HASH_BLOCK as int) == cluster_data(group, k),
{
    lemma_h0_len(group, k, N_SUBBLOCKS as int);
    lemma_h1_len(group, k / 8, SECTORS_PER_SUBGROUP as int);
    lemma_h2_len(group, 8);
    assert(cluster(group, k).skip(HASH_BLOCK as int) =~= cluster_data(group, k));
}

pub(crate) proof fn lemma_clusters(group: Seq<u8>, n: int, k: int)
    requires
        group.len() == GROUP_LOGICAL_SIZE,
        0 <= n <= SECTORS_PER_GROUP,
    ensures
        clusters(group, n).len() == n * DISC_SECTOR_SIZE,
        0 <= k < n ==> clusters(group, n).subrange(
            k * DISC_SECTOR_SIZE,
            k * DISC_SECTOR_SIZE + DISC_SECTOR_SIZE,
        ) == cluster(group, k),
    decreases n,
{
    if n > 0 {
        lemma_clusters(group, n - 1, k);
        cluster_is_a_sector(group, n - 1);
        if 0 <= k < n {
            let lo = k * DISC_SECTOR_SIZE;
            let whole = clusters(group, n).subrange(lo, lo + DISC_SECTOR_SIZE);
            if k == n - 1 {
                assert(whole =~= cluster(group, k));
            } else {
                assert(whole =~= clusters(group, n - 1).subrange(lo, lo + DISC_SECTOR_SIZE));
            }
        }
    }
}

proof fn lemma_h0_digest(group: Seq<u8>, k: int, n: int, j: int)
    requires
        0 <= j < n,
    ensures
        h0_digests(group, k, n).subrange(j * 20, j * 20 + 20) == sha1_of(sub_block(group, k, j)),
    decreases n,
{
    lemma_h0_len(group, k, n - 1);
    let whole = h0_digests(group, k, n).subrange(j * 20, j * 20 + 20);
    if j == n - 1 {
        assert(whole =~= sha1_of(sub_block(group, k, j)));
    } else {
        lemma_h0_digest(group, k, n - 1, j);
        assert(whole =~= h0_digests(group, k, n - 1).subrange(j * 20, j * 20 + 20));
    }
}

proof fn lemma_h1_digest(group: Seq<u8>, s: int, n: int, j: int)
    requires
        0 <= j < n,
    ensures
        h1_digests(group, s, n).subrange(j * 20, j * 20 + 20) == sha1_of(
            h0_table(group, s * SECTORS_PER_SUBGROUP + j),
        ),
    decreases n,
{
    lemma_h1_len(group, s, n - 1);
    let whole = h1_digests(group, s, n).subrange(j * 20, j * 20 + 20);
    if j == n - 1 {
        assert(whole =~= sha1_of(h0_table(group, s * SECTORS_PER_SUBGROUP + j)));
    } else {
        lemma_h1_digest(group, s, n - 1, j);
        assert(whole =~= h1_digests(group, s, n - 1).subrange(j * 20, j * 20 + 20));
    }
}

proof fn lemma_h2_digest(group: Seq<u8>, n: int, j: int)
    requires
        0 <= j < n,
    ensures
        h2_digests(group, n).subrange(j * 20, j * 20 + 20) == sha1_of(h1_table(group, j)),
    decreases n,
{
    lemma_h2_len(group, n - 1);
    let whole = h2_digests(group, n).subrange(j * 20, j * 20 + 20);
    if j == n - 1 {
        assert(whole =~= sha1_of(h1_table(group, j)));
    } else {
        lemma_h2_digest(group, n - 1, j);
        assert(whole =~= h2_digests(group, n - 1).subrange(j * 20, j * 20 + 20));
    }
}

/// Digest `j` of the hash table at `at` in a sector.
pub open spec fn digest_in(sector: Seq<u8>, at: int, j: int) -> Seq<u8> {
    sector.subrange(at + j * 20, at + j * 20 + 20)
}

/// Sub-block `j` of a sector.
pub open spec fn stored_sub_block(sector: Seq<u8>, j: int) -> Seq<u8> {
    sector.subrange(HASH_BLOCK + j * SUBBLOCK, HASH_BLOCK + j * SUBBLOCK + SUBBLOCK)
}

/// Sector `k` of a group passes the validation of a disc reader at every level: its `H0` table has
/// the digest of each of its sub-blocks, its `H1` table that of its `H0` table, its `H2` table that
/// of its `H1` table, and the group's `H3` entry is that of its `H2` table.
pub proof fn every_sector_validates(group: Seq<u8>, k: int, j: int)
    requires
        group.len() == GROUP_LOGICAL_SIZE,
        0 <= k < SECTORS_PER_GROUP,
        0 <= j < N_SUBBLOCKS,
    ensures
        ({
            let c = cluster(group, k);
            &&& digest_in(c, 0, j) == sha1_of(stored_sub_block(c, j))
            &&& digest_in(c, H1_OFF as int, k % 8) == sha1_of(c.take(H0_REGION as int))
            &&& digest_in(c, H2_OFF as int, k / 8) == sha1_of(
                c.subrange(H1_OFF as int, H1_OFF + H1_REGION),
            )
            &&& h3_entry(group) == sha1_of(c.subrange(H2_OFF as int, H2_OFF + H2_REGION))
        }),
{
    let c = cluster(group, k);
    let (h0, h1, h2) = (h0_table(group, k), h1_table(group, k / 8), h2_table(group));
    cluster_is_a_sector(group, k);
    lemma_h0_len(group, k, N_SUBBLOCKS as int);
    lemma_h1_len(group, k / 8, SECTORS_PER_SUBGROUP as int);
    lemma_h2_len(group, 8);
    lemma_h0_digest(group, k, N_SUBBLOCKS as int, j);
    lemma_h1_digest(group, k / 8, SECTORS_PER_SUBGROUP as int, k % 8);
    lemma_h2_digest(group, 8, k / 8);
    assert(c.take(H0_REGION as int) =~= h0);
    assert(c.subrange(H1_OFF as int, H1_OFF + H1_REGION) =~= h1);
    assert(c.subrange(H2_OFF as int, H2_OFF + H2_REGION) =~= h2);
    assert(digest_in(c, 0, j) =~= h0.subrange(j * 20, j * 20 + 20));
    assert(digest_in(c, H1_OFF as int, k % 8) =~= h1.subrange(k % 8 * 20, k % 8 * 20 + 20));
    assert(digest_in(c, H2_OFF as int, k / 8) =~= h2.subrange(k / 8 * 20, k / 8 * 20 + 20));
    assert(stored_sub_block(c, j) =~= sub_block(group, k, j));
}

/// Stripping the hash blocks off an encoded group gives its logical bytes back: behind the hash
/// block of sector `k` stands the data of cluster `k`.
pub proof fn stripping_hashes_gives_the_data_back(group: Seq<u8>, n: int, k: int)
    requires
        group.len() == GROUP_LOGICAL_SIZE,
        0 <= k < n <= SECTORS_PER_GROUP,
    ensures
        clusters(group, n).len() == n * DISC_SECTOR_SIZE,
        clusters(group, n).subrange(
            k * DISC_SECTOR_SIZE + HASH_BLOCK,
            (k + 1) * DISC_SECTOR_SIZE,
        ) == cluster_data(group, k),
{
    lemma_clusters(group, n, k);
    cluster_is_a_sector(group, k);
    let lo = k * DISC_SECTOR_SIZE;
    let c = clusters(group, n).subrange(lo, lo + DISC_SECTOR_SIZE);
    assert(clusters(group, n).subrange(lo + HASH_BLOCK, lo + DISC_SECTOR_SIZE) =~= c.skip(
        HASH_BLOCK as int,
    ));
}

/// The `H0` table of cluster `k`.
pub fn build_h0(group: &[u8], k: usize) -> (r: Vec<u8>)
    requires
        group@.len() == GROUP_LOGICAL_SIZE,
        k < SECTORS_PER_GROUP,
    ensures
        r@ == h0_table(group@, k as int),
{
    let mut r: Vec<u8> = Vec::new();
    let mut j: usize = 0;
    while j < N_SUBBLOCKS
        invariant
            group@.len() == GROUP_LOGICAL_SIZE,
            k < SECTORS_PER_GROUP,
            j <= N_SUBBLOCKS,
            r@ == h0_digests(group@, k as int, j as int),
        decreases N_SUBBLOCKS - j,
    {
        let lo = k * CLUSTER_DATA + j * SUBBLOCK;
        let d = sha1(slice_subrange(group, lo, lo + SUBBLOCK));
        append_bytes(&mut r, d.as_slice());
        j = j + 1;
    }
    r
}

/// The `H1` table of subgroup `s`, from the group's `H0` tables.
pub fn build_h1(group: &[u8], h0: &Vec<Vec<u8>>, s: usize) -> (r: Vec<u8>)
    requires
        h0@.len() == SECTORS_PER_GROUP,
        forall|k: int| 0 <= k < h0@.len() ==> (#[trigger] h0@[k])@ == h0_table(group@, k),
        s < 8,
    ensures
        r@ == h1_table(group@, s as int),
{
    let mut r: Vec<u8> = Vec::new();
    let mut c: usize = 0;
    while c < SECTORS_PER_SUBGROUP
        invariant
            h0@.len() == SECTORS_PER_GROUP,
            forall|k: int| 0 <= k < h0@.len() ==> (#[trigger] h0@[k])@ == h0_table(group@, k),
            s < 8,
            c <= SECTORS_PER_SUBGROUP,
            r@ == h1_digests(group@, s as int, c as int),
        decreases SECTORS_PER_SUBGROUP - c,
    {
        let d = sha1(h0[s * SECTORS_PER_SUBGROUP + c].as_slice());
        append_bytes(&mut r, d.as_slice());
        c = c + 1;
    }
    r
}

/// The `H0` tables of all clusters.
fn build_all_h0(group: &[u8]) -> (r: Vec<Vec<u8>>)
    requires
        group@.len() == GROUP_LOGICAL_SIZE,
    ensures
        r@.len() == SECTORS_PER_GROUP,
        forall|k: int| 0 <= k < r@.len() ==> (#[trigger] r@[k])@ == h0_table(group@, k),
{
    let mut r: Vec<Vec<u8>> = Vec::new();
    let mut k: usize = 0;
    while k < SECTORS_PER_GROUP
        invariant
            group@.len() == GROUP_LOGICAL_SIZE,
            k <= SECTORS_PER_GROUP,
            r@.len() == k,
            forall|i: int| 0 <= i < k ==> (#[trigger] r@[i])@ == h0_table(group@, i),
        decreases SECTORS_PER_GROUP - k,
    {
        r.push(build_h0(group, k));
        k = k + 1;
    }
    r
}

/// The `H1` tables of all subgroups.
fn build_all_h1(group: &[u8], h0: &Vec<Vec<u8>>) -> (r: Vec<Vec<u8>>)
    requires
        h0@.len() == SECTORS_PER_GROUP,
        forall|k: int| 0 <= k < h0@.len() ==> (#[trigger] h0@[k])@ == h0_table(group@, k),
    ensures
        r@.len() == 8,
        forall|s: int| 0 <= s < 8 ==> (#[trigger] r@[s])@ == h1_table(group@, s),
{
    let mut r: Vec<Vec<u8>> = Vec::new();
    let mut s: usize = 0;
    while s < 8
        invariant
            h0@.len() == SECTORS_PER_GROUP,
            forall|k: int| 0 <= k < h0@.len() ==> (#[trigger] h0@[k])@ == h0_table(group@, k),
            s <= 8,
            r@.len() == s,
            forall|i: int| 0 <= i < s ==> (#[trigger] r@[i])@ == h1_table(group@, i),
        decreases 8 - s,
    {
        r.push(build_h1(group, h0, s));
        s = s + 1;
    }
    r
}

/// The `H2` table of a group, from its `H1` tables.
fn build_h2(group: &[u8], h1: &Vec<Vec<u8>>) -> (r: Vec<u8>)
    requires
        h1@.len() == 8,
        forall|s: int| 0 <= s < 8 ==> (#[trigger] h1@[s])@ == h1_table(group@, s),
    ensures
        r@ == h2_table(group@),
{
    let mut r: Vec<u8> = Vec::new();
    let mut s: usize = 0;
    while s < 8
        invariant
            h1@.len() == 8,
            forall|i: int| 0 <= i < 8 ==> (#[trigger] h1@[i])@ == h1_table(group@, i),
            s <= 8,
            r@ == h2_digests(group@, s as int),
        decreases 8 - s,
    {
        let d = sha1(h1[s].as_slice());
        append_bytes(&mut r, d.as_slice());
        s = s + 1;
    }
    r
}

/// A hash group as it stands on the disc, and its `H3` entry.
#[derive(Debug)]
pub struct EncodedGroup {
    /// The clusters, each with its hash block.
    pub clusters: Vec<u8>,
    /// The group's entry in the `H3` table.
    pub h3: [u8; 20],
}

/// Compute the hash tree over the logical bytes of a group and lay out its first `n` clusters.
/// The tree always covers all 64.
pub fn recompute_group(group: &[u8], n: usize) -> (r: EncodedGroup)
    requires
        group@.len() == GROUP_LOGICAL_SIZE,
        n <= SECTORS_PER_GROUP,
    ensures
        r.clusters@ == clusters(group@, n as int),
        r.h3@ == h3_entry(group@),
{
    let h0 = build_all_h0(group);
    let h1 = build_all_h1(group, &h0);
    let h2 = build_h2(group, &h1);
    let gap = zeroed(0x14);
    let tail = zeroed(0x20);
    let mut out: Vec<u8> = Vec::new();
    let mut k: usize = 0;
    while k < n
        invariant
            group@.len() == GROUP_LOGICAL_SIZE,
            k <= n <= SECTORS_PER_GROUP,
            h0@.len() == SECTORS_PER_GROUP,
            forall|i: int| 0 <= i < h0@.len() ==> (#[trigger] h0@[i])@ == h0_table(group@, i),
            h1@.len() == 8,
            forall|i: int| 0 <= i < 8 ==> (#[trigger] h1@[i])@ == h1_table(group@, i),
            h2@ == h2_table(group@),
            gap@ == zeros(0x14),
            tail@ == zeros(0x20),
            out@ == clusters(group@, k as int),
        decreases n - k,
    {
        let ghost before = out@;
        append_bytes(&mut out, h0[k].as_slice());
        append_bytes(&mut out, gap.as_slice());
        append_bytes(&mut out, h1[k / 8].as_slice());
        append_bytes(&mut out, tail.as_slice());
        append_bytes(&mut out, h2.as_slice());
        append_bytes(&mut out, tail.as_slice());
        let lo = k * CLUSTER_DATA;
        append_bytes(&mut out, slice_subrange(group, lo, lo + CLUSTER_DATA));
        assert(out@ =~= before + cluster(group@, k as int));
        k = k + 1;
    }
    let h3 = sha1(h2.as_slice());
    EncodedGroup { clusters: out, h3 }
}

/// Write a group's entry into the `H3` table.
pub fn put_h3_entry(table: &mut Vec<u8>, g: usize, h3: &[u8; 20])
    requires
        old(table)@.len() == H3_TABLE_SIZE,
        g < MAX_H3_GROUPS,
    ensures
        final(table)@ == place(old(table)@, g * 20, h3@),
{
    put(table, g * SHA1_LEN, h3.as_slice());
}

/// On the disc a cluster is 0x8000 bytes: behind 0x400 bytes of hashes its own 0x7C00 bytes of the
/// group. Between the three tables of hashes, and behind the last, stand zeros.
pub proof fn a_cluster_has_its_hashes_in_front(group: Seq<u8>, k: int, i: int)
    requires
        group.len() == 0x1F_0000,
        0 <= k < 64,
        0 <= i < 0x7C00,
    ensures
        ({
            let c = cluster(group, k);
            &&& c.len() == 0x8000
            &&& c[0x400 + i] == group[k * 0x7C00 + i]
            &&& forall|x: int|
                0x26C <= x < 0x280 || 0x320 <= x < 0x340 || 0x3E0 <= x < 0x400 ==> #[trigger] c[x]
                    == 0
        }),
{
    cluster_is_a_sector(group, k);
    lemma_h0_len(group, k, N_SUBBLOCKS as int);
    lemma_h1_len(group, k / 8, SECTORS_PER_SUBGROUP as int);
    lemma_h2_len(group, 8);
    let c = cluster(group, k);
    assert(c.skip(0x400)[i] == c[0x400 + i]);
    assert(cluster_data(group, k)[i] == group[k * 0x7C00 + i]);
}

/// The eight clusters of a subgroup have the same `H1` table, and all clusters of a group the same
/// `H2` table.
pub proof fn eight_clusters_share_their_hashes(group: Seq<u8>, k: int, x: int)
    requires
        group.len() == 0x1F_0000,
        0 <= k < 64,
        0 <= x < 64,
    ensures
        ({
            let (a, b) = (cluster(group, k), cluster(group, x));
            &&& k / 8 == x / 8 ==> a.subrange(0x280, 0x320) == b.subrange(0x280, 0x320)
            &&& a.subrange(0x340, 0x3E0) == b.subrange(0x340, 0x3E0)
        }),
{
    cluster_is_a_sector(group, k);
    cluster_is_a_sector(group, x);
    lemma_h0_len(group, k, N_SUBBLOCKS as int);
    lemma_h0_len(group, x, N_SUBBLOCKS as int);
    lemma_h1_len(group, k / 8, SECTORS_PER_SUBGROUP as int);
    lemma_h1_len(group, x / 8, SECTORS_PER_SUBGROUP as int);
    lemma_h2_len(group, 8);
    let (a, b) = (cluster(group, k), cluster(group, x));
    assert(a.subrange(0x280, 0x320) =~= h1_table(group, k / 8));
    assert(b.subrange(0x280, 0x320) =~= h1_table(group, x / 8));
    assert(a.subrange(0x340, 0x3E0) =~= h2_table(group));
    assert(b.subrange(0x340, 0x3E0) =~= h2_table(group));
}

} // verus!

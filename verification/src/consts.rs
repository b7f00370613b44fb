//! Sizes and offsets of the Wii partition and its hash tree, shared by the disc authoring, the
//! hash-tree and the ticket/TMD code.

use vstd::prelude::*;

verus! {

/// Bytes of one disc sector, and of one cluster of partition data.
pub const DISC_SECTOR_SIZE: usize = 0x8000;

/// Clusters per Wii hash group: 64 clusters share one `H3` table entry.
pub const SECTORS_PER_GROUP: usize = 64;

/// Size of a cluster's hash block (the `H0`/`H1`/`H2` tables) at the start of every cluster.
pub const HASH_BLOCK: usize = 0x400;

/// Bytes of real (non-hash) data per cluster: the cluster minus its hash block.
pub const CLUSTER_DATA: usize = 0x7C00;

/// Size of one `H0` sub-block: the unit the `H0` table hashes.
pub const SUBBLOCK: usize = 0x400;

/// Sub-blocks of data per cluster, which is the number of `H0` hashes.
pub const N_SUBBLOCKS: usize = 31;

/// Clusters per hash subgroup: 8 clusters share one `H1` table, 8 subgroups make a group.
pub const SECTORS_PER_SUBGROUP: usize = 8;

/// Bytes of a SHA-1 digest.
pub const SHA1_LEN: usize = 20;

/// The `H0` region at the start of a cluster's hash block: one SHA-1 per sub-block.
pub const H0_REGION: usize = 0x26C;

/// Offset of the subgroup's `H1` table within a cluster's hash block.
pub const H1_OFF: usize = 0x280;

/// Size of an `H1` table: one SHA-1 per cluster in the subgroup.
pub const H1_REGION: usize = 0xA0;

/// Offset of the group's `H2` table within a cluster's hash block.
pub const H2_OFF: usize = 0x340;

/// Size of an `H2` table: one SHA-1 per subgroup in the group.
pub const H2_REGION: usize = 0xA0;

/// Offset of the Wii TMD's single content-record hash (a SHA-1) within the TMD.
pub const TMD_CONTENT0_HASH: usize = 0x1F4;

/// First byte of the RSA-2048 signature of a Wii ticket or TMD.
pub const WII_SIG_START: usize = 0x004;

/// The byte after the RSA-2048 signature of a Wii ticket or TMD.
pub const WII_SIG_END: usize = 0x104;

} // verus!

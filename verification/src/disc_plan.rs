//! What the NFS packer is told about a disc.

use vstd::prelude::*;

verus! {

/// Bytes to be written over what a disc holds.
#[derive(Debug)]
pub struct ByteEdit {
    /// Where they go.
    pub offset: u64,
    pub bytes: Vec<u8>,
}

/// One partition of a disc, in sectors from the start of the disc.
#[derive(Debug)]
pub struct PartitionPlan {
    /// First sector of the partition.
    pub start_sector: u32,
    /// First sector of its data.
    pub data_start_sector: u32,
    /// The sector behind its data.
    pub data_end_sector: u32,
    /// Patches to the partition's header.
    pub header_patches: Vec<ByteEdit>,
    /// Edits to the partition's data.
    pub edits: Vec<ByteEdit>,
    /// The groups of data that are stored; without any, all are.
    pub stored_data_groups: Vec<u32>,
}

impl PartitionPlan {
    /// The partition is taken as it is, with all its data.
    pub open spec fn is_plain(&self) -> bool {
        &&& self.header_patches@.len() == 0
        &&& self.edits@.len() == 0
        &&& self.stored_data_groups@.len() == 0
    }
}

/// The partitions of a disc, and the content hash that the title's `rvlt.tmd` has to carry.
#[derive(Debug)]
pub struct DiscPlan {
    pub partitions: Vec<PartitionPlan>,
    /// Patches outside the partitions.
    pub disc_patches: Vec<ByteEdit>,
    pub rvlt_content_hash: Option<[u8; 20]>,
    /// Names of the patches that apply.
    pub applied: Vec<String>,
}

} // verus!

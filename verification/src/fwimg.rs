//! Byte-pattern patches for a base title's `fw.img`, the vWii firmware image.
//!
//! A fakesigned title needs the signature check of `fw.img` disabled; a title that boots homebrew
//! needs more. Each patch is applied where its signature is found and skipped where it is not: the
//! exact bytes vary by base title, and a missing pattern must never corrupt the image.
//!
//! Patches belong to groups. A group can have several signatures, and any one that matches satisfies
//! it; only a group without any match is worth a warning.

pub mod laws;

use crate::bytes::{part_at, place, put, stands_at};
use crate::text::same_text;
use vstd::prelude::*;

verus! {

/// A search-and-replace patch.
#[derive(Debug)]
pub struct BytePatch {
    /// Name of the patch.
    pub name: &'static str,
    /// The group that the patch belongs to.
    pub group: &'static str,
    /// The signature to look for.
    pub find: Vec<u8>,
    /// Where in a match [`Self::write`] goes.
    pub at: usize,
    /// The replacement.
    pub write: Vec<u8>,
    /// Whether every match is patched, or only the first.
    pub all: bool,
}

/// There is a signature, and the replacement stays within a match.
pub open spec fn patch_ok(p: BytePatch) -> bool {
    p.find@.len() > 0 && p.at + p.write@.len() <= p.find@.len()
}

/// Fakesign: clear the byte that keeps the signature check.
pub open spec fn is_fakesign_a(p: BytePatch) -> bool {
    &&& p.name@ == "fakesign"@
    &&& p.group@ == "fakesign"@
    &&& p.find@ == seq![0x20u8, 0x07, 0x23, 0xA2]
    &&& p.at == 1
    &&& p.write@ == seq![0x00u8]
    &&& p.all == true
}

/// Fakesign: clear the byte that keeps the signature check.
pub fn fakesign_a() -> (r: BytePatch)
    ensures
        is_fakesign_a(r),
        patch_ok(r),
{
    let find = vec![0x20u8, 0x07, 0x23, 0xA2];
    let write = vec![0x00u8];
    assert(find@ =~= seq![0x20u8, 0x07, 0x23, 0xA2]);
    assert(write@ =~= seq![0x00u8]);
    BytePatch { name: "fakesign", group: "fakesign", find, at: 1, write, all: true }
}

/// Fakesign, as other base titles have it.
pub open spec fn is_fakesign_b(p: BytePatch) -> bool {
    &&& p.name@ == "fakesign(alt)"@
    &&& p.group@ == "fakesign"@
    &&& p.find@ == seq![0x20u8, 0x07, 0x4B, 0x0B]
    &&& p.at == 1
    &&& p.write@ == seq![0x00u8]
    &&& p.all == true
}

/// Fakesign, as other base titles have it.
pub fn fakesign_b() -> (r: BytePatch)
    ensures
        is_fakesign_b(r),
        patch_ok(r),
{
    let find = vec![0x20u8, 0x07, 0x4B, 0x0B];
    let write = vec![0x00u8];
    assert(find@ =~= seq![0x20u8, 0x07, 0x4B, 0x0B]);
    assert(write@ =~= seq![0x00u8]);
    BytePatch { name: "fakesign(alt)", group: "fakesign", find, at: 1, write, all: true }
}

/// Disable AHBPROT, so that homebrew gets full hardware access.
pub open spec fn is_ahbprot(p: BytePatch) -> bool {
    &&& p.name@ == "AHBPROT-disable"@
    &&& p.group@ == "AHBPROT"@
    &&& p.find@ == seq![0xD0u8, 0x0B, 0x23, 0x08, 0x43, 0x13, 0x60, 0x0B]
    &&& p.at == 0
    &&& p.write@ == seq![0x46u8, 0xC0]
    &&& p.all == false
}

/// Disable AHBPROT, so that homebrew gets full hardware access.
pub fn ahbprot() -> (r: BytePatch)
    ensures
        is_ahbprot(r),
        patch_ok(r),
{
    let find = vec![0xD0u8, 0x0B, 0x23, 0x08, 0x43, 0x13, 0x60, 0x0B];
    let write = vec![0x46u8, 0xC0];
    assert(find@ =~= seq![0xD0u8, 0x0B, 0x23, 0x08, 0x43, 0x13, 0x60, 0x0B]);
    assert(write@ =~= seq![0x46u8, 0xC0]);
    BytePatch { name: "AHBPROT-disable", group: "AHBPROT", find, at: 0, write, all: false }
}

/// Disable MEMPROT.
pub open spec fn is_memprot(p: BytePatch) -> bool {
    &&& p.name@ == "MEMPROT-disable"@
    &&& p.group@ == "MEMPROT"@
    &&& p.find@ == seq![0x01u8, 0x94, 0xB5, 0x00, 0x4B, 0x08, 0x22, 0x01]
    &&& p.at == 6
    &&& p.write@ == seq![0x22u8, 0x00]
    &&& p.all == false
}

/// Disable MEMPROT.
pub fn memprot() -> (r: BytePatch)
    ensures
        is_memprot(r),
        patch_ok(r),
{
    let find = vec![0x01u8, 0x94, 0xB5, 0x00, 0x4B, 0x08, 0x22, 0x01];
    let write = vec![0x22u8, 0x00];
    assert(find@ =~= seq![0x01u8, 0x94, 0xB5, 0x00, 0x4B, 0x08, 0x22, 0x01]);
    assert(write@ =~= seq![0x22u8, 0x00]);
    BytePatch { name: "MEMPROT-disable", group: "MEMPROT", find, at: 6, write, all: false }
}

/// Wii Remote passthrough, first site.
pub open spec fn is_passthrough_1(p: BytePatch) -> bool {
    &&& p.name@ == "wiimote-passthrough-1"@
    &&& p.group@ == "wiimote-passthrough-1"@
    &&& p.find@ == seq![0x13u8, 0x8B, 0xB0, 0x20, 0x4B, 0x01, 0x68, 0x18, 0x47, 0x70, 0x00, 0x00, 0x13, 0x8B]
    &&& p.at == 6
    &&& p.write@ == seq![0x20u8, 0x00]
    &&& p.all == false
}

/// Wii Remote passthrough, first site.
pub fn passthrough_1() -> (r: BytePatch)
    ensures
        is_passthrough_1(r),
        patch_ok(r),
{
    let find = vec![0x13u8, 0x8B, 0xB0, 0x20, 0x4B, 0x01, 0x68, 0x18, 0x47, 0x70, 0x00, 0x00, 0x13, 0x8B];
    let write = vec![0x20u8, 0x00];
    assert(find@ =~= seq![0x13u8, 0x8B, 0xB0, 0x20, 0x4B, 0x01, 0x68, 0x18, 0x47, 0x70, 0x00, 0x00, 0x13, 0x8B]);
    assert(write@ =~= seq![0x20u8, 0x00]);
    BytePatch { name: "wiimote-passthrough-1", group: "wiimote-passthrough-1", find, at: 6, write, all: false }
}

/// Wii Remote passthrough, second site: branch to the passthrough helper.
pub open spec fn is_passthrough_2(p: BytePatch) -> bool {
    &&& p.name@ == "wiimote-passthrough-2"@
    &&& p.group@ == "wiimote-passthrough-2"@
    &&& p.find@ == seq![0x13u8, 0x8B, 0xB0, 0x68, 0xB5, 0x00, 0x28, 0x00, 0xD0, 0x03, 0x49, 0x02, 0x22, 0x09, 0xF0, 0x04, 0xFF, 0x1D, 0xBD, 0x00, 0x13, 0x8B, 0xA0, 0x04]
    &&& p.at == 6
    &&& p.write@ == seq![0xF0u8, 0x04, 0xFF, 0x21, 0x48, 0x02, 0x21, 0x09, 0xF0, 0x04, 0xFE, 0xF9]
    &&& p.all == false
}

/// Wii Remote passthrough, second site: branch to the passthrough helper.
pub fn passthrough_2() -> (r: BytePatch)
    ensures
        is_passthrough_2(r),
        patch_ok(r),
{
    let find = vec![0x13u8, 0x8B, 0xB0, 0x68, 0xB5, 0x00, 0x28, 0x00, 0xD0, 0x03, 0x49, 0x02, 0x22, 0x09, 0xF0, 0x04, 0xFF, 0x1D, 0xBD, 0x00, 0x13, 0x8B, 0xA0, 0x04];
    let write = vec![0xF0u8, 0x04, 0xFF, 0x21, 0x48, 0x02, 0x21, 0x09, 0xF0, 0x04, 0xFE, 0xF9];
    assert(find@ =~= seq![0x13u8, 0x8B, 0xB0, 0x68, 0xB5, 0x00, 0x28, 0x00, 0xD0, 0x03, 0x49, 0x02, 0x22, 0x09, 0xF0, 0x04, 0xFF, 0x1D, 0xBD, 0x00, 0x13, 0x8B, 0xA0, 0x04]);
    assert(write@ =~= seq![0xF0u8, 0x04, 0xFF, 0x21, 0x48, 0x02, 0x21, 0x09, 0xF0, 0x04, 0xFE, 0xF9]);
    BytePatch { name: "wiimote-passthrough-2", group: "wiimote-passthrough-2", find, at: 6, write, all: false }
}

/// Wii Remote passthrough, third site: retarget a call.
pub open spec fn is_passthrough_3(p: BytePatch) -> bool {
    &&& p.name@ == "wiimote-passthrough-3"@
    &&& p.group@ == "wiimote-passthrough-3"@
    &&& p.find@ == seq![0x1Cu8, 0x28, 0x46, 0x69, 0x22, 0x09, 0xF0, 0x01, 0xFA, 0xB9, 0x20, 0x00, 0xE7, 0xBE, 0x78, 0x63]
    &&& p.at == 6
    &&& p.write@ == seq![0xF7u8, 0xFC, 0xFB, 0x95]
    &&& p.all == false
}

/// Wii Remote passthrough, third site: retarget a call.
pub fn passthrough_3() -> (r: BytePatch)
    ensures
        is_passthrough_3(r),
        patch_ok(r),
{
    let find = vec![0x1Cu8, 0x28, 0x46, 0x69, 0x22, 0x09, 0xF0, 0x01, 0xFA, 0xB9, 0x20, 0x00, 0xE7, 0xBE, 0x78, 0x63];
    let write = vec![0xF7u8, 0xFC, 0xFB, 0x95];
    assert(find@ =~= seq![0x1Cu8, 0x28, 0x46, 0x69, 0x22, 0x09, 0xF0, 0x01, 0xFA, 0xB9, 0x20, 0x00, 0xE7, 0xBE, 0x78, 0x63]);
    assert(write@ =~= seq![0xF7u8, 0xFC, 0xFB, 0x95]);
    BytePatch { name: "wiimote-passthrough-3", group: "wiimote-passthrough-3", find, at: 6, write, all: false }
}

/// Nintendont input, first site: an ARM hook.
pub open spec fn is_nintendont_1(p: BytePatch) -> bool {
    &&& p.name@ == "nintendont-1"@
    &&& p.group@ == "nintendont-1"@
    &&& p.find@ == seq![0xFBu8, 0xF8, 0xFF, 0xFF, 0xFB, 0xF6, 0xB5, 0xF0, 0x46, 0x5F, 0x46, 0x56, 0x46, 0x4D, 0x46, 0x44, 0xB4, 0xF0, 0xB0, 0xBA, 0x1C, 0x0F, 0x1C, 0x15, 0x93, 0x18, 0x24, 0x00]
    &&& p.at == 6
    &&& p.write@ == seq![0xE5u8, 0x9F, 0x10, 0x04, 0xE5, 0x91, 0x00, 0x00, 0xE1, 0x2F, 0xFF, 0x10, 0x12, 0xFF, 0xFF, 0xE0]
    &&& p.all == false
}

/// Nintendont input, first site: an ARM hook.
pub fn nintendont_1() -> (r: BytePatch)
    ensures
        is_nintendont_1(r),
        patch_ok(r),
{
    let find = vec![0xFBu8, 0xF8, 0xFF, 0xFF, 0xFB, 0xF6, 0xB5, 0xF0, 0x46, 0x5F, 0x46, 0x56, 0x46, 0x4D, 0x46, 0x44, 0xB4, 0xF0, 0xB0, 0xBA, 0x1C, 0x0F, 0x1C, 0x15, 0x93, 0x18, 0x24, 0x00];
    let write = vec![0xE5u8, 0x9F, 0x10, 0x04, 0xE5, 0x91, 0x00, 0x00, 0xE1, 0x2F, 0xFF, 0x10, 0x12, 0xFF, 0xFF, 0xE0];
    assert(find@ =~= seq![0xFBu8, 0xF8, 0xFF, 0xFF, 0xFB, 0xF6, 0xB5, 0xF0, 0x46, 0x5F, 0x46, 0x56, 0x46, 0x4D, 0x46, 0x44, 0xB4, 0xF0, 0xB0, 0xBA, 0x1C, 0x0F, 0x1C, 0x15, 0x93, 0x18, 0x24, 0x00]);
    assert(write@ =~= seq![0xE5u8, 0x9F, 0x10, 0x04, 0xE5, 0x91, 0x00, 0x00, 0xE1, 0x2F, 0xFF, 0x10, 0x12, 0xFF, 0xFF, 0xE0]);
    BytePatch { name: "nintendont-1", group: "nintendont-1", find, at: 6, write, all: false }
}

/// Nintendont input, second site: a Thumb hook.
pub open spec fn is_nintendont_2(p: BytePatch) -> bool {
    &&& p.name@ == "nintendont-2"@
    &&& p.group@ == "nintendont-2"@
    &&& p.find@ == seq![0xF8u8, 0xF2, 0xF0, 0x00, 0xFF, 0x4E, 0x68, 0x4B, 0x2B, 0x06, 0xD1, 0x0C, 0x68, 0x8B, 0x2B, 0x00, 0xD1, 0x09, 0x68, 0xC8, 0x68, 0x42, 0x23, 0xA9, 0x00, 0x9B, 0x42, 0x9A, 0xD1, 0x03, 0x69, 0x02]
    &&& p.at == 6
    &&& p.write@ == seq![0x49u8, 0x01, 0x47, 0x88, 0x46, 0xC0, 0xE0, 0x01, 0x12, 0xFF, 0xFE, 0x00, 0x22, 0x00, 0x23, 0x01, 0x46, 0xC0, 0x46, 0xC0]
    &&& p.all == false
}

/// Nintendont input, second site: a Thumb hook.
pub fn nintendont_2() -> (r: BytePatch)
    ensures
        is_nintendont_2(r),
        patch_ok(r),
{
    let find = vec![0xF8u8, 0xF2, 0xF0, 0x00, 0xFF, 0x4E, 0x68, 0x4B, 0x2B, 0x06, 0xD1, 0x0C, 0x68, 0x8B, 0x2B, 0x00, 0xD1, 0x09, 0x68, 0xC8, 0x68, 0x42, 0x23, 0xA9, 0x00, 0x9B, 0x42, 0x9A, 0xD1, 0x03, 0x69, 0x02];
    let write = vec![0x49u8, 0x01, 0x47, 0x88, 0x46, 0xC0, 0xE0, 0x01, 0x12, 0xFF, 0xFE, 0x00, 0x22, 0x00, 0x23, 0x01, 0x46, 0xC0, 0x46, 0xC0];
    assert(find@ =~= seq![0xF8u8, 0xF2, 0xF0, 0x00, 0xFF, 0x4E, 0x68, 0x4B, 0x2B, 0x06, 0xD1, 0x0C, 0x68, 0x8B, 0x2B, 0x00, 0xD1, 0x09, 0x68, 0xC8, 0x68, 0x42, 0x23, 0xA9, 0x00, 0x9B, 0x42, 0x9A, 0xD1, 0x03, 0x69, 0x02]);
    assert(write@ =~= seq![0x49u8, 0x01, 0x47, 0x88, 0x46, 0xC0, 0xE0, 0x01, 0x12, 0xFF, 0xFE, 0x00, 0x22, 0x00, 0x23, 0x01, 0x46, 0xC0, 0x46, 0xC0]);
    BytePatch { name: "nintendont-2", group: "nintendont-2", find, at: 6, write, all: false }
}

/// Nintendont input, third site: the byte behind a marker.
pub open spec fn is_nintendont_3(p: BytePatch) -> bool {
    &&& p.name@ == "nintendont-3"@
    &&& p.group@ == "nintendont-3"@
    &&& p.find@ == seq![0x00u8, 0x00, 0x0F, 0x00, 0x00, 0x00, 0x02, 0x00, 0x00, 0x00, 0x00, 0xFF, 0xFF]
    &&& p.at == 6
    &&& p.write@ == seq![0x03u8]
    &&& p.all == false
}

/// Nintendont input, third site: the byte behind a marker.
pub fn nintendont_3() -> (r: BytePatch)
    ensures
        is_nintendont_3(r),
        patch_ok(r),
{
    let find = vec![0x00u8, 0x00, 0x0F, 0x00, 0x00, 0x00, 0x02, 0x00, 0x00, 0x00, 0x00, 0xFF, 0xFF];
    let write = vec![0x03u8];
    assert(find@ =~= seq![0x00u8, 0x00, 0x0F, 0x00, 0x00, 0x00, 0x02, 0x00, 0x00, 0x00, 0x00, 0xFF, 0xFF]);
    assert(write@ =~= seq![0x03u8]);
    BytePatch { name: "nintendont-3", group: "nintendont-3", find, at: 6, write, all: false }
}

/// The patches of an ordinary fakesigned title: both variants of the signature check.
pub open spec fn is_fakesign_patches(v: Seq<BytePatch>) -> bool {
    v.len() == 2 && is_fakesign_a(v[0]) && is_fakesign_b(v[1])
}

/// The patches of a title that boots homebrew: those of a fakesigned title, full hardware access,
/// and controller input.
pub open spec fn is_homebrew_patches(v: Seq<BytePatch>) -> bool {
    &&& v.len() == 10
    &&& is_fakesign_a(v[0]) && is_fakesign_b(v[1]) && is_ahbprot(v[2]) && is_memprot(v[3])
    &&& is_passthrough_1(v[4]) && is_passthrough_2(v[5]) && is_passthrough_3(v[6])
    &&& is_nintendont_1(v[7]) && is_nintendont_2(v[8]) && is_nintendont_3(v[9])
}

/// The patches of an ordinary fakesigned title.
pub fn fakesign_patches() -> (r: Vec<BytePatch>)
    ensures
        is_fakesign_patches(r@),
        all_ok(r@),
{
    let mut r: Vec<BytePatch> = Vec::new();
    r.push(fakesign_a());
    r.push(fakesign_b());
    r
}

/// The patches of a title that boots homebrew.
pub fn homebrew_patches() -> (r: Vec<BytePatch>)
    ensures
        is_homebrew_patches(r@),
        all_ok(r@),
{
    let mut r: Vec<BytePatch> = Vec::new();
    r.push(fakesign_a());
    r.push(fakesign_b());
    r.push(ahbprot());
    r.push(memprot());
    r.push(passthrough_1());
    r.push(passthrough_2());
    r.push(passthrough_3());
    r.push(nintendont_1());
    r.push(nintendont_2());
    r.push(nintendont_3());
    r
}

/// Every patch has a signature and stays within its matches.
pub open spec fn all_ok(patches: Seq<BytePatch>) -> bool {
    forall|i: int| 0 <= i < patches.len() ==> patch_ok(#[trigger] patches[i])
}

/// The signature stands somewhere in the data.
pub open spec fn occurs(data: Seq<u8>, find: Seq<u8>) -> bool {
    exists|i: int| #[trigger] part_at(data, find, i)
}

/// The search for every match of an empty signature has no end.
pub open spec fn endless(p: BytePatch) -> bool {
    p.find@.len() == 0 && p.all
}

/// Applying a patch from `from` on has an end, and every replacement lies within the data.
pub open spec fn runs_from(data: Seq<u8>, p: BytePatch, from: int) -> bool
    decreases data.len() - from + 1,
{
    if from < 0 || from + p.find@.len() > data.len() {
        true
    } else if endless(p) {
        false
    } else if part_at(data, p.find@, from) {
        &&& from + p.at + p.write@.len() <= data.len()
        &&& p.all ==> runs_from(place(data, from + p.at, p.write@), p, from + p.find@.len())
    } else {
        runs_from(data, p, from + 1)
    }
}

/// Applying the patches in their order has an end, and every replacement lies within the data.
pub open spec fn all_run(data: Seq<u8>, patches: Seq<BytePatch>) -> bool {
    forall|k: int|
        0 <= k < patches.len() ==> runs_from(
            all_patched(data, patches, k),
            #[trigger] patches[k],
            0,
        )
}

/// The data with a patch applied from `from` on: at the first match, or at every match, each looked
/// for behind the one before.
pub open spec fn patched_from(data: Seq<u8>, p: BytePatch, from: int) -> Seq<u8>
    decreases data.len() - from + 1,
{
    if from < 0 || from + p.find@.len() > data.len() || endless(p) {
        data
    } else if part_at(data, p.find@, from) {
        let next = place(data, from + p.at, p.write@);
        if p.all {
            patched_from(next, p, from + p.find@.len())
        } else {
            next
        }
    } else {
        patched_from(data, p, from + 1)
    }
}

/// The data with one patch applied.
pub open spec fn patched(data: Seq<u8>, p: BytePatch) -> Seq<u8> {
    patched_from(data, p, 0)
}

/// The data with the first `k` patches applied in their order.
pub open spec fn all_patched(data: Seq<u8>, patches: Seq<BytePatch>, k: int) -> Seq<u8>
    decreases k,
{
    if k <= 0 {
        data
    } else {
        patched(all_patched(data, patches, k - 1), patches[k - 1])
    }
}

/// The names of those of the first `k` patches whose signature was found.
pub open spec fn applied_names(data: Seq<u8>, patches: Seq<BytePatch>, k: int) -> Seq<Seq<char>>
    decreases k,
{
    if k <= 0 {
        Seq::empty()
    } else if occurs(all_patched(data, patches, k - 1), patches[k - 1].find@) {
        applied_names(data, patches, k - 1).push(patches[k - 1].name@)
    } else {
        applied_names(data, patches, k - 1)
    }
}

/// The values of a list of names.
pub open spec fn name_views(v: Seq<&str>) -> Seq<Seq<char>> {
    Seq::new(v.len(), |i: int| v[i]@)
}

pub(crate) proof fn lemma_patched_len(data: Seq<u8>, p: BytePatch, from: int)
    ensures
        patched_from(data, p, from).len() == data.len(),
    decreases data.len() - from + 1,
{
    if !(from < 0 || from + p.find@.len() > data.len() || endless(p)) {
        if part_at(data, p.find@, from) {
            if p.all {
                lemma_patched_len(place(data, from + p.at, p.write@), p, from + p.find@.len());
            }
        } else {
            lemma_patched_len(data, p, from + 1);
        }
    }
}

/// Patching never changes the length of the data.
pub proof fn patching_keeps_the_length(data: Seq<u8>, patches: Seq<BytePatch>, k: int)
    ensures
        all_patched(data, patches, k).len() == data.len(),
    decreases k,
{
    if k > 0 {
        patching_keeps_the_length(data, patches, k - 1);
        lemma_patched_len(all_patched(data, patches, k - 1), patches[k - 1], 0);
    }
}

proof fn lemma_no_match(data: Seq<u8>, p: BytePatch, from: int)
    requires
        !occurs(data, p.find@),
    ensures
        patched_from(data, p, from) == data,
    decreases data.len() - from + 1,
{
    if !(from < 0 || from + p.find@.len() > data.len() || endless(p)) {
        assert(!part_at(data, p.find@, from));
        lemma_no_match(data, p, from + 1);
    }
}

/// A patch whose signature is missing changes nothing.
pub proof fn missing_pattern_changes_nothing(data: Seq<u8>, p: BytePatch)
    requires
        !occurs(data, p.find@),
    ensures
        patched(data, p) == data,
{
    lemma_no_match(data, p, 0);
}

proof fn lemma_untouched(data: Seq<u8>, p: BytePatch, from: int, i: int)
    requires
        patch_ok(p),
        0 <= i < data.len(),
        0 <= from,
        forall|m: int|
            from <= m && m + p.at <= i < m + p.at + p.write@.len() ==> !#[trigger] part_at(
                data,
                p.find@,
                m,
            ),
    ensures
        patched_from(data, p, from)[i] == data[i],
    decreases data.len() - from + 1,
{
    if !(from + p.find@.len() > data.len()) {
        if part_at(data, p.find@, from) {
            let next = place(data, from + p.at, p.write@);
            assert(!(from + p.at <= i < from + p.at + p.write@.len()));
            assert(next[i] == data[i]);
            if p.all {
                let after = from + p.find@.len();
                assert forall|m: int|
                    after <= m && m + p.at <= i < m + p.at + p.write@.len() implies !#[trigger] part_at(
                    next,
                    p.find@,
                    m,
                ) by {
                    if part_at(next, p.find@, m) {
                        assert(next.subrange(m, m + p.find@.len()) =~= data.subrange(
                            m,
                            m + p.find@.len(),
                        ));
                        assert(part_at(data, p.find@, m));
                    }
                }
                lemma_untouched(next, p, after, i);
            }
        } else {
            lemma_untouched(data, p, from + 1, i);
        }
    }
}

/// A patch touches nothing but the replaced bytes of matches: a byte that lies in no match at the
/// place of the replacement stays as it is.
pub proof fn patch_touches_only_matches(data: Seq<u8>, p: BytePatch, i: int)
    requires
        patch_ok(p),
        0 <= i < data.len(),
        forall|m: int|
            0 <= m && m + p.at <= i < m + p.at + p.write@.len() ==> !#[trigger] part_at(
                data,
                p.find@,
                m,
            ),
    ensures
        patched(data, p)[i] == data[i],
{
    lemma_untouched(data, p, 0, i);
}

proof fn lemma_ok_runs(data: Seq<u8>, p: BytePatch, from: int)
    requires
        patch_ok(p),
    ensures
        runs_from(data, p, from),
    decreases data.len() - from + 1,
{
    if !(from < 0 || from + p.find@.len() > data.len()) {
        if part_at(data, p.find@, from) {
            lemma_ok_runs(place(data, from + p.at, p.write@), p, from + p.find@.len());
        } else {
            lemma_ok_runs(data, p, from + 1);
        }
    }
}

/// Patches that have a signature and stay within their matches can be applied to any data.
pub proof fn patches_within_matches_run(data: Seq<u8>, patches: Seq<BytePatch>)
    requires
        all_ok(patches),
    ensures
        all_run(data, patches),
{
    assert forall|k: int| 0 <= k < patches.len() implies runs_from(
        all_patched(data, patches, k),
        #[trigger] patches[k],
        0,
    ) by {
        lemma_ok_runs(all_patched(data, patches, k), patches[k], 0);
    }
}

fn apply_patch(data: &mut Vec<u8>, p: &BytePatch) -> (r: bool)
    requires
        runs_from(old(data)@, *p, 0),
    ensures
        final(data)@ == patched(old(data)@, *p),
        final(data)@.len() == old(data)@.len(),
        r == occurs(old(data)@, p.find@),
{
    let n = data.len();
    let m = p.find.len();
    let mut hit = false;
    let mut i: usize = 0;
    if m > n {
        assert forall|j: int| !#[trigger] part_at(data@, p.find@, j) by {}
        return false;
    }
    while i <= n - m
        invariant_except_break
            patched(old(data)@, *p) == patched_from(data@, *p, i as int),
            runs_from(data@, *p, i as int),
            !hit ==> data@ == old(data)@ && forall|j: int|
                j < i ==> !#[trigger] part_at(old(data)@, p.find@, j),
        invariant
            n == old(data)@.len(),
            data@.len() == n,
            m == p.find@.len(),
            m <= n,
            hit ==> occurs(old(data)@, p.find@),
            i <= n,
        ensures
            data@ == patched(old(data)@, *p),
            hit == occurs(old(data)@, p.find@),
        decreases n - i,
    {
        if stands_at(data.as_slice(), p.find.as_slice(), i) {
            if !hit {
                assert(part_at(old(data)@, p.find@, i as int));
            }
            put(data, i + p.at, p.write.as_slice());
            hit = true;
            if !p.all {
                break;
            }
            i = i + m;
        } else {
            if m == 0 {
                assert(data@.subrange(i as int, i as int) =~= p.find@);
            }
            i = i + 1;
        }
    }
    hit
}

/// Apply patches in their order and return the names of those whose signature was found. One whose
/// signature is missing is skipped.
pub fn apply_patches(data: &mut Vec<u8>, patches: &Vec<BytePatch>) -> (r: Vec<&'static str>)
    requires
        all_ok(patches@) || all_run(old(data)@, patches@),
    ensures
        final(data)@ == all_patched(old(data)@, patches@, patches@.len() as int),
        final(data)@.len() == old(data)@.len(),
        name_views(r@) == applied_names(old(data)@, patches@, patches@.len() as int),
{
    let ghost start = data@;
    proof {
        if all_ok(patches@) {
            patches_within_matches_run(start, patches@);
        }
    }
    let mut applied: Vec<&'static str> = Vec::new();
    let mut k: usize = 0;
    assert(name_views(applied@) =~= applied_names(start, patches@, 0));
    while k < patches.len()
        invariant
            k <= patches@.len(),
            start == old(data)@,
            all_run(start, patches@),
            data@.len() == start.len(),
            data@ == all_patched(start, patches@, k as int),
            name_views(applied@) == applied_names(start, patches@, k as int),
        decreases patches@.len() - k,
    {
        let ghost before = name_views(applied@);
        let p = &patches[k];
        if apply_patch(data, p) {
            applied.push(p.name);
            assert(name_views(applied@) =~= before.push(p.name@));
        }
        k = k + 1;
    }
    applied
}

/// Some patch of the group was applied.
pub open spec fn satisfied(
    patches: Seq<BytePatch>,
    applied: Seq<Seq<char>>,
    group: Seq<char>,
) -> bool {
    exists|i: int|
        0 <= i < patches.len() && (#[trigger] patches[i]).group@ == group && applied.contains(
            patches[i].name@,
        )
}

/// The groups of the first `k` patches that nothing satisfies, each once.
pub open spec fn unsatisfied(
    patches: Seq<BytePatch>,
    applied: Seq<Seq<char>>,
    k: int,
) -> Seq<Seq<char>>
    decreases k,
{
    if k <= 0 {
        Seq::empty()
    } else {
        let done = unsatisfied(patches, applied, k - 1);
        let group = patches[k - 1].group@;
        if satisfied(patches, applied, group) || done.contains(group) {
            done
        } else {
            done.push(group)
        }
    }
}

fn holds_name(names: &Vec<&'static str>, name: &str) -> (r: bool)
    ensures
        r == name_views(names@).contains(name@),
{
    let mut i: usize = 0;
    while i < names.len()
        invariant
            i <= names@.len(),
            forall|j: int| 0 <= j < i ==> (#[trigger] names@[j])@ != name@,
        decreases names@.len() - i,
    {
        if same_text(names[i], name) {
            assert(name_views(names@)[i as int] == name@);
            return true;
        }
        i = i + 1;
    }
    proof {
        if name_views(names@).contains(name@) {
            let j = choose|j: int| 0 <= j < names@.len() && name_views(names@)[j] == name@;
            assert(names@[j]@ == name@);
        }
    }
    false
}

fn is_satisfied(patches: &Vec<BytePatch>, applied: &Vec<&'static str>, group: &str) -> (r: bool)
    ensures
        r == satisfied(patches@, name_views(applied@), group@),
{
    let mut i: usize = 0;
    while i < patches.len()
        invariant
            i <= patches@.len(),
            forall|j: int|
                0 <= j < i ==> !((#[trigger] patches@[j]).group@ == group@ && name_views(
                    applied@,
                ).contains(patches@[j].name@)),
        decreases patches@.len() - i,
    {
        if same_text(patches[i].group, group) && holds_name(applied, patches[i].name) {
            return true;
        }
        i = i + 1;
    }
    false
}

/// The groups for which no patch was applied, each once, in the order of the patches.
pub fn unmatched_groups(patches: &Vec<BytePatch>, applied: &Vec<&'static str>) -> (r: Vec<
    &'static str,
>)
    ensures
        name_views(r@) == unsatisfied(patches@, name_views(applied@), patches@.len() as int),
{
    let ghost av = name_views(applied@);
    let mut out: Vec<&'static str> = Vec::new();
    let mut k: usize = 0;
    assert(name_views(out@) =~= unsatisfied(patches@, av, 0));
    while k < patches.len()
        invariant
            k <= patches@.len(),
            av == name_views(applied@),
            name_views(out@) == unsatisfied(patches@, av, k as int),
        decreases patches@.len() - k,
    {
        let ghost before = name_views(out@);
        let group = patches[k].group;
        if !is_satisfied(patches, applied, group) && !holds_name(&out, group) {
            out.push(group);
            assert(name_views(out@) =~= before.push(group@));
        }
        k = k + 1;
    }
    out
}

/// A group is reported exactly where it has a patch and none of its patches was applied, and no
/// group is reported twice.
pub proof fn unmatched_groups_are_those_without_a_match(
    patches: Seq<BytePatch>,
    applied: Seq<Seq<char>>,
    k: int,
    group: Seq<char>,
)
    requires
        0 <= k <= patches.len(),
    ensures
        unsatisfied(patches, applied, k).contains(group) <==> !satisfied(patches, applied, group)
            && exists|i: int| 0 <= i < k && (#[trigger] patches[i]).group@ == group,
        unsatisfied(patches, applied, k).no_duplicates(),
    decreases k,
{
    if k > 0 {
        let done = unsatisfied(patches, applied, k - 1);
        let last = patches[k - 1].group@;
        let all = unsatisfied(patches, applied, k);
        unmatched_groups_are_those_without_a_match(patches, applied, k - 1, group);
        unmatched_groups_are_those_without_a_match(patches, applied, k - 1, last);
        if all != done {
            assert(all == done.push(last));
            assert(all[done.len() as int] == last);
            if done.contains(group) {
                let j = choose|j: int| 0 <= j < done.len() && done[j] == group;
                assert(all[j] == group);
            }
            if all.contains(group) && group != last {
                let j = choose|j: int| 0 <= j < all.len() && all[j] == group;
                assert(done[j] == group);
            }
        }
        if last == group {
            assert(0 <= k - 1 < k && patches[k - 1].group@ == group);
        }
    }
}

/// What patching makes of a file.
#[derive(Debug)]
pub struct PatchedFile {
    /// The names of the patches that were applied.
    pub applied: Vec<&'static str>,
    /// What to write back, if anything was applied.
    pub rewritten: Option<Vec<u8>>,
    /// The groups for which nothing was applied.
    pub unmatched: Vec<&'static str>,
}

/// Patch the bytes of a file. It is written back only where a patch was applied.
pub fn patch_file(data: Vec<u8>, patches: &Vec<BytePatch>) -> (r: PatchedFile)
    requires
        all_ok(patches@) || all_run(data@, patches@),
    ensures
        ({
            let n = patches@.len() as int;
            let applied = applied_names(data@, patches@, n);
            &&& name_views(r.applied@) == applied
            &&& name_views(r.unmatched@) == unsatisfied(patches@, applied, n)
            &&& match r.rewritten {
                Some(v) => applied.len() > 0 && v@ == all_patched(data@, patches@, n),
                None => applied.len() == 0,
            }
        }),
{
    let mut data = data;
    let applied = apply_patches(&mut data, patches);
    let unmatched = unmatched_groups(patches, &applied);
    let rewritten = if applied.len() > 0 {
        Some(data)
    } else {
        None
    };
    PatchedFile { applied, rewritten, unmatched }
}

/// A file in which no signature is found stays as it is.
pub proof fn unmatched_file_is_left_alone(data: Seq<u8>, patches: Seq<BytePatch>, k: int)
    requires
        applied_names(data, patches, k).len() == 0,
    ensures
        all_patched(data, patches, k) == data,
    decreases k,
{
    if k > 0 {
        assert(applied_names(data, patches, k - 1).len() == 0);
        unmatched_file_is_left_alone(data, patches, k - 1);
        missing_pattern_changes_nothing(data, patches[k - 1]);
    }
}

/// The patch overwrites every match with a byte that its signature does not have, and the
/// signature's first byte stands nowhere else in it.
spec fn clears(p: BytePatch) -> bool {
    &&& p.all
    &&& p.at < p.find@.len()
    &&& p.write@.len() == 1
    &&& !p.find@.contains(p.write@[0])
    &&& forall|d: int| 1 <= d < p.find@.len() ==> #[trigger] p.find@[d] != p.find@[0]
}

/// A byte that a signature does not have makes no new match of it.
proof fn lemma_foreign_byte(data: Seq<u8>, find: Seq<u8>, at: int, z: u8, j: int)
    requires
        0 <= at < data.len(),
        !find.contains(z),
        part_at(place(data, at, seq![z]), find, j),
    ensures
        part_at(data, find, j),
        !(j <= at < j + find.len()),
{
    let next = place(data, at, seq![z]);
    let window = next.subrange(j, j + find.len());
    if j <= at < j + find.len() {
        assert(window[at - j] == z);
        assert(find[at - j] == z);
    }
    assert(window =~= data.subrange(j, j + find.len()));
}

proof fn lemma_no_new_match(data: Seq<u8>, p: BytePatch, find: Seq<u8>, from: int)
    requires
        p.write@.len() == 1,
        p.at < p.find@.len(),
        !find.contains(p.write@[0]),
        !occurs(data, find),
    ensures
        !occurs(patched_from(data, p, from), find),
    decreases data.len() - from + 1,
{
    if !(from < 0 || from + p.find@.len() > data.len() || endless(p)) {
        if part_at(data, p.find@, from) {
            let z = p.write@[0];
            let next = place(data, from + p.at, p.write@);
            assert(p.write@ =~= seq![z]);
            assert(!occurs(next, find)) by {
                assert forall|j: int| !#[trigger] part_at(next, find, j) by {
                    if part_at(next, find, j) {
                        lemma_foreign_byte(data, find, from + p.at, z, j);
                    }
                }
            }
            lemma_no_new_match(next, p, find, from + p.find@.len());
        } else {
            lemma_no_new_match(data, p, find, from + 1);
        }
    }
}

proof fn lemma_cleared(data: Seq<u8>, p: BytePatch, from: int)
    requires
        clears(p),
        0 <= from,
        forall|j: int| j < from ==> !#[trigger] part_at(data, p.find@, j),
    ensures
        !occurs(patched_from(data, p, from), p.find@),
    decreases data.len() - from + 1,
{
    let find = p.find@;
    if from + find.len() <= data.len() {
        if part_at(data, find, from) {
            let z = p.write@[0];
            let next = place(data, from + p.at, p.write@);
            assert(p.write@ =~= seq![z]);
            assert forall|j: int| j < from + find.len() implies !#[trigger] part_at(
                next,
                find,
                j,
            ) by {
                if part_at(next, find, j) {
                    lemma_foreign_byte(data, find, from + p.at, z, j);
                    assert(j > from);
                    assert(data.subrange(from, from + find.len())[j - from] == data[j]);
                    assert(data.subrange(j, j + find.len())[0] == data[j]);
                }
            }
            lemma_cleared(next, p, from + find.len());
        } else {
            lemma_cleared(data, p, from + 1);
        }
    }
}

/// Applying the fakesign patches to what they were applied to finds no signature and changes
/// nothing.
pub proof fn fakesigning_again_changes_nothing(data: Seq<u8>, patches: Seq<BytePatch>)
    requires
        is_fakesign_patches(patches),
    ensures
        ({
            let once = all_patched(data, patches, 2);
            &&& all_patched(once, patches, 2) == once
            &&& applied_names(once, patches, 2).len() == 0
        }),
{
    reveal_with_fuel(all_patched, 3);
    reveal_with_fuel(applied_names, 3);
    let (a, b) = (patches[0], patches[1]);
    assert(clears(a) && clears(b));
    let first = patched(data, a);
    let once = patched(first, b);
    lemma_cleared(data, a, 0);
    lemma_cleared(first, b, 0);
    lemma_no_new_match(first, b, a.find@, 0);
    missing_pattern_changes_nothing(once, a);
    missing_pattern_changes_nothing(once, b);
}

} // verus!

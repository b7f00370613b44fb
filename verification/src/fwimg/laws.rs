//! What the patches of `fw.img` come to, byte by byte.

use super::{
    all_patched, is_fakesign_a, is_fakesign_b, is_fakesign_patches, is_homebrew_patches,
    patch_ok, patch_touches_only_matches, patched, patched_from, BytePatch,
};
use crate::bytes::{part_at, place};
use vstd::prelude::*;

verus! {

/// The signature that patch `k` of a homebrew title looks for.
spec fn signature(k: int) -> Seq<u8> {
    if k == 0 {
        seq![0x20u8, 0x07, 0x23, 0xA2]
    } else if k == 1 {
        seq![0x20u8, 0x07, 0x4B, 0x0B]
    } else if k == 2 {
        seq![0xD0u8, 0x0B, 0x23, 0x08, 0x43, 0x13, 0x60, 0x0B]
    } else if k == 3 {
        seq![0x01u8, 0x94, 0xB5, 0x00, 0x4B, 0x08, 0x22, 0x01]
    } else if k == 4 {
        seq![0x13u8, 0x8B, 0xB0, 0x20, 0x4B, 0x01, 0x68, 0x18, 0x47, 0x70, 0x00, 0x00, 0x13, 0x8B]
    } else if k == 5 {
        seq![0x13u8, 0x8B, 0xB0, 0x68, 0xB5, 0x00, 0x28, 0x00, 0xD0, 0x03, 0x49, 0x02, 0x22, 0x09, 0xF0, 0x04, 0xFF, 0x1D, 0xBD, 0x00, 0x13, 0x8B, 0xA0, 0x04]
    } else if k == 6 {
        seq![0x1Cu8, 0x28, 0x46, 0x69, 0x22, 0x09, 0xF0, 0x01, 0xFA, 0xB9, 0x20, 0x00, 0xE7, 0xBE, 0x78, 0x63]
    } else if k == 7 {
        seq![0xFBu8, 0xF8, 0xFF, 0xFF, 0xFB, 0xF6, 0xB5, 0xF0, 0x46, 0x5F, 0x46, 0x56, 0x46, 0x4D, 0x46, 0x44, 0xB4, 0xF0, 0xB0, 0xBA, 0x1C, 0x0F, 0x1C, 0x15, 0x93, 0x18, 0x24, 0x00]
    } else if k == 8 {
        seq![0xF8u8, 0xF2, 0xF0, 0x00, 0xFF, 0x4E, 0x68, 0x4B, 0x2B, 0x06, 0xD1, 0x0C, 0x68, 0x8B, 0x2B, 0x00, 0xD1, 0x09, 0x68, 0xC8, 0x68, 0x42, 0x23, 0xA9, 0x00, 0x9B, 0x42, 0x9A, 0xD1, 0x03, 0x69, 0x02]
    } else {
        seq![0x00u8, 0x00, 0x0F, 0x00, 0x00, 0x00, 0x02, 0x00, 0x00, 0x00, 0x00, 0xFF, 0xFF]
    }
}

/// What patch `k` makes of its signature.
spec fn outcome(k: int) -> Seq<u8> {
    if k == 0 {
        seq![0x20u8, 0x00, 0x23, 0xA2]
    } else if k == 1 {
        seq![0x20u8, 0x00, 0x4B, 0x0B]
    } else if k == 2 {
        seq![0x46u8, 0xC0, 0x23, 0x08, 0x43, 0x13, 0x60, 0x0B]
    } else if k == 3 {
        seq![0x01u8, 0x94, 0xB5, 0x00, 0x4B, 0x08, 0x22, 0x00]
    } else if k == 4 {
        seq![0x13u8, 0x8B, 0xB0, 0x20, 0x4B, 0x01, 0x20, 0x00, 0x47, 0x70, 0x00, 0x00, 0x13, 0x8B]
    } else if k == 5 {
        seq![0x13u8, 0x8B, 0xB0, 0x68, 0xB5, 0x00, 0xF0, 0x04, 0xFF, 0x21, 0x48, 0x02, 0x21, 0x09, 0xF0, 0x04, 0xFE, 0xF9, 0xBD, 0x00, 0x13, 0x8B, 0xA0, 0x04]
    } else if k == 6 {
        seq![0x1Cu8, 0x28, 0x46, 0x69, 0x22, 0x09, 0xF7, 0xFC, 0xFB, 0x95, 0x20, 0x00, 0xE7, 0xBE, 0x78, 0x63]
    } else if k == 7 {
        seq![0xFBu8, 0xF8, 0xFF, 0xFF, 0xFB, 0xF6, 0xE5, 0x9F, 0x10, 0x04, 0xE5, 0x91, 0x00, 0x00, 0xE1, 0x2F, 0xFF, 0x10, 0x12, 0xFF, 0xFF, 0xE0, 0x1C, 0x15, 0x93, 0x18, 0x24, 0x00]
    } else if k == 8 {
        seq![0xF8u8, 0xF2, 0xF0, 0x00, 0xFF, 0x4E, 0x49, 0x01, 0x47, 0x88, 0x46, 0xC0, 0xE0, 0x01, 0x12, 0xFF, 0xFE, 0x00, 0x22, 0x00, 0x23, 0x01, 0x46, 0xC0, 0x46, 0xC0, 0x42, 0x9A, 0xD1, 0x03, 0x69, 0x02]
    } else {
        seq![0x00u8, 0x00, 0x0F, 0x00, 0x00, 0x00, 0x03, 0x00, 0x00, 0x00, 0x00, 0xFF, 0xFF]
    }
}

/// Where patch `k` writes in its signature, and how many bytes.
spec fn written(k: int) -> (int, int) {
    if k == 0 {
        (1, 1)
    } else     if k == 1 {
        (1, 1)
    } else     if k == 2 {
        (0, 2)
    } else     if k == 3 {
        (6, 2)
    } else     if k == 4 {
        (6, 2)
    } else     if k == 5 {
        (6, 12)
    } else     if k == 6 {
        (6, 4)
    } else     if k == 7 {
        (6, 16)
    } else     if k == 8 {
        (6, 20)
    } else {
        (6, 1)
    }
}

/// `p` is patch `k`.
spec fn is_patch(p: BytePatch, k: int) -> bool {
    &&& patch_ok(p)
    &&& p.find@ == signature(k)
    &&& (p.at as int, p.write@.len() as int) == written(k)
    &&& place(p.find@, p.at as int, p.write@) == outcome(k)
    &&& p.all == (k < 2)
}

proof fn lemma_is_patch(patches: Seq<BytePatch>, k: int)
    requires
        is_homebrew_patches(patches) || (is_fakesign_patches(patches) && k < 2),
        0 <= k < 10,
    ensures
        is_patch(patches[k], k),
{
    let p = patches[k];
    assert(place(p.find@, p.at as int, p.write@) =~= outcome(k));
}

/// The first `n` bytes of `s` stand in `data` at `at`.
spec fn spelled(data: Seq<u8>, s: Seq<u8>, at: int, n: int) -> bool
    decreases n,
{
    n <= 0 || (spelled(data, s, at, n - 1) && data[at + n - 1] == s[n - 1])
}

proof fn lemma_spelled(data: Seq<u8>, s: Seq<u8>, at: int, n: int)
    requires
        part_at(data, s, at),
        n <= s.len(),
    ensures
        spelled(data, s, at, n),
    decreases n,
{
    if n > 0 {
        lemma_spelled(data, s, at, n - 1);
        assert(data.subrange(at, at + s.len())[n - 1] == s[n - 1]);
    }
}

proof fn lemma_spelled_out(k: int, data: Seq<u8>, s: Seq<u8>, at: int)
    requires
        0 <= k < 10,
        s == signature(k) || s == outcome(k),
        part_at(data, s, at),
    ensures
        k == 0 ==> spelled(data, s, at, 4),
        k == 1 ==> spelled(data, s, at, 4),
        k == 2 ==> spelled(data, s, at, 8),
        k == 3 ==> spelled(data, s, at, 8),
        k == 4 ==> spelled(data, s, at, 14),
        k == 5 ==> spelled(data, s, at, 24),
        k == 6 ==> spelled(data, s, at, 16),
        k == 7 ==> spelled(data, s, at, 28),
        k == 8 ==> spelled(data, s, at, 32),
        k == 9 ==> spelled(data, s, at, 13),
{
    lemma_spelled(data, s, at, s.len() as int);
}

/// Patch `j`, applied at `q`, writes into the bytes of patch `k` at `r`.
spec fn meets(j: int, q: int, k: int, r: int) -> bool {
    let (at, n) = written(j);
    q + at < r + signature(k).len() && r < q + at + n
}

/// `f` at `q` is what patch `j` finds or leaves, `s` at `r` is what patch `k` is to find or has left,
/// in the order of the patches. What MEMPROT leaves ends with the byte that the third Nintendont
/// site begins with, so that pair is not one of them.
spec fn side_by_side(
    j: int,
    k: int,
    f: Seq<u8>,
    s: Seq<u8>,
    data: Seq<u8>,
    q: int,
    r: int,
) -> bool {
    &&& 0 <= j < 10
    &&& j != k
    &&& f == signature(j) || (j < k && f == outcome(j) && !(j == 3 && k == 9))
    &&& s == if j < k {
        signature(k)
    } else {
        outcome(k)
    }
    &&& part_at(data, f, q)
    &&& part_at(data, s, r)
}

#[verifier::spinoff_prover]
#[verifier::rlimit(40)]
proof fn lemma_clash_0(j: int, f: Seq<u8>, s: Seq<u8>, data: Seq<u8>, q: int, r: int)
    requires
        side_by_side(j, 0, f, s, data, q, r),
    ensures
        !meets(j, q, 0, r),
{
    lemma_spelled_out(j, data, f, q);
    lemma_spelled_out(0, data, s, r);
    reveal_with_fuel(spelled, 33);
}

#[verifier::spinoff_prover]
#[verifier::rlimit(40)]
proof fn lemma_clash_1(j: int, f: Seq<u8>, s: Seq<u8>, data: Seq<u8>, q: int, r: int)
    requires
        side_by_side(j, 1, f, s, data, q, r),
    ensures
        !meets(j, q, 1, r),
{
    lemma_spelled_out(j, data, f, q);
    lemma_spelled_out(1, data, s, r);
    reveal_with_fuel(spelled, 33);
}

#[verifier::spinoff_prover]
#[verifier::rlimit(40)]
proof fn lemma_clash_2(j: int, f: Seq<u8>, s: Seq<u8>, data: Seq<u8>, q: int, r: int)
    requires
        side_by_side(j, 2, f, s, data, q, r),
    ensures
        !meets(j, q, 2, r),
{
    lemma_spelled_out(j, data, f, q);
    lemma_spelled_out(2, data, s, r);
    reveal_with_fuel(spelled, 33);
}

#[verifier::spinoff_prover]
#[verifier::rlimit(40)]
proof fn lemma_clash_3(j: int, f: Seq<u8>, s: Seq<u8>, data: Seq<u8>, q: int, r: int)
    requires
        side_by_side(j, 3, f, s, data, q, r),
    ensures
        !meets(j, q, 3, r),
{
    lemma_spelled_out(j, data, f, q);
    lemma_spelled_out(3, data, s, r);
    reveal_with_fuel(spelled, 33);
}

#[verifier::spinoff_prover]
#[verifier::rlimit(40)]
proof fn lemma_clash_4(j: int, f: Seq<u8>, s: Seq<u8>, data: Seq<u8>, q: int, r: int)
    requires
        side_by_side(j, 4, f, s, data, q, r),
    ensures
        !meets(j, q, 4, r),
{
    lemma_spelled_out(j, data, f, q);
    lemma_spelled_out(4, data, s, r);
    reveal_with_fuel(spelled, 33);
}

#[verifier::spinoff_prover]
#[verifier::rlimit(40)]
proof fn lemma_clash_5(j: int, f: Seq<u8>, s: Seq<u8>, data: Seq<u8>, q: int, r: int)
    requires
        side_by_side(j, 5, f, s, data, q, r),
    ensures
        !meets(j, q, 5, r),
{
    lemma_spelled_out(j, data, f, q);
    lemma_spelled_out(5, data, s, r);
    reveal_with_fuel(spelled, 33);
}

#[verifier::spinoff_prover]
#[verifier::rlimit(40)]
proof fn lemma_clash_6(j: int, f: Seq<u8>, s: Seq<u8>, data: Seq<u8>, q: int, r: int)
    requires
        side_by_side(j, 6, f, s, data, q, r),
    ensures
        !meets(j, q, 6, r),
{
    lemma_spelled_out(j, data, f, q);
    lemma_spelled_out(6, data, s, r);
    reveal_with_fuel(spelled, 33);
}

#[verifier::spinoff_prover]
#[verifier::rlimit(40)]
proof fn lemma_clash_7(j: int, f: Seq<u8>, s: Seq<u8>, data: Seq<u8>, q: int, r: int)
    requires
        side_by_side(j, 7, f, s, data, q, r),
    ensures
        !meets(j, q, 7, r),
{
    lemma_spelled_out(j, data, f, q);
    lemma_spelled_out(7, data, s, r);
    reveal_with_fuel(spelled, 33);
}

#[verifier::spinoff_prover]
#[verifier::rlimit(40)]
proof fn lemma_clash_8(j: int, f: Seq<u8>, s: Seq<u8>, data: Seq<u8>, q: int, r: int)
    requires
        side_by_side(j, 8, f, s, data, q, r),
    ensures
        !meets(j, q, 8, r),
{
    lemma_spelled_out(j, data, f, q);
    lemma_spelled_out(8, data, s, r);
    reveal_with_fuel(spelled, 33);
}

#[verifier::spinoff_prover]
#[verifier::rlimit(40)]
proof fn lemma_clash_9(j: int, f: Seq<u8>, s: Seq<u8>, data: Seq<u8>, q: int, r: int)
    requires
        side_by_side(j, 9, f, s, data, q, r),
    ensures
        !meets(j, q, 9, r),
{
    lemma_spelled_out(j, data, f, q);
    lemma_spelled_out(9, data, s, r);
    reveal_with_fuel(spelled, 33);
}

/// The bytes of two patches never overlap where one of them is written.
proof fn lemma_clash(j: int, k: int, f: Seq<u8>, s: Seq<u8>, data: Seq<u8>, q: int, r: int)
    requires
        0 <= k < 10,
        side_by_side(j, k, f, s, data, q, r),
    ensures
        !meets(j, q, k, r),
{
    if k == 0 {
        lemma_clash_0(j, f, s, data, q, r);
    } else if k == 1 {
        lemma_clash_1(j, f, s, data, q, r);
    } else if k == 2 {
        lemma_clash_2(j, f, s, data, q, r);
    } else if k == 3 {
        lemma_clash_3(j, f, s, data, q, r);
    } else if k == 4 {
        lemma_clash_4(j, f, s, data, q, r);
    } else if k == 5 {
        lemma_clash_5(j, f, s, data, q, r);
    } else if k == 6 {
        lemma_clash_6(j, f, s, data, q, r);
    } else if k == 7 {
        lemma_clash_7(j, f, s, data, q, r);
    } else if k == 8 {
        lemma_clash_8(j, f, s, data, q, r);
    } else {
        lemma_clash_9(j, f, s, data, q, r);
    }
}

proof fn lemma_same_window(a: Seq<u8>, b: Seq<u8>, s: Seq<u8>, r: int)
    requires
        a.len() == b.len(),
        forall|i: int| r <= i < r + s.len() && 0 <= i < a.len() ==> #[trigger] a[i] == b[i],
    ensures
        part_at(a, s, r) == part_at(b, s, r),
{
    if 0 <= r && r + s.len() <= a.len() {
        assert(a.subrange(r, r + s.len()) =~= b.subrange(r, r + s.len()));
    }
}

proof fn lemma_outcome_stands(data: Seq<u8>, p: BytePatch, k: int, q: int)
    requires
        is_patch(p, k),
        part_at(data, p.find@, q),
    ensures
        part_at(place(data, q + p.at, p.write@), outcome(k), q),
{
    let next = place(data, q + p.at, p.write@);
    let n = p.find@.len();
    assert forall|i: int| 0 <= i < n implies #[trigger] next.subrange(q, q + n)[i] == outcome(k)[i] by {
        assert(data.subrange(q, q + n)[i] == p.find@[i]);
    }
    assert(next.subrange(q, q + n) =~= outcome(k));
}

/// An earlier patch neither removes nor makes a match of a later one.
proof fn lemma_keeps(data: Seq<u8>, p: BytePatch, j: int, k: int, from: int, r: int)
    requires
        0 <= j < k < 10,
        !(j == 3 && k == 9),
        is_patch(p, j),
        0 <= from,
    ensures
        part_at(patched_from(data, p, from), signature(k), r) == part_at(data, signature(k), r),
    decreases data.len() - from + 1,
{
    let s = signature(k);
    if from + p.find@.len() <= data.len() {
        if part_at(data, p.find@, from) {
            let next = place(data, from + p.at, p.write@);
            lemma_outcome_stands(data, p, j, from);
            if part_at(data, s, r) {
                lemma_clash(j, k, signature(j), s, data, from, r);
            }
            if part_at(next, s, r) {
                lemma_clash(j, k, outcome(j), s, next, from, r);
            }
            if !meets(j, from, k, r) {
                lemma_same_window(data, next, s, r);
            }
            if p.all {
                lemma_keeps(next, p, j, k, from + p.find@.len(), r);
            }
        } else {
            lemma_keeps(data, p, j, k, from + 1, r);
        }
    }
}

/// A later patch leaves alone what an earlier one has made of its signature.
proof fn lemma_spares(data: Seq<u8>, p: BytePatch, j: int, k: int, from: int, r: int)
    requires
        0 <= k < j < 10,
        is_patch(p, j),
        0 <= from,
        part_at(data, outcome(k), r),
    ensures
        part_at(patched_from(data, p, from), outcome(k), r),
    decreases data.len() - from + 1,
{
    if from + p.find@.len() <= data.len() {
        if part_at(data, p.find@, from) {
            let next = place(data, from + p.at, p.write@);
            lemma_clash(j, k, signature(j), outcome(k), data, from, r);
            lemma_same_window(data, next, outcome(k), r);
            if p.all {
                lemma_spares(next, p, j, k, from + p.find@.len(), r);
            }
        } else {
            lemma_spares(data, p, j, k, from + 1, r);
        }
    }
}

proof fn lemma_kept_until(data: Seq<u8>, patches: Seq<BytePatch>, k: int, n: int, r: int)
    requires
        is_homebrew_patches(patches),
        0 <= n <= k < 10,
        k == 9 ==> n <= 3,
    ensures
        part_at(all_patched(data, patches, n), signature(k), r) == part_at(data, signature(k), r),
    decreases n,
{
    if n > 0 {
        lemma_kept_until(data, patches, k, n - 1, r);
        lemma_is_patch(patches, n - 1);
        lemma_keeps(all_patched(data, patches, n - 1), patches[n - 1], n - 1, k, 0, r);
    }
}

proof fn lemma_spared_since(data: Seq<u8>, patches: Seq<BytePatch>, k: int, n: int, r: int)
    requires
        is_homebrew_patches(patches),
        0 <= k < n <= 10,
        part_at(all_patched(data, patches, k + 1), outcome(k), r),
    ensures
        part_at(all_patched(data, patches, n), outcome(k), r),
    decreases n,
{
    if n > k + 1 {
        lemma_spared_since(data, patches, k, n - 1, r);
        lemma_is_patch(patches, n - 1);
        lemma_spares(all_patched(data, patches, n - 1), patches[n - 1], n - 1, k, 0, r);
    }
}

/// `s` stands in the data at `m`, and nowhere before.
pub open spec fn first_at(data: Seq<u8>, s: Seq<u8>, m: int) -> bool {
    part_at(data, s, m) && forall|j: int| j < m ==> !#[trigger] part_at(data, s, j)
}

proof fn lemma_first(data: Seq<u8>, p: BytePatch, from: int, m: int)
    requires
        !p.all,
        first_at(data, p.find@, m),
        0 <= from <= m,
    ensures
        patched_from(data, p, from) == place(data, m + p.at, p.write@),
    decreases m - from,
{
    if from < m {
        assert(!part_at(data, p.find@, from));
        lemma_first(data, p, from + 1, m);
    }
}

/// Patch `k`, applied among all patches, makes its outcome of the first match of its signature.
proof fn lemma_lands(data: Seq<u8>, patches: Seq<BytePatch>, k: int, m: int)
    requires
        is_homebrew_patches(patches),
        2 <= k < 9,
        first_at(data, signature(k), m),
    ensures
        all_patched(data, patches, 10).subrange(m, m + signature(k).len()) == outcome(k),
        patched(data, patches[k]) == place(data, m + patches[k].at, patches[k].write@),
{
    let before = all_patched(data, patches, k);
    let p = patches[k];
    lemma_is_patch(patches, k);
    lemma_kept_until(data, patches, k, k, m);
    assert forall|j: int| j < m implies !#[trigger] part_at(before, signature(k), j) by {
        lemma_kept_until(data, patches, k, k, j);
        assert(!part_at(data, signature(k), j));
    }
    lemma_first(before, p, 0, m);
    lemma_first(data, p, 0, m);
    lemma_outcome_stands(before, p, k, m);
    lemma_spared_since(data, patches, k, 10, m);
}

/// Disabling AHBPROT makes `46 C0` of the first two bytes of the first match, and keeps the rest of it, whatever the
/// other patches of the set find. By itself the patch touches nothing else: later matches stay.
pub proof fn ahbprot_lands_in_its_match(data: Seq<u8>, patches: Seq<BytePatch>, m: int)
    requires
        is_homebrew_patches(patches),
        first_at(
            data,
            seq![0xD0u8, 0x0B, 0x23, 0x08, 0x43, 0x13, 0x60, 0x0B],
            m,
        ),
    ensures
        all_patched(data, patches, 10).subrange(m, m + 8)
            == seq![0x46u8, 0xC0, 0x23, 0x08, 0x43, 0x13, 0x60, 0x0B],
        patched(data, patches[2]) == place(
            data,
            m + 0,
            seq![0x46u8, 0xC0],
        ),
{
    lemma_lands(data, patches, 2, m);
}

/// Disabling MEMPROT makes `22 00` of the last two bytes of the first match, and keeps the rest of it, whatever the
/// other patches of the set find. By itself the patch touches nothing else: later matches stay.
pub proof fn memprot_lands_in_its_match(data: Seq<u8>, patches: Seq<BytePatch>, m: int)
    requires
        is_homebrew_patches(patches),
        first_at(
            data,
            seq![0x01u8, 0x94, 0xB5, 0x00, 0x4B, 0x08, 0x22, 0x01],
            m,
        ),
    ensures
        all_patched(data, patches, 10).subrange(m, m + 8)
            == seq![0x01u8, 0x94, 0xB5, 0x00, 0x4B, 0x08, 0x22, 0x00],
        patched(data, patches[3]) == place(
            data,
            m + 6,
            seq![0x22u8, 0x00],
        ),
{
    lemma_lands(data, patches, 3, m);
}

/// The first passthrough site: `20 00` stands from the seventh byte of the first match on, and the
/// rest of the match is kept, whatever the
/// other patches of the set find. By itself the patch touches nothing else: later matches stay.
pub proof fn passthrough_1_lands_in_its_match(data: Seq<u8>, patches: Seq<BytePatch>, m: int)
    requires
        is_homebrew_patches(patches),
        first_at(
            data,
            seq![0x13u8, 0x8B, 0xB0, 0x20, 0x4B, 0x01, 0x68, 0x18, 0x47, 0x70, 0x00, 0x00, 0x13, 0x8B],
            m,
        ),
    ensures
        all_patched(data, patches, 10).subrange(m, m + 14)
            == seq![0x13u8, 0x8B, 0xB0, 0x20, 0x4B, 0x01, 0x20, 0x00, 0x47, 0x70, 0x00, 0x00, 0x13, 0x8B],
        patched(data, patches[4]) == place(
            data,
            m + 6,
            seq![0x20u8, 0x00],
        ),
{
    lemma_lands(data, patches, 4, m);
}

/// The second passthrough site: the branch stands from the seventh byte of the first match on, and
/// the rest of the match is kept, whatever the
/// other patches of the set find. By itself the patch touches nothing else: later matches stay.
pub proof fn passthrough_2_lands_in_its_match(data: Seq<u8>, patches: Seq<BytePatch>, m: int)
    requires
        is_homebrew_patches(patches),
        first_at(
            data,
            seq![0x13u8, 0x8B, 0xB0, 0x68, 0xB5, 0x00, 0x28, 0x00, 0xD0, 0x03, 0x49, 0x02, 0x22, 0x09, 0xF0, 0x04, 0xFF, 0x1D, 0xBD, 0x00, 0x13, 0x8B, 0xA0, 0x04],
            m,
        ),
    ensures
        all_patched(data, patches, 10).subrange(m, m + 24)
            == seq![0x13u8, 0x8B, 0xB0, 0x68, 0xB5, 0x00, 0xF0, 0x04, 0xFF, 0x21, 0x48, 0x02, 0x21, 0x09, 0xF0, 0x04, 0xFE, 0xF9, 0xBD, 0x00, 0x13, 0x8B, 0xA0, 0x04],
        patched(data, patches[5]) == place(
            data,
            m + 6,
            seq![0xF0u8, 0x04, 0xFF, 0x21, 0x48, 0x02, 0x21, 0x09, 0xF0, 0x04, 0xFE, 0xF9],
        ),
{
    lemma_lands(data, patches, 5, m);
}

/// The third passthrough site: the new call stands from the seventh byte of the first match on, and
/// the rest of the match is kept, whatever the
/// other patches of the set find. By itself the patch touches nothing else: later matches stay.
pub proof fn passthrough_3_lands_in_its_match(data: Seq<u8>, patches: Seq<BytePatch>, m: int)
    requires
        is_homebrew_patches(patches),
        first_at(
            data,
            seq![0x1Cu8, 0x28, 0x46, 0x69, 0x22, 0x09, 0xF0, 0x01, 0xFA, 0xB9, 0x20, 0x00, 0xE7, 0xBE, 0x78, 0x63],
            m,
        ),
    ensures
        all_patched(data, patches, 10).subrange(m, m + 16)
            == seq![0x1Cu8, 0x28, 0x46, 0x69, 0x22, 0x09, 0xF7, 0xFC, 0xFB, 0x95, 0x20, 0x00, 0xE7, 0xBE, 0x78, 0x63],
        patched(data, patches[6]) == place(
            data,
            m + 6,
            seq![0xF7u8, 0xFC, 0xFB, 0x95],
        ),
{
    lemma_lands(data, patches, 6, m);
}

/// The first Nintendont site: the ARM hook stands from the seventh byte of the first match on, and
/// the rest of the match is kept, whatever the
/// other patches of the set find. By itself the patch touches nothing else: later matches stay.
pub proof fn nintendont_1_lands_in_its_match(data: Seq<u8>, patches: Seq<BytePatch>, m: int)
    requires
        is_homebrew_patches(patches),
        first_at(
            data,
            seq![0xFBu8, 0xF8, 0xFF, 0xFF, 0xFB, 0xF6, 0xB5, 0xF0, 0x46, 0x5F, 0x46, 0x56, 0x46, 0x4D, 0x46, 0x44, 0xB4, 0xF0, 0xB0, 0xBA, 0x1C, 0x0F, 0x1C, 0x15, 0x93, 0x18, 0x24, 0x00],
            m,
        ),
    ensures
        all_patched(data, patches, 10).subrange(m, m + 28)
            == seq![0xFBu8, 0xF8, 0xFF, 0xFF, 0xFB, 0xF6, 0xE5, 0x9F, 0x10, 0x04, 0xE5, 0x91, 0x00, 0x00, 0xE1, 0x2F, 0xFF, 0x10, 0x12, 0xFF, 0xFF, 0xE0, 0x1C, 0x15, 0x93, 0x18, 0x24, 0x00],
        patched(data, patches[7]) == place(
            data,
            m + 6,
            seq![0xE5u8, 0x9F, 0x10, 0x04, 0xE5, 0x91, 0x00, 0x00, 0xE1, 0x2F, 0xFF, 0x10, 0x12, 0xFF, 0xFF, 0xE0],
        ),
{
    lemma_lands(data, patches, 7, m);
}

/// The second Nintendont site: the Thumb hook stands from the seventh byte of the first match on,
/// and the rest of the match is kept, whatever the
/// other patches of the set find. By itself the patch touches nothing else: later matches stay.
pub proof fn nintendont_2_lands_in_its_match(data: Seq<u8>, patches: Seq<BytePatch>, m: int)
    requires
        is_homebrew_patches(patches),
        first_at(
            data,
            seq![0xF8u8, 0xF2, 0xF0, 0x00, 0xFF, 0x4E, 0x68, 0x4B, 0x2B, 0x06, 0xD1, 0x0C, 0x68, 0x8B, 0x2B, 0x00, 0xD1, 0x09, 0x68, 0xC8, 0x68, 0x42, 0x23, 0xA9, 0x00, 0x9B, 0x42, 0x9A, 0xD1, 0x03, 0x69, 0x02],
            m,
        ),
    ensures
        all_patched(data, patches, 10).subrange(m, m + 32)
            == seq![0xF8u8, 0xF2, 0xF0, 0x00, 0xFF, 0x4E, 0x49, 0x01, 0x47, 0x88, 0x46, 0xC0, 0xE0, 0x01, 0x12, 0xFF, 0xFE, 0x00, 0x22, 0x00, 0x23, 0x01, 0x46, 0xC0, 0x46, 0xC0, 0x42, 0x9A, 0xD1, 0x03, 0x69, 0x02],
        patched(data, patches[8]) == place(
            data,
            m + 6,
            seq![0x49u8, 0x01, 0x47, 0x88, 0x46, 0xC0, 0xE0, 0x01, 0x12, 0xFF, 0xFE, 0x00, 0x22, 0x00, 0x23, 0x01, 0x46, 0xC0, 0x46, 0xC0],
        ),
{
    lemma_lands(data, patches, 8, m);
}

/// The MEMPROT signature first stands at `q`, and behind it stands what the third Nintendont site has
/// behind its first byte. Disabling MEMPROT clears the byte before that, which makes a match.
pub open spec fn memprot_makes_a_site(data: Seq<u8>, q: int) -> bool {
    first_at(data, seq![0x01u8, 0x94, 0xB5, 0x00, 0x4B, 0x08, 0x22, 0x01], q) && part_at(
        data,
        seq![0x01u8, 0x94, 0xB5, 0x00, 0x4B, 0x08, 0x22, 0x01, 0x00, 0x0F, 0x00, 0x00, 0x00, 0x02, 0x00, 0x00, 0x00, 0x00, 0xFF, 0xFF],
        q,
    )
}

/// A MEMPROT signature that runs on as the third Nintendont site without its first byte, which is the
/// byte that MEMPROT leaves behind.
spec fn run_on() -> Seq<u8> {
    seq![0x01u8, 0x94, 0xB5, 0x00, 0x4B, 0x08, 0x22, 0x01, 0x00, 0x0F, 0x00, 0x00, 0x00, 0x02, 0x00, 0x00, 0x00, 0x00, 0xFF, 0xFF]
}

proof fn lemma_run_on_clash(j: int, data: Seq<u8>, q: int, r: int)
    requires
        0 <= j < 3,
        part_at(data, outcome(j), q),
        part_at(data, run_on(), r),
    ensures
        ({
            let (at, n) = written(j);
            !(q + at < r + 20 && r < q + at + n)
        }),
{
    lemma_spelled_out(j, data, outcome(j), q);
    lemma_spelled(data, run_on(), r, 20);
    reveal_with_fuel(spelled, 21);
}

proof fn lemma_run_on_not_made(data: Seq<u8>, p: BytePatch, j: int, from: int, r: int)
    requires
        0 <= j < 3,
        is_patch(p, j),
        0 <= from,
        part_at(patched_from(data, p, from), run_on(), r),
    ensures
        part_at(data, run_on(), r),
    decreases data.len() - from + 1,
{
    if from + p.find@.len() <= data.len() {
        if part_at(data, p.find@, from) {
            let next = place(data, from + p.at, p.write@);
            if p.all {
                lemma_run_on_not_made(next, p, j, from + p.find@.len(), r);
            }
            lemma_outcome_stands(data, p, j, from);
            lemma_run_on_clash(j, next, from, r);
            lemma_same_window(data, next, run_on(), r);
        } else {
            lemma_run_on_not_made(data, p, j, from + 1, r);
        }
    }
}

proof fn lemma_made_by_memprot(data: Seq<u8>, q: int, r: int)
    requires
        part_at(data, outcome(3), q),
        part_at(data, signature(9), r),
        meets(3, q, 9, r),
    ensures
        r == q + 7,
{
    lemma_spelled_out(3, data, outcome(3), q);
    lemma_spelled_out(9, data, signature(9), r);
    reveal_with_fuel(spelled, 14);
}

proof fn lemma_run_on(data: Seq<u8>, next: Seq<u8>, q: int)
    requires
        part_at(data, signature(3), q),
        next == place(data, q + 6, seq![0x22u8, 0x00]),
        part_at(next, signature(9), q + 7),
    ensures
        part_at(data, run_on(), q),
{
    let r = q + 7;
    let t = data.subrange(q, q + 20);
    assert forall|i: int| 0 <= i < 20 implies #[trigger] t[i] == run_on()[i] by {
        if i < 8 {
            assert(data.subrange(q, q + 8)[i] == signature(3)[i]);
        } else {
            assert(next.subrange(r, r + 13)[i - 7] == signature(9)[i - 7]);
            assert(next[q + i] == data[q + i]);
        }
    }
    assert(t =~= run_on());
}

/// Disabling MEMPROT leaves the third Nintendont site where it first stands.
proof fn lemma_past_memprot(data: Seq<u8>, patches: Seq<BytePatch>, m: int)
    requires
        is_homebrew_patches(patches),
        first_at(data, signature(9), m),
        forall|q: int| q < m ==> !#[trigger] memprot_makes_a_site(data, q),
    ensures
        first_at(all_patched(data, patches, 4), signature(9), m),
{
    reveal_with_fuel(all_patched, 4);
    let before = all_patched(data, patches, 3);
    let p = patches[3];
    let s = signature(9);
    lemma_is_patch(patches, 3);
    assert(p.write@ == seq![0x22u8, 0x00]);
    assert forall|r: int| part_at(before, s, r) == #[trigger] part_at(data, s, r) by {
        lemma_kept_until(data, patches, 9, 3, r);
    }
    assert forall|r: int|
        part_at(before, signature(3), r) == #[trigger] part_at(data, signature(3), r) by {
        lemma_kept_until(data, patches, 3, 3, r);
    }
    assert(part_at(before, s, m) == part_at(data, s, m));
    if super::occurs(before, p.find@) {
        let q = lemma_has_first(before, p.find@);
        lemma_first(before, p, 0, q);
        let next = place(before, q + 6, p.write@);
        lemma_outcome_stands(before, p, 3, q);
        lemma_clash(3, 9, signature(3), s, before, q, m);
        lemma_same_window(before, next, s, m);
        assert forall|r: int| r < m implies !#[trigger] part_at(next, s, r) by {
            assert(!part_at(data, s, r));
            if part_at(next, s, r) {
                if meets(3, q, 9, r) {
                    lemma_made_by_memprot(next, q, r);
                    lemma_run_on(before, next, q);
                    lemma_is_patch(patches, 0);
                    lemma_is_patch(patches, 1);
                    lemma_is_patch(patches, 2);
                    lemma_run_on_not_made(all_patched(data, patches, 2), patches[2], 2, 0, q);
                    lemma_run_on_not_made(all_patched(data, patches, 1), patches[1], 1, 0, q);
                    lemma_run_on_not_made(data, patches[0], 0, 0, q);
                    assert(part_at(data, signature(3), q));
                    assert forall|j: int| j < q implies !#[trigger] part_at(
                        data,
                        signature(3),
                        j,
                    ) by {
                        assert(!part_at(before, signature(3), j));
                    }
                    assert(memprot_makes_a_site(data, q));
                } else {
                    lemma_same_window(before, next, s, r);
                    assert(part_at(before, s, r) == part_at(data, s, r));
                }
            }
        }
    } else {
        super::missing_pattern_changes_nothing(before, p);
        assert forall|r: int| r < m implies !#[trigger] part_at(before, s, r) by {
            assert(!part_at(data, s, r));
        }
    }
}

proof fn lemma_has_first(data: Seq<u8>, s: Seq<u8>) -> (m: int)
    requires
        super::occurs(data, s),
    ensures
        first_at(data, s, m),
        0 <= m,
{
    let i = choose|i: int| #[trigger] part_at(data, s, i);
    lemma_first_up_to(data, s, i)
}

proof fn lemma_first_up_to(data: Seq<u8>, s: Seq<u8>, i: int) -> (m: int)
    requires
        part_at(data, s, i),
    ensures
        first_at(data, s, m),
        0 <= m <= i,
    decreases i,
{
    if exists|j: int| j < i && #[trigger] part_at(data, s, j) {
        let j = choose|j: int| j < i && #[trigger] part_at(data, s, j);
        lemma_first_up_to(data, s, j)
    } else {
        i
    }
}

proof fn lemma_kept_from_memprot_on(data: Seq<u8>, patches: Seq<BytePatch>, n: int, r: int)
    requires
        is_homebrew_patches(patches),
        4 <= n <= 9,
    ensures
        part_at(all_patched(data, patches, n), signature(9), r) == part_at(
            all_patched(data, patches, 4),
            signature(9),
            r,
        ),
    decreases n,
{
    if n > 4 {
        lemma_kept_from_memprot_on(data, patches, n - 1, r);
        lemma_is_patch(patches, n - 1);
        lemma_keeps(all_patched(data, patches, n - 1), patches[n - 1], n - 1, 9, 0, r);
    }
}

/// The third Nintendont site: `03` stands at the seventh byte of the first match, and the rest of the
/// match is kept, whatever the other patches of the set find. The one exception is data in which
/// disabling MEMPROT itself makes an earlier match. By itself the patch touches nothing else.
pub proof fn nintendont_3_lands_in_its_match(data: Seq<u8>, patches: Seq<BytePatch>, m: int)
    requires
        is_homebrew_patches(patches),
        first_at(
            data,
            seq![0x00u8, 0x00, 0x0F, 0x00, 0x00, 0x00, 0x02, 0x00, 0x00, 0x00, 0x00, 0xFF, 0xFF],
            m,
        ),
        forall|q: int| q < m ==> !#[trigger] memprot_makes_a_site(data, q),
    ensures
        all_patched(data, patches, 10).subrange(m, m + 13)
            == seq![0x00u8, 0x00, 0x0F, 0x00, 0x00, 0x00, 0x03, 0x00, 0x00, 0x00, 0x00, 0xFF, 0xFF],
        patched(data, patches[9]) == place(data, m + 6, seq![0x03u8]),
{
    let before = all_patched(data, patches, 9);
    let p = patches[9];
    lemma_is_patch(patches, 9);
    lemma_past_memprot(data, patches, m);
    lemma_kept_from_memprot_on(data, patches, 9, m);
    assert forall|j: int| j < m implies !#[trigger] part_at(before, signature(9), j) by {
        lemma_kept_from_memprot_on(data, patches, 9, j);
        assert(!part_at(all_patched(data, patches, 4), signature(9), j));
    }
    lemma_first(before, p, 0, m);
    lemma_first(data, p, 0, m);
    lemma_outcome_stands(before, p, 9, m);
}

proof fn lemma_apart_from_itself(k: int, data: Seq<u8>, q: int, r: int)
    requires
        0 <= k < 2,
        part_at(data, signature(k), q),
        part_at(data, signature(k), r),
        q < r,
    ensures
        q + 4 <= r,
{
    lemma_spelled_out(k, data, signature(k), q);
    lemma_spelled_out(k, data, signature(k), r);
    reveal_with_fuel(spelled, 5);
}

proof fn lemma_below(data: Seq<u8>, p: BytePatch, from: int, i: int)
    requires
        0 <= i < from,
        i < data.len(),
    ensures
        patched_from(data, p, from)[i] == data[i],
    decreases data.len() - from + 1,
{
    if from + p.find@.len() <= data.len() && !super::endless(p) {
        if part_at(data, p.find@, from) {
            if p.all {
                lemma_below(place(data, from + p.at, p.write@), p, from + p.find@.len(), i);
            }
        } else {
            lemma_below(data, p, from + 1, i);
        }
    }
}

proof fn lemma_every_match(data: Seq<u8>, p: BytePatch, k: int, from: int, r: int)
    requires
        0 <= k < 2,
        is_patch(p, k),
        0 <= from <= r,
        part_at(data, signature(k), r),
    ensures
        part_at(patched_from(data, p, from), outcome(k), r),
    decreases data.len() - from + 1,
{
    if part_at(data, p.find@, from) {
        let next = place(data, from + p.at, p.write@);
        let after = from + 4;
        if r == from {
            lemma_outcome_stands(data, p, k, from);
            let end = patched_from(next, p, after);
            super::lemma_patched_len(next, p, after);
            assert forall|i: int| r <= i < r + 4 && 0 <= i < next.len() implies #[trigger] next[i]
                == end[i] by {
                lemma_below(next, p, after, i);
            }
            lemma_same_window(next, end, outcome(k), r);
        } else {
            lemma_apart_from_itself(k, data, from, r);
            lemma_same_window(data, next, signature(k), r);
            lemma_every_match(next, p, k, after, r);
        }
    } else {
        lemma_every_match(data, p, k, from + 1, r);
    }
}

proof fn lemma_cleared_byte(data: Seq<u8>, p: BytePatch, k: int, i: int)
    requires
        0 <= k < 2,
        is_patch(p, k),
        0 <= i < data.len(),
    ensures
        patched(data, p).len() == data.len(),
        patched(data, p)[i] == if part_at(data, signature(k), i - 1) {
            0u8
        } else {
            data[i]
        },
{
    super::lemma_patched_len(data, p, 0);
    if part_at(data, signature(k), i - 1) {
        lemma_every_match(data, p, k, 0, i - 1);
        let r = i - 1;
        assert(patched(data, p).subrange(r, r + 4)[1] == outcome(k)[1]);
    } else {
        patch_touches_only_matches(data, p, i);
    }
}

/// The two fakesign patches clear the second byte of every `20 07 23 A2` and of every `20 07 4B 0B`,
/// and change no other byte.
pub proof fn fakesigning_clears_every_check(data: Seq<u8>, patches: Seq<BytePatch>, i: int)
    requires
        is_fakesign_patches(patches),
        0 <= i < data.len(),
    ensures
        all_patched(data, patches, 2).len() == data.len(),
        all_patched(data, patches, 2)[i] == if part_at(
            data,
            seq![0x20u8, 0x07, 0x23, 0xA2],
            i - 1,
        ) || part_at(data, seq![0x20u8, 0x07, 0x4B, 0x0B], i - 1) {
            0u8
        } else {
            data[i]
        },
{
    reveal_with_fuel(all_patched, 3);
    lemma_is_patch(patches, 0);
    lemma_is_patch(patches, 1);
    let first = patched(data, patches[0]);
    lemma_cleared_byte(data, patches[0], 0, i);
    lemma_cleared_byte(first, patches[1], 1, i);
    lemma_keeps(data, patches[0], 0, 1, 0, i - 1);
}

/// Among the patches of a homebrew title the fakesign patches do the same: the second byte of every
/// `20 07 23 A2` and of every `20 07 4B 0B` is cleared in the end, and the rest of the match stays.
pub proof fn homebrew_is_fakesigned_too(data: Seq<u8>, patches: Seq<BytePatch>, m: int)
    requires
        is_homebrew_patches(patches),
    ensures
        part_at(data, seq![0x20u8, 0x07, 0x23, 0xA2], m) ==> all_patched(
            data,
            patches,
            10,
        ).subrange(m, m + 4) == seq![0x20u8, 0x00, 0x23, 0xA2],
        part_at(data, seq![0x20u8, 0x07, 0x4B, 0x0B], m) ==> all_patched(
            data,
            patches,
            10,
        ).subrange(m, m + 4) == seq![0x20u8, 0x00, 0x4B, 0x0B],
{
    reveal_with_fuel(all_patched, 3);
    lemma_is_patch(patches, 0);
    lemma_is_patch(patches, 1);
    if part_at(data, signature(0), m) {
        lemma_every_match(data, patches[0], 0, 0, m);
        lemma_spared_since(data, patches, 0, 10, m);
    }
    if part_at(data, signature(1), m) {
        lemma_kept_until(data, patches, 1, 1, m);
        lemma_every_match(all_patched(data, patches, 1), patches[1], 1, 0, m);
        lemma_spared_since(data, patches, 1, 10, m);
    }
}

/// The two fakesign patches are one group, which either of them satisfies; every other patch is a
/// group of its own. No two patches have one name.
pub proof fn homebrew_patches_fall_into_nine_groups(patches: Seq<BytePatch>, i: int, j: int)
    requires
        is_homebrew_patches(patches),
        0 <= i < 10,
        0 <= j < 10,
    ensures
        patches[i].group@ == patches[j].group@ <==> i == j || (i < 2 && j < 2),
        patches[i].name@ == patches[j].name@ <==> i == j,
{
    reveal_strlit("fakesign");
    reveal_strlit("fakesign(alt)");
    reveal_strlit("AHBPROT-disable");
    reveal_strlit("AHBPROT");
    reveal_strlit("MEMPROT-disable");
    reveal_strlit("MEMPROT");
    reveal_strlit("wiimote-passthrough-1");
    reveal_strlit("wiimote-passthrough-2");
    reveal_strlit("wiimote-passthrough-3");
    reveal_strlit("nintendont-1");
    reveal_strlit("nintendont-2");
    reveal_strlit("nintendont-3");
    let (a, b) = (patches[i].name@, patches[j].name@);
    let (g, h) = (patches[i].group@, patches[j].group@);
    assert(a == b ==> a.len() == b.len() && a[0] == b[0] && a.last() == b.last());
    assert(g == h ==> g.len() == h.len() && g[0] == h[0] && g.last() == h.last());
}

} // verus!

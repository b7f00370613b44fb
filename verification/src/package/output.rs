//! The files of a package: their names, and how they appear under them.
//!
//! Every output is written under a temporary name and renamed once all of them are complete, so
//! that a build that fails leaves nothing that looks like a package.

use crate::paths::{join_path, path_in};
use crate::text::{
    chars_of, ends_in, fixed_hex, fixed_hex_text, joined, same_text, strip_suffix, texts,
};
use vstd::prelude::*;

verus! {

/// A hexadecimal digit, in either case.
pub open spec fn is_hex_char(c: char) -> bool {
    '0' <= c <= '9' || 'a' <= c <= 'f' || 'A' <= c <= 'F'
}

/// Eight hexadecimal digits.
pub open spec fn is_content_id(stem: Seq<char>) -> bool {
    stem.len() == 8 && forall|i: int| 0 <= i < stem.len() ==> is_hex_char(#[trigger] stem[i])
}

/// The name of a package file: a content id with `.app` or `.h3` behind it, or one of the three
/// title files.
pub open spec fn known_output(name: Seq<char>) -> bool {
    ||| name == "title.tmd"@
    ||| name == "title.tik"@
    ||| name == "title.cert"@
    ||| ends_in(name, ".app"@) && is_content_id(name.take(name.len() - ".app"@.len()))
    ||| ends_in(name, ".h3"@) && is_content_id(name.take(name.len() - ".h3"@.len()))
}

/// The name of a file that a build may have left: an output, or the temporary of one.
pub open spec fn sweepable_output(name: Seq<char>) -> bool {
    known_output(name) || (ends_in(name, ".part"@) && known_output(
        name.take(name.len() - ".part"@.len()),
    ))
}

fn content_id(stem: &str) -> (r: bool)
    ensures
        r == is_content_id(stem@),
{
    let cs = chars_of(stem);
    if cs.len() != 8 {
        return false;
    }
    let mut i: usize = 0;
    while i < cs.len()
        invariant
            cs@ == stem@,
            i <= cs@.len(),
            forall|j: int| 0 <= j < i ==> is_hex_char(#[trigger] stem@[j]),
        decreases cs@.len() - i,
    {
        let c = cs[i];
        if !(('0' <= c && c <= '9') || ('a' <= c && c <= 'f') || ('A' <= c && c <= 'F')) {
            assert(!is_hex_char(stem@[i as int]));
            return false;
        }
        i = i + 1;
    }
    true
}

/// Whether this is the name of a package file.
pub fn is_known_output_name(name: &str) -> (r: bool)
    ensures
        r == known_output(name@),
{
    if same_text(name, "title.tmd") || same_text(name, "title.tik") || same_text(
        name,
        "title.cert",
    ) {
        return true;
    }
    if let Some(stem) = strip_suffix(name, ".app") {
        if content_id(stem.as_str()) {
            return true;
        }
    }
    match strip_suffix(name, ".h3") {
        Some(stem) => content_id(stem.as_str()),
        None => false,
    }
}

/// Whether a build may have left a file of this name.
pub fn is_sweepable_output_name(name: &str) -> (r: bool)
    ensures
        r == sweepable_output(name@),
{
    if is_known_output_name(name) {
        return true;
    }
    match strip_suffix(name, ".part") {
        Some(stem) => is_known_output_name(stem.as_str()),
        None => false,
    }
}

/// The files of an output directory that a build removes before it writes: regular files with the
/// name of an output or of the temporary of one.
pub open spec fn stale(listing: Seq<(Seq<char>, bool)>, k: int) -> Seq<Seq<char>>
    decreases k,
{
    if k <= 0 {
        Seq::empty()
    } else {
        let (name, is_file) = listing[k - 1];
        if is_file && sweepable_output(name) {
            stale(listing, k - 1).push(name)
        } else {
            stale(listing, k - 1)
        }
    }
}

/// The values of a directory listing: names, and whether each is a regular file.
pub open spec fn listed(v: Seq<(String, bool)>) -> Seq<(Seq<char>, bool)> {
    Seq::new(v.len(), |i: int| (v[i].0@, v[i].1))
}

/// Which entries of an output directory a build removes before it writes.
pub fn stale_outputs(listing: &Vec<(String, bool)>) -> (r: Vec<String>)
    ensures
        texts(r@) == stale(listed(listing@), listing@.len() as int),
{
    let ghost lv = listed(listing@);
    let mut r: Vec<String> = Vec::new();
    let mut k: usize = 0;
    assert(texts(r@) =~= stale(lv, 0));
    while k < listing.len()
        invariant
            k <= listing@.len(),
            lv == listed(listing@),
            texts(r@) == stale(lv, k as int),
        decreases listing@.len() - k,
    {
        let ghost before = texts(r@);
        assert(lv[k as int] == (listing@[k as int].0@, listing@[k as int].1));
        if listing[k].1 && is_sweepable_output_name(listing[k].0.as_str()) {
            r.push(listing[k].0.clone());
            assert(texts(r@) =~= before.push(lv[k as int].0));
        }
        k = k + 1;
    }
    r
}

/// The name of a content's data file.
pub open spec fn app_name_of(index: u16) -> Seq<char> {
    fixed_hex(index as nat, 8) + ".app"@
}

/// The name of a content's hash file.
pub open spec fn h3_name_of(index: u16) -> Seq<char> {
    fixed_hex(index as nat, 8) + ".h3"@
}

/// The name of a content's data file.
pub fn app_name(index: u16) -> (r: String)
    ensures
        r@ == app_name_of(index),
{
    joined(fixed_hex_text(index as u64, 8).as_str(), ".app")
}

/// The name of a content's hash file.
pub fn h3_name(index: u16) -> (r: String)
    ensures
        r@ == h3_name_of(index),
{
    joined(fixed_hex_text(index as u64, 8).as_str(), ".h3")
}

pub proof fn lemma_fixed_hex(v: nat, width: nat)
    ensures
        fixed_hex(v, width).len() == width,
        forall|i: int| 0 <= i < width ==> is_hex_char(#[trigger] fixed_hex(v, width)[i]),
    decreases width,
{
    if width > 0 {
        lemma_fixed_hex(v / 16, (width - 1) as nat);
    }
}

/// Every file that a build writes has the name of a package file, and its temporary is swept away
/// by the next build.
pub proof fn build_writes_known_outputs(index: u16)
    ensures
        known_output(app_name_of(index)),
        known_output(h3_name_of(index)),
        known_output("title.cert"@) && known_output("title.tik"@) && known_output("title.tmd"@),
        forall|name: Seq<char>| known_output(name) ==> #[trigger] sweepable_output(name + ".part"@),
{
    lemma_fixed_hex(index as nat, 8);
    let stem = fixed_hex(index as nat, 8);
    reveal_strlit(".app");
    reveal_strlit(".h3");
    reveal_strlit(".part");
    let app = app_name_of(index);
    assert(app.skip(app.len() - 4) =~= ".app"@);
    assert(app.take(app.len() - 4) =~= stem);
    let h3 = h3_name_of(index);
    assert(h3.skip(h3.len() - 3) =~= ".h3"@);
    assert(h3.take(h3.len() - 3) =~= stem);
    assert forall|name: Seq<char>| known_output(name) implies #[trigger] sweepable_output(
        name + ".part"@,
    ) by {
        let part = name + ".part"@;
        assert(part.skip(part.len() - 5) =~= ".part"@);
        assert(part.take(part.len() - 5) =~= name);
    }
}

/// Outputs that are written under temporary names, to be renamed together.
#[derive(Debug)]
pub struct StagedOutputs {
    pub out_dir: String,
    /// Temporary and final path of each output, in the order in which they are renamed.
    pub pending: Vec<(String, String)>,
    /// Whether nothing is left to clean up.
    pub committed: bool,
}

/// The values of the pending outputs.
pub open spec fn pairs(v: Seq<(String, String)>) -> Seq<(Seq<char>, Seq<char>)> {
    Seq::new(v.len(), |i: int| (v[i].0@, v[i].1@))
}

/// What is removed when the rename of output `i` fails: the final files of those before it, then
/// the temporaries from it on.
pub open spec fn rollback_paths(pending: Seq<(Seq<char>, Seq<char>)>, i: int) -> Seq<Seq<char>> {
    Seq::new(pending.len(), |k: int| if k < i {
        pending[k].1
    } else {
        pending[k].0
    })
}

impl StagedOutputs {
    /// No output yet.
    pub fn new(out_dir: &str) -> (r: StagedOutputs)
        ensures
            r.out_dir@ == out_dir@,
            r.pending@.len() == 0,
            !r.committed,
    {
        StagedOutputs { out_dir: out_dir.to_owned(), pending: Vec::new(), committed: false }
    }

    /// Register an output and return the temporary path to write it to.
    pub fn stage(&mut self, final_name: &str) -> (r: String)
        ensures
            r@ == path_in(old(self).out_dir@, final_name@ + ".part"@),
            final(self).out_dir == old(self).out_dir,
            final(self).committed == old(self).committed,
            pairs(final(self).pending@) == pairs(old(self).pending@).push(
                (r@, path_in(old(self).out_dir@, final_name@)),
            ),
    {
        let ghost before = self.pending@;
        let part_name = joined(final_name, ".part");
        let part = join_path(self.out_dir.as_str(), part_name.as_str());
        let done = join_path(self.out_dir.as_str(), final_name);
        self.pending.push((part.clone(), done));
        assert(pairs(self.pending@) =~= pairs(before).push(
            (part@, path_in(self.out_dir@, final_name@)),
        ));
        part
    }

    /// The rename of output `i` failed: what to remove, so that neither it nor any other output
    /// stays. Nothing is left to clean up behind that.
    pub fn rollback(&mut self, i: usize) -> (r: Vec<String>)
        requires
            i < old(self).pending@.len(),
        ensures
            texts(r@) == rollback_paths(
                pairs(old(self).pending@),
                i as int,
            ),
            final(self).committed,
            final(self).pending == old(self).pending,
            final(self).out_dir == old(self).out_dir,
    {
        let ghost pv = pairs(self.pending@);
        let mut r: Vec<String> = Vec::new();
        let mut k: usize = 0;
        while k < self.pending.len()
            invariant
                k <= self.pending@.len(),
                pv == pairs(self.pending@),
                texts(r@) == rollback_paths(pv, i as int).take(k as int),
            decreases self.pending@.len() - k,
        {
            assert(pv[k as int] == (self.pending@[k as int].0@, self.pending@[k as int].1@));
            let ghost before = texts(r@);
            if k < i {
                r.push(self.pending[k].1.clone());
            } else {
                r.push(self.pending[k].0.clone());
            }
            assert(texts(r@) =~= before.push(
                rollback_paths(pv, i as int)[k as int],
            ));
            k = k + 1;
            assert(texts(r@) =~= rollback_paths(pv, i as int).take(
                k as int,
            ));
        }
        assert(rollback_paths(pv, i as int).take(k as int) =~= rollback_paths(pv, i as int));
        self.committed = true;
        r
    }

    /// All renames succeeded: nothing is left to clean up.
    pub fn mark_committed(&mut self)
        ensures
            final(self).committed,
            final(self).pending == old(self).pending,
            final(self).out_dir == old(self).out_dir,
    {
        self.committed = true;
    }

    /// What a build that ends here has to remove: every temporary, unless the outputs were
    /// committed.
    pub fn leftovers(&self) -> (r: Vec<String>)
        ensures
            texts(r@) == if self.committed {
                Seq::empty()
            } else {
                rollback_paths(pairs(self.pending@), 0)
            },
    {
        let mut r: Vec<String> = Vec::new();
        if self.committed {
            assert(texts(r@) =~= Seq::empty());
            return r;
        }
        let ghost pv = pairs(self.pending@);
        let mut k: usize = 0;
        while k < self.pending.len()
            invariant
                k <= self.pending@.len(),
                pv == pairs(self.pending@),
                texts(r@) == rollback_paths(pv, 0).take(k as int),
            decreases self.pending@.len() - k,
        {
            assert(pv[k as int] == (self.pending@[k as int].0@, self.pending@[k as int].1@));
            let ghost before = texts(r@);
            r.push(self.pending[k].0.clone());
            assert(texts(r@) =~= before.push(rollback_paths(pv, 0)[k as int]));
            k = k + 1;
            assert(texts(r@) =~= rollback_paths(pv, 0).take(k as int));
        }
        assert(rollback_paths(pv, 0).take(k as int) =~= rollback_paths(pv, 0));
        r
    }
}

/// The files of an output directory once the first `i` outputs have been renamed.
pub open spec fn renamed(
    dir: Set<Seq<char>>,
    pending: Seq<(Seq<char>, Seq<char>)>,
    i: int,
) -> Set<Seq<char>>
    decreases i,
{
    if i <= 0 {
        dir
    } else {
        renamed(dir, pending, i - 1).remove(pending[i - 1].0).insert(pending[i - 1].1)
    }
}

/// The files of an output directory once the first `k` of `paths` have been removed.
pub open spec fn removed(dir: Set<Seq<char>>, paths: Seq<Seq<char>>, k: int) -> Set<Seq<char>>
    decreases k,
{
    if k <= 0 {
        dir
    } else {
        removed(dir, paths, k - 1).remove(paths[k - 1])
    }
}

/// No temporary of one output is the temporary or the final file of another.
pub open spec fn apart(pending: Seq<(Seq<char>, Seq<char>)>) -> bool {
    &&& forall|i: int, j: int|
        0 <= i < pending.len() && 0 <= j < pending.len() ==> (#[trigger] pending[i]).0 != (
        #[trigger] pending[j]).1
    &&& forall|i: int, j: int|
        0 <= i < j < pending.len() ==> (#[trigger] pending[i]).0 != (#[trigger] pending[j]).0
            && pending[i].1 != pending[j].1
}

proof fn lemma_renamed(
    dir: Set<Seq<char>>,
    pending: Seq<(Seq<char>, Seq<char>)>,
    i: int,
    p: Seq<char>,
)
    requires
        0 <= i <= pending.len(),
        apart(pending),
    ensures
        renamed(dir, pending, i).contains(p) == ((exists|k: int|
            0 <= k < i && p == (#[trigger] pending[k]).1) || (dir.contains(p) && !(exists|k: int|
            0 <= k < i && p == (#[trigger] pending[k]).0))),
    decreases i,
{
    if i > 0 {
        lemma_renamed(dir, pending, i - 1, p);
        if p == pending[i - 1].1 {
            assert(0 <= i - 1 < i && p == pending[i - 1].1);
        } else if p == pending[i - 1].0 {
            assert(0 <= i - 1 < i && p == pending[i - 1].0);
            assert forall|k: int| 0 <= k < i implies p != (#[trigger] pending[k]).1 by {}
        } else {
            assert forall|k: int| 0 <= k < i && p == (#[trigger] pending[k]).1 implies k < i - 1 by {
            }
        }
    }
}

proof fn lemma_removed(dir: Set<Seq<char>>, paths: Seq<Seq<char>>, k: int, p: Seq<char>)
    requires
        0 <= k <= paths.len(),
    ensures
        removed(dir, paths, k).contains(p) == (dir.contains(p) && !(exists|j: int|
            0 <= j < k && p == #[trigger] paths[j])),
    decreases k,
{
    if k > 0 {
        lemma_removed(dir, paths, k - 1, p);
        if p == paths[k - 1] {
            assert(0 <= k - 1 < k && p == paths[k - 1]);
        }
    }
}

/// A commit that fails at output `i` and rolls back leaves no output and no temporary, provided that
/// none of the final names was taken before.
pub proof fn failed_commit_leaves_nothing(
    dir: Set<Seq<char>>,
    pending: Seq<(Seq<char>, Seq<char>)>,
    i: int,
    k: int,
)
    requires
        0 <= i < pending.len(),
        0 <= k < pending.len(),
        apart(pending),
        forall|j: int| 0 <= j < pending.len() ==> !dir.contains((#[trigger] pending[j]).1),
    ensures
        ({
            let after = removed(
                renamed(dir, pending, i),
                rollback_paths(pending, i),
                pending.len() as int,
            );
            !after.contains(pending[k].0) && !after.contains(pending[k].1)
        }),
{
    let back = rollback_paths(pending, i);
    let n = pending.len() as int;
    lemma_renamed(dir, pending, i, pending[k].0);
    lemma_renamed(dir, pending, i, pending[k].1);
    lemma_removed(renamed(dir, pending, i), back, n, pending[k].0);
    lemma_removed(renamed(dir, pending, i), back, n, pending[k].1);
    assert(k < i ==> back[k] == pending[k].1);
    assert(k >= i ==> back[k] == pending[k].0);
    if k < i {
        assert(0 <= k < i && pending[k].0 == pending[k].0);
    } else {
        assert forall|j: int| 0 <= j < i implies pending[k].1 != (#[trigger] pending[j]).1 by {}
    }
}

/// A commit that succeeds leaves every output under its final name and no temporary.
pub proof fn commit_publishes_every_output(
    dir: Set<Seq<char>>,
    pending: Seq<(Seq<char>, Seq<char>)>,
    k: int,
)
    requires
        0 <= k < pending.len(),
        apart(pending),
    ensures
        renamed(dir, pending, pending.len() as int).contains(pending[k].1),
        !renamed(dir, pending, pending.len() as int).contains(pending[k].0),
{
    let n = pending.len() as int;
    lemma_renamed(dir, pending, n, pending[k].1);
    lemma_renamed(dir, pending, n, pending[k].0);
}

/// The files of a content are named by its index in eight hexadecimal digits, with `.app` behind them
/// for the data and `.h3` for the hashes.
pub proof fn content_files_are_named_by_index(index: u16)
    ensures
        app_name_of(index).skip(8) == ".app"@,
        h3_name_of(index).skip(8) == ".h3"@,
        crate::text::number_of(app_name_of(index).take(8), 16) == index,
        crate::text::number_of(h3_name_of(index).take(8), 16) == index,
{
    crate::text::fixed_hex_reads_back(index as nat, 8);
    assert(vstd::arithmetic::power::pow(16, 8) == 0x1_0000_0000) by {
        reveal_with_fuel(vstd::arithmetic::power::pow, 9);
    }
    let stem = fixed_hex(index as nat, 8);
    assert(app_name_of(index).take(8) =~= stem && app_name_of(index).skip(8) =~= ".app"@);
    assert(h3_name_of(index).take(8) =~= stem && h3_name_of(index).skip(8) =~= ".h3"@);
}

/// A build sweeps away exactly the regular files that a build writes: eight hexadecimal digits in
/// either case with `.app` or `.h3` behind them, `title.tmd`, `title.tik` and `title.cert`, and each of
/// these with `.part` behind it.
pub proof fn only_outputs_are_swept_away(listing: Seq<(Seq<char>, bool)>, k: int, name: Seq<char>)
    requires
        0 <= k <= listing.len(),
    ensures
        stale(listing, k).contains(name) <==> listing.take(k).contains((name, true)) && (
        known_output(name) || exists|stem: Seq<char>|
            name == #[trigger] (stem + ".part"@) && known_output(stem)),
    decreases k,
{
    let swept = stale(listing, k);
    let seen = listing.take(k);
    if sweepable_output(name) && !known_output(name) {
        let stem = name.take(name.len() - ".part"@.len());
        assert(name =~= stem + ".part"@);
    }
    assert forall|stem: Seq<char>| name == #[trigger] (stem + ".part"@) && known_output(
        stem,
    ) implies sweepable_output(name) by {
        assert(name.take(name.len() - ".part"@.len()) =~= stem);
        assert(name.skip(name.len() - ".part"@.len()) =~= ".part"@);
    }
    if k > 0 {
        only_outputs_are_swept_away(listing, k - 1, name);
        let before = stale(listing, k - 1);
        let fewer = listing.take(k - 1);
        assert(seen =~= fewer.push(listing[k - 1]));
        if fewer.contains((name, true)) {
            let i = choose|i: int| 0 <= i < fewer.len() && fewer[i] == (name, true);
            assert(seen[i] == (name, true));
        }
        if seen.contains((name, true)) && !fewer.contains((name, true)) {
            let i = choose|i: int| 0 <= i < seen.len() && seen[i] == (name, true);
            if i < k - 1 {
                assert(fewer[i] == (name, true));
            }
        }
        assert(seen[k - 1] == listing[k - 1]);
        if before.contains(name) {
            let i = choose|i: int| 0 <= i < before.len() && before[i] == name;
            assert(swept[i] == name);
        }
        if swept.contains(name) && !before.contains(name) {
            let i = choose|i: int| 0 <= i < swept.len() && swept[i] == name;
            if i < before.len() {
                assert(before[i] == name);
            }
        }
        if swept.len() > before.len() {
            assert(swept[before.len() as int] == listing[k - 1].0);
        }
    }
}

/// The name of a package file, character by character.
pub proof fn package_files_are_known_by_their_form(name: Seq<char>)
    ensures
        known_output(name) <==> {
            ||| name == "title.tmd"@ || name == "title.tik"@ || name == "title.cert"@
            ||| name.len() == 12 && name.skip(8) == ".app"@ && forall|i: int|
                0 <= i < 8 ==> '0' <= #[trigger] name[i] <= '9' || 'a' <= name[i] <= 'f' || 'A'
                    <= name[i] <= 'F'
            ||| name.len() == 11 && name.skip(8) == ".h3"@ && forall|i: int|
                0 <= i < 8 ==> '0' <= #[trigger] name[i] <= '9' || 'a' <= name[i] <= 'f' || 'A'
                    <= name[i] <= 'F'
        },
{
    reveal_strlit(".app");
    reveal_strlit(".h3");
    if name.len() == 12 || name.len() == 11 {
        let stem = name.take(8);
        assert forall|i: int| 0 <= i < 8 implies stem[i] == #[trigger] name[i] by {}
        if is_content_id(stem) {
            assert forall|i: int| 0 <= i < 8 implies '0' <= #[trigger] name[i] <= '9' || 'a'
                <= name[i] <= 'f' || 'A' <= name[i] <= 'F' by {
                assert(is_hex_char(stem[i]));
            }
        }
    }
}

} // verus!

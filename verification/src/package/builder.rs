//! The steps of building a package.

use super::cert::CertChain;
use super::content::planned::{PlannedContent, TYPE_HASHED};
use super::content::PackagePlan;
use super::output::{
    apart, app_name, app_name_of, h3_name, h3_name_of, known_output, pairs, StagedOutputs,
};
use crate::paths::path_in;
use crate::text::{digit_of, ends_in, fixed_hex};
use vstd::prelude::*;

verus! {

/// What a package is built with.
#[derive(Debug)]
pub struct PackageParams<'a> {
    /// The Wii U title id.
    pub title_id: u64,
    /// The TMD group id.
    pub group_id: u16,
    /// The key that the title key is encrypted with in the ticket.
    pub wiiu_common_key: [u8; 16],
    /// The key that content is encrypted with.
    pub title_key: [u8; 16],
    /// The certificate chain, written as `title.cert`.
    pub cert: &'a CertChain,
}

/// What a package came to.
#[derive(Clone, Copy, Debug, PartialEq, Eq, Structural)]
pub struct PackageStats {
    /// Contents written, with the FST.
    pub content_count: usize,
    /// Bytes of encrypted content written.
    pub total_content_bytes: u64,
}

/// A content as the TMD records it.
#[derive(Debug)]
pub struct ContentRecord {
    pub id: u32,
    pub index: u16,
    pub content_type: u16,
    /// Bytes of the encrypted content.
    pub size: u64,
    /// Hash of the content, as its type has it.
    pub hash: Vec<u8>,
}

/// The names of the outputs of the first `k` contents: the data file of each and, where the content
/// is hashed, its hash file.
pub open spec fn content_names(contents: Seq<PlannedContent>, k: int) -> Seq<Seq<char>>
    decreases k,
{
    if k <= 0 {
        Seq::empty()
    } else {
        let c = contents[k - 1];
        let names = content_names(contents, k - 1).push(app_name_of(c.index));
        if c.content_type == TYPE_HASHED {
            names.push(h3_name_of(c.index))
        } else {
            names
        }
    }
}

/// The names of all outputs of a package, in the order in which they are renamed.
pub open spec fn package_names(contents: Seq<PlannedContent>) -> Seq<Seq<char>> {
    content_names(contents, contents.len() as int) + seq![
        "title.cert"@,
        "title.tik"@,
        "title.tmd"@,
    ]
}

/// Temporary and final path of an output.
pub open spec fn output_pair(out_dir: Seq<char>, name: Seq<char>) -> (Seq<char>, Seq<char>) {
    (path_in(out_dir, name + ".part"@), path_in(out_dir, name))
}

/// Temporary and final paths of outputs.
pub open spec fn output_pairs(out_dir: Seq<char>, names: Seq<Seq<char>>) -> Seq<
    (Seq<char>, Seq<char>),
> {
    Seq::new(names.len(), |i: int| output_pair(out_dir, names[i]))
}

/// The bytes of all recorded contents.
pub open spec fn recorded_bytes(records: Seq<ContentRecord>) -> int
    decreases records.len(),
{
    if records.len() == 0 {
        0
    } else {
        recorded_bytes(records.drop_last()) + records.last().size
    }
}

/// The record is that of the content.
pub open spec fn recorded(r: ContentRecord, c: PlannedContent) -> bool {
    r.id == c.index && r.index == c.index && r.content_type == c.content_type
}

/// A package that is being built: what is planned, what has been staged, and what has been written.
/// Contents are written one by one, each by way of `next_content`, `stage_h3` where it is hashed, and
/// `record`; the title files follow.
#[derive(Debug)]
pub struct PackageBuild {
    pub plan: PackagePlan,
    pub staged: StagedOutputs,
    /// The contents written so far.
    pub records: Vec<ContentRecord>,
    pub total_content_bytes: u64,
}

/// A content to write now.
#[derive(Debug)]
pub struct ContentStep {
    /// Its place in the plan.
    pub content: usize,
    /// Whether it is hashed, and so has a hash file too.
    pub hashed: bool,
    /// Where its data is written to.
    pub part: String,
}

impl PackageBuild {
    /// The records are those of the first contents of the plan, and their bytes are counted.
    pub open spec fn counted(&self) -> bool {
        &&& self.records@.len() <= self.plan.contents@.len()
        &&& forall|i: int|
            0 <= i < self.records@.len() ==> recorded(
                #[trigger] self.records@[i],
                self.plan.contents@[i],
            )
        &&& self.total_content_bytes == recorded_bytes(self.records@)
    }

    /// These outputs are staged, and not renamed yet.
    pub open spec fn has_staged(&self, names: Seq<Seq<char>>) -> bool {
        &&& pairs(self.staged.pending@) == output_pairs(self.staged.out_dir@, names)
        &&& !self.staged.committed
    }

    /// The names of the outputs of the contents written so far.
    pub open spec fn written_names(&self) -> Seq<Seq<char>> {
        content_names(self.plan.contents@, self.records@.len() as int)
    }

    /// Between contents: the outputs of the recorded ones are staged.
    pub open spec fn ready(&self) -> bool {
        self.counted() && self.has_staged(self.written_names())
    }

    /// The content that is next to be recorded.
    pub open spec fn current(&self) -> PlannedContent {
        self.plan.contents@[self.records@.len() as int]
    }

    /// Writing a content: its data file is staged.
    pub open spec fn writing(&self) -> bool {
        &&& self.counted()
        &&& self.records@.len() < self.plan.contents@.len()
        &&& self.has_staged(self.written_names().push(app_name_of(self.current().index)))
    }

    /// A content is written: all of its outputs are staged.
    pub open spec fn content_written(&self) -> bool {
        &&& self.counted()
        &&& self.records@.len() < self.plan.contents@.len()
        &&& self.has_staged(content_names(self.plan.contents@, self.records@.len() as int + 1))
    }

    /// Begin to build a planned package in `out_dir`.
    pub fn new(out_dir: &str, plan: PackagePlan) -> (r: PackageBuild)
        ensures
            r.ready(),
            r.plan == plan,
            r.staged.out_dir@ == out_dir@,
            r.records@.len() == 0,
    {
        let staged = StagedOutputs::new(out_dir);
        assert(pairs(staged.pending@) =~= output_pairs(
            out_dir@,
            content_names(plan.contents@, 0),
        ));
        PackageBuild { plan, staged, records: Vec::new(), total_content_bytes: 0 }
    }

    fn stage(&mut self, name: &str, Ghost(names): Ghost<Seq<Seq<char>>>) -> (r: String)
        requires
            old(self).has_staged(names),
        ensures
            final(self).has_staged(names.push(name@)),
            r@ == path_in(old(self).staged.out_dir@, name@ + ".part"@),
            final(self).staged.out_dir == old(self).staged.out_dir,
            final(self).plan == old(self).plan,
            final(self).records == old(self).records,
            final(self).total_content_bytes == old(self).total_content_bytes,
    {
        let r = self.staged.stage(name);
        assert(pairs(self.staged.pending@) =~= output_pairs(
            self.staged.out_dir@,
            names.push(name@),
        ));
        r
    }

    /// The next content to write, with its data file staged; `None` once all are written.
    pub fn next_content(&mut self) -> (r: Option<ContentStep>)
        requires
            old(self).ready(),
        ensures
            match r {
                Some(step) => {
                    &&& final(self).writing()
                    &&& step.content == old(self).records@.len()
                    &&& step.hashed == (final(self).current().content_type == TYPE_HASHED)
                    &&& !step.hashed ==> final(self).content_written()
                    &&& step.part@ == path_in(
                        old(self).staged.out_dir@,
                        app_name_of(old(self).current().index) + ".part"@,
                    )
                },
                None => final(self).ready() && old(self).records@.len() == old(
                    self,
                ).plan.contents@.len() && pairs(final(self).staged.pending@) == pairs(
                    old(self).staged.pending@,
                ),
            },
            final(self).staged.out_dir == old(self).staged.out_dir,
            final(self).plan == old(self).plan,
            final(self).records == old(self).records,
            final(self).total_content_bytes == old(self).total_content_bytes,
    {
        let k = self.records.len();
        if k >= self.plan.contents.len() {
            return None;
        }
        let name = app_name(self.plan.contents[k].index);
        let hashed = self.plan.contents[k].content_type == TYPE_HASHED;
        let ghost names = self.written_names();
        let part = self.stage(name.as_str(), Ghost(names));
        Some(ContentStep { content: k, hashed, part })
    }

    /// Stage the hash file of the content that is being written, and return the path to write it to.
    pub fn stage_h3(&mut self) -> (r: String)
        requires
            old(self).writing(),
            old(self).current().content_type == TYPE_HASHED,
        ensures
            final(self).content_written(),
            r@ == path_in(
                old(self).staged.out_dir@,
                h3_name_of(old(self).current().index) + ".part"@,
            ),
            final(self).staged.out_dir == old(self).staged.out_dir,
            final(self).plan == old(self).plan,
            final(self).records == old(self).records,
            final(self).total_content_bytes == old(self).total_content_bytes,
    {
        let name = h3_name(self.plan.contents[self.records.len()].index);
        let ghost names = self.written_names().push(app_name_of(self.current().index));
        self.stage(name.as_str(), Ghost(names))
    }

    /// Record that the content has been written, with its encrypted size and its hash.
    pub fn record(&mut self, size: u64, hash: Vec<u8>)
        requires
            old(self).content_written(),
            old(self).total_content_bytes + size <= u64::MAX,
        ensures
            final(self).ready(),
            final(self).plan == old(self).plan,
            final(self).staged == old(self).staged,
            final(self).records@.len() == old(self).records@.len() + 1,
            final(self).records@.drop_last() == old(self).records@,
            final(self).records@.last().size == size,
            final(self).records@.last().hash == hash,
            final(self).total_content_bytes == old(self).total_content_bytes + size,
    {
        let ghost before = self.records@;
        let c = &self.plan.contents[self.records.len()];
        let record = ContentRecord {
            id: c.index as u32,
            index: c.index,
            content_type: c.content_type,
            size,
            hash,
        };
        self.records.push(record);
        self.total_content_bytes = self.total_content_bytes + size;
        assert(self.records@.drop_last() =~= before);
    }

    /// All contents are written: stage the three title files, the TMD last, and return the paths to
    /// write them to. All outputs of the package are then staged.
    pub fn stage_title_files(&mut self) -> (r: (String, String, String))
        requires
            old(self).ready(),
            old(self).records@.len() == old(self).plan.contents@.len(),
        ensures
            final(self).has_staged(package_names(old(self).plan.contents@)),
            r.0@ == path_in(old(self).staged.out_dir@, "title.cert"@ + ".part"@),
            r.1@ == path_in(old(self).staged.out_dir@, "title.tik"@ + ".part"@),
            r.2@ == path_in(old(self).staged.out_dir@, "title.tmd"@ + ".part"@),
            final(self).staged.out_dir == old(self).staged.out_dir,
            final(self).plan == old(self).plan,
            final(self).records == old(self).records,
            final(self).total_content_bytes == old(self).total_content_bytes,
    {
        let ghost names = self.written_names();
        let cert = self.stage("title.cert", Ghost(names));
        let ghost names = names.push("title.cert"@);
        let tik = self.stage("title.tik", Ghost(names));
        let ghost names = names.push("title.tik"@);
        let tmd = self.stage("title.tmd", Ghost(names));
        assert(names.push("title.tmd"@) =~= package_names(self.plan.contents@));
        (cert, tik, tmd)
    }

    /// What the package came to: all of its contents, and the bytes of those written.
    pub fn stats(&self) -> (r: PackageStats)
        ensures
            r.content_count == self.plan.contents@.len(),
            r.total_content_bytes == self.total_content_bytes,
    {
        PackageStats {
            content_count: self.plan.contents.len(),
            total_content_bytes: self.total_content_bytes,
        }
    }
}

/// The TMD, by which an installer knows a package, is the last output to get its name.
pub proof fn tmd_is_renamed_last(contents: Seq<PlannedContent>)
    ensures
        package_names(contents).last() == "title.tmd"@,
{
}

proof fn lemma_hex_is_injective(a: nat, b: nat, width: nat)
    requires
        fixed_hex(a, width) == fixed_hex(b, width),
        a < vstd::arithmetic::power::pow(16, width),
        b < vstd::arithmetic::power::pow(16, width),
    ensures
        a == b,
    decreases width,
{
    vstd::arithmetic::power::lemma_pow0(16);
    if width > 0 {
        let w = (width - 1) as nat;
        vstd::arithmetic::power::lemma_pow_adds(16, 1, w);
        vstd::arithmetic::power::lemma_pow1(16);
        assert(fixed_hex(a, width).drop_last() =~= fixed_hex(a / 16, w));
        assert(fixed_hex(b, width).drop_last() =~= fixed_hex(b / 16, w));
        assert(fixed_hex(a, width).last() == digit_of((a % 16) as int));
        assert(fixed_hex(b, width).last() == digit_of((b % 16) as int));
        lemma_hex_is_injective(a / 16, b / 16, w);
        assert(a % 16 == b % 16);
    }
}

/// What the name of an output of the contents before `k` looks like.
spec fn content_name(contents: Seq<PlannedContent>, k: int, name: Seq<char>) -> bool {
    exists|c: int|
        0 <= c < k && (name == app_name_of((#[trigger] contents[c]).index) || name == h3_name_of(
            contents[c].index,
        ))
}

proof fn lemma_name_ends(index: u16)
    ensures
        app_name_of(index).len() == 12,
        app_name_of(index).last() == 'p',
        app_name_of(index).take(8) == fixed_hex(index as nat, 8),
        h3_name_of(index).len() == 11,
        h3_name_of(index).last() == '3',
        h3_name_of(index).take(8) == fixed_hex(index as nat, 8),
{
    super::output::lemma_fixed_hex(index as nat, 8);
    reveal_strlit(".app");
    reveal_strlit(".h3");
    assert(app_name_of(index).take(8) =~= fixed_hex(index as nat, 8));
    assert(h3_name_of(index).take(8) =~= fixed_hex(index as nat, 8));
}

proof fn lemma_names_tell_indices_apart(a: u16, b: u16)
    requires
        app_name_of(a) == app_name_of(b) || h3_name_of(a) == h3_name_of(b),
    ensures
        a == b,
{
    lemma_name_ends(a);
    lemma_name_ends(b);
    assert(vstd::arithmetic::power::pow(16, 8) == 0x1_0000_0000) by {
        reveal_with_fuel(vstd::arithmetic::power::pow, 9);
    }
    lemma_hex_is_injective(a as nat, b as nat, 8);
}

/// The contents have indices of their own.
pub open spec fn indices_apart(contents: Seq<PlannedContent>) -> bool {
    forall|i: int, j: int|
        0 <= i < j < contents.len() ==> (#[trigger] contents[i]).index != (
        #[trigger] contents[j]).index
}

proof fn lemma_content_names(contents: Seq<PlannedContent>, k: int)
    requires
        0 <= k <= contents.len(),
        indices_apart(contents),
    ensures
        ({
            let names = content_names(contents, k);
            &&& forall|i: int|
                0 <= i < names.len() ==> content_name(contents, k, #[trigger] names[i])
            &&& forall|i: int, j: int|
                0 <= i < j < names.len() ==> #[trigger] names[i] != #[trigger] names[j]
        }),
    decreases k,
{
    if k > 0 {
        lemma_content_names(contents, k - 1);
        let before = content_names(contents, k - 1);
        let names = content_names(contents, k);
        let index = contents[k - 1].index;
        lemma_name_ends(index);
        assert forall|i: int| 0 <= i < before.len() implies {
            &&& #[trigger] before[i] != app_name_of(index)
            &&& before[i] != h3_name_of(index)
            &&& content_name(contents, k, before[i])
        } by {
            let c = choose|c: int|
                0 <= c < k - 1 && (before[i] == app_name_of((#[trigger] contents[c]).index)
                    || before[i] == h3_name_of(contents[c].index));
            lemma_name_ends(contents[c].index);
            if before[i] == app_name_of(index) || before[i] == h3_name_of(index) {
                lemma_names_tell_indices_apart(contents[c].index, index);
            }
            assert(0 <= c < k);
        }
        assert forall|i: int| 0 <= i < names.len() implies content_name(
            contents,
            k,
            #[trigger] names[i],
        ) by {
            if i < before.len() {
                assert(names[i] == before[i]);
            } else {
                assert(0 <= k - 1 < k && contents[k - 1].index == index);
            }
        }
        assert forall|i: int, j: int| 0 <= i < j < names.len() implies #[trigger] names[i]
            != #[trigger] names[j] by {
            if j < before.len() {
                assert(names[i] == before[i] && names[j] == before[j]);
            } else if i < before.len() {
                assert(names[i] == before[i]);
            }
        }
    }
}

/// A package has no two outputs of one name, and every one of them has the name of a package file.
pub proof fn output_names_are_distinct(contents: Seq<PlannedContent>)
    requires
        indices_apart(contents),
    ensures
        ({
            let names = package_names(contents);
            &&& forall|i: int| 0 <= i < names.len() ==> known_output(#[trigger] names[i])
            &&& forall|i: int, j: int|
                0 <= i < j < names.len() ==> #[trigger] names[i] != #[trigger] names[j]
        }),
{
    let n = contents.len() as int;
    let names = package_names(contents);
    let of_contents = content_names(contents, n);
    lemma_content_names(contents, n);
    reveal_strlit("title.cert");
    reveal_strlit("title.tik");
    reveal_strlit("title.tmd");
    assert("title.cert"@.last() == 't');
    assert("title.tik"@.last() == 'k');
    assert("title.tmd"@.last() == 'd');
    assert forall|i: int| 0 <= i < of_contents.len() implies {
        let l = (#[trigger] of_contents[i]).last();
        (l == 'p' || l == '3') && known_output(of_contents[i])
    } by {
        let c = choose|c: int|
            0 <= c < n && (of_contents[i] == app_name_of((#[trigger] contents[c]).index)
                || of_contents[i] == h3_name_of(contents[c].index));
        lemma_name_ends(contents[c].index);
        super::output::build_writes_known_outputs(contents[c].index);
    }
    super::output::build_writes_known_outputs(0);
    assert forall|i: int| 0 <= i < names.len() implies known_output(#[trigger] names[i]) by {
        if i < of_contents.len() {
            assert(names[i] == of_contents[i]);
        }
    }
    assert forall|i: int, j: int| 0 <= i < j < names.len() implies #[trigger] names[i]
        != #[trigger] names[j] by {
        if i < of_contents.len() {
            assert(names[i] == of_contents[i]);
        }
        if j < of_contents.len() {
            assert(names[j] == of_contents[j]);
        }
    }
}

proof fn lemma_not_a_temporary(name: Seq<char>)
    requires
        known_output(name),
    ensures
        !ends_in(name, ".part"@),
{
    reveal_strlit(".part");
    reveal_strlit(".app");
    reveal_strlit(".h3");
    reveal_strlit("title.cert");
    reveal_strlit("title.tik");
    reveal_strlit("title.tmd");
    let tail = name.skip(name.len() - 5);
    if ends_in(name, ".part"@) {
        let n = name.len() as int;
        assert(tail[4] == name[n - 1] && tail[2] == name[n - 3]);
        assert(tail[4] == 't' && tail[2] == 'a');
        if ends_in(name, ".app"@) {
            assert(name.skip(n - 4)[3] == name[n - 1]);
        }
        if ends_in(name, ".h3"@) {
            assert(name.skip(n - 3)[2] == name[n - 1]);
        }
        assert(false);
    }
}

proof fn lemma_paths_tell_names_apart(dir: Seq<char>, a: Seq<char>, b: Seq<char>)
    requires
        path_in(dir, a) == path_in(dir, b),
    ensures
        a == b,
{
    let d: int = if dir.len() == 0 || dir.last() == '/' {
        dir.len() as int
    } else {
        dir.len() as int + 1
    };
    assert(path_in(dir, a).skip(d) =~= a);
    assert(path_in(dir, b).skip(d) =~= b);
}

/// The outputs of a package are apart: none overwrites the temporary or the final file of another,
/// so that all of them can be renamed, or all of them rolled back.
pub proof fn package_outputs_are_apart(out_dir: Seq<char>, contents: Seq<PlannedContent>)
    requires
        indices_apart(contents),
    ensures
        apart(output_pairs(out_dir, package_names(contents))),
{
    output_names_are_distinct(contents);
    let names = package_names(contents);
    let ps = output_pairs(out_dir, names);
    reveal_strlit(".part");
    assert forall|i: int, j: int| 0 <= i < ps.len() && 0 <= j < ps.len() implies (
    #[trigger] ps[i]).0 != (#[trigger] ps[j]).1 by {
        let part = names[i] + ".part"@;
        if ps[i].0 == ps[j].1 {
            lemma_paths_tell_names_apart(out_dir, part, names[j]);
            assert(part.skip(part.len() - 5) =~= ".part"@);
            lemma_not_a_temporary(names[j]);
        }
    }
    assert forall|i: int, j: int| 0 <= i < j < ps.len() implies (#[trigger] ps[i]).0 != (
    #[trigger] ps[j]).0 && ps[i].1 != ps[j].1 by {
        if ps[i].1 == ps[j].1 {
            lemma_paths_tell_names_apart(out_dir, names[i], names[j]);
        }
        if ps[i].0 == ps[j].0 {
            lemma_paths_tell_names_apart(out_dir, names[i] + ".part"@, names[j] + ".part"@);
            let a = names[i] + ".part"@;
            let b = names[j] + ".part"@;
            assert(a.take(a.len() - 5) =~= names[i]);
            assert(b.take(b.len() - 5) =~= names[j]);
        }
    }
}

proof fn lemma_named_outputs(contents: Seq<PlannedContent>, k: int, c: int)
    requires
        0 <= c < k <= contents.len(),
    ensures
        content_names(contents, k).contains(app_name_of(contents[c].index)),
        contents[c].content_type == 0x2003 ==> content_names(contents, k).contains(
            h3_name_of(contents[c].index),
        ),
    decreases k,
{
    let names = content_names(contents, k);
    let before = content_names(contents, k - 1);
    let (app, h3) = (app_name_of(contents[c].index), h3_name_of(contents[c].index));
    if c < k - 1 {
        lemma_named_outputs(contents, k - 1, c);
        let i = choose|i: int| 0 <= i < before.len() && before[i] == app;
        assert(names[i] == app);
        if contents[c].content_type == 0x2003 {
            let j = choose|j: int| 0 <= j < before.len() && before[j] == h3;
            assert(names[j] == h3);
        }
    } else {
        assert(names[before.len() as int] == app);
        if contents[c].content_type == 0x2003 {
            assert(names[before.len() as int + 1] == h3);
        }
    }
}

proof fn lemma_output_count(contents: Seq<PlannedContent>, k: int)
    requires
        0 <= k <= contents.len(),
    ensures
        content_names(contents, k).len() == k + hashed_among(contents, k),
    decreases k,
{
    if k > 0 {
        lemma_output_count(contents, k - 1);
    }
}

/// How many of the first `k` contents have a hash tree.
pub open spec fn hashed_among(contents: Seq<PlannedContent>, k: int) -> int
    decreases k,
{
    if k <= 0 {
        0
    } else if contents[k - 1].content_type == 0x2003 {
        hashed_among(contents, k - 1) + 1
    } else {
        hashed_among(contents, k - 1)
    }
}

/// A package has a data file for every content, a hash file for every content with a hash tree, and
/// the three title files, certificate, ticket and TMD in that order at the end, and nothing else.
pub proof fn package_has_a_file_for_every_part(contents: Seq<PlannedContent>, c: int)
    requires
        0 <= c < contents.len(),
    ensures
        ({
            let names = package_names(contents);
            let n = contents.len() as int;
            &&& names.contains(app_name_of(contents[c].index))
            &&& contents[c].content_type == 0x2003 ==> names.contains(
                h3_name_of(contents[c].index),
            )
            &&& names.len() == n + hashed_among(contents, n) + 3
            &&& names[names.len() - 3] == "title.cert"@
            &&& names[names.len() - 2] == "title.tik"@
            &&& names[names.len() - 1] == "title.tmd"@
        }),
{
    let n = contents.len() as int;
    let names = package_names(contents);
    let of_contents = content_names(contents, n);
    lemma_named_outputs(contents, n, c);
    lemma_output_count(contents, n);
    let app = app_name_of(contents[c].index);
    let i = choose|i: int| 0 <= i < of_contents.len() && of_contents[i] == app;
    assert(names[i] == app);
    if contents[c].content_type == 0x2003 {
        let h3 = h3_name_of(contents[c].index);
        let j = choose|j: int| 0 <= j < of_contents.len() && of_contents[j] == h3;
        assert(names[j] == h3);
    }
}

} // verus!

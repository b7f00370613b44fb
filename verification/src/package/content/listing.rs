//! The listing of a staged directory, and the orders in which its entries are taken.

use crate::package::order::{
    index_sum, ints, key_views, order_is_sorted, order_keeps_sums, order_of, range_sum, sort_order,
    KeyView, SortKey,
};
use crate::paths::{join_path, path_in};
use crate::text::{
    all_ascii, begins_with, ends_in, ends_with, lower_case, lowered, starts_with, to_lowercase,
};
use vstd::prelude::*;
use vstd::utf8::encode_utf8;

verus! {

/// An entry of a staged directory.
#[derive(Debug)]
pub enum Entry {
    Dir { name: String, entries: Vec<Entry> },
    File {
        name: String,
        size: u64,
        /// A regular file, or a link to one.
        regular: bool,
    },
}

/// The name of an entry.
pub open spec fn entry_name(e: Entry) -> Seq<char> {
    match e {
        Entry::Dir { name, .. } => name@,
        Entry::File { name, .. } => name@,
    }
}

impl Entry {
    /// The name of the entry.
    pub fn name(&self) -> (r: &String)
        ensures
            r@ == entry_name(*self),
    {
        match self {
            Entry::Dir { name, .. } => name,
            Entry::File { name, .. } => name,
        }
    }
}

/// The name of a game-data file: `hif_*.nfs`.
pub open spec fn hif_name(name: Seq<char>) -> bool {
    begins_with(name, "hif_"@) && ends_in(name, ".nfs"@)
}

/// The name of a game-data file with a number: `hif_`, six digits, `.nfs`.
pub open spec fn numbered_hif(name: Seq<char>) -> bool {
    &&& hif_name(name)
    &&& name.len() == 14
    &&& forall|i: int| 4 <= i < 10 ==> '0' <= #[trigger] name[i] <= '9'
}

/// Whether this is the name of a game-data file.
pub fn is_hif(name: &str) -> (r: bool)
    ensures
        r == hif_name(name@),
{
    starts_with(name, "hif_") && ends_with(name, ".nfs")
}

/// The name of an executable: `*.rpx` or `*.rpl`.
pub open spec fn executable_name(name: Seq<char>) -> bool {
    ends_in(name, ".rpx"@) || ends_in(name, ".rpl"@)
}

/// Which entries come first.
#[derive(Clone, Copy, Debug, PartialEq, Eq, Structural)]
pub enum OrderBy {
    /// None: the entries come by their names.
    Name,
    /// The game data, so that it stands at the start of the game content.
    HifFirst,
    /// The executables.
    ExecutableFirst,
}

/// What an entry is ordered by.
pub open spec fn entry_key(e: Entry, by: OrderBy) -> KeyView {
    let name = entry_name(e);
    let lower = lower_case(name);
    KeyView {
        late: match by {
            OrderBy::Name => false,
            OrderBy::HifFirst => !hif_name(lower),
            OrderBy::ExecutableFirst => !executable_name(lower),
        },
        lower,
        name,
    }
}

/// What the entries of a directory are ordered by.
pub open spec fn entry_keys(entries: Seq<Entry>, by: OrderBy) -> Seq<KeyView> {
    entries.map_values(|e: Entry| entry_key(e, by))
}

/// The indices of the entries of a directory, in their order.
pub open spec fn entry_order(entries: Seq<Entry>, by: OrderBy) -> Seq<int> {
    order_of(entry_keys(entries, by))
}

/// Every entry of a directory has one place in its order.
pub proof fn entry_order_is_complete(entries: Seq<Entry>, by: OrderBy)
    ensures
        entry_order(entries, by).len() == entries.len(),
        forall|k: int|
            0 <= k < entries.len() ==> 0 <= #[trigger] entry_order(entries, by)[k] < entries.len(),
{
    order_is_sorted(entry_keys(entries, by), entries.len() as int);
}

/// Game data comes before everything else in a directory.
pub proof fn game_data_comes_first(entries: Seq<Entry>, i: int, j: int)
    requires
        0 <= i < j < entries.len(),
    ensures
        ({
            let p = entry_order(entries, OrderBy::HifFirst);
            hif_name(lower_case(entry_name(entries[p[j]]))) ==> hif_name(
                lower_case(entry_name(entries[p[i]])),
            )
        }),
{
    let keys = entry_keys(entries, OrderBy::HifFirst);
    let p = entry_order(entries, OrderBy::HifFirst);
    order_is_sorted(keys, entries.len() as int);
    assert(crate::package::order::key_le(keys[p[i]], keys[p[j]]));
}

/// Executables come before everything else in a directory that is ordered by them.
pub proof fn executables_come_first(entries: Seq<Entry>, i: int, j: int)
    requires
        0 <= i < j < entries.len(),
    ensures
        ({
            let p = entry_order(entries, OrderBy::ExecutableFirst);
            executable_name(lower_case(entry_name(entries[p[j]]))) ==> executable_name(
                lower_case(entry_name(entries[p[i]])),
            )
        }),
{
    let keys = entry_keys(entries, OrderBy::ExecutableFirst);
    let p = entry_order(entries, OrderBy::ExecutableFirst);
    order_is_sorted(keys, entries.len() as int);
    assert(crate::package::order::key_le(keys[p[i]], keys[p[j]]));
}

/// An ASCII name of a game-data file or of an executable counts as such in any case: the case of
/// its letters does not matter to the order.
pub proof fn ascii_names_are_recognised(name: Seq<char>)
    requires
        all_ascii(name),
    ensures
        hif_name(lower_case(name)) == hif_name(lowered(name)),
        executable_name(lower_case(name)) == executable_name(lowered(name)),
        hif_name(name) ==> hif_name(lower_case(name)),
        executable_name(name) ==> executable_name(lower_case(name)),
{
    reveal_strlit("hif_");
    reveal_strlit(".nfs");
    reveal_strlit(".rpx");
    reveal_strlit(".rpl");
    assert(lowered("hif_"@) =~= "hif_"@);
    assert(lowered(".nfs"@) =~= ".nfs"@);
    assert(lowered(".rpx"@) =~= ".rpx"@);
    assert(lowered(".rpl"@) =~= ".rpl"@);
    if hif_name(name) {
        lemma_front_in_lower_case(name, "hif_"@);
        lemma_end_in_lower_case(name, ".nfs"@);
    }
    if ends_in(name, ".rpx"@) {
        lemma_end_in_lower_case(name, ".rpx"@);
    }
    if ends_in(name, ".rpl"@) {
        lemma_end_in_lower_case(name, ".rpl"@);
    }
}

proof fn lemma_front_in_lower_case(s: Seq<char>, p: Seq<char>)
    requires
        begins_with(s, p),
        lowered(p) == p,
    ensures
        begins_with(lowered(s), p),
{
    assert(lowered(s).take(p.len() as int) =~= lowered(s.take(p.len() as int)));
}

proof fn lemma_end_in_lower_case(s: Seq<char>, p: Seq<char>)
    requires
        ends_in(s, p),
        lowered(p) == p,
    ensures
        ends_in(lowered(s), p),
{
    let at = s.len() - p.len();
    assert(lowered(s).skip(at) =~= lowered(s.skip(at)));
}

fn key_of(e: &Entry, by: OrderBy) -> (r: SortKey)
    ensures
        r@ == entry_key(*e, by),
{
    let name = e.name();
    let lower = to_lowercase(name.as_str());
    let late = match by {
        OrderBy::Name => false,
        OrderBy::HifFirst => !is_hif(lower.as_str()),
        OrderBy::ExecutableFirst => !(ends_with(lower.as_str(), ".rpx") || ends_with(
            lower.as_str(),
            ".rpl",
        )),
    };
    SortKey::new(late, lower.as_str(), name.as_str())
}

/// The indices of the entries of a directory, in their order.
pub fn order_entries(entries: &Vec<Entry>, by: OrderBy) -> (r: Vec<usize>)
    ensures
        ints(r@) == entry_order(entries@, by),
        r@.len() == entries@.len(),
        forall|i: int| 0 <= i < r@.len() ==> #[trigger] r@[i] < entries@.len(),
{
    let mut keys: Vec<SortKey> = Vec::new();
    let mut i: usize = 0;
    while i < entries.len()
        invariant
            i <= entries@.len(),
            keys@.len() == i,
            forall|j: int| 0 <= j < i ==> (#[trigger] keys@[j])@ == entry_key(entries@[j], by),
        decreases entries@.len() - i,
    {
        keys.push(key_of(&entries[i], by));
        i = i + 1;
    }
    assert(key_views(keys@) =~= entry_keys(entries@, by));
    sort_order(&keys)
}

/// Whether a listing holds a regular file of this name.
pub open spec fn holds_file(entries: Seq<Entry>, name: Seq<char>) -> bool {
    exists|i: int|
        0 <= i < entries.len() && (#[trigger] entries[i] matches Entry::File { name: n, regular, .. }
            && regular && n@ == name)
}

/// Whether a listing holds a regular file of this name.
pub fn has_file(entries: &Vec<Entry>, name: &str) -> (r: bool)
    ensures
        r == holds_file(entries@, name@),
{
    let mut i: usize = 0;
    while i < entries.len()
        invariant
            i <= entries@.len(),
            forall|j: int|
                0 <= j < i ==> !(#[trigger] entries@[j] matches Entry::File { name: n, regular, .. }
                    && regular && n@ == name@),
        decreases entries@.len() - i,
    {
        if let Entry::File { name: n, regular, .. } = &entries[i] {
            if *regular && crate::text::same_text(n.as_str(), name) {
                return true;
            }
        }
        i = i + 1;
    }
    false
}

/// The files below a directory, with their sizes, in the order of the FST: the first `k` entries of
/// the directory and what is below them.
pub open spec fn collected(dir: Seq<char>, entries: Seq<Entry>, k: int) -> Seq<(Seq<char>, u64)>
    decreases entries, k,
{
    if k <= 0 || k > entries.len() {
        Seq::empty()
    } else {
        proof {
            entry_order_is_complete(entries, OrderBy::HifFirst);
        }
        let done = collected(dir, entries, k - 1);
        match entries[entry_order(entries, OrderBy::HifFirst)[k - 1]] {
            Entry::Dir { name, entries: sub } => done + collected(
                path_in(dir, name@),
                sub@,
                sub@.len() as int,
            ),
            Entry::File { name, size, .. } => done.push((path_in(dir, name@), size)),
        }
    }
}

/// The values of a list of files with sizes.
pub open spec fn sized_files(v: Seq<(String, u64)>) -> Seq<(Seq<char>, u64)> {
    Seq::new(v.len(), |i: int| (v[i].0@, v[i].1))
}

/// Append all files below a directory, with their sizes, in the order of the FST.
pub fn collect_files(dir: &str, entries: &Vec<Entry>, out: &mut Vec<(String, u64)>)
    ensures
        sized_files(final(out)@) == sized_files(old(out)@) + collected(
            dir@,
            entries@,
            entries@.len() as int,
        ),
    decreases entries,
{
    let order = order_entries(entries, OrderBy::HifFirst);
    let ghost start = sized_files(out@);
    let mut k: usize = 0;
    assert(start + collected(dir@, entries@, 0) =~= start);
    while k < order.len()
        invariant
            k <= order@.len(),
            order@.len() == entries@.len(),
            ints(order@) == entry_order(entries@, OrderBy::HifFirst),
            forall|i: int| 0 <= i < order@.len() ==> #[trigger] order@[i] < entries@.len(),
            sized_files(out@) == start + collected(dir@, entries@, k as int),
        decreases order@.len() - k,
    {
        let ghost before = sized_files(out@);
        assert(ints(order@)[k as int] == order@[k as int]);
        match &entries[order[k]] {
            Entry::Dir { name, entries: sub } => {
                let path = join_path(dir, name.as_str());
                collect_files(path.as_str(), sub, out);
                assert(sized_files(out@) =~= start + collected(dir@, entries@, k + 1));
            },
            Entry::File { name, size, .. } => {
                out.push((join_path(dir, name.as_str()), *size));
                assert(sized_files(out@) =~= before.push((path_in(dir@, name@), *size)));
                assert(collected(dir@, entries@, k + 1) == collected(
                    dir@,
                    entries@,
                    k as int,
                ).push((path_in(dir@, name@), *size)));
                assert(sized_files(out@) =~= start + collected(dir@, entries@, k + 1));
            },
        }
        k = k + 1;
    }
}

/// Bytes that the names at and below an entry take in the FST.
pub open spec fn entry_names(e: Entry) -> nat
    decreases e,
{
    match e {
        Entry::Dir { name, entries } => encode_utf8(name@).len() + 1 + listing_names(entries@),
        Entry::File { name, .. } => encode_utf8(name@).len() + 1,
    }
}

/// Bytes that the names of a listing take in the FST.
pub open spec fn listing_names(entries: Seq<Entry>) -> nat
    decreases entries,
{
    if entries.len() == 0 {
        0
    } else {
        listing_names(entries.drop_last()) + entry_names(entries[entries.len() - 1])
    }
}

/// Bytes that the files at and below an entry take at most.
pub open spec fn entry_weight(e: Entry) -> nat
    decreases e,
{
    match e {
        Entry::Dir { entries, .. } => listing_weight(entries@),
        Entry::File { size, .. } => size as nat + 0x20,
    }
}

/// Bytes that the files of a listing take at most.
pub open spec fn listing_weight(entries: Seq<Entry>) -> nat
    decreases entries,
{
    if entries.len() == 0 {
        0
    } else {
        listing_weight(entries.drop_last()) + entry_weight(entries[entries.len() - 1])
    }
}

proof fn lemma_listing_grows(entries: Seq<Entry>, k: int)
    requires
        0 <= k <= entries.len(),
    ensures
        listing_names(entries.take(k)) <= listing_names(entries),
        listing_weight(entries.take(k)) <= listing_weight(entries),
    decreases entries.len() - k,
{
    if k < entries.len() {
        lemma_listing_grows(entries, k + 1);
        assert(entries.take(k + 1).drop_last() =~= entries.take(k));
    } else {
        assert(entries.take(k) =~= entries);
    }
}

/// What is left of a number of bytes for names and of one for files when those of a listing are
/// taken away; `None` where either does not suffice.
pub fn room_behind(entries: &Vec<Entry>, names: u64, weight: u64) -> (r: Option<(u64, u64)>)
    ensures
        match r {
            Some((n, w)) => n + listing_names(entries@) == names && w + listing_weight(entries@)
                == weight,
            None => listing_names(entries@) > names || listing_weight(entries@) > weight,
        },
    decreases entries,
{
    let mut n = names;
    let mut w = weight;
    let mut k: usize = 0;
    assert(entries@.take(0) =~= Seq::<Entry>::empty());
    while k < entries.len()
        invariant
            k <= entries@.len(),
            n + listing_names(entries@.take(k as int)) == names,
            w + listing_weight(entries@.take(k as int)) == weight,
        decreases entries@.len() - k,
    {
        proof {
            assert(entries@.take(k + 1).drop_last() =~= entries@.take(k as int));
            assert(entries@.take(k + 1)[k as int] == entries@[k as int]);
            lemma_listing_grows(entries@, k + 1);
            reveal_with_fuel(entry_names, 2);
            reveal_with_fuel(entry_weight, 2);
            assert(listing_names(entries@.take(k + 1)) == listing_names(entries@.take(k as int))
                + entry_names(entries@[k as int]));
            assert(listing_weight(entries@.take(k + 1)) == listing_weight(entries@.take(k as int))
                + entry_weight(entries@[k as int]));
        }
        let name_len = entries[k].name().as_str().as_bytes().len() as u64;
        if n == 0 || name_len > n - 1 {
            return None;
        }
        n = n - name_len - 1;
        match &entries[k] {
            Entry::Dir { entries: sub, .. } => match room_behind(sub, n, w) {
                Some((a, b)) => {
                    n = a;
                    w = b;
                },
                None => return None,
            },
            Entry::File { size, .. } => {
                if w < 0x20 || *size > w - 0x20 {
                    return None;
                }
                w = w - 0x20 - *size;
            },
        }
        k = k + 1;
    }
    assert(entries@.take(k as int) =~= entries@);
    Some((n, w))
}

/// [`entry_names`] by index.
pub open spec fn names_at(entries: Seq<Entry>) -> spec_fn(int) -> int {
    |i: int| entry_names(entries[i]) as int
}

/// [`entry_weight`] by index.
pub open spec fn weight_at(entries: Seq<Entry>) -> spec_fn(int) -> int {
    |i: int| entry_weight(entries[i]) as int
}

proof fn lemma_listing_sums(entries: Seq<Entry>, n: int)
    requires
        0 <= n <= entries.len(),
    ensures
        range_sum(names_at(entries), n) == listing_names(entries.take(n)),
        range_sum(weight_at(entries), n) == listing_weight(entries.take(n)),
        n <= listing_names(entries.take(n)),
    decreases n,
{
    if n > 0 {
        lemma_listing_sums(entries, n - 1);
        assert(entries.take(n).drop_last() =~= entries.take(n - 1));
        assert(entries.take(n)[n - 1] == entries[n - 1]);
        assert(entry_names(entries[n - 1]) >= 1);
    }
}

/// Taken in any order, the entries of a directory add up to the same names and bytes.
pub proof fn order_keeps_measures(entries: Seq<Entry>, by: OrderBy)
    ensures
        index_sum(entry_order(entries, by), names_at(entries), entries.len() as int)
            == listing_names(entries),
        index_sum(entry_order(entries, by), weight_at(entries), entries.len() as int)
            == listing_weight(entries),
        entries.len() <= listing_names(entries),
{
    let n = entries.len() as int;
    order_keeps_sums(entry_keys(entries, by), names_at(entries), n);
    order_keeps_sums(entry_keys(entries, by), weight_at(entries), n);
    lemma_listing_sums(entries, n);
    assert(entries.take(n) =~= entries);
}

/// The files below a directory are no more than its names take, and each fits into its bytes.
pub proof fn collected_is_bounded(dir: Seq<char>, entries: Seq<Entry>, k: int)
    requires
        0 <= k <= entries.len(),
    ensures
        ({
            let p = entry_order(entries, OrderBy::HifFirst);
            &&& collected(dir, entries, k).len() <= index_sum(p, names_at(entries), k)
            &&& forall|i: int|
                0 <= i < collected(dir, entries, k).len() ==> (#[trigger] collected(
                    dir,
                    entries,
                    k,
                )[i]).1 + 0x20 <= index_sum(p, weight_at(entries), k)
            &&& 0 <= index_sum(p, weight_at(entries), k)
        }),
    decreases entries, k,
{
    let p = entry_order(entries, OrderBy::HifFirst);
    entry_order_is_complete(entries, OrderBy::HifFirst);
    if k > 0 {
        collected_is_bounded(dir, entries, k - 1);
        let e = entries[p[k - 1]];
        let done = collected(dir, entries, k - 1);
        match e {
            Entry::Dir { name, entries: sub } => {
                let n = sub@.len() as int;
                let inner = collected(path_in(dir, name@), sub@, n);
                collected_is_bounded(path_in(dir, name@), sub@, n);
                order_keeps_measures(sub@, OrderBy::HifFirst);
                let all = collected(dir, entries, k);
                assert(all == done + inner);
                assert forall|i: int| 0 <= i < all.len() implies (#[trigger] all[i]).1 + 0x20
                    <= index_sum(p, weight_at(entries), k) by {
                    if i < done.len() {
                        assert(all[i] == done[i]);
                    } else {
                        assert(all[i] == inner[i - done.len()]);
                    }
                }
            },
            Entry::File { name, size, .. } => {
                let all = collected(dir, entries, k);
                assert(all == done.push((path_in(dir, name@), size)));
                assert forall|i: int| 0 <= i < all.len() implies (#[trigger] all[i]).1 + 0x20
                    <= index_sum(p, weight_at(entries), k) by {
                    if i < done.len() {
                        assert(all[i] == done[i]);
                    }
                }
            },
        }
    }
}

/// Game data is known by its name, `hif_*.nfs`, and an executable by its ending, `.rpx` or `.rpl`.
pub proof fn files_are_known_by_their_names(name: Seq<char>)
    ensures
        hif_name(name) <==> {
            &&& name.len() >= 4
            &&& name[0] == 'h' && name[1] == 'i' && name[2] == 'f' && name[3] == '_'
            &&& name[name.len() - 4] == '.' && name[name.len() - 3] == 'n'
            &&& name[name.len() - 2] == 'f' && name[name.len() - 1] == 's'
        },
        executable_name(name) <==> {
            &&& name.len() >= 4
            &&& name[name.len() - 4] == '.' && name[name.len() - 3] == 'r'
            &&& name[name.len() - 2] == 'p'
            &&& name[name.len() - 1] == 'x' || name[name.len() - 1] == 'l'
        },
{
    reveal_strlit("hif_");
    reveal_strlit(".nfs");
    reveal_strlit(".rpx");
    reveal_strlit(".rpl");
    if name.len() >= 4 {
        let n = name.len() as int;
        let (front, end) = (name.take(4), name.skip(n - 4));
        assert(front[0] == name[0] && front[1] == name[1]);
        assert(front[2] == name[2] && front[3] == name[3]);
        assert(end[0] == name[n - 4] && end[1] == name[n - 3]);
        assert(end[2] == name[n - 2] && end[3] == name[n - 1]);
        if front[0] == 'h' && front[1] == 'i' && front[2] == 'f' && front[3] == '_' {
            assert(front =~= "hif_"@);
        }
        if end[0] == '.' && end[1] == 'n' && end[2] == 'f' && end[3] == 's' {
            assert(end =~= ".nfs"@);
        }
        if end[0] == '.' && end[1] == 'r' && end[2] == 'p' && end[3] == 'x' {
            assert(end =~= ".rpx"@);
        }
        if end[0] == '.' && end[1] == 'r' && end[2] == 'p' && end[3] == 'l' {
            assert(end =~= ".rpl"@);
        }
    }
}

/// Of two entries of a directory, in the order by which the FST lists it, game data comes first and
/// otherwise the lesser name, without regard to case; two names that differ in case alone come by
/// their own characters.
pub proof fn directories_are_listed_by_name(entries: Seq<Entry>, i: int, j: int)
    requires
        0 <= i < j < entries.len(),
    ensures
        ({
            let p = entry_order(entries, OrderBy::HifFirst);
            let (a, b) = (entry_name(entries[p[i]]), entry_name(entries[p[j]]));
            let (la, lb) = (lower_case(a), lower_case(b));
            &&& hif_name(lb) ==> hif_name(la)
            &&& hif_name(la) == hif_name(lb) ==> if la == lb {
                crate::package::order::text_le(a, b)
            } else {
                crate::package::order::text_le(la, lb)
            }
        }),
{
    let keys = entry_keys(entries, OrderBy::HifFirst);
    let p = entry_order(entries, OrderBy::HifFirst);
    order_is_sorted(keys, entries.len() as int);
    assert(crate::package::order::key_le(keys[p[i]], keys[p[j]]));
}

} // verus!

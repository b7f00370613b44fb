//! What holds of game files that are packed one after the other.

use super::assign::{grouping_step, placed_size, GroupingView, MAX_GAME_CONTENT_BYTES};
use super::planned::{fresh_content, ContentView, TYPE_HASHED};
use crate::bytes::aligned_up_is_least;
use crate::package::fst::OFFSET_FACTOR;
use vstd::prelude::*;

verus! {

/// The packing after the first `k` files, from contents that hold no game file yet.
pub open spec fn grouped(contents: Seq<ContentView>, sizes: Seq<u64>, k: int) -> GroupingView
    decreases k,
{
    if k <= 0 {
        GroupingView { current: None, current_size: 0, contents }
    } else {
        grouping_step(grouped(contents, sizes, k - 1), sizes[k - 1]).0
    }
}

/// The content that file `k` joins, if it joins one.
pub open spec fn joined_content(contents: Seq<ContentView>, sizes: Seq<u64>, k: int) -> Option<
    u16,
> {
    grouping_step(grouped(contents, sizes, k), sizes[k]).1
}

/// Bytes that the first `k` files take in content `c`.
pub open spec fn bytes_in(contents: Seq<ContentView>, sizes: Seq<u64>, k: int, c: int) -> int
    decreases k,
{
    if k <= 0 {
        0
    } else if joined_content(contents, sizes, k - 1) matches Some(x) && x == c {
        bytes_in(contents, sizes, k - 1, c) + placed_size(sizes[k - 1] as int)
    } else {
        bytes_in(contents, sizes, k - 1, c)
    }
}

/// One of the first `k` files joined a content.
pub open spec fn any_joined(contents: Seq<ContentView>, sizes: Seq<u64>, k: int) -> bool {
    exists|i: int| 0 <= i < k && #[trigger] joined_content(contents, sizes, i) is Some
}

proof fn lemma_contents_grow(contents: Seq<ContentView>, sizes: Seq<u64>, k: int, n: int)
    requires
        0 <= k <= n,
    ensures
        contents.len() <= grouped(contents, sizes, k).contents.len() <= grouped(
            contents,
            sizes,
            n,
        ).contents.len(),
    decreases n,
{
    if k < n {
        lemma_contents_grow(contents, sizes, k, n - 1);
    } else if k > 0 {
        lemma_contents_grow(contents, sizes, k - 1, k - 1);
    }
}

/// What holds after `k` files: the content that is being filled is the last one and holds what was
/// counted, nothing joined a content behind it, and no content is over the cap.
spec fn in_step(contents: Seq<ContentView>, sizes: Seq<u64>, k: int) -> bool {
    let g = grouped(contents, sizes, k);
    &&& g.current is Some <==> any_joined(contents, sizes, k)
    &&& g.current matches Some(c) ==> c == g.contents.len() - 1 && g.current_size == bytes_in(
        contents,
        sizes,
        k,
        c as int,
    )
    &&& forall|i: int|
        0 <= i < k ==> (#[trigger] joined_content(contents, sizes, i) matches Some(x)
            ==> g.current is Some && x <= g.current->0)
    &&& forall|c: int|
        0 <= #[trigger] bytes_in(contents, sizes, k, c) <= MAX_GAME_CONTENT_BYTES
    &&& forall|c: int|
        c >= g.contents.len() ==> #[trigger] bytes_in(contents, sizes, k, c) == 0
}

proof fn lemma_in_step(contents: Seq<ContentView>, sizes: Seq<u64>, k: int)
    requires
        0 <= k <= sizes.len(),
        grouped(contents, sizes, k).contents.len() <= 0x1_0000,
    ensures
        in_step(contents, sizes, k),
    decreases k,
{
    if k > 0 {
        lemma_contents_grow(contents, sizes, k - 1, k);
        lemma_in_step(contents, sizes, k - 1);
        let b = grouped(contents, sizes, k - 1);
        let g = grouped(contents, sizes, k);
        let placed = placed_size(sizes[k - 1] as int);
        aligned_up_is_least(sizes[k - 1] as int, OFFSET_FACTOR as int);
        let joins = joined_content(contents, sizes, k - 1);
        if joins is Some {
            assert(any_joined(contents, sizes, k));
        }
        if any_joined(contents, sizes, k - 1) {
            let i = choose|i: int|
                0 <= i < k - 1 && #[trigger] joined_content(contents, sizes, i) is Some;
            assert(joined_content(contents, sizes, i) is Some);
            assert(any_joined(contents, sizes, k));
        }
        if any_joined(contents, sizes, k) && joins is None {
            let i = choose|i: int|
                0 <= i < k && #[trigger] joined_content(contents, sizes, i) is Some;
            assert(i < k - 1);
        }
        assert forall|i: int| 0 <= i < k implies (#[trigger] joined_content(
            contents,
            sizes,
            i,
        ) matches Some(x) ==> g.current is Some && x <= g.current->0) by {}
        assert forall|c: int| 0 <= #[trigger] bytes_in(contents, sizes, k, c)
            <= MAX_GAME_CONTENT_BYTES by {
            assert(0 <= bytes_in(contents, sizes, k - 1, c) <= MAX_GAME_CONTENT_BYTES);
            if joins is Some && joins->0 == c && g.contents.len() > b.contents.len() {
                assert(bytes_in(contents, sizes, k - 1, c) == 0);
            }
        }
        assert forall|c: int| c >= g.contents.len() implies #[trigger] bytes_in(
            contents,
            sizes,
            k,
            c,
        ) == 0 by {
            assert(bytes_in(contents, sizes, k - 1, c) == 0);
        }
        if joins is Some {
            let c = joins->0 as int;
            if g.contents.len() > b.contents.len() {
                assert(bytes_in(contents, sizes, k - 1, c) == 0);
            }
        }
    }
}

/// Of game files that are packed one after the other, exactly those beyond the cap are refused, and
/// they change nothing. A file joins the last content where that has room for it. A new content is
/// opened behind all others for the first file, and where the last one has no room. Beyond 65536
/// contents their indices would run over.
pub proof fn a_content_is_opened_only_where_needed(
    contents: Seq<ContentView>,
    sizes: Seq<u64>,
    i: int,
)
    requires
        0 <= i < sizes.len(),
        grouped(contents, sizes, i + 1).contents.len() <= 0x1_0000,
    ensures
        ({
            let before = grouped(contents, sizes, i);
            let after = grouped(contents, sizes, i + 1);
            let joins = joined_content(contents, sizes, i);
            let last = before.contents.len() - 1;
            let opens = !any_joined(contents, sizes, i) || bytes_in(contents, sizes, i, last)
                + placed_size(sizes[i] as int) > MAX_GAME_CONTENT_BYTES;
            &&& joins is None <==> sizes[i] > MAX_GAME_CONTENT_BYTES
            &&& joins is None ==> after == before
            &&& joins is Some && opens ==> joins->0 == before.contents.len() && after.contents
                == before.contents.push(
                fresh_content(before.contents.len() as int, TYPE_HASHED, true),
            )
            &&& joins is Some && !opens ==> joins->0 == last && after.contents == before.contents
        }),
{
    let size = sizes[i] as int;
    aligned_up_is_least(size, OFFSET_FACTOR as int);
    lemma_contents_grow(contents, sizes, i, i + 1);
    lemma_in_step(contents, sizes, i);
}

/// Game files that are packed one after the other join contents in ascending order.
pub proof fn joined_contents_never_decrease(
    contents: Seq<ContentView>,
    sizes: Seq<u64>,
    i: int,
    j: int,
)
    requires
        0 <= i <= j < sizes.len(),
        grouped(contents, sizes, j + 1).contents.len() <= 0x1_0000,
        joined_content(contents, sizes, i) is Some,
        joined_content(contents, sizes, j) is Some,
    ensures
        contents.len() <= joined_content(contents, sizes, i)->0,
        joined_content(contents, sizes, i)->0 <= joined_content(contents, sizes, j)->0,
{
    lemma_contents_grow(contents, sizes, i, j);
    lemma_contents_grow(contents, sizes, i + 1, j + 1);
    lemma_in_step(contents, sizes, j + 1);
    a_content_is_opened_only_where_needed(contents, sizes, j);
    lemma_joined_behind(contents, sizes, i);
}

proof fn lemma_joined_behind(contents: Seq<ContentView>, sizes: Seq<u64>, k: int)
    requires
        0 <= k < sizes.len(),
        grouped(contents, sizes, k + 1).contents.len() <= 0x1_0000,
    ensures
        joined_content(contents, sizes, k) matches Some(x) ==> contents.len() <= x,
        grouped(contents, sizes, k + 1).current matches Some(x) ==> contents.len() <= x,
    decreases k,
{
    lemma_contents_grow(contents, sizes, k, k + 1);
    if k > 0 {
        lemma_joined_behind(contents, sizes, k - 1);
    }
}

/// The game files that join a content never take more of it than the cap.
pub proof fn packed_files_stay_within_the_cap(
    contents: Seq<ContentView>,
    sizes: Seq<u64>,
    k: int,
    c: int,
)
    requires
        0 <= k <= sizes.len(),
        grouped(contents, sizes, k).contents.len() <= 0x1_0000,
    ensures
        0 <= bytes_in(contents, sizes, k, c) <= MAX_GAME_CONTENT_BYTES,
{
    lemma_in_step(contents, sizes, k);
}

/// A game file takes the least multiple of 32 that holds it, and a game content takes no more than
/// 0x7000_0000 bytes, which is below 2 GiB: exactly a file beyond that is refused.
pub proof fn game_contents_stay_below_2_gib(
    contents: Seq<ContentView>,
    sizes: Seq<u64>,
    i: int,
    c: int,
)
    requires
        0 <= i < sizes.len(),
        grouped(contents, sizes, i + 1).contents.len() <= 0x1_0000,
    ensures
        joined_content(contents, sizes, i) is None <==> sizes[i] > 0x7000_0000,
        0 <= bytes_in(contents, sizes, i + 1, c) <= 0x7000_0000,
        placed_size(sizes[i] as int) % 0x20 == 0,
        sizes[i] <= placed_size(sizes[i] as int) < sizes[i] + 0x20,
{
    a_content_is_opened_only_where_needed(contents, sizes, i);
    packed_files_stay_within_the_cap(contents, sizes, i + 1, c);
    aligned_up_is_least(sizes[i] as int, 0x20);
}

} // verus!

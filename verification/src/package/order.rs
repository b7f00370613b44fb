//! The order of directory entries in a package: a flag, then the lower-cased name, then the name.

use crate::text::chars_of;
use vstd::prelude::*;
use vstd::seq_lib::group_to_multiset_ensures;

verus! {

/// What an entry is ordered by.
#[verifier::ext_equal]
pub struct KeyView {
    /// Entries with this set come behind all others.
    pub late: bool,
    /// The lower-cased name.
    pub lower: Seq<char>,
    /// The name itself, which decides between names that differ in case only.
    pub name: Seq<char>,
}

/// What an entry is ordered by.
pub struct SortKey {
    pub late: bool,
    pub lower: Vec<char>,
    pub name: Vec<char>,
}

impl View for SortKey {
    type V = KeyView;

    open spec fn view(&self) -> KeyView {
        KeyView { late: self.late, lower: self.lower@, name: self.name@ }
    }
}

/// The values of a list of keys.
pub open spec fn key_views(keys: Seq<SortKey>) -> Seq<KeyView> {
    Seq::new(keys.len(), |i: int| keys[i]@)
}

/// Lexicographic order of texts, by code point.
pub open spec fn text_le(a: Seq<char>, b: Seq<char>) -> bool
    decreases a.len(),
{
    if a.len() == 0 {
        true
    } else if b.len() == 0 {
        false
    } else if a[0] != b[0] {
        a[0] < b[0]
    } else {
        text_le(a.skip(1), b.skip(1))
    }
}

/// The order of keys.
pub open spec fn key_le(a: KeyView, b: KeyView) -> bool {
    if a.late != b.late {
        b.late
    } else if a.lower != b.lower {
        text_le(a.lower, b.lower)
    } else {
        text_le(a.name, b.name)
    }
}

proof fn lemma_text_total(a: Seq<char>, b: Seq<char>)
    ensures
        text_le(a, a),
        text_le(a, b) || text_le(b, a),
        text_le(a, b) && text_le(b, a) ==> a == b,
    decreases a.len(),
{
    if a.len() > 0 {
        lemma_text_total(a.skip(1), a.skip(1));
        if b.len() > 0 && a[0] == b[0] {
            lemma_text_total(a.skip(1), b.skip(1));
            if text_le(a, b) && text_le(b, a) {
                assert(a =~= seq![a[0]] + a.skip(1));
                assert(b =~= seq![b[0]] + b.skip(1));
            }
        }
    } else if b.len() == 0 {
        assert(a =~= b);
    }
}

/// Of two texts of one length, the one that is nowhere greater comes first.
pub proof fn pointwise_order(a: Seq<char>, b: Seq<char>)
    requires
        a.len() == b.len(),
        forall|i: int| 0 <= i < a.len() ==> #[trigger] a[i] <= b[i],
    ensures
        text_le(a, b),
    decreases a.len(),
{
    if a.len() > 0 && a[0] == b[0] {
        let (x, y) = (a.skip(1), b.skip(1));
        assert forall|i: int| 0 <= i < x.len() implies #[trigger] x[i] <= y[i] by {
            assert(x[i] == a[i + 1] && y[i] == b[i + 1]);
        }
        pointwise_order(x, y);
    }
}

proof fn lemma_text_transitive(a: Seq<char>, b: Seq<char>, c: Seq<char>)
    requires
        text_le(a, b),
        text_le(b, c),
    ensures
        text_le(a, c),
    decreases a.len(),
{
    if a.len() > 0 && b.len() > 0 && c.len() > 0 && a[0] == b[0] && b[0] == c[0] {
        lemma_text_transitive(a.skip(1), b.skip(1), c.skip(1));
    }
}

/// The order of keys is total: any two keys compare, and equal ones are the same key.
pub proof fn key_order_is_total(a: KeyView, b: KeyView)
    ensures
        key_le(a, a),
        key_le(a, b) || key_le(b, a),
        key_le(a, b) && key_le(b, a) ==> a == b,
{
    lemma_text_total(a.lower, b.lower);
    lemma_text_total(a.name, b.name);
    lemma_text_total(a.name, a.name);
    if key_le(a, b) && key_le(b, a) {
        assert(a =~= b);
    }
}

/// The order of keys is transitive.
pub proof fn key_order_is_transitive(a: KeyView, b: KeyView, c: KeyView)
    requires
        key_le(a, b),
        key_le(b, c),
    ensures
        key_le(a, c),
{
    if a.late == b.late && b.late == c.late {
        if a.lower == b.lower && b.lower == c.lower {
            lemma_text_transitive(a.name, b.name, c.name);
        } else {
            lemma_text_total(a.lower, b.lower);
            lemma_text_total(b.lower, c.lower);
            lemma_text_total(a.lower, c.lower);
            lemma_text_transitive(a.lower, b.lower, c.lower);
            if a.lower == c.lower {
                assert(text_le(b.lower, a.lower));
            }
        }
    }
}

/// Where `k` goes in the ordered list `p`: behind every entry that is not greater.
pub open spec fn insert_place(keys: Seq<KeyView>, p: Seq<int>, k: int, from: int) -> int
    decreases p.len() - from,
{
    if from >= p.len() {
        p.len() as int
    } else if key_le(keys[p[from]], keys[k]) {
        insert_place(keys, p, k, from + 1)
    } else {
        from
    }
}

/// The indices of the first `n` keys in the order of their keys; equal ones keep their order.
pub open spec fn ordered(keys: Seq<KeyView>, n: int) -> Seq<int>
    decreases n,
{
    if n <= 0 {
        Seq::empty()
    } else {
        let p = ordered(keys, n - 1);
        p.insert(insert_place(keys, p, n - 1, 0), n - 1)
    }
}

/// The indices of all keys in the order of their keys.
pub open spec fn order_of(keys: Seq<KeyView>) -> Seq<int> {
    ordered(keys, keys.len() as int)
}

proof fn lemma_insert_place(keys: Seq<KeyView>, p: Seq<int>, k: int, from: int)
    requires
        0 <= from <= p.len(),
    ensures
        from <= insert_place(keys, p, k, from) <= p.len(),
        forall|j: int|
            from <= j < insert_place(keys, p, k, from) ==> key_le(keys[#[trigger] p[j]], keys[k]),
        insert_place(keys, p, k, from) < p.len() ==> !key_le(
            keys[p[insert_place(keys, p, k, from)]],
            keys[k],
        ),
    decreases p.len() - from,
{
    if from < p.len() && key_le(keys[p[from]], keys[k]) {
        lemma_insert_place(keys, p, k, from + 1);
    }
}

/// Ordering keeps every entry exactly once and puts them in ascending order of their keys.
pub proof fn order_is_sorted(keys: Seq<KeyView>, n: int)
    requires
        0 <= n <= keys.len(),
    ensures
        ordered(keys, n).len() == n,
        forall|i: int| 0 <= i < n ==> 0 <= #[trigger] ordered(keys, n)[i] < n,
        forall|i: int, j: int|
            0 <= i < j < n ==> #[trigger] ordered(keys, n)[i] != #[trigger] ordered(keys, n)[j],
        forall|i: int, j: int|
            0 <= i <= j < n ==> key_le(
                keys[#[trigger] ordered(keys, n)[i]],
                keys[#[trigger] ordered(keys, n)[j]],
            ),
    decreases n,
{
    if n > 0 {
        let p = ordered(keys, n - 1);
        let at = insert_place(keys, p, n - 1, 0);
        let q = ordered(keys, n);
        order_is_sorted(keys, n - 1);
        lemma_insert_place(keys, p, n - 1, 0);
        assert(q == p.insert(at, n - 1));
        assert forall|i: int| 0 <= i < n implies 0 <= #[trigger] q[i] < n by {
            if i < at {
                assert(q[i] == p[i]);
            } else if i > at {
                assert(q[i] == p[i - 1]);
            }
        }
        assert forall|i: int, j: int| 0 <= i < j < n implies #[trigger] q[i] != #[trigger] q[j] by {
            assert(i < at ==> q[i] == p[i]);
            assert(i > at ==> q[i] == p[i - 1]);
            assert(j < at ==> q[j] == p[j]);
            assert(j > at ==> q[j] == p[j - 1]);
        }
        assert forall|i: int, j: int| 0 <= i <= j < n implies key_le(
            keys[#[trigger] q[i]],
            keys[#[trigger] q[j]],
        ) by {
            assert(i < at ==> q[i] == p[i]);
            assert(i > at ==> q[i] == p[i - 1]);
            assert(j < at ==> q[j] == p[j]);
            assert(j > at ==> q[j] == p[j - 1]);
            key_order_is_total(keys[q[i]], keys[q[i]]);
            if i == at && at < j {
                key_order_is_total(keys[n - 1], keys[p[at]]);
                key_order_is_transitive(keys[n - 1], keys[p[at]], keys[p[j - 1]]);
            }
        }
    }
}

/// `items` in the order of their keys.
pub open spec fn arranged<T>(items: Seq<T>, key: spec_fn(T) -> KeyView) -> Seq<T> {
    let p = order_of(items.map_values(key));
    Seq::new(p.len(), |i: int| items[p[i]])
}

proof fn lemma_ordered_multiset<T>(items: Seq<T>, key: spec_fn(T) -> KeyView, n: int)
    requires
        0 <= n <= items.len(),
    ensures
        ({
            let p = ordered(items.map_values(key), n);
            Seq::new(p.len(), |i: int| items[p[i]]).to_multiset() == items.take(n).to_multiset()
        }),
    decreases n,
{
    broadcast use group_to_multiset_ensures;

    let keys = items.map_values(key);
    let q = ordered(keys, n);
    let whole = Seq::new(q.len(), |i: int| items[q[i]]);
    if n > 0 {
        let p = ordered(keys, n - 1);
        let at = insert_place(keys, p, n - 1, 0);
        let part = Seq::new(p.len(), |i: int| items[p[i]]);
        lemma_ordered_multiset(items, key, n - 1);
        order_is_sorted(keys, n - 1);
        lemma_insert_place(keys, p, n - 1, 0);
        assert(whole =~= part.insert(at, items[n - 1]));
        assert(items.take(n) =~= items.take(n - 1).push(items[n - 1]));
        assert(part.insert(at, items[n - 1]).to_multiset() == part.to_multiset().insert(
            items[n - 1],
        ));
        assert(items.take(n - 1).push(items[n - 1]).to_multiset() == items.take(n - 1).to_multiset()
            .insert(items[n - 1]));
    } else {
        assert(whole =~= items.take(n));
    }
}

proof fn lemma_same_arrangement<T>(x: Seq<T>, y: Seq<T>, key: spec_fn(T) -> KeyView)
    requires
        x.to_multiset() == y.to_multiset(),
        forall|i: int, j: int| 0 <= i < j < x.len() ==> key(#[trigger] x[i]) != key(#[trigger] x[j]),
        forall|i: int, j: int|
            0 <= i <= j < x.len() ==> key_le(key(#[trigger] x[i]), key(#[trigger] x[j])),
        forall|i: int, j: int|
            0 <= i <= j < y.len() ==> key_le(key(#[trigger] y[i]), key(#[trigger] y[j])),
    ensures
        x == y,
    decreases x.len(),
{
    broadcast use group_to_multiset_ensures;

    assert(x.to_multiset().len() == x.len());
    assert(y.to_multiset().len() == y.len());
    if x.len() > 0 {
        let x1 = x.subrange(1, x.len() as int);
        let y1 = y.subrange(1, y.len() as int);
        assert(x.contains(x[0]) && y.contains(y[0]));
        vstd::seq_lib::to_multiset_contains(x, x[0]);
        vstd::seq_lib::to_multiset_contains(y, x[0]);
        vstd::seq_lib::to_multiset_contains(y, y[0]);
        vstd::seq_lib::to_multiset_contains(x, y[0]);
        assert(y.contains(x[0]) && x.contains(y[0]));
        let i = choose|i: int| 0 <= i < x.len() && x[i] == y[0];
        let j = choose|j: int| 0 <= j < y.len() && y[j] == x[0];
        assert(key_le(key(x[0]), key(x[i])));
        assert(key_le(key(y[0]), key(y[j])));
        key_order_is_total(key(x[0]), key(y[0]));
        assert(i == 0);
        assert(x1 =~= x.remove(0));
        assert(y1 =~= y.remove(0));
        assert(x1.to_multiset() == x.to_multiset().remove(x[0]));
        assert(y1.to_multiset() == y.to_multiset().remove(y[0]));
        assert forall|a: int, b: int| 0 <= a < b < x1.len() implies key(#[trigger] x1[a]) != key(
            #[trigger] x1[b],
        ) by {
            assert(x1[a] == x[a + 1] && x1[b] == x[b + 1]);
        }
        assert forall|a: int, b: int| 0 <= a <= b < x1.len() implies key_le(
            key(#[trigger] x1[a]),
            key(#[trigger] x1[b]),
        ) by {
            assert(x1[a] == x[a + 1] && x1[b] == x[b + 1]);
        }
        assert forall|a: int, b: int| 0 <= a <= b < y1.len() implies key_le(
            key(#[trigger] y1[a]),
            key(#[trigger] y1[b]),
        ) by {
            assert(y1[a] == y[a + 1] && y1[b] == y[b + 1]);
        }
        lemma_same_arrangement(x1, y1, key);
        assert(x =~= seq![x[0]] + x1);
        assert(y =~= seq![y[0]] + y1);
    } else {
        assert(x =~= y);
    }
}

/// The order in which a directory lists its entries does not matter: two listings of the same
/// entries, no two of which share a key, are arranged the same way.
pub proof fn arrangement_ignores_the_listing_order<T>(
    a: Seq<T>,
    b: Seq<T>,
    key: spec_fn(T) -> KeyView,
)
    requires
        a.to_multiset() == b.to_multiset(),
        forall|i: int, j: int| 0 <= i < j < a.len() ==> key(#[trigger] a[i]) != key(#[trigger] a[j]),
    ensures
        arranged(a, key) == arranged(b, key),
{
    broadcast use group_to_multiset_ensures;

    let (ka, kb) = (a.map_values(key), b.map_values(key));
    let (p, q) = (order_of(ka), order_of(kb));
    let (x, y) = (arranged(a, key), arranged(b, key));
    order_is_sorted(ka, a.len() as int);
    order_is_sorted(kb, b.len() as int);
    lemma_ordered_multiset(a, key, a.len() as int);
    lemma_ordered_multiset(b, key, b.len() as int);
    assert(a.take(a.len() as int) =~= a);
    assert(b.take(b.len() as int) =~= b);
    assert forall|i: int, j: int| 0 <= i <= j < x.len() implies key_le(
        key(#[trigger] x[i]),
        key(#[trigger] x[j]),
    ) by {
        assert(key_le(ka[p[i]], ka[p[j]]));
    }
    assert forall|i: int, j: int| 0 <= i <= j < y.len() implies key_le(
        key(#[trigger] y[i]),
        key(#[trigger] y[j]),
    ) by {
        assert(key_le(kb[q[i]], kb[q[j]]));
    }
    assert forall|i: int, j: int| 0 <= i < j < x.len() implies key(#[trigger] x[i]) != key(
        #[trigger] x[j],
    ) by {
        assert(p[i] != p[j]);
        if p[i] < p[j] {
            assert(key(a[p[i]]) != key(a[p[j]]));
        } else {
            assert(key(a[p[j]]) != key(a[p[i]]));
        }
    }
    lemma_same_arrangement(x, y, key);
}

/// Whether text `a` comes before or at text `b`.
pub fn text_not_after(a: &[char], b: &[char]) -> (r: bool)
    ensures
        r == text_le(a@, b@),
{
    let mut i: usize = 0;
    assert(a@.skip(0) =~= a@);
    assert(b@.skip(0) =~= b@);
    while i < a.len() && i < b.len() && a[i] == b[i]
        invariant
            i <= a@.len(),
            i <= b@.len(),
            text_le(a@, b@) == text_le(a@.skip(i as int), b@.skip(i as int)),
        decreases a@.len() - i,
    {
        assert(a@.skip(i as int)[0] == a@[i as int]);
        assert(b@.skip(i as int)[0] == b@[i as int]);
        assert(a@.skip(i as int).skip(1) =~= a@.skip(i + 1));
        assert(b@.skip(i as int).skip(1) =~= b@.skip(i + 1));
        i = i + 1;
    }
    if i >= a.len() {
        true
    } else if i >= b.len() {
        false
    } else {
        assert(a@.skip(i as int)[0] == a@[i as int]);
        assert(b@.skip(i as int)[0] == b@[i as int]);
        a[i] < b[i]
    }
}

fn same_chars(a: &[char], b: &[char]) -> (r: bool)
    ensures
        r == (a@ == b@),
{
    if a.len() != b.len() {
        return false;
    }
    let r = crate::text::stands_at(a, b, 0);
    assert(a@.subrange(0, b@.len() as int) =~= a@);
    r
}

impl SortKey {
    /// The key of a name.
    pub fn new(late: bool, lower: &str, name: &str) -> (r: SortKey)
        ensures
            r@ == (KeyView { late, lower: lower@, name: name@ }),
    {
        SortKey { late, lower: chars_of(lower), name: chars_of(name) }
    }

    /// Whether this key comes before or at `other`.
    pub fn not_after(&self, other: &SortKey) -> (r: bool)
        ensures
            r == key_le(self@, other@),
    {
        if self.late != other.late {
            other.late
        } else if !same_chars(self.lower.as_slice(), other.lower.as_slice()) {
            text_not_after(self.lower.as_slice(), other.lower.as_slice())
        } else {
            text_not_after(self.name.as_slice(), other.name.as_slice())
        }
    }
}

/// A list of indices as integers.
pub open spec fn ints(p: Seq<usize>) -> Seq<int> {
    Seq::new(p.len(), |i: int| p[i] as int)
}

/// The indices of `keys` in the order of the keys.
pub fn sort_order(keys: &Vec<SortKey>) -> (r: Vec<usize>)
    ensures
        ints(r@) == order_of(key_views(keys@)),
        r@.len() == keys@.len(),
        forall|i: int| 0 <= i < r@.len() ==> #[trigger] r@[i] < keys@.len(),
{
    let ghost kv = key_views(keys@);
    let mut p: Vec<usize> = Vec::new();
    let mut n: usize = 0;
    while n < keys.len()
        invariant
            n <= keys@.len(),
            kv == key_views(keys@),
            ints(p@) == ordered(kv, n as int),
        decreases keys@.len() - n,
    {
        proof {
            order_is_sorted(kv, n as int);
        }
        let ghost q = ints(p@);
        let mut at: usize = 0;
        while at < p.len() && keys[p[at]].not_after(&keys[n])
            invariant
                n < keys@.len(),
                at <= p@.len(),
                p@.len() == n,
                kv == key_views(keys@),
                q == ints(p@),
                forall|i: int| 0 <= i < p@.len() ==> 0 <= #[trigger] q[i] < n,
                insert_place(kv, q, n as int, 0) == insert_place(kv, q, n as int, at as int),
            decreases p@.len() - at,
        {
            assert(q[at as int] == p@[at as int]);
            at = at + 1;
            if at < p.len() {
                assert(0 <= q[at as int] < n);
            }
        }
        assert(at < p@.len() ==> q[at as int] == p@[at as int]);
        p.insert(at, n);
        assert(ints(p@) =~= q.insert(at as int, n as int));
        n = n + 1;
    }
    proof {
        order_is_sorted(kv, n as int);
        assert forall|i: int| 0 <= i < p@.len() implies #[trigger] p@[i] < keys@.len() by {
            assert(ints(p@)[i] == p@[i]);
        }
    }
    p
}

/// The sum of `w` over the first `k` indices of `p`.
pub open spec fn index_sum(p: Seq<int>, w: spec_fn(int) -> int, k: int) -> int
    decreases k,
{
    if k <= 0 {
        0
    } else {
        index_sum(p, w, k - 1) + w(p[k - 1])
    }
}

/// The sum of `w` over `0..n`.
pub open spec fn range_sum(w: spec_fn(int) -> int, n: int) -> int
    decreases n,
{
    if n <= 0 {
        0
    } else {
        range_sum(w, n - 1) + w(n - 1)
    }
}

proof fn lemma_sum_insert(p: Seq<int>, w: spec_fn(int) -> int, at: int, x: int, k: int)
    requires
        0 <= at <= p.len(),
        0 <= k <= p.len() + 1,
    ensures
        index_sum(p.insert(at, x), w, k) == if k <= at {
            index_sum(p, w, k)
        } else {
            index_sum(p, w, k - 1) + w(x)
        },
    decreases k,
{
    if k > 0 {
        lemma_sum_insert(p, w, at, x, k - 1);
        let q = p.insert(at, x);
        if k - 1 < at {
            assert(q[k - 1] == p[k - 1]);
        } else if k - 1 > at {
            assert(q[k - 1] == p[k - 2]);
        }
    }
}

/// Ordering does not change what the entries add up to.
pub proof fn order_keeps_sums(keys: Seq<KeyView>, w: spec_fn(int) -> int, n: int)
    requires
        0 <= n <= keys.len(),
    ensures
        index_sum(ordered(keys, n), w, n) == range_sum(w, n),
    decreases n,
{
    if n > 0 {
        let p = ordered(keys, n - 1);
        order_keeps_sums(keys, w, n - 1);
        order_is_sorted(keys, n - 1);
        lemma_insert_place(keys, p, n - 1, 0);
        lemma_sum_insert(p, w, insert_place(keys, p, n - 1, 0), n - 1, n);
    }
}

/// Every entry has a place in the order.
pub proof fn order_is_onto(keys: Seq<KeyView>, n: int, i: int)
    requires
        0 <= i < n <= keys.len(),
    ensures
        exists|j: int| 0 <= j < n && #[trigger] ordered(keys, n)[j] == i,
    decreases n,
{
    let q = ordered(keys, n);
    let p = ordered(keys, n - 1);
    let at = insert_place(keys, p, n - 1, 0);
    order_is_sorted(keys, n - 1);
    lemma_insert_place(keys, p, n - 1, 0);
    assert(q == p.insert(at, n - 1));
    if i == n - 1 {
        assert(q[at] == i);
    } else {
        order_is_onto(keys, n - 1, i);
        let j = choose|j: int| 0 <= j < n - 1 && #[trigger] p[j] == i;
        if j < at {
            assert(q[j] == i);
        } else {
            assert(q[j + 1] == i);
        }
    }
}

/// Of two texts, the first place where they differ decides which comes first, by code point; one that
/// is the beginning of the other comes before it.
pub proof fn the_first_difference_decides(a: Seq<char>, b: Seq<char>) -> (n: int)
    ensures
        0 <= n <= a.len(),
        n <= b.len(),
        a.take(n) == b.take(n),
        n < a.len() && n < b.len() ==> a[n] != b[n],
        text_le(a, b) <==> n == a.len() || (n < b.len() && (a[n] as int) < (b[n] as int)),
    decreases a.len(),
{
    if a.len() > 0 && b.len() > 0 && a[0] == b[0] {
        let m = the_first_difference_decides(a.skip(1), b.skip(1));
        let n = m + 1;
        assert(a.take(n) =~= seq![a[0]] + a.skip(1).take(m));
        assert(b.take(n) =~= seq![b[0]] + b.skip(1).take(m));
        n
    } else {
        assert(a.take(0) =~= b.take(0));
        0
    }
}

} // verus!

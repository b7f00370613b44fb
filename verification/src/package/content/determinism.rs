//! A plan does not depend on the order in which directories list their entries.

use super::assign::{present, unassigned};
use super::listing::{
    collected, entry_keys, entry_name, entry_order, entry_order_is_complete, holds_file, Entry,
    OrderBy,
};
use super::tree::dir_tree;
use super::{
    planned, with_bundle, with_code, with_game, with_meta, with_meta_xml, with_singles, with_xml,
    StagedTree,
};
use crate::package::order::{arranged, arrangement_ignores_the_listing_order, KeyView};
use crate::paths::path_in;
use crate::text::lower_case;
use vstd::prelude::*;

verus! {

/// The names in a listing.
pub open spec fn names_of(entries: Seq<Entry>) -> Seq<Seq<char>> {
    entries.map_values(|e: Entry| entry_name(e))
}

/// No directory of a listing, at any depth, has two entries of one name.
pub open spec fn distinct_names(entries: Seq<Entry>) -> bool
    decreases entries,
{
    &&& forall|i: int, j: int|
        0 <= i < j < entries.len() ==> entry_name(#[trigger] entries[i]) != entry_name(
            #[trigger] entries[j],
        )
    &&& forall|i: int|
        0 <= i < entries.len() ==> match #[trigger] entries[i] {
            Entry::Dir { entries: sub, .. } => distinct_names(sub@),
            Entry::File { .. } => true,
        }
}

/// Two listings of the same directory: they hold the same names, and what has the same name is the
/// same, whatever the order, at any depth.
pub open spec fn alike(a: Seq<Entry>, b: Seq<Entry>) -> bool
    decreases a,
{
    &&& names_of(a).to_multiset() == names_of(b).to_multiset()
    &&& forall|i: int, j: int|
        0 <= i < a.len() && 0 <= j < b.len() && entry_name(#[trigger] a[i]) == entry_name(
            #[trigger] b[j],
        ) ==> match (a[i], b[j]) {
            (Entry::Dir { entries: x, .. }, Entry::Dir { entries: y, .. }) => alike(x@, y@),
            (
                Entry::File { size: s, regular: r, .. },
                Entry::File { size: u, regular: v, .. },
            ) => s == u && r == v,
            _ => false,
        }
}

/// Two entries are the same, whatever the order of what is below them.
pub open spec fn same_entry(x: Entry, y: Entry) -> bool {
    entry_name(x) == entry_name(y) && match (x, y) {
        (Entry::Dir { entries: p, .. }, Entry::Dir { entries: q, .. }) => alike(p@, q@)
            && distinct_names(p@),
        (
            Entry::File { size: s, regular: r, .. },
            Entry::File { size: u, regular: v, .. },
        ) => s == u && r == v,
        _ => false,
    }
}

spec fn name_key(name: Seq<char>, by: OrderBy) -> KeyView {
    let lower = lower_case(name);
    KeyView {
        late: match by {
            OrderBy::Name => false,
            OrderBy::HifFirst => !super::listing::hif_name(lower),
            OrderBy::ExecutableFirst => !super::listing::executable_name(lower),
        },
        lower,
        name,
    }
}

proof fn lemma_same_length(a: Seq<Entry>, b: Seq<Entry>)
    requires
        alike(a, b),
    ensures
        a.len() == b.len(),
{
    names_of(a).to_multiset_ensures();
    names_of(b).to_multiset_ensures();
}

/// In any order, like listings have the same entry in the same place.
proof fn lemma_same_order(a: Seq<Entry>, b: Seq<Entry>, by: OrderBy, k: int)
    requires
        alike(a, b),
        distinct_names(a),
        0 <= k < a.len(),
    ensures
        a.len() == b.len(),
        0 <= entry_order(a, by)[k] < a.len(),
        0 <= entry_order(b, by)[k] < b.len(),
        same_entry(a[entry_order(a, by)[k]], b[entry_order(b, by)[k]]),
{
    lemma_same_length(a, b);
    entry_order_is_complete(a, by);
    entry_order_is_complete(b, by);
    let key = |n: Seq<char>| name_key(n, by);
    let (na, nb) = (names_of(a), names_of(b));
    assert(na.map_values(key) =~= entry_keys(a, by));
    assert(nb.map_values(key) =~= entry_keys(b, by));
    assert forall|i: int, j: int| 0 <= i < j < na.len() implies key(#[trigger] na[i]) != key(
        #[trigger] na[j],
    ) by {
        assert(entry_name(a[i]) != entry_name(a[j]));
        assert(key(na[i]).name == na[i] && key(na[j]).name == na[j]);
    }
    arrangement_ignores_the_listing_order(na, nb, key);
    let (p, q) = (entry_order(a, by), entry_order(b, by));
    assert(arranged(na, key)[k] == na[p[k]]);
    assert(arranged(nb, key)[k] == nb[q[k]]);
    assert(entry_name(a[p[k]]) == entry_name(b[q[k]]));
}

proof fn lemma_same_collected(dir: Seq<char>, a: Seq<Entry>, b: Seq<Entry>, k: int)
    requires
        alike(a, b),
        distinct_names(a),
        0 <= k <= a.len(),
    ensures
        collected(dir, a, k) == collected(dir, b, k),
    decreases a, k,
{
    lemma_same_length(a, b);
    if k > 0 {
        lemma_same_collected(dir, a, b, k - 1);
        lemma_same_order(a, b, OrderBy::HifFirst, k - 1);
        match (
            a[entry_order(a, OrderBy::HifFirst)[k - 1]],
            b[entry_order(b, OrderBy::HifFirst)[k - 1]],
        ) {
            (Entry::Dir { name, entries: x }, Entry::Dir { entries: y, .. }) => {
                lemma_same_length(x@, y@);
                lemma_same_collected(path_in(dir, name@), x@, y@, x@.len() as int);
            },
            _ => {},
        }
    }
}

proof fn lemma_same_tree(
    dir: Seq<char>,
    a: Seq<Entry>,
    b: Seq<Entry>,
    flags: u16,
    clusters: Map<Seq<char>, u16>,
    k: int,
)
    requires
        alike(a, b),
        distinct_names(a),
        0 <= k <= a.len(),
    ensures
        dir_tree(dir, a, flags, clusters, k) == dir_tree(dir, b, flags, clusters, k),
    decreases a, k,
{
    lemma_same_length(a, b);
    if k > 0 {
        lemma_same_tree(dir, a, b, flags, clusters, k - 1);
        lemma_same_order(a, b, OrderBy::HifFirst, k - 1);
        match (
            a[entry_order(a, OrderBy::HifFirst)[k - 1]],
            b[entry_order(b, OrderBy::HifFirst)[k - 1]],
        ) {
            (Entry::Dir { name, entries: x }, Entry::Dir { entries: y, .. }) => {
                lemma_same_length(x@, y@);
                lemma_same_tree(path_in(dir, name@), x@, y@, flags, clusters, x@.len() as int);
            },
            _ => {},
        }
    }
}

proof fn lemma_same_unassigned(
    dir: Seq<char>,
    a: Seq<Entry>,
    b: Seq<Entry>,
    by: OrderBy,
    clusters: Map<Seq<char>, u16>,
    k: int,
)
    requires
        alike(a, b),
        distinct_names(a),
        0 <= k <= a.len(),
    ensures
        unassigned(dir, a, entry_order(a, by), clusters, k) == unassigned(
            dir,
            b,
            entry_order(b, by),
            clusters,
            k,
        ),
    decreases k,
{
    if k > 0 {
        lemma_same_unassigned(dir, a, b, by, clusters, k - 1);
        lemma_same_order(a, b, by, k - 1);
    }
}

proof fn lemma_same_file(a: Seq<Entry>, b: Seq<Entry>, name: Seq<char>)
    requires
        alike(a, b),
    ensures
        holds_file(a, name) == holds_file(b, name),
{
    let (na, nb) = (names_of(a), names_of(b));
    vstd::seq_lib::to_multiset_contains(na, name);
    vstd::seq_lib::to_multiset_contains(nb, name);
    if holds_file(a, name) {
        let i = choose|i: int|
            0 <= i < a.len() && (#[trigger] a[i] matches Entry::File { name: n, regular, .. }
                && regular && n@ == name);
        assert(na[i] == name);
        assert(nb.contains(name));
        let j = choose|j: int| 0 <= j < nb.len() && nb[j] == name;
        assert(entry_name(b[j]) == entry_name(a[i]));
    }
    if holds_file(b, name) {
        let j = choose|j: int|
            0 <= j < b.len() && (#[trigger] b[j] matches Entry::File { name: n, regular, .. }
                && regular && n@ == name);
        assert(nb[j] == name);
        assert(na.contains(name));
        let i = choose|i: int| 0 <= i < na.len() && na[i] == name;
        assert(entry_name(b[j]) == entry_name(a[i]));
    }
}

proof fn lemma_same_present(
    dir: Seq<char>,
    a: Seq<Entry>,
    b: Seq<Entry>,
    names: Seq<Seq<char>>,
    k: int,
)
    requires
        alike(a, b),
    ensures
        present(dir, a, names, k) == present(dir, b, names, k),
    decreases k,
{
    if k > 0 {
        lemma_same_present(dir, a, b, names, k - 1);
        lemma_same_file(a, b, names[k - 1]);
    }
}

/// The plan of a title is the same, byte for byte, in whatever order its directories are listed.
pub proof fn plan_ignores_the_listing_order(
    root: Seq<char>,
    a: StagedTree,
    b: StagedTree,
    title_id: u64,
)
    requires
        alike(a.code@, b.code@) && distinct_names(a.code@),
        alike(a.content@, b.content@) && distinct_names(a.content@),
        alike(a.meta@, b.meta@) && distinct_names(a.meta@),
    ensures
        planned(root, a, title_id) == planned(root, b, title_id),
{
    let code = path_in(root, "code"@);
    let content = path_in(root, "content"@);
    let meta = path_in(root, "meta"@);
    lemma_same_length(a.code@, b.code@);
    lemma_same_length(a.content@, b.content@);
    lemma_same_length(a.meta@, b.meta@);
    lemma_same_present(code, a.code@, b.code@, seq!["app.xml"@, "cos.xml"@], 2);
    assert(with_xml(root, a) == with_xml(root, b));
    lemma_same_present(meta, a.meta@, b.meta@, seq!["meta.xml"@], 1);
    assert(with_meta_xml(root, a) == with_meta_xml(root, b));
    let bundle = seq![
        "iconTex.tga"@,
        "bootTvTex.tga"@,
        "bootDrcTex.tga"@,
        "bootSound.btsnd"@,
    ];
    lemma_same_present(meta, a.meta@, b.meta@, bundle, 4);
    assert(with_bundle(root, a) == with_bundle(root, b));
    lemma_same_present(meta, a.meta@, b.meta@, seq!["bootMovie.h264"@, "bootLogoTex.tga"@], 2);
    assert(with_singles(root, a) == with_singles(root, b));
    let s = with_singles(root, a);
    lemma_same_unassigned(
        meta,
        a.meta@,
        b.meta@,
        OrderBy::Name,
        s.clusters,
        a.meta@.len() as int,
    );
    assert(with_meta(root, a) == with_meta(root, b));
    let m = with_meta(root, a);
    lemma_same_unassigned(
        code,
        a.code@,
        b.code@,
        OrderBy::ExecutableFirst,
        m.clusters,
        a.code@.len() as int,
    );
    assert(with_code(root, a) == with_code(root, b));
    lemma_same_collected(content, a.content@, b.content@, a.content@.len() as int);
    assert(with_game(root, a) == with_game(root, b));
    let clusters = with_game(root, a).assigned.clusters;
    lemma_same_tree(
        code,
        a.code@,
        b.code@,
        super::FST_FLAGS_CODE,
        clusters,
        a.code@.len() as int,
    );
    lemma_same_tree(
        content,
        a.content@,
        b.content@,
        super::FST_FLAGS_CONTENT,
        clusters,
        a.content@.len() as int,
    );
    lemma_same_tree(
        meta,
        a.meta@,
        b.meta@,
        super::FST_FLAGS_META,
        clusters,
        a.meta@.len() as int,
    );
}

} // verus!

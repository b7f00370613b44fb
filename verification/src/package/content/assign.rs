//! Which content each staged file goes to.

use super::listing::{
    entry_order, has_file, holds_file, order_entries, sized_files, Entry, OrderBy,
};
use super::planned::{
    alloc_content, content_views, fresh_content, ContentView, PlannedContent, TYPE_HASHED,
};
use crate::bytes::{align_up, aligned_up};
use crate::error::{Error, ErrorView};
use crate::package::fst::OFFSET_FACTOR;
use crate::package::order::ints;
use crate::paths::{join_path, path_in};
use crate::text::{dec, dec_text, same_text, texts};
use vstd::prelude::*;

verus! {

/// Most decrypted bytes that go into one game content. The encrypted content has to stay below
/// 2 GiB, or the installer hangs.
pub const MAX_GAME_CONTENT_BYTES: u64 = 0x7000_0000;

/// The content index of each staged file, by path.
pub struct ClusterMap {
    entries: Vec<(String, u16)>,
}

spec fn clusters_of(entries: Seq<(String, u16)>) -> Map<Seq<char>, u16>
    decreases entries.len(),
{
    if entries.len() == 0 {
        Map::empty()
    } else {
        clusters_of(entries.drop_last()).insert(entries.last().0@, entries.last().1)
    }
}

impl View for ClusterMap {
    type V = Map<Seq<char>, u16>;

    closed spec fn view(&self) -> Map<Seq<char>, u16> {
        clusters_of(self.entries@)
    }
}

impl ClusterMap {
    /// A map without files.
    pub fn new() -> (r: ClusterMap)
        ensures
            r@ == Map::<Seq<char>, u16>::empty(),
    {
        ClusterMap { entries: Vec::new() }
    }

    /// Assign the file at `path` to content `index`.
    pub fn insert(&mut self, path: String, index: u16)
        ensures
            final(self)@ == old(self)@.insert(path@, index),
    {
        let ghost before = self.entries@;
        self.entries.push((path, index));
        assert(self.entries@.drop_last() =~= before);
    }

    /// The content of the file at `path`.
    pub fn get(&self, path: &str) -> (r: Option<u16>)
        ensures
            r == if self@.dom().contains(path@) {
                Some(self@[path@])
            } else {
                None
            },
    {
        let mut i: usize = self.entries.len();
        assert(self.entries@.take(i as int) =~= self.entries@);
        while i > 0
            invariant
                i <= self.entries@.len(),
                clusters_of(self.entries@).dom().contains(path@) == clusters_of(
                    self.entries@.take(i as int),
                ).dom().contains(path@),
                clusters_of(self.entries@)[path@] == clusters_of(
                    self.entries@.take(i as int),
                )[path@],
            decreases i,
        {
            let ghost upto = self.entries@.take(i as int);
            assert(upto.drop_last() =~= self.entries@.take(i - 1));
            assert(upto.last() == self.entries@[i - 1]);
            if same_text(self.entries[i - 1].0.as_str(), path) {
                return Some(self.entries[i - 1].1);
            }
            i = i - 1;
        }
        assert(self.entries@.take(0).len() == 0);
        None
    }
}

/// Bytes that a file takes in a content.
pub open spec fn placed_size(size: int) -> int {
    aligned_up(size, OFFSET_FACTOR as int)
}

/// The message for a file that is too large for any game content.
pub open spec fn oversize_message(path: Seq<char>, size: nat) -> Seq<char> {
    path + " is "@ + dec(size) + " bytes, which alone exceeds the "@ + dec(
        MAX_GAME_CONTENT_BYTES as nat,
    ) + "-byte game content cap; a content at/above 2 GiB is known to hang the Wii U installer, so this file cannot be packaged as-is"@
}

/// Packing game files into a few large contents.
#[derive(Debug)]
pub struct GameGrouping {
    /// Index of the content that is being filled, if any.
    pub current: Option<u16>,
    /// Bytes already assigned to it.
    pub current_size: u64,
}

/// Packing game files: the content that is being filled, the bytes assigned to it, and all contents.
pub struct GroupingView {
    pub current: Option<u16>,
    pub current_size: int,
    pub contents: Seq<ContentView>,
}

/// What a game file does to the packing, and the content that it joins; one that exceeds the cap by
/// itself joins none and changes nothing.
pub open spec fn grouping_step(g: GroupingView, size: u64) -> (GroupingView, Option<u16>) {
    let placed = placed_size(size as int);
    if placed > MAX_GAME_CONTENT_BYTES {
        (g, None)
    } else if g.current is Some && g.current_size + placed <= MAX_GAME_CONTENT_BYTES {
        (GroupingView { current_size: g.current_size + placed, ..g }, g.current)
    } else {
        let index = (g.contents.len() % 0x1_0000) as u16;
        (
            GroupingView {
                current: Some(index),
                current_size: placed,
                contents: g.contents.push(
                    fresh_content(g.contents.len() as int, TYPE_HASHED, true),
                ),
            },
            Some(index),
        )
    }
}

impl GameGrouping {
    /// The packing that this is the state of.
    pub open spec fn with(&self, contents: Seq<PlannedContent>) -> GroupingView {
        GroupingView {
            current: self.current,
            current_size: self.current_size as int,
            contents: content_views(contents),
        }
    }

    /// The content that is being filled is within the cap.
    pub open spec fn wf(&self) -> bool {
        self.current_size <= MAX_GAME_CONTENT_BYTES
    }

    /// No content is being filled yet.
    pub fn new() -> (r: GameGrouping)
        ensures
            r.current is None,
            r.current_size == 0,
            r.wf(),
    {
        GameGrouping { current: None, current_size: 0 }
    }

    /// The index of the content that a game file joins; where the current one has no room for it,
    /// a new one. A file that exceeds the cap by itself is refused.
    pub fn content_for(
        &mut self,
        path: &str,
        size: u64,
        contents: &mut Vec<PlannedContent>,
    ) -> (r: Result<u16, Error>)
        requires
            old(self).wf(),
            size <= u64::MAX - 0x1F,
        ensures
            final(self).wf(),
            grouping_step(old(self).with(old(contents)@), size) == (
                final(self).with(final(contents)@),
                match r {
                    Ok(index) => Some(index),
                    Err(_) => None,
                },
            ),
            match r {
                Err(e) => {
                    &&& placed_size(size as int) > MAX_GAME_CONTENT_BYTES
                    &&& e@ == ErrorView::FormatLimit(oversize_message(path@, size as nat))
                    &&& *final(self) == *old(self)
                    &&& final(contents)@ == old(contents)@
                },
                Ok(index) => {
                    let placed = placed_size(size as int);
                    &&& placed <= MAX_GAME_CONTENT_BYTES
                    &&& final(self).current == Some(index)
                    &&& if old(self).current is Some && old(self).current_size + placed
                        <= MAX_GAME_CONTENT_BYTES {
                        &&& Some(index) == old(self).current
                        &&& final(self).current_size == old(self).current_size + placed
                        &&& final(contents)@ == old(contents)@
                    } else {
                        &&& index == old(contents)@.len() % 0x1_0000
                        &&& final(self).current_size == placed
                        &&& content_views(final(contents)@) == content_views(old(contents)@).push(
                            fresh_content(old(contents)@.len() as int, TYPE_HASHED, true),
                        )
                    }
                },
            },
    {
        let placed = align_up(size, OFFSET_FACTOR as u64);
        if placed > MAX_GAME_CONTENT_BYTES {
            let mut m = path.to_owned();
            m.append(" is ");
            m.append(dec_text(size).as_str());
            m.append(" bytes, which alone exceeds the ");
            m.append(dec_text(MAX_GAME_CONTENT_BYTES).as_str());
            m.append(
                "-byte game content cap; a content at/above 2 GiB is known to hang the Wii U installer, so this file cannot be packaged as-is",
            );
            return Err(Error::FormatLimit(m));
        }
        match self.current {
            Some(index) if self.current_size + placed <= MAX_GAME_CONTENT_BYTES => {
                self.current_size = self.current_size + placed;
                Ok(index)
            },
            _ => {
                let index = alloc_content(contents, TYPE_HASHED, true);
                self.current = Some(index);
                self.current_size = placed;
                Ok(index)
            },
        }
    }
}

/// The contents so far, and the content of each file assigned so far.
pub struct Assigned {
    pub contents: Seq<ContentView>,
    pub clusters: Map<Seq<char>, u16>,
}

/// The index of the next content.
pub open spec fn next_index(a: Assigned) -> u16 {
    (a.contents.len() % 0x1_0000) as u16
}

/// Each of the first `k` files gets a content of its own.
pub open spec fn assigned_each(
    a: Assigned,
    paths: Seq<Seq<char>>,
    content_type: u16,
    k: int,
) -> Assigned
    decreases k,
{
    if k <= 0 {
        a
    } else {
        let b = assigned_each(a, paths, content_type, k - 1);
        Assigned {
            contents: b.contents.push(
                fresh_content(b.contents.len() as int, content_type, false),
            ),
            clusters: b.clusters.insert(paths[k - 1], next_index(b)),
        }
    }
}

/// The map in which the first `k` files have content `index`.
pub open spec fn inserted(
    clusters: Map<Seq<char>, u16>,
    paths: Seq<Seq<char>>,
    index: u16,
    k: int,
) -> Map<Seq<char>, u16>
    decreases k,
{
    if k <= 0 {
        clusters
    } else {
        inserted(clusters, paths, index, k - 1).insert(paths[k - 1], index)
    }
}

/// The files share one content; without files there is none.
pub open spec fn assigned_together(
    a: Assigned,
    paths: Seq<Seq<char>>,
    content_type: u16,
) -> Assigned {
    if paths.len() == 0 {
        a
    } else {
        Assigned {
            contents: a.contents.push(
                fresh_content(a.contents.len() as int, content_type, false),
            ),
            clusters: inserted(a.clusters, paths, next_index(a), paths.len() as int),
        }
    }
}

/// The regular files of a directory that have no content yet, in the given order of its entries.
pub open spec fn unassigned(
    dir: Seq<char>,
    entries: Seq<Entry>,
    order: Seq<int>,
    clusters: Map<Seq<char>, u16>,
    k: int,
) -> Seq<Seq<char>>
    decreases k,
{
    if k <= 0 {
        Seq::empty()
    } else {
        let done = unassigned(dir, entries, order, clusters, k - 1);
        match entries[order[k - 1]] {
            Entry::File { name, regular, .. } => if regular && !clusters.dom().contains(
                path_in(dir, name@),
            ) {
                done.push(path_in(dir, name@))
            } else {
                done
            },
            Entry::Dir { .. } => done,
        }
    }
}

/// Those of `names` that are regular files of a directory.
pub open spec fn present(dir: Seq<char>, entries: Seq<Entry>, names: Seq<Seq<char>>, k: int) -> Seq<
    Seq<char>,
>
    decreases k,
{
    if k <= 0 {
        Seq::empty()
    } else if holds_file(entries, names[k - 1]) {
        present(dir, entries, names, k - 1).push(path_in(dir, names[k - 1]))
    } else {
        present(dir, entries, names, k - 1)
    }
}

/// Packing game files: the contents and assignments so far, the content that is being filled, and
/// why a file was refused.
pub struct Packing {
    pub assigned: Assigned,
    pub current: Option<u16>,
    pub current_size: int,
    pub refused: Option<ErrorView>,
}

/// One more game file packed: into the content that is being filled where that has room for it,
/// else into a new one.
pub open spec fn pack_one(p: Packing, path: Seq<char>, size: u64) -> Packing {
    let placed = placed_size(size as int);
    if p.refused is Some {
        p
    } else if placed > MAX_GAME_CONTENT_BYTES {
        Packing {
            refused: Some(ErrorView::FormatLimit(oversize_message(path, size as nat))),
            ..p
        }
    } else if p.current is Some && p.current_size + placed <= MAX_GAME_CONTENT_BYTES {
        Packing {
            assigned: Assigned {
                contents: p.assigned.contents,
                clusters: p.assigned.clusters.insert(path, p.current->0),
            },
            current: p.current,
            current_size: p.current_size + placed,
            refused: None,
        }
    } else {
        Packing {
            assigned: Assigned {
                contents: p.assigned.contents.push(
                    fresh_content(p.assigned.contents.len() as int, TYPE_HASHED, true),
                ),
                clusters: p.assigned.clusters.insert(path, next_index(p.assigned)),
            },
            current: Some(next_index(p.assigned)),
            current_size: placed,
            refused: None,
        }
    }
}

/// The first `k` game files packed into contents of at most [`MAX_GAME_CONTENT_BYTES`].
pub open spec fn packed(a: Assigned, files: Seq<(Seq<char>, u64)>, k: int) -> Packing
    decreases k,
{
    if k <= 0 {
        Packing { assigned: a, current: None, current_size: 0, refused: None }
    } else {
        pack_one(packed(a, files, k - 1), files[k - 1].0, files[k - 1].1)
    }
}

/// Give each file a content of its own.
pub fn assign_each(
    paths: Vec<String>,
    content_type: u16,
    contents: &mut Vec<PlannedContent>,
    clusters: &mut ClusterMap,
)
    ensures
        ({
            let a = Assigned { contents: content_views(old(contents)@), clusters: old(clusters)@ };
            let b = assigned_each(a, texts(paths@), content_type, paths@.len() as int);
            content_views(final(contents)@) == b.contents && final(clusters)@ == b.clusters
        }),
{
    let ghost a = Assigned { contents: content_views(contents@), clusters: clusters@ };
    let ghost tv = texts(paths@);
    let mut i: usize = 0;
    while i < paths.len()
        invariant
            i <= paths@.len(),
            tv == texts(paths@),
            content_views(contents@) == assigned_each(a, tv, content_type, i as int).contents,
            clusters@ == assigned_each(a, tv, content_type, i as int).clusters,
        decreases paths@.len() - i,
    {
        let index = alloc_content(contents, content_type, false);
        clusters.insert(paths[i].clone(), index);
        i = i + 1;
    }
}

/// Give the files one content together, if there are any.
pub fn assign_together(
    paths: Vec<String>,
    content_type: u16,
    contents: &mut Vec<PlannedContent>,
    clusters: &mut ClusterMap,
)
    ensures
        ({
            let a = Assigned { contents: content_views(old(contents)@), clusters: old(clusters)@ };
            let b = assigned_together(a, texts(paths@), content_type);
            content_views(final(contents)@) == b.contents && final(clusters)@ == b.clusters
        }),
{
    if paths.len() == 0 {
        return;
    }
    let ghost tv = texts(paths@);
    let ghost before = clusters@;
    let index = alloc_content(contents, content_type, false);
    let mut i: usize = 0;
    while i < paths.len()
        invariant
            i <= paths@.len(),
            tv == texts(paths@),
            clusters@ == inserted(before, tv, index, i as int),
        decreases paths@.len() - i,
    {
        clusters.insert(paths[i].clone(), index);
        i = i + 1;
    }
}

/// The regular files of a directory that have no content yet, in the given order.
pub fn unassigned_files(
    dir: &str,
    entries: &Vec<Entry>,
    by: OrderBy,
    clusters: &ClusterMap,
) -> (r: Vec<String>)
    ensures
        texts(r@) == unassigned(
            dir@,
            entries@,
            entry_order(entries@, by),
            clusters@,
            entries@.len() as int,
        ),
{
    let order = order_entries(entries, by);
    let ghost ord = entry_order(entries@, by);
    let mut r: Vec<String> = Vec::new();
    let mut k: usize = 0;
    assert(texts(r@) =~= unassigned(dir@, entries@, ord, clusters@, 0));
    while k < order.len()
        invariant
            k <= order@.len(),
            order@.len() == entries@.len(),
            ints(order@) == ord,
            forall|i: int| 0 <= i < order@.len() ==> #[trigger] order@[i] < entries@.len(),
            texts(r@) == unassigned(dir@, entries@, ord, clusters@, k as int),
        decreases order@.len() - k,
    {
        assert(ints(order@)[k as int] == order@[k as int]);
        let ghost before = texts(r@);
        if let Entry::File { name, regular, .. } = &entries[order[k]] {
            let path = join_path(dir, name.as_str());
            if *regular && clusters.get(path.as_str()).is_none() {
                r.push(path);
                assert(texts(r@) =~= before.push(path_in(dir@, name@)));
            }
        }
        k = k + 1;
    }
    r
}

/// Those of `names` that are regular files of a directory.
pub fn present_files(dir: &str, entries: &Vec<Entry>, names: &Vec<&str>) -> (r: Vec<String>)
    ensures
        texts(r@) == present(
            dir@,
            entries@,
            Seq::new(names@.len(), |i: int| names@[i]@),
            names@.len() as int,
        ),
{
    let ghost nv = Seq::new(names@.len(), |i: int| names@[i]@);
    let mut r: Vec<String> = Vec::new();
    let mut k: usize = 0;
    assert(texts(r@) =~= present(dir@, entries@, nv, 0));
    while k < names.len()
        invariant
            k <= names@.len(),
            nv == Seq::new(names@.len(), |i: int| names@[i]@),
            texts(r@) == present(dir@, entries@, nv, k as int),
        decreases names@.len() - k,
    {
        let ghost before = texts(r@);
        if has_file(entries, names[k]) {
            r.push(join_path(dir, names[k]));
            assert(texts(r@) =~= before.push(path_in(dir@, nv[k as int])));
        }
        k = k + 1;
    }
    r
}

/// The state of packing, from what the packer holds.
pub open spec fn packing_of(
    game: GameGrouping,
    contents: Seq<PlannedContent>,
    clusters: ClusterMap,
) -> Packing {
    Packing {
        assigned: Assigned { contents: content_views(contents), clusters: clusters@ },
        current: game.current,
        current_size: game.current_size as int,
        refused: None,
    }
}

fn assign_game_file(
    game: &mut GameGrouping,
    path: &String,
    size: u64,
    contents: &mut Vec<PlannedContent>,
    clusters: &mut ClusterMap,
) -> (r: Result<(), Error>)
    requires
        old(game).wf(),
        size <= u64::MAX - 0x1F,
    ensures
        final(game).wf(),
        ({
            let p = pack_one(packing_of(*old(game), old(contents)@, *old(clusters)), path@, size);
            match r {
                Ok(_) => p == packing_of(*final(game), final(contents)@, *final(clusters)),
                Err(e) => p.refused == Some(e@),
            }
        }),
{
    let index = match game.content_for(path.as_str(), size, contents) {
        Ok(index) => index,
        Err(e) => return Err(e),
    };
    clusters.insert(path.clone(), index);
    Ok(())
}

/// Pack the game files into contents.
pub fn assign_game(
    files: &Vec<(String, u64)>,
    contents: &mut Vec<PlannedContent>,
    clusters: &mut ClusterMap,
) -> (r: Result<(), Error>)
    requires
        forall|i: int| 0 <= i < files@.len() ==> (#[trigger] files@[i]).1 <= u64::MAX - 0x1F,
    ensures
        ({
            let a = Assigned { contents: content_views(old(contents)@), clusters: old(clusters)@ };
            let p = packed(a, sized_files(files@), files@.len() as int);
            match r {
                Ok(_) => p.refused is None && content_views(final(contents)@)
                    == p.assigned.contents && final(clusters)@ == p.assigned.clusters,
                Err(e) => p.refused == Some(e@),
            }
        }),
{
    let ghost a = Assigned { contents: content_views(contents@), clusters: clusters@ };
    let ghost fv = sized_files(files@);
    let mut game = GameGrouping::new();
    let mut i: usize = 0;
    while i < files.len()
        invariant
            i <= files@.len(),
            a == (Assigned { contents: content_views(old(contents)@), clusters: old(clusters)@ }),
            fv == sized_files(files@),
            forall|j: int| 0 <= j < files@.len() ==> (#[trigger] files@[j]).1 <= u64::MAX - 0x1F,
            game.wf(),
            packed(a, fv, i as int) == packing_of(game, contents@, *clusters),
        decreases files@.len() - i,
    {
        assert(fv[i as int] == (files@[i as int].0@, files@[i as int].1));
        match assign_game_file(&mut game, &files[i].0, files[i].1, contents, clusters) {
            Ok(_) => {},
            Err(e) => {
                proof {
                    lemma_refusal_stays(a, fv, i + 1, files@.len() as int);
                }
                return Err(e);
            },
        }
        i = i + 1;
    }
    Ok(())
}

proof fn lemma_refusal_stays(a: Assigned, files: Seq<(Seq<char>, u64)>, k: int, n: int)
    requires
        0 <= k <= n,
        packed(a, files, k).refused is Some,
    ensures
        packed(a, files, n).refused == packed(a, files, k).refused,
    decreases n,
{
    if k < n {
        lemma_refusal_stays(a, files, k, n - 1);
    }
}

/// Every assigned file has a content that exists, and the contents are still empty.
pub open spec fn sound(a: Assigned) -> bool {
    &&& a.contents.len() > 0
    &&& forall|p: Seq<char>|
        #[trigger] a.clusters.dom().contains(p) ==> a.clusters[p] < a.contents.len()
    &&& forall|c: int|
        0 <= c < a.contents.len() ==> (#[trigger] a.contents[c]).data_len == 0
            && a.contents[c].files.len() == 0 && a.contents[c].index == c % 0x1_0000
}

/// None of the contents is game data.
pub open spec fn no_game(a: Assigned) -> bool {
    forall|c: int| 0 <= c < a.contents.len() ==> !(#[trigger] a.contents[c]).is_game
}

/// Contents are only ever added.
pub open spec fn extends(a: Assigned, b: Assigned) -> bool {
    &&& a.contents.len() <= b.contents.len()
    &&& forall|c: int| 0 <= c < a.contents.len() ==> #[trigger] b.contents[c] == a.contents[c]
}

/// Giving each file its own content keeps the assignment sound.
pub proof fn assigned_each_is_sound(
    a: Assigned,
    paths: Seq<Seq<char>>,
    content_type: u16,
    k: int,
)
    requires
        sound(a),
        0 <= k,
    ensures
        sound(assigned_each(a, paths, content_type, k)),
        extends(a, assigned_each(a, paths, content_type, k)),
        assigned_each(a, paths, content_type, k).contents.len() == a.contents.len() + k,
        no_game(a) ==> no_game(assigned_each(a, paths, content_type, k)),
    decreases k,
{
    if k > 0 {
        assigned_each_is_sound(a, paths, content_type, k - 1);
    }
}

proof fn lemma_inserted(
    clusters: Map<Seq<char>, u16>,
    paths: Seq<Seq<char>>,
    index: u16,
    k: int,
    n: int,
)
    requires
        index < n,
        forall|p: Seq<char>| #[trigger] clusters.dom().contains(p) ==> clusters[p] < n,
    ensures
        forall|p: Seq<char>|
            #[trigger] inserted(clusters, paths, index, k).dom().contains(p) ==> inserted(
                clusters,
                paths,
                index,
                k,
            )[p] < n,
    decreases k,
{
    if k > 0 {
        lemma_inserted(clusters, paths, index, k - 1, n);
        let m = inserted(clusters, paths, index, k - 1);
        let r = inserted(clusters, paths, index, k);
        assert forall|p: Seq<char>| #[trigger] r.dom().contains(p) implies r[p] < n by {
            if p != paths[k - 1] {
                assert(m.dom().contains(p));
            }
        }
    }
}

/// Giving files a shared content keeps the assignment sound.
pub proof fn assigned_together_is_sound(a: Assigned, paths: Seq<Seq<char>>, content_type: u16)
    requires
        sound(a),
    ensures
        sound(assigned_together(a, paths, content_type)),
        extends(a, assigned_together(a, paths, content_type)),
        assigned_together(a, paths, content_type).contents.len() <= a.contents.len() + 1,
        no_game(a) ==> no_game(assigned_together(a, paths, content_type)),
{
    if paths.len() > 0 {
        lemma_inserted(
            a.clusters,
            paths,
            next_index(a),
            paths.len() as int,
            a.contents.len() as int + 1,
        );
    }
}

/// Packing game files keeps the assignment sound, adds game contents only, and never fills one
/// beyond the cap.
pub proof fn packed_is_sound(a: Assigned, files: Seq<(Seq<char>, u64)>, k: int)
    requires
        sound(a),
        0 <= k,
    ensures
        sound(packed(a, files, k).assigned),
        extends(a, packed(a, files, k).assigned),
        packed(a, files, k).assigned.contents.len() <= a.contents.len() + k,
        packed(a, files, k).current_size <= MAX_GAME_CONTENT_BYTES,
        packed(a, files, k).current matches Some(c) ==> c
            < packed(a, files, k).assigned.contents.len(),
        forall|c: int|
            a.contents.len() <= c < packed(a, files, k).assigned.contents.len() ==> (
            #[trigger] packed(a, files, k).assigned.contents[c]).is_game,
    decreases k,
{
    if k > 0 {
        packed_is_sound(a, files, k - 1);
    }
}

/// A directory has no more unassigned files than entries.
pub proof fn unassigned_is_bounded(
    dir: Seq<char>,
    entries: Seq<Entry>,
    order: Seq<int>,
    clusters: Map<Seq<char>, u16>,
    k: int,
)
    requires
        0 <= k,
    ensures
        unassigned(dir, entries, order, clusters, k).len() <= k,
    decreases k,
{
    if k > 0 {
        unassigned_is_bounded(dir, entries, order, clusters, k - 1);
    }
}

/// No more names are present than there are.
pub proof fn present_is_bounded(
    dir: Seq<char>,
    entries: Seq<Entry>,
    names: Seq<Seq<char>>,
    k: int,
)
    requires
        0 <= k,
    ensures
        present(dir, entries, names, k).len() <= k,
    decreases k,
{
    if k > 0 {
        present_is_bounded(dir, entries, names, k - 1);
    }
}

} // verus!

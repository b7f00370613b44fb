//! Planned contents and the files placed in them.

use vstd::prelude::*;

verus! {

/// Content type of content without a hash tree.
pub const TYPE_NONHASHED: u16 = 0x2001;

/// Content type of content with a hash tree.
pub const TYPE_HASHED: u16 = 0x2003;

/// A file placed within a content.
#[derive(Clone, Debug)]
pub struct PlacedFile {
    /// Where the file is found.
    pub path: String,
    /// Byte offset within the content, a multiple of 0x20.
    pub offset: u64,
    /// File size in bytes.
    pub size: u64,
}

/// The value of a [`PlacedFile`].
#[verifier::ext_equal]
pub struct PlacedView {
    pub path: Seq<char>,
    pub offset: int,
    pub size: int,
}

impl View for PlacedFile {
    type V = PlacedView;

    open spec fn view(&self) -> PlacedView {
        PlacedView { path: self.path@, offset: self.offset as int, size: self.size as int }
    }
}

/// The values of a list of placed files.
pub open spec fn placed_views(files: Seq<PlacedFile>) -> Seq<PlacedView> {
    Seq::new(files.len(), |i: int| files[i]@)
}

/// A content to be encrypted and written.
#[derive(Clone, Debug)]
pub struct PlannedContent {
    /// Content index, which is also its id.
    pub index: u16,
    /// [`TYPE_HASHED`] or [`TYPE_NONHASHED`].
    pub content_type: u16,
    /// The files of the content in the order of their places; none for the FST.
    pub files: Vec<PlacedFile>,
    /// Size of the decrypted data.
    pub data_len: u64,
    /// Whether this is game data, which has an owner title id and a group id of its own in the
    /// FST. The installer hangs where it has none.
    pub is_game: bool,
}

/// The value of a [`PlannedContent`].
#[verifier::ext_equal]
pub struct ContentView {
    pub index: u16,
    pub content_type: u16,
    pub files: Seq<PlacedView>,
    pub data_len: int,
    pub is_game: bool,
}

impl View for PlannedContent {
    type V = ContentView;

    open spec fn view(&self) -> ContentView {
        ContentView {
            index: self.index,
            content_type: self.content_type,
            files: placed_views(self.files@),
            data_len: self.data_len as int,
            is_game: self.is_game,
        }
    }
}

/// The values of a list of contents.
pub open spec fn content_views(contents: Seq<PlannedContent>) -> Seq<ContentView> {
    Seq::new(contents.len(), |i: int| contents[i]@)
}

/// The `n`-th content, with nothing in it yet.
pub open spec fn fresh_content(n: int, content_type: u16, is_game: bool) -> ContentView {
    ContentView {
        index: (n % 0x1_0000) as u16,
        content_type,
        files: Seq::empty(),
        data_len: 0,
        is_game,
    }
}

/// Append an empty content and return its index.
pub fn alloc_content(contents: &mut Vec<PlannedContent>, content_type: u16, is_game: bool) -> (r:
    u16)
    ensures
        r == old(contents)@.len() % 0x1_0000,
        content_views(final(contents)@) == content_views(old(contents)@).push(
            fresh_content(old(contents)@.len() as int, content_type, is_game),
        ),
{
    let index = (contents.len() % 0x1_0000) as u16;
    let c = PlannedContent { index, content_type, files: Vec::new(), data_len: 0, is_game };
    assert(c@ =~= fresh_content(contents@.len() as int, content_type, is_game));
    let ghost before = contents@;
    contents.push(c);
    assert(content_views(contents@) =~= content_views(before).push(
        fresh_content(before.len() as int, content_type, is_game),
    ));
    index
}

} // verus!

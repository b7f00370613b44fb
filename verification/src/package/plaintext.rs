//! The decrypted bytes of a content: its files at their offsets, zeros in between.
//!
//! Small contents are assembled in memory; large ones are streamed piece by piece.

use super::content::planned::{ContentView, PlacedFile, PlacedView, PlannedContent};
use crate::bytes::{
    append_bytes, field, fields_apart, in_field, layout, layout_reads_back, lemma_overlaid_len,
    overlaid, place, put, zeroed, zeros, Field,
};
use crate::error::{Error, ErrorView};
use crate::text::{dec, dec_text};
use vstd::prelude::*;

verus! {

/// The files of a content as fields of its image.
pub open spec fn file_fields(files: Seq<PlacedView>, data: Seq<Seq<u8>>) -> Seq<Field> {
    Seq::new(files.len(), |i: int| field(files[i].offset, data[i]))
}

/// The decrypted bytes of a content with these files.
pub open spec fn assembled(c: ContentView, data: Seq<Seq<u8>>) -> Seq<u8> {
    layout(c.data_len as nat, file_fields(c.files, data))
}

/// Every file lies within the content.
pub open spec fn within_content(c: ContentView) -> bool {
    forall|i: int|
        0 <= i < c.files.len() ==> 0 <= (#[trigger] c.files[i]).offset && 0 <= c.files[i].size
            && c.files[i].offset + c.files[i].size <= c.data_len
}

/// No two files share a byte.
pub open spec fn disjoint(files: Seq<PlacedView>) -> bool {
    forall|i: int, j: int|
        0 <= i < j < files.len() ==> (#[trigger] files[i]).offset + files[i].size <= (
        #[trigger] files[j]).offset || files[j].offset + files[j].size <= files[i].offset
}

/// The message for a file whose size is not the planned one.
pub open spec fn changed_size_message(path: Seq<char>, planned: nat, found: nat) -> Seq<char> {
    path + " changed size after planning: expected "@ + dec(planned) + " bytes, found "@ + dec(
        found,
    )
}

/// The values of a list of byte strings.
pub open spec fn byte_views(v: Seq<Vec<u8>>) -> Seq<Seq<u8>> {
    Seq::new(v.len(), |i: int| v[i]@)
}

/// Put the bytes of a file at its place. A file that is no longer as long as it was when it was
/// planned is refused.
pub fn place_bytes(buf: &mut Vec<u8>, f: &PlacedFile, bytes: &[u8]) -> (r: Result<(), Error>)
    requires
        f.offset + f.size <= old(buf)@.len(),
    ensures
        match r {
            Ok(_) => bytes@.len() == f.size && final(buf)@ == place(
                old(buf)@,
                f.offset as int,
                bytes@,
            ),
            Err(e) => bytes@.len() != f.size && e@ == ErrorView::FormatLimit(
                changed_size_message(f.path@, f.size as nat, bytes@.len()),
            ) && final(buf)@ == old(buf)@,
        },
{
    if bytes.len() as u64 != f.size {
        let mut m = f.path.clone();
        m.append(" changed size after planning: expected ");
        m.append(dec_text(f.size).as_str());
        m.append(" bytes, found ");
        m.append(dec_text(bytes.len() as u64).as_str());
        return Err(Error::FormatLimit(m));
    }
    let total = buf.len();
    put(buf, f.offset as usize, bytes);
    Ok(())
}

/// The first file whose bytes are not as many as planned.
pub open spec fn first_changed(files: Seq<PlacedView>, data: Seq<Seq<u8>>, k: int) -> Option<int>
    decreases k,
{
    if k <= 0 {
        None
    } else if first_changed(files, data, k - 1) is Some {
        first_changed(files, data, k - 1)
    } else if data[k - 1].len() != files[k - 1].size {
        Some(k - 1)
    } else {
        None
    }
}

proof fn lemma_first_changed_stays(files: Seq<PlacedView>, data: Seq<Seq<u8>>, k: int, n: int)
    requires
        0 <= k <= n,
        first_changed(files, data, k) is Some,
    ensures
        first_changed(files, data, n) == first_changed(files, data, k),
    decreases n,
{
    if k < n {
        lemma_first_changed_stays(files, data, k, n - 1);
    }
}

/// Assemble the decrypted bytes of a content, given the FST and the bytes of the content's files.
/// Content 0 is the FST.
pub fn assemble_content(c: &PlannedContent, fst: &[u8], data: &Vec<Vec<u8>>) -> (r: Result<
    Vec<u8>,
    Error,
>)
    requires
        c.data_len <= usize::MAX,
        within_content(c@),
        data@.len() == c.files@.len(),
    ensures
        match r {
            Ok(v) => if c.index == 0 {
                v@ == fst@
            } else {
                first_changed(c@.files, byte_views(data@), c@.files.len() as int) is None && v@
                    == assembled(c@, byte_views(data@))
            },
            Err(e) => {
                &&& c.index != 0
                &&& first_changed(c@.files, byte_views(data@), c@.files.len() as int) matches Some(
                    i,
                )
                &&& e@ == ErrorView::FormatLimit(
                    changed_size_message(
                        c.files@[i].path@,
                        c.files@[i].size as nat,
                        data@[i]@.len(),
                    ),
                )
            },
        },
{
    if c.index == 0 {
        let mut v: Vec<u8> = Vec::new();
        append_bytes(&mut v, fst);
        assert(v@ =~= fst@);
        return Ok(v);
    }
    let ghost dv = byte_views(data@);
    let ghost fields = file_fields(c@.files, dv);
    let mut buf = zeroed(c.data_len as usize);
    let mut i: usize = 0;
    while i < c.files.len()
        invariant
            i <= c.files@.len(),
            c.index != 0,
            within_content(c@),
            data@.len() == c.files@.len(),
            dv == byte_views(data@),
            fields == file_fields(c@.files, dv),
            first_changed(c@.files, dv, i as int) is None,
            buf@.len() == c.data_len,
            buf@ == overlaid(zeros(c.data_len as nat), fields, i as int),
        decreases c.files@.len() - i,
    {
        assert(c@.files[i as int] == c.files@[i as int]@);
        assert(fields[i as int].bytes == data@[i as int]@);
        match place_bytes(&mut buf, &c.files[i], data[i].as_slice()) {
            Ok(_) => {},
            Err(e) => {
                proof {
                    lemma_first_changed_stays(c@.files, dv, i + 1, c@.files.len() as int);
                }
                return Err(e);
            },
        }
        i = i + 1;
    }
    Ok(buf)
}

/// Where a file stands in its content.
#[derive(Clone, Copy, Debug, PartialEq, Eq, Structural)]
pub struct Span {
    /// The index of the file in the content.
    pub index: usize,
    pub offset: u64,
    pub size: u64,
}

/// Where a span ends.
pub open spec fn span_end(s: Span) -> int {
    s.offset + s.size
}

/// The order of spans: by offset, empty ones first.
pub open spec fn span_le(a: Span, b: Span) -> bool {
    a.offset < b.offset || (a.offset == b.offset && a.size <= b.size)
}

/// What comes next in a streamed content.
#[derive(Clone, Copy, Debug, PartialEq, Eq, Structural)]
pub enum Piece {
    /// Nothing: the content is at its end, or nothing was asked for.
    End,
    /// So many zeros.
    Zeros(usize),
    /// Bytes of a file: its index, where to begin in it, and how many.
    File { index: usize, at: u64, len: usize },
}

/// How many bytes a piece stands for.
pub open spec fn piece_len(p: Piece) -> int {
    match p {
        Piece::End => 0,
        Piece::Zeros(n) => n as int,
        Piece::File { len, .. } => len as int,
    }
}

/// The smaller of two numbers.
pub open spec fn least(a: int, b: int) -> int {
    if a < b {
        a
    } else {
        b
    }
}

/// The first span from `k` on that does not end at or before `pos`.
pub open spec fn span_at(spans: Seq<Span>, pos: int, k: int) -> int
    decreases spans.len() - k,
{
    if k >= spans.len() {
        spans.len() as int
    } else if pos >= span_end(spans[k]) {
        span_at(spans, pos, k + 1)
    } else {
        k
    }
}

/// What comes next at `pos` when `want` bytes are asked for.
pub open spec fn next_piece(spans: Seq<Span>, data_len: int, pos: int, want: int) -> Piece {
    if pos >= data_len || want == 0 {
        Piece::End
    } else {
        let room = least(want, data_len - pos);
        let k = span_at(spans, pos, 0);
        if k >= spans.len() {
            Piece::Zeros(room as usize)
        } else if pos < spans[k].offset {
            Piece::Zeros(least(room, spans[k].offset - pos) as usize)
        } else {
            Piece::File {
                index: spans[k].index,
                at: (pos - spans[k].offset) as u64,
                len: least(room, span_end(spans[k]) - pos) as usize,
            }
        }
    }
}

/// Streams the decrypted bytes of a content without holding the content or any whole file.
#[derive(Debug)]
pub struct ContentPlaintextReader {
    pub spans: Vec<Span>,
    pub data_len: u64,
    pub pos: u64,
    pub file_idx: usize,
}

/// The spans are those of the files, in order of their places.
pub open spec fn spans_of(files: Seq<PlacedView>, spans: Seq<Span>) -> bool {
    &&& spans.len() == files.len()
    &&& forall|k: int|
        0 <= k < spans.len() ==> (#[trigger] spans[k]).index < files.len() && spans[k].offset
            == files[spans[k].index as int].offset && spans[k].size
            == files[spans[k].index as int].size
    &&& forall|i: int, j: int|
        0 <= i < j < spans.len() ==> (#[trigger] spans[i]).index != (#[trigger] spans[j]).index
    &&& forall|i: int, j: int|
        0 <= i < j < spans.len() ==> span_le(#[trigger] spans[i], #[trigger] spans[j])
}

proof fn lemma_span_at(spans: Seq<Span>, pos: int, k: int, m: int)
    requires
        0 <= k <= m <= spans.len(),
        forall|i: int| k <= i < m ==> span_end(#[trigger] spans[i]) <= pos,
    ensures
        span_at(spans, pos, k) == span_at(spans, pos, m),
    decreases m - k,
{
    if k < m {
        lemma_span_at(spans, pos, k + 1, m);
    }
}

impl ContentPlaintextReader {
    /// The spans before `file_idx` have been passed, and no span ends beyond what can be counted.
    pub open spec fn wf(&self) -> bool {
        &&& self.file_idx <= self.spans@.len()
        &&& forall|k: int|
            0 <= k < self.file_idx ==> span_end(#[trigger] self.spans@[k]) <= self.pos
        &&& forall|k: int|
            0 <= k < self.spans@.len() ==> span_end(#[trigger] self.spans@[k]) <= u64::MAX
    }

    /// A reader at the start of a content.
    pub fn new(c: &PlannedContent) -> (r: ContentPlaintextReader)
        requires
            within_content(c@),
        ensures
            r.wf(),
            r.pos == 0,
            r.data_len == c.data_len,
            spans_of(c@.files, r.spans@),
    {
        let mut spans: Vec<Span> = Vec::new();
        let mut n: usize = 0;
        while n < c.files.len()
            invariant
                n <= c.files@.len(),
                within_content(c@),
                spans@.len() == n,
                forall|k: int|
                    0 <= k < n ==> (#[trigger] spans@[k]).index < n && spans@[k].offset
                        == c@.files[spans@[k].index as int].offset && spans@[k].size
                        == c@.files[spans@[k].index as int].size,
                forall|i: int, j: int|
                    0 <= i < j < n ==> (#[trigger] spans@[i]).index != (#[trigger] spans@[j]).index,
                forall|i: int, j: int|
                    0 <= i < j < n ==> span_le(#[trigger] spans@[i], #[trigger] spans@[j]),
            decreases c.files@.len() - n,
        {
            let s = Span { index: n, offset: c.files[n].offset, size: c.files[n].size };
            assert(c@.files[n as int] == c.files@[n as int]@);
            let mut at: usize = 0;
            while at < spans.len() && (spans[at].offset < s.offset || (spans[at].offset == s.offset
                && spans[at].size <= s.size))
                invariant
                    at <= spans@.len(),
                    forall|k: int| 0 <= k < at ==> span_le(#[trigger] spans@[k], s),
                decreases spans@.len() - at,
            {
                at = at + 1;
            }
            let ghost before = spans@;
            spans.insert(at, s);
            assert forall|i: int, j: int| 0 <= i < j < n + 1 implies span_le(
                #[trigger] spans@[i],
                #[trigger] spans@[j],
            ) && spans@[i].index != spans@[j].index by {
                assert(i < at ==> spans@[i] == before[i]);
                assert(i > at ==> spans@[i] == before[i - 1]);
                assert(j < at ==> spans@[j] == before[j]);
                assert(j > at ==> spans@[j] == before[j - 1]);
                if i == at {
                    assert(span_le(before[at as int], before[j - 1]) || at == j - 1);
                }
            }
            assert forall|k: int| 0 <= k < n + 1 implies (#[trigger] spans@[k]).index < n + 1
                && spans@[k].offset == c@.files[spans@[k].index as int].offset && spans@[k].size
                == c@.files[spans@[k].index as int].size by {
                assert(k < at ==> spans@[k] == before[k]);
                assert(k > at ==> spans@[k] == before[k - 1]);
            }
            n = n + 1;
        }
        assert forall|k: int| 0 <= k < spans@.len() implies span_end(#[trigger] spans@[k])
            <= u64::MAX by {
            assert(c@.files[spans@[k].index as int].offset + c@.files[spans@[k].index as int].size
                <= c@.data_len);
        }
        ContentPlaintextReader { spans, data_len: c.data_len, pos: 0, file_idx: 0 }
    }

    /// What comes next when `want` bytes are asked for; the reader moves past it.
    pub fn read(&mut self, want: usize) -> (r: Piece)
        requires
            old(self).wf(),
        ensures
            final(self).wf(),
            r == next_piece(
                old(self).spans@,
                old(self).data_len as int,
                old(self).pos as int,
                want as int,
            ),
            final(self).spans == old(self).spans,
            final(self).data_len == old(self).data_len,
            final(self).pos == old(self).pos + piece_len(r),
    {
        if self.pos >= self.data_len || want == 0 {
            return Piece::End;
        }
        while self.file_idx < self.spans.len() && self.pos >= self.spans[self.file_idx].offset
            + self.spans[self.file_idx].size
            invariant
                self.wf(),
                self.spans == old(self).spans,
                self.data_len == old(self).data_len,
                self.pos == old(self).pos,
            decreases self.spans@.len() - self.file_idx,
        {
            self.file_idx = self.file_idx + 1;
        }
        proof {
            lemma_span_at(self.spans@, self.pos as int, 0, self.file_idx as int);
        }
        let left = self.data_len - self.pos;
        let room: u64 = if (want as u64) < left {
            want as u64
        } else {
            left
        };
        if self.file_idx >= self.spans.len() {
            self.pos = self.pos + room;
            return Piece::Zeros(room as usize);
        }
        let s = self.spans[self.file_idx];
        if self.pos < s.offset {
            let gap = s.offset - self.pos;
            let n = if room < gap {
                room
            } else {
                gap
            };
            self.pos = self.pos + n;
            Piece::Zeros(n as usize)
        } else {
            let end = s.offset + s.size;
            let rest = end - self.pos;
            let n = if room < rest {
                room
            } else {
                rest
            };
            let at = self.pos - s.offset;
            self.pos = self.pos + n;
            if self.pos >= end {
                self.file_idx = self.file_idx + 1;
            }
            Piece::File { index: s.index, at, len: n as usize }
        }
    }
}

/// The bytes that a piece stands for.
pub open spec fn piece_bytes(p: Piece, data: Seq<Seq<u8>>) -> Seq<u8> {
    match p {
        Piece::End => Seq::empty(),
        Piece::Zeros(n) => zeros(n as nat),
        Piece::File { index, at, len } => data[index as int].subrange(at as int, at + len),
    }
}

proof fn lemma_span_at_bounds(spans: Seq<Span>, pos: int, k: int)
    requires
        0 <= k <= spans.len(),
    ensures
        k <= span_at(spans, pos, k) <= spans.len(),
        forall|i: int| k <= i < span_at(spans, pos, k) ==> span_end(#[trigger] spans[i]) <= pos,
        span_at(spans, pos, k) < spans.len() ==> pos < span_end(spans[span_at(spans, pos, k)]),
    decreases spans.len() - k,
{
    if k < spans.len() && pos >= span_end(spans[k]) {
        lemma_span_at_bounds(spans, pos, k + 1);
    }
}

proof fn lemma_permutation_covers(spans: Seq<Span>, files: Seq<PlacedView>, f: int)
    requires
        spans_of(files, spans),
        0 <= f < files.len(),
    ensures
        exists|k: int| 0 <= k < spans.len() && (#[trigger] spans[k]).index == f,
{
    let n = files.len() as int;
    if forall|k: int| 0 <= k < spans.len() ==> (#[trigger] spans[k]).index != f {
        let all = Set::new(|i: int| 0 <= i < n);
        let some = spans.map_values(|s: Span| s.index as int);
        assert(some.no_duplicates());
        some.unique_seq_to_set();
        vstd::set_lib::lemma_int_range(0, n);
        let range = vstd::set_lib::set_int_range(0, n).remove(f);
        assert(some.to_set().subset_of(range));
        vstd::set_lib::lemma_len_subset(some.to_set(), range);
        assert(false);
    }
}

/// Streaming a content yields the bytes that assembling it yields: each piece is what stands at the
/// reader's position.
pub proof fn streaming_matches_assembling(
    c: ContentView,
    data: Seq<Seq<u8>>,
    spans: Seq<Span>,
    pos: int,
    want: int,
)
    requires
        within_content(c),
        disjoint(c.files),
        spans_of(c.files, spans),
        data.len() == c.files.len(),
        forall|i: int| 0 <= i < data.len() ==> (#[trigger] data[i]).len() == c.files[i].size,
        0 <= pos <= c.data_len,
        0 <= want <= usize::MAX,
        c.data_len <= u64::MAX,
    ensures
        ({
            let p = next_piece(spans, c.data_len, pos, want);
            &&& pos + piece_len(p) <= c.data_len
            &&& piece_len(p) <= want
            &&& piece_len(p) == 0 <==> pos == c.data_len || want == 0
            &&& piece_bytes(p, data) == assembled(c, data).subrange(pos, pos + piece_len(p))
        }),
{
    let fields = file_fields(c.files, data);
    let len = c.data_len as nat;
    assert(fields_apart(len, fields)) by {
        assert forall|i: int| 0 <= i < fields.len() implies 0 <= (#[trigger] fields[i]).off
            && fields[i].off + fields[i].bytes.len() <= len by {
            assert(data[i].len() == c.files[i].size);
            assert(c.files[i].offset + c.files[i].size <= c.data_len);
        }
        assert forall|i: int, j: int| 0 <= i < j < fields.len() implies (
        #[trigger] fields[i]).off + fields[i].bytes.len() <= (#[trigger] fields[j]).off
            || fields[j].off + fields[j].bytes.len() <= fields[i].off by {
            assert(data[i].len() == c.files[i].size && data[j].len() == c.files[j].size);
            assert(c.files[i].offset + c.files[i].size <= c.files[j].offset || c.files[j].offset
                + c.files[j].size <= c.files[i].offset);
        }
    }
    layout_reads_back(len, fields);
    let image = assembled(c, data);
    let p = next_piece(spans, c.data_len, pos, want);
    let k = span_at(spans, pos, 0);
    lemma_span_at_bounds(spans, pos, 0);
    if pos < c.data_len && want > 0 {
        if k < spans.len() && pos >= spans[k].offset {
            let f = spans[k].index as int;
            let whole = image.subrange(fields[f].off, fields[f].off + fields[f].bytes.len());
            assert(whole == fields[f].bytes);
            assert(data[f].len() == c.files[f].size);
            let n = piece_len(p);
            let at = pos - spans[k].offset;
            let there = image.subrange(pos, pos + n);
            let piece = data[f].subrange(at, at + n);
            assert forall|i: int| 0 <= i < n implies #[trigger] there[i] == piece[i] by {
                assert(whole[at + i] == image[pos + i]);
            }
            assert(there =~= piece);
        } else {
            let n = piece_len(p);
            assert forall|i: int| pos <= i < pos + n implies image[i] == 0 by {
                if in_field(fields, i) {
                    let f = choose|f: int|
                        0 <= f < fields.len() && (#[trigger] fields[f]).off <= i < fields[f].off
                            + fields[f].bytes.len();
                    assert(data[f].len() == c.files[f].size);
                    lemma_permutation_covers(spans, c.files, f);
                    let j = choose|j: int|
                        0 <= j < spans.len() && (#[trigger] spans[j]).index == f;
                    if j < k {
                        assert(span_end(spans[j]) <= pos);
                    } else if j > k {
                        assert(span_le(spans[k], spans[j]));
                    }
                    assert(false);
                }
            }
            assert(piece_bytes(p, data) =~= image.subrange(pos, pos + n));
        }
    } else {
        assert(piece_bytes(p, data) =~= image.subrange(pos, pos));
    }
}

/// The bytes that the first `k` reads of a content yield, from its start, when so many are asked for
/// in each.
pub open spec fn streamed(
    spans: Seq<Span>,
    data_len: int,
    data: Seq<Seq<u8>>,
    wants: Seq<int>,
    k: int,
) -> Seq<u8>
    decreases k,
{
    if k <= 0 {
        Seq::empty()
    } else {
        let done = streamed(spans, data_len, data, wants, k - 1);
        done + piece_bytes(next_piece(spans, data_len, done.len() as int, wants[k - 1]), data)
    }
}

/// Any sequence of reads, put together, is the start of the assembled content. It is the whole of it
/// once a read that asked for something has found the end, and at the latest when there have been
/// as many reads as there are bytes, each of which asked for something.
pub proof fn reads_make_up_the_content(
    c: ContentView,
    data: Seq<Seq<u8>>,
    spans: Seq<Span>,
    wants: Seq<int>,
    k: int,
)
    requires
        within_content(c),
        disjoint(c.files),
        spans_of(c.files, spans),
        data.len() == c.files.len(),
        forall|i: int| 0 <= i < data.len() ==> (#[trigger] data[i]).len() == c.files[i].size,
        0 <= c.data_len <= u64::MAX,
        forall|i: int| 0 <= i < wants.len() ==> 0 <= #[trigger] wants[i] <= usize::MAX,
        0 <= k <= wants.len(),
    ensures
        ({
            let whole = assembled(c, data);
            let got = streamed(spans, c.data_len, data, wants, k);
            &&& whole.len() == c.data_len
            &&& got.len() <= c.data_len
            &&& got == whole.take(got.len() as int)
            &&& k < wants.len() && wants[k] > 0 && next_piece(
                spans,
                c.data_len,
                got.len() as int,
                wants[k],
            ) is End ==> got == whole
            &&& k >= c.data_len && (forall|i: int| 0 <= i < k ==> #[trigger] wants[i] > 0) ==> got
                == whole
        }),
{
    lemma_reads(c, data, spans, wants, k);
    let whole = assembled(c, data);
    let got = streamed(spans, c.data_len, data, wants, k);
    if k < wants.len() {
        streaming_matches_assembling(c, data, spans, got.len() as int, wants[k]);
    }
    assert(whole.take(whole.len() as int) =~= whole);
}

proof fn lemma_reads(
    c: ContentView,
    data: Seq<Seq<u8>>,
    spans: Seq<Span>,
    wants: Seq<int>,
    k: int,
)
    requires
        within_content(c),
        disjoint(c.files),
        spans_of(c.files, spans),
        data.len() == c.files.len(),
        forall|i: int| 0 <= i < data.len() ==> (#[trigger] data[i]).len() == c.files[i].size,
        0 <= c.data_len <= u64::MAX,
        forall|i: int| 0 <= i < wants.len() ==> 0 <= #[trigger] wants[i] <= usize::MAX,
        0 <= k <= wants.len(),
    ensures
        ({
            let got = streamed(spans, c.data_len, data, wants, k);
            &&& assembled(c, data).len() == c.data_len
            &&& got.len() <= c.data_len
            &&& got == assembled(c, data).take(got.len() as int)
            &&& (forall|i: int| 0 <= i < k ==> #[trigger] wants[i] > 0) ==> got.len() >= least(
                k,
                c.data_len,
            )
        }),
    decreases k,
{
    let whole = assembled(c, data);
    lemma_overlaid_len(
        zeros(c.data_len as nat),
        file_fields(c.files, data),
        c.files.len() as int,
    );
    let got = streamed(spans, c.data_len, data, wants, k);
    if k > 0 {
        lemma_reads(c, data, spans, wants, k - 1);
        let done = streamed(spans, c.data_len, data, wants, k - 1);
        let pos = done.len() as int;
        streaming_matches_assembling(c, data, spans, pos, wants[k - 1]);
        let p = next_piece(spans, c.data_len, pos, wants[k - 1]);
        let next = piece_bytes(p, data);
        assert(next.len() == piece_len(p));
        assert(got =~= whole.take(got.len() as int));
    } else {
        assert(got =~= whole.take(0));
    }
}

/// An assembled content has, at the place of each file, the bytes of the file, and zeros everywhere
/// else.
pub proof fn assembled_content_holds_its_files(c: ContentView, data: Seq<Seq<u8>>, f: int, x: int)
    requires
        within_content(c),
        disjoint(c.files),
        data.len() == c.files.len(),
        forall|i: int| 0 <= i < data.len() ==> (#[trigger] data[i]).len() == c.files[i].size,
        0 <= c.data_len,
        0 <= x < c.data_len,
    ensures
        assembled(c, data).len() == c.data_len,
        0 <= f < c.files.len() && c.files[f].offset <= x < c.files[f].offset + c.files[f].size
            ==> assembled(c, data)[x] == data[f][x - c.files[f].offset],
        (forall|i: int|
            0 <= i < c.files.len() ==> !((#[trigger] c.files[i]).offset <= x < c.files[i].offset
                + c.files[i].size)) ==> assembled(c, data)[x] == 0,
{
    let fields = file_fields(c.files, data);
    let n = c.data_len as nat;
    assert forall|i: int| 0 <= i < fields.len() implies 0 <= (#[trigger] fields[i]).off
        && fields[i].off + fields[i].bytes.len() <= n by {
        assert(data[i].len() == c.files[i].size);
    }
    assert forall|i: int, j: int| 0 <= i < j < fields.len() implies (#[trigger] fields[i]).off
        + fields[i].bytes.len() <= (#[trigger] fields[j]).off || fields[j].off
        + fields[j].bytes.len() <= fields[i].off by {
        assert(data[i].len() == c.files[i].size && data[j].len() == c.files[j].size);
        assert(c.files[i].offset + c.files[i].size <= c.files[j].offset || c.files[j].offset
            + c.files[j].size <= c.files[i].offset);
    }
    crate::bytes::layout_reads_back(n, fields);
    if 0 <= f < c.files.len() && c.files[f].offset <= x < c.files[f].offset + c.files[f].size {
        let at = c.files[f].offset;
        assert(fields[f].off == at && fields[f].bytes == data[f]);
        assert(assembled(c, data).subrange(at, at + data[f].len())[x - at] == data[f][x - at]);
    }
    if forall|i: int|
        0 <= i < c.files.len() ==> !((#[trigger] c.files[i]).offset <= x < c.files[i].offset
            + c.files[i].size) {
        assert(!crate::bytes::in_field(fields, x)) by {
            assert forall|i: int| 0 <= i < fields.len() implies !((#[trigger] fields[i]).off <= x
                < fields[i].off + fields[i].bytes.len()) by {
                assert(data[i].len() == c.files[i].size);
                assert(!(c.files[i].offset <= x < c.files[i].offset + c.files[i].size));
            }
        }
    }
}

} // verus!

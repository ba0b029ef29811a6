//! Grapheme-indexed text buffers: the storage behind open documents.
use vstd::prelude::*;
use vstd::utf8::*;
use vstd::string::*;
use std::ops::Range;
use unicode_segmentation::GraphemeCursor;

verus! {

broadcast use {
    vstd::utf8::encode_utf8_valid_utf8,
    vstd::utf8::is_char_boundary_start_end_of_seq,
    vstd::utf8::is_char_boundary_iff_not_is_continuation_byte,
};

/// The byte offset at which the grapheme cluster that begins at byte `offset` of the text
/// `s` ends (the next extended grapheme cluster boundary after `offset`).
pub uninterp spec fn next_grapheme_boundary(s: Seq<char>, offset: usize) -> usize;

/// The next extended grapheme cluster boundary after byte `offset` of `s`
/// (`GraphemeCursor::next_boundary` of unicode-segmentation, on a cursor placed at
/// `offset` and given the whole string).
///
/// Claimed of it: the result is the boundary named by [`next_grapheme_boundary`]; it lies
/// after `offset` and at most at the end of the text, and on a character boundary (the cursor
/// advances by whole characters). Given the whole string, the cursor needs no more context,
/// so the call does not fail.
#[verifier::external_body]
pub(crate) fn grapheme_boundary_after(s: &str, offset: usize) -> (r: usize)
    requires
        offset < s.spec_bytes().len(),
        is_char_boundary(s.spec_bytes(), offset as int),
    ensures
        r == next_grapheme_boundary(s@, offset),
        offset < r <= s.spec_bytes().len(),
        is_char_boundary(s.spec_bytes(), r as int),
{
    let mut cursor = GraphemeCursor::new(offset, s.len(), true);
    cursor.next_boundary(s, 0).unwrap().unwrap_or(s.len())
}

/// The text of the bytes `s[start..end]`, where both ends are character boundaries.
pub(crate) fn byte_slice(s: &str, start: usize, end: usize) -> (r: &str)
    requires
        start <= end <= s.spec_bytes().len(),
        is_char_boundary(s.spec_bytes(), start as int),
        is_char_boundary(s.spec_bytes(), end as int),
    ensures
        r.spec_bytes() == s.spec_bytes().subrange(start as int, end as int),
{
    let (before, _) = s.split_at(end);
    proof {
        let b = s.spec_bytes();
        let pb = before.spec_bytes();
        if start < end {
            is_char_boundary_iff_not_is_continuation_byte(b, start as int);
            is_char_boundary_iff_not_is_continuation_byte(pb, start as int);
            assert(pb[start as int] == b[start as int]);
        }
    }
    let (_, slice) = before.split_at(start);
    assert(slice.spec_bytes() =~= s.spec_bytes().subrange(start as int, end as int));
    slice
}

/// Whether the bytes `b[lo..hi]` are all ASCII.
pub open spec fn all_ascii(b: Seq<u8>, lo: int, hi: int) -> bool {
    forall|j: int| lo <= j < hi ==> #[trigger] b[j] < 128
}

/// The byte offsets at which the grapheme clusters of the text `s` begin, from byte
/// `offset` on: the buffer's units are its grapheme clusters.
pub open spec fn unit_starts_from(s: Seq<char>, offset: int) -> Seq<int>
    decreases encode_utf8(s).len() - offset,
{
    let len = encode_utf8(s).len() as int;
    if offset < 0 || offset >= len {
        seq![]
    } else {
        let nb = next_grapheme_boundary(s, offset as usize) as int;
        if nb <= offset || nb > len {
            seq![]
        } else {
            seq![offset] + unit_starts_from(s, nb)
        }
    }
}

/// The grapheme cluster starts of the whole text `s`.
pub open spec fn unit_starts(s: Seq<char>) -> Seq<int> {
    unit_starts_from(s, 0)
}

/// Enum that describes why [`Buffer::push`] couldn't push.
#[derive(Debug, PartialEq, Eq, Clone, Copy, Structural)]
pub enum PushError {
    /// The grapheme would cause the size of the buffer to exceed 2^16 - 1 bytes.
    NotEnoughSpace,
    /// [`Buffer::set_immutable`] has been called on the buffer.
    ImmutableBuffer,
}

struct AsciiRange {
    byte_start: u16,
    length: u16,
    grapheme_start: u16,
}

struct UnicodeRange {
    grapheme_start: u16,
    graphemes: Vec<u16>,
}

/// Struct that holds part of a document.
///
/// Each `Buffer` object contains, at most, 2^16 - 1 bytes (so that it can be indexed by a
/// u16). It offers grapheme-based operations: a terminal works on a grid of graphemes
/// ('user-perceived characters'), not of codepoints.
///
/// The text is indexed by grapheme clusters (its units). They are kept in alternating
/// chunks: runs of one-byte (ASCII) clusters cost a few bytes per run, other clusters two
/// bytes each.
pub struct Buffer {
    buf: String,
    chunks: Chunks,
    cached_idx: Option<u16>,
    mutable: bool,
}

/// The alternating ASCII and non-ASCII chunks that index a buffer's units.
struct Chunks {
    ascii: Vec<AsciiRange>,
    unicode: Vec<UnicodeRange>,
    num_graphemes: u16,
    units: Ghost<Seq<int>>,
}

impl Buffer {
    /// The UTF-8 bytes of the buffer's text.
    pub closed spec fn byte_seq(self) -> Seq<u8> {
        encode_utf8(self.buf@)
    }

    /// The buffer's text.
    pub closed spec fn text(self) -> Seq<char> {
        self.buf@
    }

    /// The byte offset at which each grapheme cluster (unit) begins, in order.
    pub closed spec fn starts(self) -> Seq<int> {
        self.chunks.units@
    }

    /// Whether pushing is still allowed.
    pub closed spec fn is_mutable(self) -> bool {
        self.mutable
    }

    /// The byte offset at which unit `g` begins, or the end of the text for `g` past the last
    /// unit.
    pub open spec fn bound(self, g: int) -> int {
        if g < self.starts().len() {
            self.starts()[g]
        } else {
            self.byte_seq().len() as int
        }
    }

    /// The buffer's invariant.
    pub closed spec fn wf(self) -> bool {
        &&& self.chunks.chunks_ok(self.byte_seq().len() as int)
        &&& forall|g: int|
            0 <= g < self.chunks.units@.len() ==> !is_continuation_byte(
                #[trigger] self.byte_seq()[self.chunks.units@[g]],
            )
        &&& self.cached_idx matches Some(c) ==> c < self.chunks.n_chunks()
        &&& self.byte_seq().len() > 0 ==> self.chunks.units@.len() > 0
    }

    /// Returns a slice of the underlying buffer: the text of graphemes `bounds.start` up to
    /// (not including) `bounds.end`.
    ///
    /// The indices are grapheme indices, not codepoint indices or byte offsets; an index past
    /// the last grapheme is not allowed.
    pub fn get(&mut self, bounds: Range<u16>) -> (r: &str)
        requires
            old(self).wf(),
            bounds.start <= bounds.end <= old(self).starts().len(),
        ensures
            final(self).wf(),
            final(self).text() == old(self).text(),
            final(self).byte_seq() == old(self).byte_seq(),
            final(self).starts() == old(self).starts(),
            final(self).is_mutable() == old(self).is_mutable(),
            r.spec_bytes() == old(self).byte_seq().subrange(
                old(self).bound(bounds.start as int),
                old(self).bound(bounds.end as int),
            ),
    {
        reveal(Chunks::chunks_ok);
        if self.buf.as_str().len() == 0 {
            proof {
                reveal_strlit("");
                assert(self.byte_seq().subrange(0, 0) =~= Seq::<u8>::empty());
            }
            return "";
        }
        proof {
            self.chunks.lemma_chunk_count(self.byte_seq().len() as int);
        }
        let total = self.chunks.ascii.len() as u16 + self.chunks.unicode.len() as u16;
        let hint = match self.cached_idx {
            Some(c) => c,
            None => total / 2,
        };
        proof {
            self.chunks.lemma_chunk_count(self.byte_seq().len() as int);
        }
        let byte_len = self.buf.as_str().len() as u16;
        let (start_chunk, start) = self.chunks.search(byte_len, bounds.start, 0, hint);
        let (end_chunk, end) = self.chunks.search(byte_len, bounds.end, start_chunk, start_chunk);
        assert(self.chunks.units@.len() > 0);
        assert(self.chunks.n_chunks() > 0);
        assert(end_chunk < self.chunks.n_chunks());
        self.cached_idx = Some(end_chunk);
        let s = self.buf.as_str();
        proof {
            let b = self.byte_seq();
            assert(s.spec_bytes() == b);
            if (bounds.end as int) < self.chunks.units@.len() {
                is_char_boundary_iff_not_is_continuation_byte(b, end as int);
            }
            if (bounds.start as int) < self.chunks.units@.len() {
                is_char_boundary_iff_not_is_continuation_byte(b, start as int);
            }
        }
        let (before, _) = s.split_at(end as usize);
        proof {
            let b = self.byte_seq();
            let pb = before.spec_bytes();
            if start < end {
                is_char_boundary_iff_not_is_continuation_byte(b, start as int);
                is_char_boundary_iff_not_is_continuation_byte(pb, start as int);
                assert(pb[start as int] == b[start as int]);
            }
        }
        let (_, slice) = before.split_at(start as usize);
        proof {
            assert(slice.spec_bytes() =~= self.byte_seq().subrange(start as int, end as int));
        }
        slice
    }


}

/// One end of a range of grapheme indices, as [`std::ops::Bound`] gives it.
#[derive(Copy, Clone, Debug, PartialEq, Eq, Structural)]
pub enum GraphemeBound {
    /// The range includes this index.
    Included(u16),
    /// The range stops short of this index.
    Excluded(u16),
    /// The range is open at this end.
    Unbounded,
}

/// The first grapheme index of a range that starts at `b`.
pub open spec fn start_index(b: GraphemeBound) -> int {
    match b {
        GraphemeBound::Included(i) => i as int,
        GraphemeBound::Excluded(i) => i + 1,
        GraphemeBound::Unbounded => 0,
    }
}

/// The grapheme index just past a range that ends at `b`, in a text of `n` graphemes.
pub open spec fn end_index(b: GraphemeBound, n: int) -> int {
    match b {
        GraphemeBound::Included(i) => i + 1,
        GraphemeBound::Excluded(i) => i as int,
        GraphemeBound::Unbounded => n,
    }
}

impl Buffer {
    /// Returns the text of the graphemes in the range from `start` to `end`, whichever form the
    /// range takes (`a..b`, `a..=b`, `..b`, `a..` or `..`).
    pub fn get_bounds(&mut self, start: GraphemeBound, end: GraphemeBound) -> (r: &str)
        requires
            old(self).wf(),
            start_index(start) <= end_index(end, old(self).starts().len() as int) <= old(
                self,
            ).starts().len(),
        ensures
            final(self).wf(),
            final(self).text() == old(self).text(),
            final(self).byte_seq() == old(self).byte_seq(),
            final(self).starts() == old(self).starts(),
            final(self).is_mutable() == old(self).is_mutable(),
            r.spec_bytes() == old(self).byte_seq().subrange(
                old(self).bound(start_index(start)),
                old(self).bound(end_index(end, old(self).starts().len() as int)),
            ),
    {
        let n = self.graphemes();
        let lo: u16 = match start {
            GraphemeBound::Included(i) => i,
            GraphemeBound::Excluded(i) => i + 1,
            GraphemeBound::Unbounded => 0,
        };
        let hi: u16 = match end {
            GraphemeBound::Included(i) => i + 1,
            GraphemeBound::Excluded(i) => i,
            GraphemeBound::Unbounded => n,
        };
        self.get(lo..hi)
    }
}

/// The units of `s[i..idx]` for a run of one-byte clusters: one per byte.
pub open spec fn byte_run(i: int, idx: int) -> Seq<int> {
    Seq::new((idx - i) as nat, |j: int| i + j)
}

/// Whether the bytes `b[lo..hi]` are all ASCII (`str::is_ascii` on that part).
fn ascii_bytes(b: &[u8], lo: usize, hi: usize) -> (r: bool)
    requires
        lo <= hi <= b@.len(),
    ensures
        r == all_ascii(b@, lo as int, hi as int),
{
    let mut j = lo;
    while j < hi
        invariant
            lo <= j <= hi <= b@.len(),
            all_ascii(b@, lo as int, j as int),
        decreases hi - j,
    {
        if b[j] >= 128 {
            return false;
        }
        j += 1;
    }
    true
}

proof fn lemma_encode_concat(a: Seq<char>, b: Seq<char>)
    ensures
        encode_utf8(a + b) == encode_utf8(a) + encode_utf8(b),
    decreases a.len(),
{
    if a.len() == 0 {
        assert(a + b =~= b);
        assert(encode_utf8(a) =~= Seq::<u8>::empty());
        assert(encode_utf8(a) + encode_utf8(b) =~= encode_utf8(b));
    } else {
        lemma_encode_concat(a.drop_first(), b);
        assert((a + b).drop_first() =~= a.drop_first() + b);
        assert((a + b)[0] == a[0]);
        assert(encode_utf8(a + b) =~= encode_scalar(a[0] as u32) + (encode_utf8(a.drop_first())
            + encode_utf8(b)));
    }
}

impl Buffer {
    /// Create a new `Buffer` from a `String`.
    ///
    /// No copying is done; the `String` is moved. The text may hold at most 2^16 - 1 bytes.
    pub fn new(buf: String) -> (b: Buffer)
        requires
            encode_utf8(buf@).len() <= u16::MAX,
        ensures
            b.wf(),
            b.text() == buf@,
            b.byte_seq() == encode_utf8(buf@),
            b.starts() == unit_starts(buf@),
            b.is_mutable(),
    {
        let s = buf.as_str();
        let length = s.len() as u16;
        let bytes = s.as_bytes();
        let ghost text = buf@;
        let ghost all = encode_utf8(text);
        let mut chunks = Chunks::empty();
        let mut saved_ascii_idx: Option<u16> = None;
        let mut idx: u16 = 0;
        proof {
            is_char_boundary_start_end_of_seq(all);
        }
        loop
            invariant_except_break
                idx <= length,
                is_char_boundary(all, idx as int),
                !chunks.last_is_ascii(),
                match saved_ascii_idx {
                    Some(i) => {
                        &&& i < idx
                        &&& all_ascii(all, i as int, idx as int)
                        &&& chunks.chunks_ok(i as int)
                        &&& (chunks.units@.len() == 0 ==> i == 0)
                    },
                    None => {
                        &&& chunks.chunks_ok(idx as int)
                        &&& (chunks.units@.len() == 0 ==> idx == 0)
                    },
                },
                unit_starts(text) == chunks.units@ + (match saved_ascii_idx {
                    Some(i) => byte_run(i as int, idx as int),
                    None => Seq::<int>::empty(),
                }) + unit_starts_from(text, idx as int),
            invariant
                s@ == text,
                bytes@ == all,
                all == encode_utf8(text),
                all.len() == length,
                forall|g: int|
                    0 <= g < chunks.units@.len() ==> !is_continuation_byte(
                        #[trigger] all[chunks.units@[g]],
                    ),
            ensures
                chunks.chunks_ok(length as int),
                unit_starts(text) == chunks.units@,
                length > 0 ==> chunks.units@.len() > 0,
            decreases length - idx,
        {
            let next_start = if idx < length {
                grapheme_boundary_after(s, idx as usize) as u16
            } else {
                length
            };
            let grapheme_ascii = idx < next_start && next_start - idx == 1 && ascii_bytes(
                bytes,
                idx as usize,
                next_start as usize,
            );
            let ghost run = match saved_ascii_idx {
                Some(i) => byte_run(i as int, idx as int),
                None => Seq::<int>::empty(),
            };
            if idx < length {
                assert(unit_starts_from(text, idx as int) == seq![idx as int] + unit_starts_from(
                    text,
                    next_start as int,
                ));
            }
            if grapheme_ascii {
                assert(byte_run(idx as int, next_start as int) =~= seq![idx as int]);
                if saved_ascii_idx.is_none() {
                    saved_ascii_idx = Some(idx);
                }
                proof {
                    let i = match saved_ascii_idx {
                        Some(i) => i as int,
                        None => 0,
                    };
                    assert(all_ascii(all, i, next_start as int)) by {
                        assert forall|k: int| i <= k < next_start implies #[trigger] all[k] < 128 by {
                            if k >= idx {
                                assert(all_ascii(all, idx as int, next_start as int));
                            }
                        }
                    }
                    assert(run + byte_run(idx as int, next_start as int) =~= byte_run(i, next_start as int));
                    assert(chunks.units@ + run + (byte_run(idx as int, next_start as int)
                        + unit_starts_from(text, next_start as int)) =~= chunks.units@ + byte_run(
                        i,
                        next_start as int,
                    ) + unit_starts_from(text, next_start as int));
                }
            } else {
                if let Some(i) = saved_ascii_idx {
                    if idx - i >= 2 {
                        chunks.push_ascii_range(i, idx - i, Ghost(idx as int));
                        assert(byte_run(i as int, idx as int) =~= Seq::new((idx - i) as nat, |j: int| i + j));
                    } else {
                        chunks.push_unicode_unit(i, Ghost(idx as int));
                        assert(byte_run(i as int, idx as int) =~= seq![i as int]);
                    }
                    saved_ascii_idx = None;
                }
                assert(unit_starts(text) == chunks.units@ + unit_starts_from(text, idx as int));
                if idx == length {
                    proof {
                        assert(unit_starts_from(text, length as int) =~= Seq::<int>::empty());
                        assert(unit_starts(text) =~= chunks.units@);
                        if length > 0 {
                            assert(unit_starts(text).len() > 0) by {
                                reveal_with_fuel(unit_starts_from, 1);
                            }
                        }
                    }
                    break;
                }
                proof {
                    is_char_boundary_iff_not_is_continuation_byte(all, idx as int);
                }
                let ghost prev = chunks.units@;
                chunks.push_unicode_unit(idx, Ghost(next_start as int));
                proof {
                    assert(prev.push(idx as int) + unit_starts_from(text, next_start as int)
                        =~= prev + (seq![idx as int] + unit_starts_from(text, next_start as int)));
                }
            }
            idx = next_start;
        }
        Buffer { buf, chunks, cached_idx: None, mutable: true }
    }
}

/// The number of bytes of the first grapheme cluster of `s` (0 for the empty text).
pub open spec fn first_grapheme_len(s: Seq<char>) -> int {
    if encode_utf8(s).len() == 0 {
        0
    } else {
        next_grapheme_boundary(s, 0) as int
    }
}

/// The units that the grapheme cluster `g`, pushed at byte `start`, adds: the one cluster
/// (none for an empty `g`).
pub open spec fn pushed_units(start: int, g: Seq<u8>) -> Seq<int> {
    if g.len() == 0 {
        seq![]
    } else {
        seq![start]
    }
}

/// Whether `b` holds the same text, bytes and units as `a`.
pub open spec fn same_contents(a: Buffer, b: Buffer) -> bool {
    &&& b.text() == a.text()
    &&& b.byte_seq() == a.byte_seq()
    &&& b.starts() == a.starts()
}

/// What pushing the cluster bytes `g` onto `a` leaves (`b`) and returns (`r`): an immutable
/// buffer refuses with `ImmutableBuffer`, a cluster that would take the text past `u16::MAX`
/// bytes is refused with `NotEnoughSpace`, and otherwise `g` is appended as one more unit
/// (none for an empty `g`). Whether pushing is allowed never changes.
pub open spec fn push_outcome(a: Buffer, b: Buffer, g: Seq<u8>, r: Result<(), PushError>) -> bool {
    &&& b.is_mutable() == a.is_mutable()
    &&& if !a.is_mutable() {
        r == Err::<(), PushError>(PushError::ImmutableBuffer) && same_contents(a, b)
    } else if g.len() + a.byte_seq().len() > u16::MAX {
        r == Err::<(), PushError>(PushError::NotEnoughSpace) && same_contents(a, b)
    } else {
        &&& r == Ok::<(), PushError>(())
        &&& b.byte_seq() == a.byte_seq() + g
        &&& b.starts() == a.starts() + pushed_units(a.byte_seq().len() as int, g)
    }
}

/// What `set_immutable` leaves: the same contents, with pushing forbidden.
pub open spec fn made_immutable(a: Buffer, b: Buffer) -> bool {
    !b.is_mutable() && same_contents(a, b)
}

/// One call on a buffer that leaves `a` as `b`: a push that returned `res` (`r` is
/// `Some(res)`), or a read or `set_immutable` (`r` is `None`), which keep the contents and
/// can only forbid pushing.
pub open spec fn buffer_call(a: Buffer, b: Buffer, r: Option<Result<(), PushError>>) -> bool {
    match r {
        Some(res) => exists|g: Seq<u8>| #[trigger] push_outcome(a, b, g, res),
        None => same_contents(a, b) && (b.is_mutable() ==> a.is_mutable()),
    }
}

impl Buffer {
    /// Attempts to push the first grapheme cluster of `grapheme` to the buffer.
    ///
    /// Returns `Ok(())` if the grapheme was pushed (or `grapheme` is empty, so that there is
    /// nothing to push), and `Err(e)` otherwise, where `e` is a [`PushError`] describing why.
    pub fn push(&mut self, grapheme: &str) -> (r: Result<(), PushError>)
        requires
            old(self).wf(),
        ensures
            final(self).wf(),
            push_outcome(
                *old(self),
                *final(self),
                grapheme.spec_bytes().take(first_grapheme_len(grapheme@)),
                r,
            ),
    {
        reveal(Chunks::chunks_ok);
        if !self.mutable {
            return Err(PushError::ImmutableBuffer);
        }
        if grapheme.is_empty() {
            assert(first_grapheme_len(grapheme@) == 0);
            assert(self.byte_seq().len() <= u16::MAX);
            assert(grapheme.spec_bytes().take(0) =~= Seq::<u8>::empty());
            assert(self.byte_seq() + Seq::<u8>::empty() =~= self.byte_seq());
            assert(self.starts() + Seq::<int>::empty() =~= self.starts());
            return Ok(());
        }
        proof {
            is_char_boundary_start_end_of_seq(grapheme.spec_bytes());
        }
        let nb = grapheme_boundary_after(grapheme, 0);
        let (first, _) = grapheme.split_at(nb);
        let old_len = self.buf.as_str().len();
        if nb > u16::MAX as usize - old_len {
            return Err(PushError::NotEnoughSpace);
        }
        let idx = old_len as u16;
        let fb = first.as_bytes();
        let ghost g = first.spec_bytes();
        let ghost old_units = self.chunks.units@;
        let ghost old_bytes = self.byte_seq();
        assert(g == grapheme.spec_bytes().take(nb as int));
        if nb == 1 && ascii_bytes(fb, 0, nb) {
            let mut j: usize = 0;
            while j < nb
                invariant
                    j <= nb,
                    nb + old_len <= u16::MAX,
                    idx == old_len,
                    self.chunks.chunks_ok(idx + j),
                    self.chunks.units@ == old_units + byte_run(idx as int, idx + j),
                    self.chunks.n_chunks() >= old(self).chunks.n_chunks(),
                    self.buf == old(self).buf,
                    self.mutable == old(self).mutable,
                    self.cached_idx == old(self).cached_idx,
                    j > 0 ==> self.chunks.units@.len() > 0,
                    old_units.len() == 0 ==> idx == 0,
                decreases nb - j,
            {
                let ghost before = self.chunks.units@;
                self.chunks.push_ascii_unit(idx + j as u16, Ghost(idx + j + 1));
                assert(before.push(idx + j) =~= old_units + byte_run(idx as int, idx + j + 1));
                j += 1;
            }
            assert(byte_run(idx as int, idx + 1) =~= seq![idx as int]);
        } else {
            self.chunks.push_unicode_unit(idx, Ghost(idx + nb));
            assert(old_units.push(idx as int) =~= old_units + pushed_units(idx as int, g));
        }
        let ghost old_text = self.buf@;
        proof {
            lemma_encode_concat(self.buf@, first@);
            is_char_boundary_iff_not_is_continuation_byte(grapheme.spec_bytes(), 0);
        }
        self.buf.append(first);
        proof {
            let nbytes = self.byte_seq();
            assert(self.buf@ == old_text + first@);
            assert(encode_utf8(first@) == g);
            assert(old_bytes == encode_utf8(old_text));
            assert(nbytes == old_bytes + g);
            assert forall|u: int|
                0 <= u < self.chunks.units@.len() implies !is_continuation_byte(
                #[trigger] nbytes[self.chunks.units@[u]],
            ) by {
                if u < old_units.len() {
                    assert(nbytes[old_units[u]] == old_bytes[old_units[u]]);
                } else {
                    assert(nbytes[self.chunks.units@[u]] == g[self.chunks.units@[u] - old_len]);
                }
            }
        }
        Ok(())
    }

    /// Forbid future appending to this `Buffer`.
    ///
    /// Cannot be reversed.
    pub fn set_immutable(&mut self)
        requires
            old(self).wf(),
        ensures
            final(self).wf(),
            made_immutable(*old(self), *final(self)),
    {
        self.mutable = false;
    }

    /// Returns the number of graphemes in this `Buffer`.
    pub fn graphemes(&self) -> (n: u16)
        requires
            self.wf(),
        ensures
            n == self.starts().len(),
    {
        reveal(Chunks::chunks_ok);
        self.chunks.num_graphemes
    }

    /// Returns the number of bytes in this `Buffer`.
    pub fn bytes(&self) -> (n: u16)
        requires
            self.wf(),
        ensures
            n == self.byte_seq().len(),
    {
        reveal(Chunks::chunks_ok);
        self.buf.as_str().len() as u16
    }
}

/// `set_immutable` cannot be reversed: after it, over any run of further calls (pushes,
/// reads, `set_immutable` again), the buffer stays immutable, every push fails with
/// `ImmutableBuffer`, and the text, its bytes and its units stay as they were before
/// `set_immutable`.
pub proof fn lemma_immutable_stays(
    before: Buffer,
    bs: Seq<Buffer>,
    rs: Seq<Option<Result<(), PushError>>>,
)
    requires
        bs.len() == rs.len() + 1,
        made_immutable(before, bs[0]),
        forall|i: int| 0 <= i < rs.len() ==> buffer_call(#[trigger] bs[i], bs[i + 1], rs[i]),
    ensures
        forall|k: int|
            0 <= k < bs.len() ==> !(#[trigger] bs[k]).is_mutable() && same_contents(before, bs[k]),
        forall|i: int|
            0 <= i < rs.len() && (#[trigger] rs[i]) is Some ==> rs[i] == Some(
                Err::<(), PushError>(PushError::ImmutableBuffer),
            ),
    decreases rs.len(),
{
    if rs.len() > 0 {
        let n = rs.len() - 1;
        let bs0 = bs.drop_last();
        let rs0 = rs.drop_last();
        assert forall|i: int| 0 <= i < rs0.len() implies buffer_call(
            #[trigger] bs0[i],
            bs0[i + 1],
            rs0[i],
        ) by {
            assert(bs0[i] == bs[i] && bs0[i + 1] == bs[i + 1] && rs0[i] == rs[i]);
        }
        lemma_immutable_stays(before, bs0, rs0);
        assert(bs0[n] == bs[n]);
        assert(!bs[n].is_mutable() && same_contents(before, bs[n]));
        assert(buffer_call(bs[n], bs[n + 1], rs[n]));
        if rs[n] is Some {
            let res = rs[n]->0;
            let g = choose|g: Seq<u8>| #[trigger] push_outcome(bs[n], bs[n + 1], g, res);
            assert(push_outcome(bs[n], bs[n + 1], g, res));
        }
        assert forall|k: int| 0 <= k < bs.len() implies !(#[trigger] bs[k]).is_mutable()
            && same_contents(before, bs[k]) by {
            if k < bs0.len() {
                assert(bs0[k] == bs[k]);
            }
        }
        assert forall|i: int| 0 <= i < rs.len() && (#[trigger] rs[i]) is Some implies rs[i]
            == Some(Err::<(), PushError>(PushError::ImmutableBuffer)) by {
            if i < rs0.len() {
                assert(rs0[i] == rs[i]);
            }
        }
    }
}

/// The bytes of a buffer are the UTF-8 encoding of its text.
pub proof fn lemma_bytes_of_text(b: Buffer)
    ensures
        b.byte_seq() == encode_utf8(b.text()),
{
}

/// Reading every unit of a buffer gives back its whole text.
pub proof fn lemma_get_all(b: Buffer)
    requires
        b.wf(),
    ensures
        b.byte_seq().subrange(b.bound(0), b.bound(b.starts().len() as int)) == b.byte_seq(),
{
    reveal(Chunks::chunks_ok);
    assert(b.byte_seq().subrange(0, b.byte_seq().len() as int) =~= b.byte_seq());
}

/// What a read gives back of a write: after a successful push of the grapheme bytes `g`
/// onto `before`, reading the units that the push added gives back exactly `g`, and reading
/// the units that were there before gives back what they gave before.
pub proof fn lemma_push_then_get(before: Buffer, after: Buffer, g: Seq<u8>, lo: int, hi: int)
    requires
        before.wf(),
        after.wf(),
        g.len() > 0,
        after.byte_seq() == before.byte_seq() + g,
        after.starts() == before.starts() + pushed_units(before.byte_seq().len() as int, g),
        0 <= lo <= hi <= before.starts().len(),
    ensures
        after.byte_seq().subrange(
            after.bound(before.starts().len() as int),
            after.bound(after.starts().len() as int),
        ) == g,
        after.byte_seq().subrange(after.bound(lo), after.bound(hi)) == before.byte_seq().subrange(
            before.bound(lo),
            before.bound(hi),
        ),
{
    let n0 = before.starts().len() as int;
    let l0 = before.byte_seq().len() as int;
    assert(after.bound(n0) == l0);
    assert(after.bound(after.starts().len() as int) == l0 + g.len());
    assert(after.byte_seq().subrange(l0, l0 + g.len()) =~= g);
    reveal(Chunks::chunks_ok);
    assert(before.bound(hi) <= l0);
    assert(after.bound(lo) == before.bound(lo));
    assert(after.bound(hi) == before.bound(hi));
    assert(after.byte_seq().subrange(before.bound(lo), before.bound(hi)) =~= before.byte_seq().subrange(
        before.bound(lo),
        before.bound(hi),
    ));
}

impl Chunks {
    spec fn n_chunks(self) -> int {
        (self.ascii@.len() + self.unicode@.len()) as int
    }

    spec fn ascii_first(self) -> bool {
        self.ascii@.len() > 0 && self.ascii@[0].byte_start == 0
    }

    spec fn is_ascii_chunk(self, k: int) -> bool {
        if self.ascii_first() {
            k % 2 == 0
        } else {
            k % 2 == 1
        }
    }

    spec fn chunk_start(self, k: int) -> int {
        if self.is_ascii_chunk(k) {
            self.ascii@[k / 2].grapheme_start as int
        } else {
            self.unicode@[k / 2].grapheme_start as int
        }
    }

    spec fn chunk_len(self, k: int) -> int {
        if self.is_ascii_chunk(k) {
            self.ascii@[k / 2].length as int
        } else {
            self.unicode@[k / 2].graphemes@.len() as int
        }
    }

    spec fn chunk_end(self, k: int) -> int {
        self.chunk_start(k) + self.chunk_len(k)
    }

    spec fn chunk_offset(self, k: int, j: int) -> int {
        if self.is_ascii_chunk(k) {
            self.ascii@[k / 2].byte_start + j
        } else {
            self.unicode@[k / 2].graphemes@[j] as int
        }
    }

    spec fn counts_ok(self) -> bool {
        if self.ascii_first() {
            self.ascii@.len() == (self.n_chunks() + 1) / 2 && self.unicode@.len()
                == self.n_chunks() / 2
        } else {
            self.unicode@.len() == (self.n_chunks() + 1) / 2 && self.ascii@.len()
                == self.n_chunks() / 2
        }
    }

    /// The chunks describe the units `self.units`, all of which begin before `frontier`; an
    /// ASCII unit spans one byte, so the last ASCII chunk ends where the next unit (or the
    /// frontier) begins.
    #[verifier::opaque]
    spec fn chunks_ok(self, frontier: int) -> bool {
        let n = self.units@.len();
        &&& self.counts_ok()
        &&& forall|k: int| 0 <= k < self.n_chunks() ==> #[trigger] self.chunk_len(k) >= 1
        &&& self.n_chunks() > 0 ==> self.chunk_start(0) == 0
        &&& forall|k: int|
            0 <= k < self.n_chunks() - 1 ==> #[trigger] self.chunk_start(k + 1) == self.chunk_end(
                k,
            )
        &&& self.num_graphemes == (if self.n_chunks() == 0 {
            0
        } else {
            self.chunk_end(self.n_chunks() - 1)
        })
        &&& n == self.num_graphemes
        &&& forall|k: int, j: int|
            0 <= k < self.n_chunks() && 0 <= j < self.chunk_len(k) ==> self.units@[self.chunk_start(k)
                + j] == #[trigger] self.chunk_offset(k, j)
        &&& forall|g1: int, g2: int|
            0 <= g1 < g2 < n ==> #[trigger] self.units@[g1] < #[trigger] self.units@[g2]
        &&& n > 0 ==> self.units@[0] == 0
        &&& forall|g: int| 0 <= g < n ==> #[trigger] self.units@[g] < frontier
        &&& 0 <= frontier <= u16::MAX
        &&& forall|k: int|
            0 <= k < self.n_chunks() && #[trigger] self.is_ascii_chunk(k) ==> (if k + 1
                < self.n_chunks() {
                self.chunk_offset(k + 1, 0)
            } else {
                frontier
            }) == self.chunk_offset(k, 0) + self.chunk_len(k)
    }


    spec fn last_is_ascii(self) -> bool {
        self.n_chunks() > 0 && self.is_ascii_chunk(self.n_chunks() - 1)
    }

    /// The empty index.
    fn empty() -> (c: Chunks)
        ensures
            c.chunks_ok(0),
            c.units@ == Seq::<int>::empty(),
            c.n_chunks() == 0,
    {
        reveal(Chunks::chunks_ok);
        Chunks { ascii: Vec::new(), unicode: Vec::new(), num_graphemes: 0, units: Ghost(Seq::empty()) }
    }

    /// Appends a unit kept on its own (outside a run of one-byte units) that begins at byte
    /// `off`, where the previous units end; afterwards the units end at `next`.
    fn push_unicode_unit(&mut self, off: u16, Ghost(next): Ghost<int>)
        requires
            old(self).chunks_ok(off as int),
            off < next <= u16::MAX,
            old(self).units@.len() == 0 ==> off == 0,
        ensures
            final(self).n_chunks() >= old(self).n_chunks(),
            final(self).chunks_ok(next),
            final(self).units@ == old(self).units@.push(off as int),
            !final(self).last_is_ascii(),
    {
        reveal(Chunks::chunks_ok);
        proof {
            if self.n_chunks() > 0 {
                self.lemma_chunk_count(off as int);
            }
            self.lemma_units_bound(off as int);
            self.lemma_last_chunk_kind(off as int);
            if true {
            }
        }
        let ghost old_self = *self;
        let last_is_unicode = match self.unicode.last() {
            Some(r) => r.grapheme_start <= self.num_graphemes && r.graphemes.len() == (
            self.num_graphemes - r.grapheme_start) as usize,
            None => false,
        };
        if last_is_unicode {
            let mut last = self.unicode.pop().unwrap();
            last.graphemes.push(off);
            self.unicode.push(last);
        } else {
            self.unicode.push(UnicodeRange { grapheme_start: self.num_graphemes, graphemes: vec![off] });
        }
        self.num_graphemes = self.num_graphemes + 1;
        self.units = Ghost(self.units@.push(off as int));
        proof {
            let o = old_self;
            let nc = self.n_chunks();
            let kk = nc - 1;
            assert(self.ascii_first() == o.ascii_first());
            assert(!self.is_ascii_chunk(kk));
            assert(kk / 2 == self.unicode@.len() - 1);
            assert forall|k: int| 0 <= k < kk implies #[trigger] self.is_ascii_chunk(k)
                == o.is_ascii_chunk(k) && self.chunk_start(k) == o.chunk_start(k)
                && self.chunk_len(k) == o.chunk_len(k) && (forall|j: int|
                self.chunk_offset(k, j) == o.chunk_offset(k, j)) by {
                if !self.is_ascii_chunk(k) {
                    assert(k / 2 < self.unicode@.len() - 1);
                    assert(self.unicode@[k / 2] == o.unicode@[k / 2]);
                }
            }
            if last_is_unicode {
                assert(o.n_chunks() == nc);
                assert(forall|j: int|
                    0 <= j < o.chunk_len(kk) ==> self.chunk_offset(kk, j) == o.chunk_offset(kk, j));
                assert(self.chunk_start(kk) == o.chunk_start(kk));
                assert(self.chunk_len(kk) == o.chunk_len(kk) + 1);
                assert(self.chunk_offset(kk, o.chunk_len(kk)) == off);
            } else {
                assert(o.n_chunks() == kk);
                assert(self.chunk_start(kk) == o.num_graphemes);
                assert(self.chunk_len(kk) == 1);
                assert(self.chunk_offset(kk, 0) == off);
            }
            assert forall|k: int| 0 <= k < self.n_chunks() implies #[trigger] self.chunk_len(k)
                >= 1 by {
                if k < kk {
                    assert(o.chunk_len(k) >= 1);
                }
            }
            assert forall|k: int| 0 <= k < self.n_chunks() - 1 implies #[trigger] self.chunk_start(
                k + 1,
            ) == self.chunk_end(k) by {
                if k + 1 < kk {
                    assert(o.chunk_start(k + 1) == o.chunk_end(k));
                } else if last_is_unicode {
                    assert(o.chunk_start(k + 1) == o.chunk_end(k));
                } else {
                    assert(o.chunk_end(k) == o.num_graphemes);
                }
            }
            assert forall|k: int, j: int|
                0 <= k < self.n_chunks() && 0 <= j < self.chunk_len(k) implies self.units@[self.chunk_start(
                k,
            ) + j] == #[trigger] self.chunk_offset(k, j) by {
                if k < kk {
                    assert(o.units@[o.chunk_start(k) + j] == o.chunk_offset(k, j));
                    o.lemma_chunk_end_upper(off as int, k);
                } else if last_is_unicode && j < o.chunk_len(kk) {
                    assert(o.units@[o.chunk_start(k) + j] == o.chunk_offset(k, j));
                    o.lemma_chunk_end_upper(off as int, k);
                } else if last_is_unicode {
                    o.lemma_chunk_count(off as int);
                    assert(j == o.chunk_len(kk));
                    assert(self.chunk_start(k) + j == o.num_graphemes);
                } else {
                    assert(self.chunk_start(k) + j == o.num_graphemes);
                }
            }
            assert forall|k: int|
                0 <= k < self.n_chunks() && #[trigger] self.is_ascii_chunk(k) implies (if k + 1
                < self.n_chunks() {
                self.chunk_offset(k + 1, 0)
            } else {
                next
            }) == self.chunk_offset(k, 0) + self.chunk_len(k) by {
                assert(k < kk);
                assert(o.is_ascii_chunk(k));
                if k + 1 < kk {
                } else {
                    if last_is_unicode {
                        assert(o.chunk_offset(k + 1, 0) == o.chunk_offset(k, 0) + o.chunk_len(k));
                    } else {
                        assert(k + 1 == o.n_chunks());
                    }
                }
            }
        }
    }


    /// Appends a chunk of `length` ASCII units, the bytes from `start` on, after a chunk
    /// that is not ASCII (or as the first chunk).
    fn push_ascii_range(&mut self, start: u16, length: u16, Ghost(next): Ghost<int>)
        requires
            old(self).chunks_ok(start as int),
            !old(self).last_is_ascii(),
            length >= 1,
            next == start + length,
            next <= u16::MAX,
            old(self).units@.len() == 0 ==> start == 0,
        ensures
            final(self).n_chunks() >= old(self).n_chunks(),
            final(self).chunks_ok(next),
            final(self).units@ == old(self).units@ + Seq::new(length as nat, |j: int| start + j),
            final(self).last_is_ascii(),
    {
        reveal(Chunks::chunks_ok);
        proof {
            self.lemma_units_bound(start as int);
            self.lemma_chunk_count(start as int);
        }
        let ghost o = *self;
        self.ascii.push(AsciiRange { byte_start: start, length, grapheme_start: self.num_graphemes });
        self.num_graphemes = self.num_graphemes + length;
        self.units = Ghost(self.units@ + Seq::new(length as nat, |j: int| start + j));
        proof {
            let nc = self.n_chunks();
            let kk = nc - 1;
            if o.ascii@.len() > 0 {
                assert(self.ascii@[0] == o.ascii@[0]);
            } else if o.n_chunks() > 0 {
                assert(o.units@[0] == 0);
                assert(o.chunk_offset(0, 0) == 0);
                assert(start > 0);
            }
            assert(self.ascii_first() == (o.ascii_first() || o.n_chunks() == 0));
            assert(self.is_ascii_chunk(kk));
            assert(kk / 2 == self.ascii@.len() - 1);
            assert forall|k: int| 0 <= k < kk implies #[trigger] self.is_ascii_chunk(k)
                == o.is_ascii_chunk(k) && self.chunk_start(k) == o.chunk_start(k)
                && self.chunk_len(k) == o.chunk_len(k) && (forall|j: int|
                self.chunk_offset(k, j) == o.chunk_offset(k, j)) by {
                if self.is_ascii_chunk(k) {
                    assert(k / 2 < self.ascii@.len() - 1);
                    assert(self.ascii@[k / 2] == o.ascii@[k / 2]);
                }
            }
            assert(self.chunk_start(kk) == o.num_graphemes);
            assert(self.chunk_len(kk) == length);
            assert forall|k: int| 0 <= k < self.n_chunks() implies #[trigger] self.chunk_len(k)
                >= 1 by {
                if k < kk {
                    assert(o.chunk_len(k) >= 1);
                }
            }
            assert forall|k: int| 0 <= k < self.n_chunks() - 1 implies #[trigger] self.chunk_start(
                k + 1,
            ) == self.chunk_end(k) by {
                if k + 1 < kk {
                    assert(o.chunk_start(k + 1) == o.chunk_end(k));
                } else {
                    assert(o.chunk_end(k) == o.num_graphemes);
                }
            }
            assert forall|k: int, j: int|
                0 <= k < self.n_chunks() && 0 <= j < self.chunk_len(k) implies self.units@[self.chunk_start(
                k,
            ) + j] == #[trigger] self.chunk_offset(k, j) by {
                if k < kk {
                    assert(o.units@[o.chunk_start(k) + j] == o.chunk_offset(k, j));
                    o.lemma_chunk_end_upper(start as int, k);
                } else {
                    assert(self.chunk_start(k) + j == o.num_graphemes + j);
                }
            }
            assert forall|g1: int, g2: int|
                0 <= g1 < g2 < self.units@.len() implies #[trigger] self.units@[g1]
                < #[trigger] self.units@[g2] by {
                if g2 >= o.units@.len() && g1 < o.units@.len() {
                    assert(o.units@[g1] < start);
                }
            }
            assert forall|k: int|
                0 <= k < self.n_chunks() && #[trigger] self.is_ascii_chunk(k) implies (if k + 1
                < self.n_chunks() {
                self.chunk_offset(k + 1, 0)
            } else {
                next
            }) == self.chunk_offset(k, 0) + self.chunk_len(k) by {
                if k < kk {
                    assert(o.is_ascii_chunk(k));
                    if k + 1 < kk {
                    } else {
                        assert(k + 1 == o.n_chunks());
                        assert(false);
                    }
                }
            }
        }
    }

    /// Appends an ASCII unit that begins at byte `off`, where the previous units end: it
    /// extends the last chunk if that is ASCII, and opens a chunk of its own otherwise.
    fn push_ascii_unit(&mut self, off: u16, Ghost(next): Ghost<int>)
        requires
            old(self).chunks_ok(off as int),
            next == off + 1,
            next <= u16::MAX,
            old(self).units@.len() == 0 ==> off == 0,
        ensures
            final(self).n_chunks() >= old(self).n_chunks(),
            final(self).chunks_ok(next),
            final(self).units@ == old(self).units@.push(off as int),
            final(self).last_is_ascii(),
    {
        reveal(Chunks::chunks_ok);
        proof {
            self.lemma_units_bound(off as int);
            self.lemma_last_chunk_kind(off as int);
            self.lemma_chunk_count(off as int);
        }
        let last_is_ascii = match self.ascii.last() {
            Some(r) => r.grapheme_start <= self.num_graphemes && r.length == self.num_graphemes
                - r.grapheme_start,
            None => false,
        };
        if !last_is_ascii {
            self.push_ascii_range(off, 1, Ghost(next));
            assert(self.units@ =~= old(self).units@.push(off as int));
            return;
        }
        let ghost o = *self;
        let mut last = self.ascii.pop().unwrap();
        last.length = last.length + 1;
        self.ascii.push(last);
        self.num_graphemes = self.num_graphemes + 1;
        self.units = Ghost(self.units@.push(off as int));
        proof {
            let nc = self.n_chunks();
            let kk = nc - 1;
            assert(self.ascii@[0].byte_start == o.ascii@[0].byte_start);
            assert(self.ascii_first() == o.ascii_first());
            assert(self.is_ascii_chunk(kk));
            assert(kk / 2 == self.ascii@.len() - 1);
            assert forall|k: int| 0 <= k < kk implies #[trigger] self.is_ascii_chunk(k)
                == o.is_ascii_chunk(k) && self.chunk_start(k) == o.chunk_start(k)
                && self.chunk_len(k) == o.chunk_len(k) && (forall|j: int|
                self.chunk_offset(k, j) == o.chunk_offset(k, j)) by {
                if self.is_ascii_chunk(k) {
                    assert(k / 2 < self.ascii@.len() - 1);
                    assert(self.ascii@[k / 2] == o.ascii@[k / 2]);
                }
            }
            assert(self.chunk_start(kk) == o.chunk_start(kk));
            assert(self.chunk_len(kk) == o.chunk_len(kk) + 1);
            assert(o.chunk_offset(kk, 0) + o.chunk_len(kk) == off);
            assert forall|k: int| 0 <= k < self.n_chunks() implies #[trigger] self.chunk_len(k)
                >= 1 by {
                if k < kk {
                    assert(o.chunk_len(k) >= 1);
                }
            }
            assert forall|k: int| 0 <= k < self.n_chunks() - 1 implies #[trigger] self.chunk_start(
                k + 1,
            ) == self.chunk_end(k) by {
                assert(o.chunk_start(k + 1) == o.chunk_end(k));
            }
            assert forall|k: int, j: int|
                0 <= k < self.n_chunks() && 0 <= j < self.chunk_len(k) implies self.units@[self.chunk_start(
                k,
            ) + j] == #[trigger] self.chunk_offset(k, j) by {
                if k < kk || j < o.chunk_len(kk) {
                    assert(o.units@[o.chunk_start(k) + j] == o.chunk_offset(k, j));
                    o.lemma_chunk_end_upper(off as int, k);
                } else {
                    assert(self.chunk_start(k) + j == o.num_graphemes);
                }
            }
            assert forall|k: int|
                0 <= k < self.n_chunks() && #[trigger] self.is_ascii_chunk(k) implies (if k + 1
                < self.n_chunks() {
                self.chunk_offset(k + 1, 0)
            } else {
                next
            }) == self.chunk_offset(k, 0) + self.chunk_len(k) by {
                if k < kk {
                    assert(o.is_ascii_chunk(k));
                    assert(o.chunk_offset(k + 1, 0) == o.chunk_offset(k, 0) + o.chunk_len(k));
                }
            }
        }
    }

    proof fn lemma_units_bound(self, frontier: int)
        requires
            self.chunks_ok(frontier),
        ensures
            forall|g: int| 0 <= g < self.units@.len() ==> #[trigger] self.units@[g] >= g,
            self.units@.len() <= frontier,
    {
        reveal(Chunks::chunks_ok);
        assert forall|g: int| 0 <= g < self.units@.len() implies #[trigger] self.units@[g] >= g by {
            self.lemma_unit_at_least(frontier, g);
        }
        if self.units@.len() > 0 {
            let l = self.units@.len() - 1;
            assert(self.units@[l] >= l);
        }
    }

    proof fn lemma_unit_at_least(self, frontier: int, g: int)
        requires
            self.chunks_ok(frontier),
            0 <= g < self.units@.len(),
        ensures
            self.units@[g] >= g,
        decreases g,
    {
        reveal(Chunks::chunks_ok);
        if g > 0 {
            self.lemma_unit_at_least(frontier, g - 1);
            assert(self.units@[g - 1] < self.units@[g]);
        }
    }

    /// The chunk that the last unicode range is, and the one that the last ASCII range is.
    spec fn last_unicode_chunk(self) -> int {
        2 * (self.unicode@.len() - 1) + if self.ascii_first() { 1int } else { 0int }
    }

    spec fn last_ascii_chunk(self) -> int {
        2 * (self.ascii@.len() - 1) + if self.ascii_first() { 0int } else { 1int }
    }

    proof fn lemma_last_chunk_kind(self, frontier: int)
        requires
            self.chunks_ok(frontier),
        ensures
            (self.unicode@.len() > 0 && self.unicode@.last().grapheme_start
                + self.unicode@.last().graphemes@.len() == self.num_graphemes) <==> (
            self.n_chunks() > 0 && !self.is_ascii_chunk(self.n_chunks() - 1)),
            (self.ascii@.len() > 0 && self.ascii@.last().grapheme_start + self.ascii@.last().length
                == self.num_graphemes) <==> (self.n_chunks() > 0 && self.is_ascii_chunk(
                self.n_chunks() - 1)),
    {
        reveal(Chunks::chunks_ok);
        let nc = self.n_chunks();
        if self.unicode@.len() > 0 {
            let ku = self.last_unicode_chunk();
            assert(0 <= ku < nc);
            assert(!self.is_ascii_chunk(ku));
            assert(ku / 2 == self.unicode@.len() - 1);
            assert(self.chunk_end(ku) == self.unicode@.last().grapheme_start
                + self.unicode@.last().graphemes@.len());
            if ku < nc - 1 {
                self.lemma_chunk_mono(frontier, ku, nc - 1);
                assert(self.chunk_len(nc - 1) >= 1);
            }
        }
        if self.ascii@.len() > 0 {
            let ka = self.last_ascii_chunk();
            assert(0 <= ka < nc);
            assert(self.is_ascii_chunk(ka));
            assert(ka / 2 == self.ascii@.len() - 1);
            assert(self.chunk_end(ka) == self.ascii@.last().grapheme_start
                + self.ascii@.last().length);
            if ka < nc - 1 {
                self.lemma_chunk_mono(frontier, ka, nc - 1);
                assert(self.chunk_len(nc - 1) >= 1);
            }
        }
        if nc > 0 {
            self.lemma_chunk_count(frontier);
        }
    }

    proof fn lemma_chunk_count(self, frontier: int)
        requires
            self.chunks_ok(frontier),
        ensures
            self.n_chunks() <= self.num_graphemes,
            self.n_chunks() > 0 ==> self.chunk_end(self.n_chunks() - 1) == self.num_graphemes,
    {
        reveal(Chunks::chunks_ok);
        if self.n_chunks() > 0 {
            self.lemma_chunk_end_lower(frontier, self.n_chunks() - 1);
        }
    }

    proof fn lemma_chunk_end_upper(self, frontier: int, k: int)
        requires
            self.chunks_ok(frontier),
            0 <= k < self.n_chunks(),
        ensures
            self.chunk_end(k) <= self.num_graphemes,
            self.chunk_start(k) >= 0,
    {
        reveal(Chunks::chunks_ok);
        self.lemma_chunk_count(frontier);
        if k < self.n_chunks() - 1 {
            self.lemma_chunk_mono(frontier, k, self.n_chunks() - 1);
        }
    }

    proof fn lemma_chunk_end_lower(self, frontier: int, k: int)
        requires
            self.chunks_ok(frontier),
            0 <= k < self.n_chunks(),
        ensures
            self.chunk_end(k) >= k + 1,
        decreases k,
    {
        reveal(Chunks::chunks_ok);
        assert(self.chunk_len(k) >= 1);
        if k > 0 {
            let p = k - 1;
            self.lemma_chunk_end_lower(frontier, p);
            assert(self.chunk_start(p + 1) == self.chunk_end(p));
        }
    }


    proof fn lemma_chunk_mono(self, frontier: int, k1: int, k2: int)
        requires
            self.chunks_ok(frontier),
            0 <= k1 < k2 < self.n_chunks(),
        ensures
            self.chunk_end(k1) <= self.chunk_start(k2),
        decreases k2 - k1,
    {
        reveal(Chunks::chunks_ok);
        let p = k2 - 1;
        assert(self.chunk_start(p + 1) == self.chunk_end(p));
        assert(p + 1 == k2);
        if k2 > k1 + 1 {
            self.lemma_chunk_mono(frontier, k1, p);
            assert(self.chunk_len(p) >= 1);
        }
    }
    /// Finds the chunk that holds unit `needle` and the byte at which the unit begins; the
    /// search starts from chunk `lo`, probing chunk `mid` first. For `needle` one past the
    /// last unit, the result is the middle chunk and the end of the text.
    fn search(&self, byte_len: u16, needle: u16, lo: u16, mid: u16) -> (r: (u16, u16))
        requires
            self.chunks_ok(byte_len as int),
            needle <= self.units@.len(),
            needle < self.units@.len() ==> lo <= mid < self.n_chunks() && self.chunk_start(
                lo as int,
            ) <= needle,
        ensures
            r.1 == (if needle < self.units@.len() { self.units@[needle as int] } else { byte_len as int }),
            needle < self.units@.len() ==> r.0 < self.n_chunks() && self.chunk_start(r.0 as int)
                <= needle,
            needle == self.units@.len() ==> r.0 == self.n_chunks() / 2,
    {
        reveal(Chunks::chunks_ok);
        proof {
            self.lemma_chunk_count(byte_len as int);
        }
        let total = self.ascii.len() as u16 + self.unicode.len() as u16;
        if needle == self.num_graphemes {
            return (total / 2, byte_len);
        }
        let ascii_first = !self.ascii.is_empty() && self.ascii[0].byte_start == 0;
        let mut lo = lo;
        let mut hi = total;
        let mut mid = mid;
        proof {
            self.lemma_chunk_count(byte_len as int);
        }
        while lo < hi
            invariant
                self.chunks_ok(byte_len as int),
                total == self.n_chunks(),
                ascii_first == self.ascii_first(),
                needle < self.units@.len(),
                lo <= mid < hi <= total,
                self.chunk_start(lo as int) <= needle < self.chunk_end(hi - 1),
            decreases hi - lo,
        {
            reveal(Chunks::chunks_ok);
            let is_ascii = if ascii_first {
                mid % 2 == 0
            } else {
                mid % 2 == 1
            };
            let idx = (mid / 2) as usize;
            proof {
                self.lemma_chunk_end_upper(byte_len as int, mid as int);
            }
            let (start, length) = if is_ascii {
                (self.ascii[idx].grapheme_start, self.ascii[idx].length)
            } else {
                (self.unicode[idx].grapheme_start, self.unicode[idx].graphemes.len() as u16)
            };
            if needle < start {
                proof {
                    if lo < mid {
                        self.lemma_chunk_mono(byte_len as int, lo as int, mid as int);
                    }
                    let p = mid - 1;
                    assert(self.chunk_start(p + 1) == self.chunk_end(p));
                }
                hi = mid;
            } else if needle >= start + length {
                proof {
                    if mid + 1 < hi {
                        self.lemma_chunk_mono(byte_len as int, mid as int, hi - 1);
                    }
                    assert(self.chunk_start(mid + 1) == self.chunk_end(mid as int));
                }
                lo = mid + 1;
            } else {
                let offset = if is_ascii {
                    let range = &self.ascii[idx];
                    range.byte_start + (needle - range.grapheme_start)
                } else {
                    let range = &self.unicode[idx];
                    range.graphemes[(needle - range.grapheme_start) as usize]
                };
                assert(self.chunk_offset(mid as int, needle - start) == offset);
                return (mid, offset);
            }
            mid = ((lo as u32 + hi as u32) / 2) as u16;
        }
        proof {
            assert(false);
        }
        (0, 0)
    }

}

} // verus!

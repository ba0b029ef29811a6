//! The text of open files ('documents'), indexed by grapheme cluster.
use crate::buffer::{byte_slice, grapheme_boundary_after, next_grapheme_boundary};
use vstd::prelude::*;
use vstd::string::*;
use vstd::utf8::*;

verus! {

broadcast use {
    vstd::utf8::encode_utf8_valid_utf8,
    vstd::utf8::is_char_boundary_start_end_of_seq,
};

/// The byte offsets at which the grapheme clusters of the text `s` begin, from byte `offset`
/// on.
pub open spec fn cluster_starts_from(s: Seq<char>, offset: int) -> Seq<int>
    decreases encode_utf8(s).len() - offset,
{
    let len = encode_utf8(s).len() as int;
    if offset < 0 || offset >= len {
        seq![]
    } else {
        let nb = next_grapheme_boundary(s, offset as usize) as int;
        if nb <= offset || nb > len {
            seq![]
        } else {
            seq![offset] + cluster_starts_from(s, nb)
        }
    }
}

/// The byte offsets at which the grapheme clusters of `s` begin, followed by the end of the
/// text.
pub open spec fn cluster_bounds(s: Seq<char>) -> Seq<int> {
    cluster_starts_from(s, 0).push(encode_utf8(s).len() as int)
}

/// One end of a range of cluster indices, as [`std::ops::Bound`] gives it.
#[derive(Copy, Clone, Debug, PartialEq, Eq, Structural)]
pub enum ClusterBound {
    /// The range includes this index.
    Included(usize),
    /// The range stops short of this index.
    Excluded(usize),
    /// The range is open at this end.
    Unbounded,
}

/// A text with the byte offset of each of its grapheme clusters.
pub struct Buffer {
    buf: String,
    graphemes: Vec<usize>,
}

impl Buffer {
    /// The text.
    pub closed spec fn text(&self) -> Seq<char> {
        self.buf@
    }

    /// The byte offsets at which the clusters begin, then the end of the text.
    pub closed spec fn bounds(&self) -> Seq<int> {
        self.graphemes@.map_values(|i: usize| i as int)
    }

    /// Whether every offset is a character boundary of the text within it, in order, the last
    /// one the end of the text.
    pub closed spec fn wf(&self) -> bool {
        &&& forall|k: int|
            0 <= k < self.graphemes@.len() ==> #[trigger] self.graphemes@[k] <= encode_utf8(
                self.buf@,
            ).len() && is_char_boundary(encode_utf8(self.buf@), self.graphemes@[k] as int)
        &&& forall|j: int, k: int|
            0 <= j <= k < self.graphemes@.len() ==> self.graphemes@[j] <= self.graphemes@[k]
        &&& self.graphemes@.len() > 0
        &&& self.graphemes@.last() == encode_utf8(self.buf@).len()
    }

    /// Indexes the grapheme clusters of `buf`.
    pub fn new(buf: String) -> (b: Self)
        requires
            encode_utf8(buf@).len() <= usize::MAX,
        ensures
            b.text() == buf@,
            b.bounds() == cluster_bounds(buf@),
            b.wf(),
    {
        let len = buf.as_str().len();
        let mut graphemes: Vec<usize> = Vec::new();
        let mut offset: usize = 0;
        let ghost s = buf@;
        let ghost bytes = encode_utf8(s);
        while offset < len
            invariant
                bytes == encode_utf8(s),
                s == buf@,
                len == bytes.len(),
                offset <= len,
                is_char_boundary(bytes, offset as int),
                graphemes@.map_values(|i: usize| i as int) + cluster_starts_from(s, offset as int)
                    == cluster_starts_from(s, 0),
                forall|k: int|
                    0 <= k < graphemes@.len() ==> #[trigger] graphemes@[k] <= len
                        && is_char_boundary(bytes, graphemes@[k] as int),
                forall|k: int| 0 <= k < graphemes@.len() ==> #[trigger] graphemes@[k] < offset,
                forall|j: int, k: int|
                    0 <= j <= k < graphemes@.len() ==> graphemes@[j] <= graphemes@[k],
            decreases len - offset,
        {
            let nb = grapheme_boundary_after(buf.as_str(), offset);
            let ghost before = graphemes@.map_values(|i: usize| i as int);
            graphemes.push(offset);
            proof {
                assert(cluster_starts_from(s, offset as int) == seq![offset as int]
                    + cluster_starts_from(s, nb as int));
                assert(graphemes@.map_values(|i: usize| i as int) =~= before.push(offset as int));
                assert(before.push(offset as int) + cluster_starts_from(s, nb as int) =~= before + (
                seq![offset as int] + cluster_starts_from(s, nb as int)));
            }
            offset = nb;
        }
        let ghost before = graphemes@.map_values(|i: usize| i as int);
        graphemes.push(len);
        proof {
            assert(cluster_starts_from(s, offset as int) =~= Seq::<int>::empty());
            assert(before + Seq::<int>::empty() =~= before);
            assert(graphemes@.map_values(|i: usize| i as int) =~= before.push(len as int));
        }
        Buffer { buf, graphemes }
    }

    /// The byte offsets at which the clusters begin, then the end of the text.
    pub fn offsets(&self) -> (r: &Vec<usize>)
        ensures
            r@.map_values(|i: usize| i as int) == self.bounds(),
            self.wf() ==> r@.len() > 0,
    {
        &self.graphemes
    }

    /// The text of the clusters `start` up to (not including) `end`.
    pub fn slice(&self, start: usize, end: usize) -> (r: &str)
        requires
            self.wf(),
            start <= end < self.bounds().len(),
        ensures
            r.spec_bytes() == encode_utf8(self.text()).subrange(
                self.bounds()[start as int],
                self.bounds()[end as int],
            ),
    {
        let b = self.graphemes[start];
        let e = self.graphemes[end];
        byte_slice(self.buf.as_str(), b, e)
    }

    /// The byte offset at which a range of clusters that starts at `b` begins.
    pub open spec fn start_offset(&self, b: ClusterBound) -> int {
        match b {
            ClusterBound::Included(i) => self.bounds()[i as int],
            ClusterBound::Excluded(i) => self.bounds()[i + 1],
            ClusterBound::Unbounded => 0,
        }
    }

    /// The byte offset at which a range of clusters that ends at `b` stops.
    pub open spec fn end_offset(&self, b: ClusterBound) -> int {
        match b {
            ClusterBound::Included(i) => self.bounds()[i + 1],
            ClusterBound::Excluded(i) => self.bounds()[i as int],
            ClusterBound::Unbounded => encode_utf8(self.text()).len() as int,
        }
    }

    /// Whether the cluster index that `b` names has an offset.
    pub open spec fn names_offset(&self, b: ClusterBound, is_end: bool) -> bool {
        match b {
            ClusterBound::Included(i) => if is_end {
                i + 1 < self.bounds().len()
            } else {
                i < self.bounds().len()
            },
            ClusterBound::Excluded(i) => if is_end {
                i < self.bounds().len()
            } else {
                i + 1 < self.bounds().len()
            },
            ClusterBound::Unbounded => true,
        }
    }

    /// The text of the clusters in the range from `start` to `end`, whichever form the range
    /// takes (`a..b`, `a..=b`, `..b`, `a..` or `..`).
    pub fn slice_bounds(&self, start: ClusterBound, end: ClusterBound) -> (r: &str)
        requires
            self.wf(),
            self.names_offset(start, false),
            self.names_offset(end, true),
            self.start_offset(start) <= self.end_offset(end),
        ensures
            r.spec_bytes() == encode_utf8(self.text()).subrange(
                self.start_offset(start),
                self.end_offset(end),
            ),
    {
        assert(self.bounds().len() == self.graphemes@.len());
        assert(forall|k: int|
            0 <= k < self.graphemes@.len() ==> #[trigger] self.bounds()[k] == self.graphemes@[k] as int);
        let n = self.graphemes.len();
        let b = match start {
            ClusterBound::Included(i) => self.graphemes[i],
            ClusterBound::Excluded(i) => self.graphemes[i + 1],
            ClusterBound::Unbounded => 0,
        };
        let e = match end {
            ClusterBound::Included(i) => self.graphemes[i + 1],
            ClusterBound::Excluded(i) => self.graphemes[i],
            ClusterBound::Unbounded => self.graphemes[n - 1],
        };
        assert(b == self.start_offset(start));
        assert(e == self.end_offset(end));
        byte_slice(self.buf.as_str(), b, e)
    }
}

} // verus!

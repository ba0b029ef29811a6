//! Strings held as sequences of grapheme clusters ('user-perceived characters').
use crate::buffer::{byte_slice, grapheme_boundary_after, next_grapheme_boundary};
use crate::config::options::{Options, OptionsView, TabType};
use crate::text::{append_str, push_char, str_eq};
use unicode_width::UnicodeWidthStr;
use vstd::prelude::*;
use vstd::string::*;
use vstd::utf8::*;

verus! {

broadcast use {
    vstd::utf8::encode_utf8_valid_utf8,
    vstd::utf8::encode_utf8_decode_utf8,
    vstd::utf8::is_char_boundary_start_end_of_seq,
};

/// The grapheme clusters of the text `s` from byte `offset` on.
pub open spec fn clusters_from(s: Seq<char>, offset: int) -> Seq<Seq<char>>
    decreases encode_utf8(s).len() - offset,
{
    let len = encode_utf8(s).len() as int;
    if offset < 0 || offset >= len {
        seq![]
    } else {
        let nb = next_grapheme_boundary(s, offset as usize) as int;
        if nb <= offset || nb > len {
            seq![]
        } else {
            seq![decode_utf8(encode_utf8(s).subrange(offset, nb))] + clusters_from(s, nb)
        }
    }
}

/// The extended grapheme clusters of `s`, in order.
pub open spec fn clusters(s: Seq<char>) -> Seq<Seq<char>> {
    clusters_from(s, 0)
}

/// The display width of the text `s` in terminal columns, as unicode-width computes it.
pub uninterp spec fn display_width_of(s: Seq<char>) -> usize;

/// The display width of `s` in terminal columns (`UnicodeWidthStr::width` of unicode-width,
/// which treats characters of ambiguous width as one column wide).
///
/// Claimed of it: the result is the width named by [`display_width_of`]. The source computes
/// it from the characters alone (with rules for emoji and line-feed sequences); none of
/// that is stated here.
#[verifier::external_body]
fn display_width(s: &str) -> (r: usize)
    ensures
        r == display_width_of(s@),
{
    UnicodeWidthStr::width(s)
}

/// `n` spaces.
pub open spec fn spaces(n: int) -> Seq<char> {
    Seq::new(n as nat, |i: int| ' ')
}

/// Whether the grapheme `g` is a tab.
pub open spec fn is_tab(g: Seq<char>) -> bool {
    g == seq!['\t']
}

/// The concatenation of `f` applied to each grapheme of `gs`.
pub open spec fn concat_map(gs: Seq<Seq<char>>, f: spec_fn(Seq<char>) -> Seq<char>) -> Seq<char>
    decreases gs.len(),
{
    if gs.len() == 0 {
        seq![]
    } else {
        concat_map(gs.drop_last(), f) + f(gs.last())
    }
}

/// How a grapheme is shown: without options a tab is left out; with options a tab becomes
/// `tab_width` spaces when tabs are kept as tabs, `tab_spaces` spaces otherwise.
pub open spec fn shown(opt: Option<OptionsView>) -> spec_fn(Seq<char>) -> Seq<char> {
    |g: Seq<char>|
        if is_tab(g) {
            match opt {
                None => seq![],
                Some(o) => match o.tab_type {
                    TabType::Tab => spaces(o.tab_width as int),
                    TabType::Spaces => spaces(o.tab_spaces as int),
                },
            }
        } else {
            g
        }
}

/// How a grapheme is saved: a tab becomes `tab_spaces` spaces when tabs are spaces.
pub open spec fn saved(o: OptionsView) -> spec_fn(Seq<char>) -> Seq<char> {
    |g: Seq<char>|
        if is_tab(g) && o.tab_type == TabType::Spaces {
            spaces(o.tab_spaces as int)
        } else {
            g
        }
}

/// The width of a grapheme: a tab as the options say (no columns without options), any
/// other grapheme as unicode-width measures it.
pub open spec fn grapheme_width(g: Seq<char>, opt: Option<OptionsView>) -> int {
    match opt {
        Some(o) => if is_tab(g) {
            match o.tab_type {
                TabType::Tab => (o.tab_width as usize) as int,
                TabType::Spaces => (o.tab_spaces as usize) as int,
            }
        } else {
            display_width_of(g) as int
        },
        None => if is_tab(g) {
            0
        } else {
            display_width_of(g) as int
        },
    }
}

/// The sum of the widths of the graphemes `gs`.
pub open spec fn total_width(gs: Seq<Seq<char>>, opt: Option<OptionsView>) -> int
    decreases gs.len(),
{
    if gs.len() == 0 {
        0
    } else {
        total_width(gs.drop_last(), opt) + grapheme_width(gs.last(), opt)
    }
}

/// The options' view, if there are options.
pub open spec fn opt_view(opt: Option<&Options>) -> Option<OptionsView> {
    match opt {
        Some(o) => Some(o@),
        None => None,
    }
}

/// Struct that offers grapheme-based string operations. `GraphemeString` owns its data.
pub struct GraphemeString {
    graphemes: Vec<String>,
    cache: String,
    dirty: bool,
}

fn spaces_string(n: usize) -> (s: String)
    ensures
        s@ == spaces(n as int),
{
    let mut s = String::new();
    let mut i: usize = 0;
    while i < n
        invariant
            i <= n,
            s@ == spaces(i as int),
        decreases n - i,
    {
        push_char(&mut s, ' ');
        assert(spaces(i + 1) =~= spaces(i as int).push(' '));
        i += 1;
    }
    s
}

fn is_tab_str(g: &String) -> (b: bool)
    ensures
        b == is_tab(g@),
{
    let r = str_eq(g.as_str(), "\t");
    proof {
        reveal_strlit("\t");
        assert("\t"@ =~= seq!['\t']);
    }
    r
}

impl GraphemeString {
    /// The graphemes, in order.
    pub closed spec fn graphemes_view(&self) -> Seq<Seq<char>> {
        self.graphemes@.map_values(|g: String| g@)
    }

    /// The text that [`GraphemeString::cached`] hands out while the string is unchanged.
    pub closed spec fn cache_view(&self) -> Seq<char> {
        self.cache@
    }

    /// Whether the cached text has to be computed again.
    pub closed spec fn is_dirty(&self) -> bool {
        self.dirty
    }

    /// Create a new `GraphemeString` from the extended grapheme clusters of `string`.
    pub fn new(string: &str) -> (g: Self)
        requires
            string.spec_bytes().len() <= usize::MAX,
        ensures
            g.graphemes_view() == clusters(string@),
            concat_map(g.graphemes_view(), |c: Seq<char>| c) == string@,
            g.is_dirty(),
    {
        let len = string.len();
        let mut graphemes: Vec<String> = Vec::new();
        let mut offset: usize = 0;
        let ghost s = string@;
        let ghost b = string.spec_bytes();
        while offset < len
            invariant
                b == string.spec_bytes(),
                s == string@,
                len == b.len(),
                offset <= len,
                is_char_boundary(b, offset as int),
                graphemes@.map_values(|g: String| g@) + clusters_from(s, offset as int) == clusters(s),
                concat_map(graphemes@.map_values(|g: String| g@), |c: Seq<char>| c) == decode_utf8(
                    b.subrange(0, offset as int),
                ),
            decreases len - offset,
        {
            let nb = grapheme_boundary_after(string, offset);
            let piece = byte_slice(string, offset, nb);
            let owned = piece.to_owned();
            let ghost before = graphemes@.map_values(|g: String| g@);
            graphemes.push(owned);
            proof {
                lemma_decode_extend(b, offset as int, nb as int);
                assert(graphemes@.map_values(|g: String| g@).drop_last() =~= before);
                assert(owned@ == decode_utf8(b.subrange(offset as int, nb as int)));
                assert(clusters_from(s, offset as int) == seq![owned@] + clusters_from(s, nb as int));
                assert(graphemes@.map_values(|g: String| g@) =~= before.push(owned@));
                assert(before.push(owned@) + clusters_from(s, nb as int) =~= before + (seq![owned@]
                    + clusters_from(s, nb as int)));
            }
            offset = nb;
        }
        assert(clusters_from(s, offset as int) =~= Seq::<Seq<char>>::empty());
        assert(b.subrange(0, offset as int) =~= b);
        assert(graphemes@.map_values(|g: String| g@) + Seq::<Seq<char>>::empty() =~= graphemes@.map_values(|g: String| g@));
        GraphemeString { graphemes, cache: String::new(), dirty: true }
    }

    /// Returns the `GraphemeString` as a `&str`.
    ///
    /// If the string has changed since the cached text was computed, it is computed again: if
    /// `opt` is `None`, tabs are not included, otherwise they are rendered as spaces according
    /// to `opt`. Otherwise the cached text is returned as it is.
    pub fn cached(&mut self, opt: Option<&Options>) -> (r: &str)
        requires
            opt matches Some(o) ==> o.tab_width.0 >= 0 && o.tab_spaces.0 >= 0,
        ensures
            r@ == final(self).cache_view(),
            final(self).graphemes_view() == old(self).graphemes_view(),
            !final(self).is_dirty(),
            final(self).cache_view() == if old(self).is_dirty() {
                concat_map(old(self).graphemes_view(), shown(opt_view(opt)))
            } else {
                old(self).cache_view()
            },
    {
        if self.dirty {
            let mut tab = String::new();
            let mut spaces_str = String::new();
            if let Some(o) = opt {
                tab = spaces_string(o.tab_width.0 as usize);
                spaces_str = spaces_string(o.tab_spaces.0 as usize);
            }
            let ghost f = shown(opt_view(opt));
            let ghost gs = self.graphemes_view();
            let mut out = String::new();
            let mut i: usize = 0;
            while i < self.graphemes.len()
                invariant
                    i <= self.graphemes@.len(),
                    gs == self.graphemes@.map_values(|g: String| g@),
                    f == shown(opt_view(opt)),
                    out@ == concat_map(gs.take(i as int), f),
                    opt matches Some(o) ==> tab@ == spaces(o.tab_width.0 as int) && spaces_str@
                        == spaces(o.tab_spaces.0 as int),
                decreases self.graphemes@.len() - i,
            {
                let g = &self.graphemes[i];
                assert(gs.take(i + 1).drop_last() =~= gs.take(i as int));
                assert(gs.take(i + 1).last() == g@);
                if is_tab_str(g) {
                    match opt {
                        Some(o) => match o.tab_type {
                            TabType::Tab => append_str(&mut out, tab.as_str()),
                            TabType::Spaces => append_str(&mut out, spaces_str.as_str()),
                        },
                        None => {},
                    }
                } else {
                    append_str(&mut out, g.as_str());
                }
                assert(out@ =~= concat_map(gs.take(i as int), f) + f(g@));
                i += 1;
            }
            assert(gs.take(gs.len() as int) =~= gs);
            self.cache = out;
            self.dirty = false;
        }
        self.cache.as_str()
    }

    /// Returns the `GraphemeString` as an owned `String`, fit for serialization.
    ///
    /// Tabs are rendered according to `opt`: if `opt.tab_type` is [`TabType::Tab`], all tabs
    /// are the tab character; otherwise, they are `opt.tab_spaces` spaces.
    pub fn serialize(&mut self, opt: &Options) -> (r: String)
        requires
            opt.tab_spaces.0 >= 0,
        ensures
            r@ == concat_map(old(self).graphemes_view(), saved(opt@)),
            *final(self) == *old(self),
    {
        let spaces_str = spaces_string(opt.tab_spaces.0 as usize);
        let ghost f = saved(opt@);
        let ghost gs = self.graphemes_view();
        let mut out = String::new();
        let mut i: usize = 0;
        while i < self.graphemes.len()
            invariant
                i <= self.graphemes@.len(),
                gs == self.graphemes@.map_values(|g: String| g@),
                f == saved(opt@),
                out@ == concat_map(gs.take(i as int), f),
                spaces_str@ == spaces(opt.tab_spaces.0 as int),
            decreases self.graphemes@.len() - i,
        {
            let g = &self.graphemes[i];
            assert(gs.take(i + 1).drop_last() =~= gs.take(i as int));
            assert(gs.take(i + 1).last() == g@);
            if is_tab_str(g) && opt.tab_type == TabType::Spaces {
                append_str(&mut out, spaces_str.as_str());
            } else {
                append_str(&mut out, g.as_str());
            }
            assert(out@ =~= concat_map(gs.take(i as int), f) + f(g@));
            i += 1;
        }
        assert(gs.take(gs.len() as int) =~= gs);
        out
    }

    /// Returns the width, in terminal columns, of this string, or `None` where the sum does
    /// not fit a `usize`.
    ///
    /// If `opt` is `None`, tabs are counted as 0 width; otherwise they are treated
    /// according to `opt`.
    pub fn checked_width(&self, opt: Option<&Options>) -> (r: Option<usize>)
        ensures
            match r {
                Some(w) => w == total_width(self.graphemes_view(), opt_view(opt)),
                None => total_width(self.graphemes_view(), opt_view(opt)) > usize::MAX,
            },
    {
        let ghost gs = self.graphemes_view();
        let ghost ov = opt_view(opt);
        let mut sum: usize = 0;
        let mut i: usize = 0;
        while i < self.graphemes.len()
            invariant
                i <= self.graphemes@.len(),
                gs == self.graphemes@.map_values(|g: String| g@),
                ov == opt_view(opt),
                sum == total_width(gs.take(i as int), ov),
            decreases self.graphemes@.len() - i,
        {
            let g = &self.graphemes[i];
            assert(gs.take(i + 1).drop_last() =~= gs.take(i as int));
            assert(gs.take(i + 1).last() == g@);
            let w = self.width_of(i, opt);
            match sum.checked_add(w) {
                Some(s) => sum = s,
                None => {
                    proof {
                        lemma_total_width_grows(gs, ov, i as int + 1);
                    }
                    return None;
                },
            }
            i += 1;
        }
        assert(gs.take(gs.len() as int) =~= gs);
        Some(sum)
    }

    fn width_of(&self, i: usize, opt: Option<&Options>) -> (w: usize)
        requires
            i < self.graphemes@.len(),
        ensures
            w == grapheme_width(self.graphemes_view()[i as int], opt_view(opt)),
    {
        let g = &self.graphemes[i];
        match opt {
            Some(o) => {
                if is_tab_str(g) {
                    match o.tab_type {
                        TabType::Tab => o.tab_width.0 as usize,
                        TabType::Spaces => o.tab_spaces.0 as usize,
                    }
                } else {
                    display_width(g.as_str())
                }
            },
            None => {
                if is_tab_str(g) {
                    0
                } else {
                    display_width(g.as_str())
                }
            },
        }
    }

    /// Returns the width, in terminal columns, of this string.
    ///
    /// If `opt` is `None`, tabs are counted as 0 width; otherwise they are treated
    /// according to `opt`.
    pub fn width(&self, opt: Option<&Options>) -> (w: usize)
        requires
            total_width(self.graphemes_view(), opt_view(opt)) <= usize::MAX,
        ensures
            w == total_width(self.graphemes_view(), opt_view(opt)),
    {
        match self.checked_width(opt) {
            Some(w) => w,
            None => 0,
        }
    }

    /// Returns the width, in terminal columns, of the grapheme at index `idx`, or `None` if
    /// `idx` isn't a valid index.
    ///
    /// If `opt` is `None`, a tab is counted as 0 width; otherwise it is treated
    /// according to `opt`: `opt.tab_width` columns wide in `Tab` mode, `opt.tab_spaces` in
    /// `Spaces` mode.
    pub fn width_grapheme(&self, idx: usize, opt: Option<&Options>) -> (r: Option<usize>)
        ensures
            idx >= self.graphemes_view().len() ==> r is None,
            idx < self.graphemes_view().len() ==> r == Some(
                grapheme_width(self.graphemes_view()[idx as int], opt_view(opt)) as usize,
            ),
    {
        if idx >= self.graphemes.len() {
            return None;
        }
        Some(self.width_of(idx, opt))
    }
}

proof fn lemma_total_width_grows(gs: Seq<Seq<char>>, opt: Option<OptionsView>, k: int)
    requires
        0 <= k <= gs.len(),
    ensures
        total_width(gs, opt) >= total_width(gs.take(k), opt),
    decreases gs.len() - k,
{
    if k < gs.len() {
        lemma_total_width_grows(gs, opt, k + 1);
        assert(gs.take(k + 1).drop_last() =~= gs.take(k));
    } else {
        assert(gs.take(k) =~= gs);
    }
}

/// Decoding the bytes up to a character boundary `nb` is decoding them up to the earlier
/// boundary `off`, then the bytes in between.
proof fn lemma_decode_extend(b: Seq<u8>, off: int, nb: int)
    requires
        valid_utf8(b),
        0 <= off < nb <= b.len(),
        is_char_boundary(b, off),
        is_char_boundary(b, nb),
    ensures
        decode_utf8(b.subrange(0, nb)) == decode_utf8(b.subrange(0, off)) + decode_utf8(
            b.subrange(off, nb),
        ),
{
    let p = b.subrange(0, nb);
    valid_utf8_split(b, nb);
    if off > 0 {
        is_char_boundary_iff_not_is_continuation_byte(b, off);
        is_char_boundary_iff_not_is_continuation_byte(p, off);
        assert(p[off] == b[off]);
    }
    decode_utf8_split(p, off);
    assert(p.subrange(0, off) =~= b.subrange(0, off));
    assert(p.subrange(off, p.len() as int) =~= b.subrange(off, nb));
}

/// Saving a grapheme string with tabs kept as tabs gives back the text it was made from.
pub proof fn lemma_serialize_keeps_tabs(gs: Seq<Seq<char>>, o: OptionsView)
    requires
        o.tab_type == TabType::Tab,
    ensures
        concat_map(gs, saved(o)) == concat_map(gs, |c: Seq<char>| c),
    decreases gs.len(),
{
    if gs.len() > 0 {
        lemma_serialize_keeps_tabs(gs.drop_last(), o);
    }
}

} // verus!

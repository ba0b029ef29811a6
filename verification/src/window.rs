//! The editor's windows: the part of the terminal that shows a document, its line numbers,
//! and where the cursor stands in the document.
use crate::config::options::LineNumbers;
use crate::document::Buffer;
use crate::terminal::{Position, Size};
use crate::grapheme_string::spaces;
use crate::text::{decimal, decimal_string, push_char};
use vstd::prelude::*;

verus! {

/// Struct that represents a position in a document.
///
/// Documents may have more than 2^16 - 1 lines, so the fields are `usize` (unlike
/// [`Position`]).
#[derive(Copy, Clone, Debug, PartialEq, Eq, Structural)]
pub struct DocPosition {
    /// The grapheme in the line.
    pub x: usize,
    /// The line.
    pub y: usize,
}

impl DocPosition {
    /// The start of the document.
    pub fn origin() -> (p: DocPosition)
        ensures
            p == (DocPosition { x: 0, y: 0 }),
    {
        DocPosition { x: 0, y: 0 }
    }
}

/// What a window line shows.
#[derive(Copy, Clone, Debug, PartialEq, Eq, Structural)]
pub enum WindowLineType {
    /// The start of the document line with this index.
    DocLine(usize),
    /// The continuation of a wrapped document line.
    WrappedLine,
    /// A line past the end of the document.
    Tilde,
}

/// How a document line is laid out in a window.
#[derive(Copy, Clone, Debug, PartialEq, Eq, Structural)]
pub struct WindowLineProperties {
    /// The number of window lines the document line takes up.
    pub lines: usize,
    /// The number of graphemes on its last window line.
    pub graphemes: u16,
}

impl WindowLineProperties {
    /// The number of window lines, if it fits a `u16`.
    pub fn lines_u16(&self) -> (r: Option<u16>)
        ensures
            self.lines > u16::MAX ==> r is None,
            self.lines <= u16::MAX ==> r == Some(self.lines as u16),
    {
        if self.lines > u16::MAX as usize {
            None
        } else {
            Some(self.lines as u16)
        }
    }
}

/// `⌈quotient / divisor⌉`, at least one: the number of window lines of a document line of
/// `quotient` graphemes in a window `divisor` columns wide (a width of 0 gives `usize::MAX`).
pub open spec fn div_ceil_spec(quotient: int, divisor: int) -> int {
    if quotient == 0 {
        1
    } else if divisor == 0 {
        usize::MAX as int
    } else {
        (quotient + divisor - 1) / divisor
    }
}

/// `⌈quotient / divisor⌉`, at least one.
pub fn div_ceil(quotient: usize, divisor: u16) -> (r: usize)
    ensures
        r == div_ceil_spec(quotient as int, divisor as int),
{
    if quotient == 0 {
        1
    } else if divisor == 0 {
        usize::MAX
    } else {
        let d = divisor as usize;
        let q = quotient / d;
        let r = quotient % d;
        proof {
            lemma_div_ceil(quotient as int, d as int, q as int, r as int);
        }
        if r == 0 {
            q
        } else {
            q + 1
        }
    }
}

proof fn lemma_div_ceil(n: int, d: int, q: int, r: int)
    requires
        n >= 1,
        d >= 1,
        n <= usize::MAX,
        q == n / d,
        r == n % d,
    ensures
        r == 0 ==> q == (n + d - 1) / d,
        r != 0 ==> q + 1 == (n + d - 1) / d && q + 1 <= usize::MAX,
{
    assert(n == d * q + r && 0 <= r < d) by (nonlinear_arith)
        requires
            d >= 1,
            q == n / d,
            r == n % d,
    ;
    if r == 0 {
        assert((n + d - 1) / d == q) by (nonlinear_arith)
            requires
                n == d * q,
                d >= 1,
        ;
    } else {
        assert((n + d - 1) / d == q + 1) by (nonlinear_arith)
            requires
                n == d * q + r,
                d >= 1,
                1 <= r < d,
        ;
        assert(q + 1 <= n) by (nonlinear_arith)
            requires
                n == d * q + r,
                d >= 2,
                1 <= r < d,
                q >= 0,
        ;
    }
}

/// `|x - y|`.
pub fn abs_diff(x: usize, y: usize) -> (r: usize)
    ensures
        r == if x > y {
            x - y
        } else {
            y - x
        },
{
    if x > y {
        x - y
    } else {
        y - x
    }
}

/// `x - y`, or 0 when `y` is at least `x`.
pub fn saturating_sub(x: u16, y: u16) -> (r: u16)
    ensures
        r == if y >= x {
            0
        } else {
            x - y
        },
{
    if y >= x {
        0
    } else {
        x - y
    }
}

/// The number of decimal digits of `x` (none for 0).
pub open spec fn digit_count(x: nat) -> nat
    decreases x,
{
    if x == 0 {
        0
    } else {
        1 + digit_count(x / 10)
    }
}

proof fn lemma_digit_count_mono(x: nat, y: nat)
    requires
        x <= y,
    ensures
        digit_count(x) <= digit_count(y),
    decreases y,
{
    if x > 0 {
        lemma_digit_count_mono(x / 10, y / 10);
    }
}

proof fn lemma_digit_count_le(x: nat)
    requires
        x <= usize::MAX,
    ensures
        digit_count(x) <= 20,
{
    lemma_digit_count_mono(x, 18446744073709551615);
    reveal_with_fuel(digit_count, 21);
    assert(digit_count(18446744073709551615) == 20);
}

/// The number of decimal digits of `x` (none for 0).
pub fn log10(x: usize) -> (log: u16)
    ensures
        log == digit_count(x as nat),
{
    let ghost x0 = x;
    let mut x = x;
    let mut log: u16 = 0;
    proof {
        lemma_digit_count_le(x as nat);
    }
    while x > 0
        invariant
            log + digit_count(x as nat) == digit_count(x0 as nat),
            digit_count(x0 as nat) <= 20,
        decreases x,
    {
        x = x / 10;
        log += 1;
    }
    log
}

/// The width of the line number column (with the space after it) and the width left for
/// text, in a window `width` columns wide that shows a document of `doc_length` lines:
/// none without line numbers, else one more than the digits of `doc_length`, at least 3.
pub open spec fn text_attrs(numbering: LineNumbers, width: u16, doc_length: usize) -> (u16, u16) {
    let chars: int = match numbering {
        LineNumbers::Off => 0,
        _ => if digit_count(doc_length as nat) + 1 > 3 {
            (digit_count(doc_length as nat) + 1) as int
        } else {
            3
        },
    };
    (chars as u16, if chars >= width {
        0u16
    } else {
        (width - chars) as u16
    })
}

/// The width of the line number column and the width left for text.
pub fn compute_text_attrs(numbering: LineNumbers, raw_window_size: &Size, doc_length: usize) -> (r: (
    u16,
    u16,
))
    ensures
        r == text_attrs(numbering, raw_window_size.width, doc_length),
{
    let line_number_chars: u16 = match numbering {
        LineNumbers::Off => 0,
        _ => {
            let digits = log10(doc_length);
            proof {
                lemma_digit_count_le(doc_length as nat);
            }
            if digits + 1 > 3 {
                digits + 1
            } else {
                3
            }
        },
    };
    let text_width = saturating_sub(raw_window_size.width, line_number_chars);
    (line_number_chars, text_width)
}

/// The characters of `s` in reverse order.
pub open spec fn reversed(s: Seq<char>) -> Seq<char> {
    Seq::new(s.len(), |i: int| s[s.len() - 1 - i])
}

/// The number `d` right-aligned in `w` columns with one space after it; where it does not
/// fit, its leading digits are cut off.
pub open spec fn right_aligned(d: Seq<char>, w: nat) -> Seq<char> {
    reversed((seq![' '] + reversed(d) + spaces(w as int)).take(w as int))
}

/// The number `d` left-aligned in `w` columns, cut to `w` columns.
pub open spec fn left_aligned(d: Seq<char>, w: nat) -> Seq<char> {
    (d + spaces(w as int)).take(w as int)
}

/// The line number shown in a column `w` wide for the document line `doc_line` when the
/// cursor is on line `pos_y`: absolute numbers right-aligned; relative ones right-aligned
/// except the cursor's own line, whose absolute number is left-aligned.
pub open spec fn line_number_spec(numbering: LineNumbers, doc_line: nat, pos_y: nat, w: nat) -> Seq<
    char,
> {
    match numbering {
        LineNumbers::Off => seq![],
        LineNumbers::On => right_aligned(decimal(doc_line + 1), w),
        LineNumbers::Relative => if pos_y == doc_line {
            left_aligned(decimal(doc_line + 1), w)
        } else {
            right_aligned(
                decimal(
                    if pos_y > doc_line {
                        (pos_y - doc_line) as nat
                    } else {
                        (doc_line - pos_y) as nat
                    },
                ),
                w,
            )
        },
    }
}

fn spaces_vec(n: usize) -> (v: Vec<char>)
    ensures
        v@ == spaces(n as int),
{
    let mut v: Vec<char> = Vec::new();
    let mut i: usize = 0;
    while i < n
        invariant
            i <= n,
            v@ == spaces(i as int),
        decreases n - i,
    {
        v.push(' ');
        assert(spaces(i + 1) =~= spaces(i as int).push(' '));
        i += 1;
    }
    v
}

fn reverse_chars(s: &Vec<char>) -> (r: Vec<char>)
    ensures
        r@ == reversed(s@),
{
    let mut r: Vec<char> = Vec::new();
    let mut i: usize = s.len();
    while i > 0
        invariant
            i <= s@.len(),
            r@ == reversed(s@).take(s@.len() - i),
        decreases i,
    {
        i -= 1;
        r.push(s[i]);
        assert(reversed(s@).take(s@.len() - i) =~= reversed(s@).take(s@.len() - i - 1).push(s@[i as int]));
    }
    assert(reversed(s@).take(s@.len() as int) =~= reversed(s@));
    r
}

fn take_chars(s: &Vec<char>, w: usize) -> (r: Vec<char>)
    requires
        w <= s@.len(),
    ensures
        r@ == s@.take(w as int),
{
    let mut r: Vec<char> = Vec::new();
    let mut i: usize = 0;
    while i < w
        invariant
            i <= w <= s@.len(),
            r@ == s@.take(i as int),
        decreases w - i,
    {
        r.push(s[i]);
        assert(s@.take(i + 1) =~= s@.take(i as int).push(s@[i as int]));
        i += 1;
    }
    r
}

fn chars_to_string(v: &Vec<char>) -> (s: String)
    ensures
        s@ == v@,
{
    let mut s = String::new();
    let mut i: usize = 0;
    while i < v.len()
        invariant
            i <= v@.len(),
            s@ == v@.take(i as int),
        decreases v@.len() - i,
    {
        push_char(&mut s, v[i]);
        assert(v@.take(i + 1) =~= v@.take(i as int).push(v@[i as int]));
        i += 1;
    }
    assert(v@.take(v@.len() as int) =~= v@);
    s
}

fn digits_of(n: usize) -> (v: Vec<char>)
    ensures
        v@ == decimal(n as nat),
{
    let s = decimal_string(n);
    let mut v: Vec<char> = Vec::new();
    for c in it: s.as_str().chars()
        invariant
            it.seq() == s@,
            v@ == it.seq().take(it.index() as int),
    {
        v.push(c);
    }
    v
}

fn aligned(d: Vec<char>, w: usize, right: bool) -> (s: String)
    requires
        d@.len() + 1 + w <= usize::MAX,
    ensures
        right ==> s@ == right_aligned(d@, w as nat),
        !right ==> s@ == left_aligned(d@, w as nat),
{
    let pad = spaces_vec(w);
    if right {
        let mut buf: Vec<char> = Vec::new();
        buf.push(' ');
        let mut rd = reverse_chars(&d);
        buf.append(&mut rd);
        let mut p = pad;
        buf.append(&mut p);
        assert(buf@ =~= seq![' '] + reversed(d@) + spaces(w as int));
        let cut = take_chars(&buf, w);
        let back = reverse_chars(&cut);
        chars_to_string(&back)
    } else {
        let mut buf = d;
        let mut p = pad;
        buf.append(&mut p);
        let cut = take_chars(&buf, w);
        chars_to_string(&cut)
    }
}

/// The line number text of the document line `doc_line` when the cursor is on line `pos_y`,
/// in a column `text_start` wide.
pub fn line_number_text(numbering: LineNumbers, doc_line: usize, pos_y: usize, text_start: u16) -> (s: String)
    requires
        doc_line < usize::MAX,
    ensures
        s@ == line_number_spec(numbering, doc_line as nat, pos_y as nat, text_start as nat),
{
    let w = text_start as usize;
    proof {
        lemma_decimal_len(doc_line as nat + 1);
        lemma_decimal_len(if pos_y > doc_line { (pos_y - doc_line) as nat } else { (doc_line - pos_y) as nat });
    }
    match numbering {
        LineNumbers::Off => String::new(),
        LineNumbers::On => aligned(digits_of(doc_line + 1), w, true),
        LineNumbers::Relative => {
            if pos_y == doc_line {
                aligned(digits_of(doc_line + 1), w, false)
            } else {
                aligned(digits_of(abs_diff(pos_y, doc_line)), w, true)
            }
        },
    }
}

proof fn lemma_decimal_len_mono(x: nat, y: nat)
    requires
        x <= y,
    ensures
        decimal(x).len() <= decimal(y).len(),
    decreases y,
{
    if x >= 10 {
        lemma_decimal_len_mono(x / 10, y / 10);
    }
}

proof fn lemma_decimal_len(n: nat)
    requires
        n <= usize::MAX,
    ensures
        decimal(n).len() <= 20,
{
    lemma_decimal_len_mono(n, 18446744073709551615);
    reveal_with_fuel(decimal, 21);
    assert(decimal(18446744073709551615).len() == 20);
}

/// How the message line of length `len` sits on a window line `width` wide: cut to the
/// width, or after a `~` with no room left, or after a `~` with the padding on the left and
/// right.
#[derive(Copy, Clone, Debug, PartialEq, Eq, Structural)]
pub enum WelcomeLine {
    /// Only the first `width` characters of the message line.
    Cut,
    /// A `~` and the message line.
    Tilde,
    /// A `~`, then `left` spaces, the message line and `right` spaces.
    Padded {
        /// Spaces before the message line.
        left: usize,
        /// Spaces after it.
        right: usize,
    },
}

/// Where the line of the welcome message of length `len` goes in a window line `width`
/// wide; the extra space goes to the right.
pub fn center_welcome(len: usize, width: usize) -> (r: WelcomeLine)
    ensures
        width <= len ==> r == WelcomeLine::Cut,
        width == len + 1 ==> r == WelcomeLine::Tilde,
        width > len + 1 ==> r == (WelcomeLine::Padded {
            left: ((width - 1 - len) / 2) as usize,
            right: (width - 1 - len - (width - 1 - len) / 2) as usize,
        }),
{
    if width <= len {
        WelcomeLine::Cut
    } else if width == len + 1 {
        WelcomeLine::Tilde
    } else {
        let left = (width - 1 - len) / 2;
        let right = width - 1 - len - left;
        WelcomeLine::Padded { left, right }
    }
}

/// The window line on which a welcome message of `message_len` lines begins, in a window
/// `height` lines high: centered, or at the top when it does not fit.
pub fn message_begin_line(height: u16, message_len: u16) -> (r: u16)
    ensures
        r == if height / 2 < message_len / 2 {
            0
        } else {
            height / 2 - message_len / 2
        },
{
    if height / 2 < message_len / 2 {
        0
    } else {
        height / 2 - message_len / 2
    }
}

/// What the window line `line` shows, walking down from the document line `doc_line`, which
/// starts at window line `window_line`; `None` where the count of window lines overflows.
pub open spec fn window_line_type(
    props: Seq<WindowLineProperties>,
    doc_line: int,
    count: int,
    window_line: int,
    line: int,
) -> Option<WindowLineType>
    decreases count - doc_line,
{
    if window_line < line && doc_line < count {
        let p = props[doc_line];
        if p.lines > u16::MAX {
            Some(WindowLineType::WrappedLine)
        } else if window_line + p.lines > u16::MAX {
            None
        } else {
            window_line_type(props, doc_line + 1, count, window_line + p.lines, line)
        }
    } else if doc_line >= count {
        Some(WindowLineType::Tilde)
    } else if window_line == line {
        Some(WindowLineType::DocLine(doc_line as usize))
    } else {
        Some(WindowLineType::WrappedLine)
    }
}

/// What the window line `line` shows, for a window whose first line shows the document line
/// `first_line`, with `props` the layout of each of the `count` document lines; `None` where
/// the count of window lines passes the range of `u16` on the way.
pub fn window_to_doc(props: &Vec<WindowLineProperties>, first_line: usize, count: usize, line: u16) -> (r: Option<WindowLineType>)
    requires
        count <= props@.len(),
    ensures
        r == window_line_type(props@, first_line as int, count as int, 0, line as int),
{
    let mut window_line: u16 = 0;
    let mut doc_line = first_line;
    while window_line < line && doc_line < count
        invariant
            count <= props@.len(),
            window_line_type(props@, doc_line as int, count as int, window_line as int, line as int)
                == window_line_type(props@, first_line as int, count as int, 0, line as int),
        decreases count - doc_line,
    {
        match props[doc_line].lines_u16() {
            Some(l) => {
                if l > u16::MAX - window_line {
                    return None;
                }
                window_line = window_line + l;
                doc_line = doc_line + 1;
            },
            None => {
                return Some(WindowLineType::WrappedLine);
            },
        }
    }
    if doc_line >= count {
        Some(WindowLineType::Tilde)
    } else if window_line == line {
        Some(WindowLineType::DocLine(doc_line))
    } else {
        Some(WindowLineType::WrappedLine)
    }
}

/// A document line that a window line shows lies in the document.
proof fn lemma_window_line_in_doc(
    props: Seq<WindowLineProperties>,
    doc_line: int,
    count: int,
    window_line: int,
    line: int,
)
    requires
        0 <= doc_line,
        count <= usize::MAX,
    ensures
        window_line_type(props, doc_line, count, window_line, line) matches Some(
            WindowLineType::DocLine(d),
        ) ==> d < count,
    decreases count - doc_line,
{
    if window_line < line && doc_line < count {
        let p = props[doc_line];
        if p.lines <= u16::MAX && window_line + p.lines <= u16::MAX {
            lemma_window_line_in_doc(props, doc_line + 1, count, window_line + p.lines, line);
        }
    }
}

/// The window lines, from `window_line` down to (not including) `height`, on which line
/// numbers are drawn, walking the document lines from `doc_line` on: the first window line of
/// each document line (as many as the window shows), then each line past the document.
pub open spec fn number_rows(
    props: Seq<WindowLineProperties>,
    doc_line: int,
    count: int,
    window_line: int,
    height: int,
) -> Seq<u16>
    decreases (if doc_line < count {
        count - doc_line
    } else {
        0
    }), height - window_line,
{
    if window_line >= height {
        seq![]
    } else if doc_line < count {
        let lines = if props[doc_line].lines > u16::MAX {
            u16::MAX as int
        } else {
            props[doc_line].lines as int
        };
        let step = if lines < height - window_line {
            lines
        } else {
            height - window_line
        };
        seq![window_line as u16] + number_rows(props, doc_line + 1, count, window_line + step, height)
    } else {
        seq![window_line as u16] + number_rows(props, doc_line, count, window_line + 1, height)
    }
}

/// What the line number column of a window line shows.
#[derive(Clone, Debug)]
pub enum LineNumberCell {
    /// Nothing: the window line continues a document line.
    Blank,
    /// A `~`: the window line lies past the end of the document.
    Tilde,
    /// The line number text of the document line that starts on the window line.
    Number(String),
}

/// A document line as a window lays it out: its length in bytes and in graphemes.
#[derive(Copy, Clone, Debug, PartialEq, Eq, Structural)]
pub struct DocLine {
    /// The length of the line's text in bytes.
    pub bytes: usize,
    /// The length of the line in graphemes.
    pub length: usize,
}

impl DocLine {
    /// The layout of the text `b`: its length in bytes and its number of grapheme clusters.
    pub fn of(b: &Buffer) -> (d: DocLine)
        requires
            b.wf(),
        ensures
            d.length == b.bounds().len() - 1,
            d.bytes == b.bounds()[b.bounds().len() - 1],
    {
        let offsets = b.offsets();
        let n = offsets.len() - 1;
        DocLine { bytes: offsets[n], length: n }
    }
}

/// What the editor has to do after the cursor moved in a window.
#[derive(Copy, Clone, Debug, PartialEq, Eq, Structural)]
pub enum WindowAction {
    /// Nothing.
    Nothing,
    /// Move the terminal cursor and flush.
    Move,
    /// Draw the whole window, then move the cursor and flush.
    RenderMove,
    /// Draw the line numbers again, then move the cursor and flush.
    LineNumbersMove,
}

/// The layout of the document lines `lines` in a window with text `text_width` columns wide.
pub open spec fn line_properties_of(lines: Seq<DocLine>, text_width: u16) -> Seq<WindowLineProperties> {
    Seq::new(
        lines.len(),
        |k: int|
            WindowLineProperties {
                lines: div_ceil_spec(lines[k].length as int, text_width as int) as usize,
                graphemes: (lines[k].length % (text_width as usize)) as u16,
            },
    )
}

/// The window lines that the document lines `from` up to (not including) `to` take up.
pub open spec fn lines_between(props: Seq<WindowLineProperties>, from: int, to: int) -> int
    decreases to - from,
{
    if from >= to {
        0
    } else {
        props[from].lines + lines_between(props, from + 1, to)
    }
}

/// What one screen line of a window showing a document holds.
#[derive(Copy, Clone, Debug, PartialEq, Eq, Structural)]
pub enum ScreenLine {
    /// The start of the document line `doc_line`: its bytes `start..end`, after the line
    /// number.
    Content { doc_line: usize, start: usize, end: usize },
    /// More of the document line `doc_line`: its bytes `start..end`, after blank space as wide
    /// as the line numbers.
    Continued { doc_line: usize, start: usize, end: usize },
    /// A line past the end of the document, shown as `~`.
    Tilde,
}

/// The cluster indices `k`, `k + step`, `k + 2 step`, ... that lie below `n`.
pub open spec fn cuts_from(k: int, n: int, step: int) -> Seq<int>
    decreases (if k < n {
        n - k
    } else {
        0
    }),
{
    if step <= 0 || k >= n {
        seq![]
    } else {
        seq![k] + cuts_from(k + step, n, step)
    }
}

/// The screen lines of the document line `d`, whose clusters begin at the byte offsets
/// `bounds` (followed by the end of its text), in a window `width` columns wide with
/// `text_width` columns for text.
///
/// A line of more than `text_width + 1` clusters is cut before cluster `text_width + 1` and
/// then before every `width + 1` clusters more. Its first screen line runs from its start to
/// the second cut (or its end); each later one runs from one cut to the next, and the text
/// after the last cut is not shown.
pub open spec fn line_pieces(d: int, bounds: Seq<int>, text_width: int, width: int) -> Seq<ScreenLine> {
    let n = bounds.len() - 1;
    let len = bounds[n];
    let cuts = cuts_from(text_width + 1, n, width + 1);
    if cuts.len() == 0 {
        seq![ScreenLine::Content { doc_line: d as usize, start: 0, end: len as usize }]
    } else {
        seq![
            ScreenLine::Content {
                doc_line: d as usize,
                start: 0,
                end: (if cuts.len() > 1 {
                    bounds[cuts[1]]
                } else {
                    len
                }) as usize,
            },
        ] + Seq::new(
            (cuts.len() - 1) as nat,
            |i: int|
                ScreenLine::Continued {
                    doc_line: d as usize,
                    start: bounds[cuts[i]] as usize,
                    end: bounds[cuts[i + 1]] as usize,
                },
        )
    }
}

/// The screen lines of the document lines from `from` on, whose cluster offsets are `lines`.
pub open spec fn doc_pieces(lines: Seq<Seq<int>>, from: int, text_width: int, width: int) -> Seq<
    ScreenLine,
>
    decreases lines.len() - from,
{
    if from < 0 || from >= lines.len() {
        seq![]
    } else {
        line_pieces(from, lines[from], text_width, width) + doc_pieces(
            lines,
            from + 1,
            text_width,
            width,
        )
    }
}

/// The `height` screen lines of a window whose first line shows the document line `first`:
/// the screen lines of the document from there on, then `~` lines.
pub open spec fn screen_plan(
    lines: Seq<Seq<int>>,
    first: int,
    text_width: int,
    width: int,
    height: int,
) -> Seq<ScreenLine> {
    let p = doc_pieces(lines, first, text_width, width);
    Seq::new(
        height as nat,
        |i: int|
            if i < p.len() {
                p[i]
            } else {
                ScreenLine::Tilde
            },
    )
}

/// The cluster offsets of each of the texts `lines`.
pub open spec fn line_bounds(lines: Seq<Buffer>) -> Seq<Seq<int>> {
    lines.map_values(|b: Buffer| b.bounds())
}

/// Appends the screen lines of the document line `d`, whose cluster offsets are `bounds`, to
/// `out`.
fn push_line_pieces(d: usize, bounds: &Vec<usize>, text_width: u16, width: u16, out: &mut Vec<ScreenLine>)
    requires
        bounds@.len() >= 1,
    ensures
        final(out)@ == old(out)@ + line_pieces(
            d as int,
            bounds@.map_values(|b: usize| b as int),
            text_width as int,
            width as int,
        ),
{
    let ghost b = bounds@.map_values(|x: usize| x as int);
    let n = bounds.len() - 1;
    let len = bounds[n];
    let first_cut = text_width as usize + 1;
    let step = width as usize + 1;
    let ghost all = cuts_from(first_cut as int, n as int, step as int);
    let mut cuts: Vec<usize> = Vec::new();
    let mut k = first_cut;
    while k < n
        invariant
            step == width + 1,
            n + 1 == bounds@.len(),
            all == cuts_from(first_cut as int, n as int, step as int),
            cuts@.map_values(|c: usize| c as int) + cuts_from(k as int, n as int, step as int) == all,
            forall|i: int| 0 <= i < cuts@.len() ==> #[trigger] cuts@[i] < n,
        decreases n - k,
    {
        let ghost before = cuts@.map_values(|c: usize| c as int);
        cuts.push(k);
        proof {
            assert(cuts@.map_values(|c: usize| c as int) =~= before.push(k as int));
            assert(before.push(k as int) + cuts_from(k + step, n as int, step as int) =~= before + (seq![
                k as int,
            ] + cuts_from(k + step, n as int, step as int)));
        }
        if n - k <= step {
            k = n;
        } else {
            k = k + step;
        }
    }
    let ghost cm = cuts@.map_values(|c: usize| c as int);
    assert(cm =~= all);
    let c = cuts.len();
    if c == 0 {
        out.push(ScreenLine::Content { doc_line: d, start: 0, end: len });
        return;
    }
    let end0 = if c > 1 {
        bounds[cuts[1]]
    } else {
        len
    };
    out.push(ScreenLine::Content { doc_line: d, start: 0, end: end0 });
    let ghost base = old(out)@;
    let ghost lp = line_pieces(d as int, b, text_width as int, width as int);
    assert(out@ =~= base + lp.take(1));
    let mut i: usize = 1;
    while i < c
        invariant
            1 <= i <= c,
            c == cuts@.len(),
            c == all.len(),
            cm == all,
            cm == cuts@.map_values(|x: usize| x as int),
            b == bounds@.map_values(|x: usize| x as int),
            n + 1 == bounds@.len(),
            forall|j: int| 0 <= j < cuts@.len() ==> #[trigger] cuts@[j] < n,
            lp == line_pieces(d as int, b, text_width as int, width as int),
            all == cuts_from(text_width + 1, n as int, width + 1),
            lp.len() == c,
            out@ == base + lp.take(i as int),
        decreases c - i,
    {
        let piece = ScreenLine::Continued { doc_line: d, start: bounds[cuts[i - 1]], end: bounds[cuts[i]] };
        out.push(piece);
        proof {
            assert(lp[i as int] == piece);
            assert(lp.take(i + 1) =~= lp.take(i as int).push(piece));
        }
        i += 1;
    }
    assert(lp.take(c as int) =~= lp);
}

/// The screen lines of a window `height` lines high and `width` columns wide, with
/// `text_width` columns for text, whose first line shows the document line `first_line`, for
/// a document whose lines are `lines`: the screen lines of the document from there on, then
/// `~` lines.
pub fn document_screen(lines: &Vec<Buffer>, first_line: usize, text_width: u16, width: u16, height: u16) -> (r: Vec<ScreenLine>)
    requires
        forall|k: int| 0 <= k < lines@.len() ==> #[trigger] lines@[k].wf(),
    ensures
        r@ == screen_plan(
            line_bounds(lines@),
            first_line as int,
            text_width as int,
            width as int,
            height as int,
        ),
{
    let ghost lb = line_bounds(lines@);
    let ghost p = doc_pieces(lb, first_line as int, text_width as int, width as int);
    let mut out: Vec<ScreenLine> = Vec::new();
    let mut d = first_line;
    while d < lines.len() && out.len() < height as usize
        invariant
            lb == line_bounds(lines@),
            p == doc_pieces(lb, first_line as int, text_width as int, width as int),
            forall|k: int| 0 <= k < lines@.len() ==> #[trigger] lines@[k].wf(),
            out@ + doc_pieces(lb, d as int, text_width as int, width as int) == p,
        decreases lines@.len() - d,
    {
        let bounds = lines[d].offsets();
        let ghost before = out@;
        push_line_pieces(d, bounds, text_width, width, &mut out);
        proof {
            assert(lb[d as int] == lines@[d as int].bounds());
            let lp = line_pieces(d as int, lb[d as int], text_width as int, width as int);
            assert(doc_pieces(lb, d as int, text_width as int, width as int) == lp + doc_pieces(
                lb,
                d + 1,
                text_width as int,
                width as int,
            ));
            assert(before + lp + doc_pieces(lb, d + 1, text_width as int, width as int) =~= before + (lp
                + doc_pieces(lb, d + 1, text_width as int, width as int)));
        }
        d += 1;
    }
    proof {
        if d >= lines@.len() {
            assert(doc_pieces(lb, d as int, text_width as int, width as int) =~= Seq::<ScreenLine>::empty());
            assert(out@ =~= p);
        }
    }
    let mut r: Vec<ScreenLine> = Vec::new();
    let mut i: usize = 0;
    let h = height as usize;
    let ghost plan = screen_plan(lb, first_line as int, text_width as int, width as int, height as int);
    while i < h
        invariant
            h == height,
            i <= h,
            plan == screen_plan(lb, first_line as int, text_width as int, width as int, height as int),
            p == doc_pieces(lb, first_line as int, text_width as int, width as int),
            out@.len() >= height || out@ == p,
            forall|j: int| 0 <= j < out@.len() && j < p.len() ==> #[trigger] out@[j] == p[j],
            out@.len() <= p.len(),
            r@ == plan.take(i as int),
        decreases h - i,
    {
        let line = if i < out.len() {
            out[i]
        } else {
            ScreenLine::Tilde
        };
        r.push(line);
        proof {
            assert(plan.take(i + 1) =~= plan.take(i as int).push(line));
        }
        i += 1;
    }
    assert(plan.take(h as int) =~= plan);
    r
}

/// Struct that represents a fim window.
pub struct Window {
    doc: Option<Vec<DocLine>>,
    line_numbering: LineNumbers,
    first_line: usize,
    pos_in_doc: DocPosition,
    raw_window_pos: Position,
    raw_window_size: Size,
    text_start: u16,
    text_width: u16,
    target_x: usize,
    line_properties: Vec<WindowLineProperties>,
}

impl Window {
    /// The document's lines, if the window shows a document.
    pub closed spec fn doc_lines(&self) -> Option<Seq<DocLine>> {
        match self.doc {
            Some(v) => Some(v@),
            None => None,
        }
    }

    /// The kind of line numbers.
    pub closed spec fn numbering(&self) -> LineNumbers {
        self.line_numbering
    }

    /// The index of the first document line on screen.
    pub closed spec fn first_line_view(&self) -> usize {
        self.first_line
    }

    /// The cursor's place in the document.
    pub closed spec fn position(&self) -> DocPosition {
        self.pos_in_doc
    }

    /// The column the cursor keeps to when it moves up and down.
    pub closed spec fn target(&self) -> usize {
        self.target_x
    }

    /// The window's size, line numbers included.
    pub closed spec fn size_view(&self) -> Size {
        self.raw_window_size
    }

    /// The terminal position of the window's top left corner.
    pub closed spec fn origin(&self) -> Position {
        self.raw_window_pos
    }

    /// The width of the line number column.
    pub closed spec fn text_start_view(&self) -> u16 {
        self.text_start
    }

    /// The width left for text.
    pub closed spec fn text_width_view(&self) -> u16 {
        self.text_width
    }

    /// The layout of each document line.
    pub closed spec fn properties(&self) -> Seq<WindowLineProperties> {
        self.line_properties@
    }

    /// A window with a document has at least one line, the cursor on one of them at or below
    /// the first line on screen, one layout per line, and room for text.
    pub closed spec fn wf(&self) -> bool {
        match self.doc {
            Some(v) => {
                &&& v@.len() > 0
                &&& self.pos_in_doc.y < v@.len()
                &&& self.first_line <= self.pos_in_doc.y
                &&& self.line_properties@.len() == v@.len()
                &&& self.text_width > 0
                &&& self.first_line + self.raw_window_size.height <= usize::MAX
            },
            None => true,
        }
    }

    /// A new, full-terminal window with the welcome message, for a terminal of size `size`
    /// (the last terminal line is left for the command line).
    pub fn default(size: Size, numbering: LineNumbers) -> (w: Self)
        requires
            size.height > 1 && size.width > 1,
        ensures
            w.wf(),
            w.doc_lines() is None,
            w.size_view() == (Size { width: size.width, height: (size.height - 1) as u16 }),
            w.text_start_view() == 0,
            w.text_width_view() == size.width - 1,
            w.position() == (DocPosition { x: 0, y: 0 }),
            w.first_line_view() == 0,
            w.numbering() == numbering,
    {
        let raw = Size { width: size.width, height: size.height - 1 };
        Window {
            doc: None,
            line_numbering: numbering,
            first_line: 0,
            pos_in_doc: DocPosition { x: 0, y: 0 },
            raw_window_pos: Position { x: 0, y: 0 },
            raw_window_size: raw,
            text_start: 0,
            text_width: raw.width - 1,
            target_x: 0,
            line_properties: Vec::new(),
        }
    }

    /// A new, full-terminal window showing a document with the lines `lines`, for a terminal
    /// of size `size`.
    pub fn new(lines: Vec<DocLine>, size: Size, numbering: LineNumbers) -> (w: Self)
        requires
            size.height > 1 && size.width > 1,
            lines@.len() > 0,
            text_attrs(numbering, size.width, lines@.len() as usize).1 > 0,
        ensures
            w.wf(),
            w.doc_lines() == Some(lines@),
            w.size_view() == (Size { width: size.width, height: (size.height - 1) as u16 }),
            w.text_start_view() == text_attrs(numbering, size.width, lines@.len() as usize).0,
            w.text_width_view() == text_attrs(numbering, size.width, lines@.len() as usize).1,
            w.properties() == line_properties_of(lines@, w.text_width_view()),
            w.position() == (DocPosition { x: 0, y: 0 }),
            w.first_line_view() == 0,
            w.numbering() == numbering,
    {
        let raw = Size { width: size.width, height: size.height - 1 };
        let (text_start, text_width) = compute_text_attrs(numbering, &raw, lines.len());
        let line_properties = Self::setup_line_properties(&lines, text_width);
        Window {
            doc: Some(lines),
            line_numbering: numbering,
            first_line: 0,
            pos_in_doc: DocPosition { x: 0, y: 0 },
            raw_window_pos: Position { x: 0, y: 0 },
            raw_window_size: raw,
            text_start,
            text_width,
            target_x: 0,
            line_properties,
        }
    }

    fn setup_line_properties(lines: &Vec<DocLine>, text_width: u16) -> (r: Vec<WindowLineProperties>)
        requires
            text_width > 0,
        ensures
            r@ == line_properties_of(lines@, text_width),
    {
        let mut r: Vec<WindowLineProperties> = Vec::new();
        let w = text_width as usize;
        let mut k: usize = 0;
        while k < lines.len()
            invariant
                k <= lines@.len(),
                w == text_width,
                w > 0,
                r@ == line_properties_of(lines@, text_width).take(k as int),
            decreases lines@.len() - k,
        {
            let len = lines[k].length;
            let rem = (len % w) as u16;
            let props = WindowLineProperties { lines: div_ceil(len, text_width), graphemes: rem };
            r.push(props);
            assert(line_properties_of(lines@, text_width).take(k + 1) =~= line_properties_of(
                lines@,
                text_width,
            ).take(k as int).push(props));
            k += 1;
        }
        assert(line_properties_of(lines@, text_width).take(lines@.len() as int) =~= line_properties_of(
            lines@,
            text_width,
        ));
        r
    }

    /// The layout of each document line.
    pub fn line_properties(&self) -> (r: &Vec<WindowLineProperties>)
        ensures
            r@ == self.properties(),
    {
        &self.line_properties
    }

    /// The index of the first document line on screen.
    pub fn first_line(&self) -> (r: usize)
        ensures
            r == self.first_line_view(),
    {
        self.first_line
    }

    /// The cursor's place in the document.
    pub fn pos_in_doc(&self) -> (r: DocPosition)
        ensures
            r == self.position(),
    {
        self.pos_in_doc
    }

    /// The width of the line number column and the width left for text.
    pub fn text_area(&self) -> (r: (u16, u16))
        ensures
            r == (self.text_start_view(), self.text_width_view()),
    {
        (self.text_start, self.text_width)
    }

    /// What each line of the window shows of a document whose lines are `lines` (the text
    /// of the window's document lines), from the window's first line on.
    pub fn screen_lines(&self, lines: &Vec<Buffer>) -> (r: Vec<ScreenLine>)
        requires
            forall|k: int| 0 <= k < lines@.len() ==> #[trigger] lines@[k].wf(),
        ensures
            r@ == screen_plan(
                line_bounds(lines@),
                self.first_line_view() as int,
                self.text_width_view() as int,
                self.size_view().width as int,
                self.size_view().height as int,
            ),
    {
        document_screen(
            lines,
            self.first_line,
            self.text_width,
            self.raw_window_size.width,
            self.raw_window_size.height,
        )
    }

    /// The line number column of the window line `line`; `None` where counting the window
    /// lines down to it passes the range of `u16`.
    pub fn line_number(&self, line: u16) -> (r: Option<LineNumberCell>)
        requires
            self.wf(),
            self.doc_lines() is Some,
        ensures
            match window_line_type(
                self.properties(),
                self.first_line_view() as int,
                self.doc_lines()->0.len() as int,
                0,
                line as int,
            ) {
                None => r is None,
                Some(WindowLineType::WrappedLine) => r matches Some(LineNumberCell::Blank),
                Some(WindowLineType::Tilde) => r matches Some(LineNumberCell::Tilde),
                Some(WindowLineType::DocLine(d)) => r matches Some(LineNumberCell::Number(s)) && s@
                    == line_number_spec(
                    self.numbering(),
                    d as nat,
                    self.position().y as nat,
                    self.text_start_view() as nat,
                ),
            },
    {
        let count = match &self.doc {
            Some(v) => v.len(),
            None => 0,
        };
        proof {
            lemma_window_line_in_doc(self.line_properties@, self.first_line as int, count as int, 0, line as int);
        }
        match window_to_doc(&self.line_properties, self.first_line, count, line) {
            None => None,
            Some(WindowLineType::WrappedLine) => Some(LineNumberCell::Blank),
            Some(WindowLineType::Tilde) => Some(LineNumberCell::Tilde),
            Some(WindowLineType::DocLine(d)) => Some(
                LineNumberCell::Number(
                    line_number_text(self.line_numbering, d, self.pos_in_doc.y, self.text_start),
                ),
            ),
        }
    }

    /// The window lines on which line numbers are drawn: the first window line of each
    /// document line on screen, then each line past the end of the document.
    pub fn number_rows(&self) -> (r: Vec<u16>)
        requires
            self.wf(),
            self.doc_lines() is Some,
        ensures
            r@ == number_rows(
                self.properties(),
                self.first_line_view() as int,
                self.doc_lines()->0.len() as int,
                0,
                self.size_view().height as int,
            ),
    {
        let count = match &self.doc {
            Some(v) => v.len(),
            None => 0,
        };
        let height = self.raw_window_size.height;
        let ghost props = self.line_properties@;
        let ghost first = self.first_line as int;
        let mut rows: Vec<u16> = Vec::new();
        let mut window_line: u16 = 0;
        let mut doc_line = self.first_line;
        while window_line < height && doc_line < count
            invariant
                count == self.line_properties@.len(),
                props == self.line_properties@,
                window_line <= height,
                rows@ + number_rows(props, doc_line as int, count as int, window_line as int, height as int)
                    == number_rows(props, first, count as int, 0, height as int),
            decreases count - doc_line,
        {
            let lines = match self.line_properties[doc_line].lines_u16() {
                Some(l) => l,
                None => u16::MAX,
            };
            let step = if lines < height - window_line {
                lines
            } else {
                height - window_line
            };
            let ghost before = rows@;
            rows.push(window_line);
            proof {
                assert(before.push(window_line) + number_rows(props, doc_line + 1, count as int, window_line + step, height as int) =~= before + (seq![window_line] + number_rows(props, doc_line + 1, count as int, window_line + step, height as int)));
            }
            window_line = window_line + step;
            doc_line = doc_line + 1;
        }
        while window_line < height
            invariant
                count == self.line_properties@.len(),
                props == self.line_properties@,
                window_line <= height,
                window_line < height ==> doc_line >= count,
                rows@ + number_rows(props, doc_line as int, count as int, window_line as int, height as int)
                    == number_rows(props, first, count as int, 0, height as int),
            decreases height - window_line,
        {
            let ghost before = rows@;
            rows.push(window_line);
            proof {
                assert(before.push(window_line) + number_rows(props, doc_line as int, count as int, window_line + 1, height as int) =~= before + (seq![window_line] + number_rows(props, doc_line as int, count as int, window_line + 1, height as int)));
            }
            window_line = window_line + 1;
        }
        assert(rows@ + Seq::<u16>::empty() =~= rows@);
        rows
    }

    /// Update the window's options (the kind of line numbers).
    pub fn update_options(&mut self, numbering: LineNumbers)
        requires
            old(self).wf(),
        ensures
            final(self).wf(),
            final(self).numbering() == numbering,
            final(self).doc_lines() == old(self).doc_lines(),
            final(self).position() == old(self).position(),
            final(self).first_line_view() == old(self).first_line_view(),
    {
        self.line_numbering = numbering;
    }

    /// Move the cursor one character left, if possible.
    pub fn move_left(&mut self) -> (a: WindowAction)
        requires
            old(self).wf(),
        ensures
            final(self).wf(),
            final(self).doc_lines() == old(self).doc_lines(),
            final(self).first_line_view() == old(self).first_line_view(),
            final(self).numbering() == old(self).numbering(),
            if old(self).doc_lines() is Some && old(self).position().x > 0 {
                &&& final(self).position() == (DocPosition {
                    x: (old(self).position().x - 1) as usize,
                    y: old(self).position().y,
                })
                &&& final(self).target() == final(self).position().x
                &&& a == WindowAction::Move
            } else {
                final(self).position() == old(self).position() && final(self).target() == old(
                    self,
                ).target() && a == WindowAction::Nothing
            },
    {
        if self.doc.is_none() {
            return WindowAction::Nothing;
        }
        if self.pos_in_doc.x > 0 {
            self.pos_in_doc.x = self.pos_in_doc.x - 1;
            self.target_x = self.pos_in_doc.x;
            WindowAction::Move
        } else {
            WindowAction::Nothing
        }
    }

    /// Move the cursor one character right, if the line's text (counted in bytes) goes on.
    pub fn move_right(&mut self) -> (a: WindowAction)
        requires
            old(self).wf(),
        ensures
            final(self).wf(),
            final(self).doc_lines() == old(self).doc_lines(),
            final(self).first_line_view() == old(self).first_line_view(),
            final(self).numbering() == old(self).numbering(),
            if old(self).doc_lines() is Some && old(self).position().x + 1 < old(
                self,
            ).doc_lines()->0[old(self).position().y as int].bytes {
                &&& final(self).position() == (DocPosition {
                    x: (old(self).position().x + 1) as usize,
                    y: old(self).position().y,
                })
                &&& final(self).target() == final(self).position().x
                &&& a == WindowAction::Move
            } else {
                final(self).position() == old(self).position() && final(self).target() == old(
                    self,
                ).target() && a == WindowAction::Nothing
            },
    {
        match &self.doc {
            None => WindowAction::Nothing,
            Some(lines) => {
                let bytes = lines[self.pos_in_doc.y].bytes;
                if self.pos_in_doc.x < bytes && self.pos_in_doc.x + 1 < bytes {
                    self.pos_in_doc.x = self.pos_in_doc.x + 1;
                    self.target_x = self.pos_in_doc.x;
                    WindowAction::Move
                } else {
                    WindowAction::Nothing
                }
            },
        }
    }

    /// Move the cursor one line up, if possible, to the target column or the end of the
    /// line, whichever comes first; the window scrolls when the cursor leaves it.
    pub fn move_up(&mut self) -> (a: WindowAction)
        requires
            old(self).wf(),
        ensures
            final(self).wf(),
            final(self).doc_lines() == old(self).doc_lines(),
            final(self).numbering() == old(self).numbering(),
            final(self).target() == old(self).target(),
            if old(self).doc_lines() is Some && old(self).position().y > 0 {
                let y = (old(self).position().y - 1) as usize;
                let len = old(self).doc_lines()->0[y as int].length;
                &&& final(self).position() == (DocPosition {
                    x: if old(self).target() < len {
                        old(self).target()
                    } else {
                        len
                    },
                    y,
                })
                &&& if y + 1 == old(self).first_line_view() {
                    final(self).first_line_view() == old(self).first_line_view() - 1 && a
                        == WindowAction::RenderMove
                } else {
                    final(self).first_line_view() == old(self).first_line_view() && a == if old(
                        self,
                    ).numbering() == LineNumbers::Relative {
                        WindowAction::LineNumbersMove
                    } else {
                        WindowAction::Move
                    }
                }
            } else {
                final(self).position() == old(self).position() && final(self).first_line_view()
                    == old(self).first_line_view() && a == WindowAction::Nothing
            },
    {
        match &self.doc {
            None => WindowAction::Nothing,
            Some(lines) => {
                if self.pos_in_doc.y == 0 {
                    return WindowAction::Nothing;
                }
                let y = self.pos_in_doc.y - 1;
                let len = lines[y].length;
                self.pos_in_doc.y = y;
                self.pos_in_doc.x = if self.target_x < len {
                    self.target_x
                } else {
                    len
                };
                if y + 1 == self.first_line {
                    self.first_line = self.first_line - 1;
                    WindowAction::RenderMove
                } else if self.line_numbering == LineNumbers::Relative {
                    WindowAction::LineNumbersMove
                } else {
                    WindowAction::Move
                }
            },
        }
    }

    /// Move the cursor one line down, if possible, to the target column or the end of the
    /// line, whichever comes first; the window scrolls when the cursor leaves it.
    pub fn move_down(&mut self) -> (a: WindowAction)
        requires
            old(self).wf(),
        ensures
            final(self).wf(),
            final(self).doc_lines() == old(self).doc_lines(),
            final(self).numbering() == old(self).numbering(),
            final(self).target() == old(self).target(),
            if old(self).doc_lines() is Some && old(self).position().y + 1 < old(
                self,
            ).doc_lines()->0.len() {
                let y = (old(self).position().y + 1) as usize;
                let len = old(self).doc_lines()->0[y as int].length;
                &&& final(self).position() == (DocPosition {
                    x: if old(self).target() < len {
                        old(self).target()
                    } else {
                        len
                    },
                    y,
                })
                &&& if y == old(self).first_line_view() + old(self).size_view().height {
                    final(self).first_line_view() == old(self).first_line_view() + 1 && a
                        == WindowAction::RenderMove
                } else {
                    final(self).first_line_view() == old(self).first_line_view() && a == if old(
                        self,
                    ).numbering() == LineNumbers::Relative {
                        WindowAction::LineNumbersMove
                    } else {
                        WindowAction::Move
                    }
                }
            } else {
                final(self).position() == old(self).position() && final(self).first_line_view()
                    == old(self).first_line_view() && a == WindowAction::Nothing
            },
    {
        match &self.doc {
            None => WindowAction::Nothing,
            Some(lines) => {
                let n = lines.len();
                if self.pos_in_doc.y + 1 >= n {
                    return WindowAction::Nothing;
                }
                let y = self.pos_in_doc.y + 1;
                let len = lines[y].length;
                self.pos_in_doc.y = y;
                self.pos_in_doc.x = if self.target_x < len {
                    self.target_x
                } else {
                    len
                };
                if y == self.first_line + self.raw_window_size.height as usize {
                    self.first_line = self.first_line + 1;
                    WindowAction::RenderMove
                } else if self.line_numbering == LineNumbers::Relative {
                    WindowAction::LineNumbersMove
                } else {
                    WindowAction::Move
                }
            },
        }
    }

    /// Convert window-text coordinates (`(0, 0)` is the first character of content the
    /// window shows) into terminal coordinates.
    pub fn to_term(&self, x: u16, y: u16) -> (p: Position)
        requires
            x < self.text_width_view() && y < self.size_view().height,
            x + self.origin().x + self.text_start_view() <= u16::MAX,
            y + self.origin().y <= u16::MAX,
        ensures
            p == (Position {
                x: (x + self.origin().x + self.text_start_view()) as u16,
                y: (y + self.origin().y) as u16,
            }),
    {
        Position { x: x + self.raw_window_pos.x + self.text_start, y: y + self.raw_window_pos.y }
    }

    /// Where the cursor stands in window-text coordinates, if the window shows it.
    pub fn to_window_text(&self) -> (r: Option<Position>)
        requires
            self.wf(),
            self.doc_lines() is Some,
            self.position().y >= self.first_line_view() ==> lines_between(
                self.properties(),
                self.first_line_view() as int,
                self.position().y as int,
            ) + div_ceil_spec(self.position().x as int, self.text_width_view() as int)
                <= usize::MAX,
        ensures
            ({
                let pos = self.position();
                let w = self.text_width_view() as int;
                let y = lines_between(self.properties(), self.first_line_view() as int, pos.y as int)
                    + div_ceil_spec(pos.x as int, w) - 1;
                let x = (pos.x as int) % w;
                if pos.y < self.first_line_view() || y >= self.size_view().height || x >= w {
                    r is None
                } else {
                    r == Some(Position { x: x as u16, y: y as u16 })
                }
            }),
    {
        if self.pos_in_doc.y < self.first_line {
            return None;
        }
        let lines_from_line = div_ceil(self.pos_in_doc.x, self.text_width);
        let x = (self.pos_in_doc.x % self.text_width as usize) as u16;
        let ghost props = self.line_properties@;
        let ghost total = lines_between(props, self.first_line as int, self.pos_in_doc.y as int);
        let mut y: usize = 0;
        let mut line = self.first_line;
        while line < self.pos_in_doc.y
            invariant
                self.wf(),
                props == self.line_properties@,
                self.first_line <= line <= self.pos_in_doc.y,
                self.pos_in_doc.y < props.len(),
                y + lines_between(props, line as int, self.pos_in_doc.y as int) == total,
                total <= usize::MAX,
            decreases self.pos_in_doc.y - line,
        {
            proof {
                assert(lines_between(props, line + 1, line + 1) == 0);
                assert(lines_between(props, line as int, line + 1) == props[line as int].lines);
                lemma_lines_between_split(props, line as int, line + 1, self.pos_in_doc.y as int);
                lemma_lines_between_nonneg(props, line + 1, self.pos_in_doc.y as int);
            }
            y = y + self.line_properties[line].lines;
            line = line + 1;
        }
        assert(lines_between(props, line as int, self.pos_in_doc.y as int) == 0);
        assert(y == total);
        proof {
            let q = self.pos_in_doc.x as int;
            let d = self.text_width as int;
            if q != 0 {
                assert((q + d - 1) / d >= 1) by (nonlinear_arith)
                    requires
                        q >= 1,
                        d >= 1,
                ;
            }
        }
        assert(lines_from_line >= 1);
        let y = y + lines_from_line - 1;
        if y >= self.raw_window_size.height as usize || x >= self.text_width {
            None
        } else {
            Some(Position { x, y: y as u16 })
        }
    }
}

proof fn lemma_lines_between_split(props: Seq<WindowLineProperties>, a: int, b: int, c: int)
    requires
        a <= b <= c,
    ensures
        lines_between(props, a, c) == lines_between(props, a, b) + lines_between(props, b, c),
    decreases b - a,
{
    if a < b {
        lemma_lines_between_split(props, a + 1, b, c);
    }
}

proof fn lemma_lines_between_nonneg(props: Seq<WindowLineProperties>, from: int, to: int)
    ensures
        lines_between(props, from, to) >= 0,
    decreases to - from,
{
    if from < to {
        lemma_lines_between_nonneg(props, from + 1, to);
    }
}

/// In relative numbering every line but the cursor's is labeled with how many lines away it
/// is: the line `k` below the cursor reads the same as the line `k` above it, and both read
/// as the `k`-th line of the document does in absolute numbering; the cursor's own line keeps
/// its absolute number (left-aligned).
pub proof fn lemma_relative_numbers(pos_y: nat, k: nat, w: nat)
    requires
        k >= 1,
    ensures
        line_number_spec(LineNumbers::Relative, pos_y + k, pos_y, w) == line_number_spec(
            LineNumbers::On,
            (k - 1) as nat,
            pos_y,
            w,
        ),
        pos_y >= k ==> line_number_spec(LineNumbers::Relative, (pos_y - k) as nat, pos_y, w)
            == line_number_spec(LineNumbers::Relative, pos_y + k, pos_y, w),
        line_number_spec(LineNumbers::Relative, pos_y, pos_y, w) == left_aligned(
            decimal(pos_y + 1),
            w,
        ),
{
    assert((pos_y + k - pos_y) as nat == (k - 1) as nat + 1);
}

} // verus!

//! Character-level text helpers that the parsers of the configuration language share.
//!
//! Text is handled as sequences of `char`; each helper states, over `Seq<char>`, what the
//! corresponding method of `str` computes.
use vstd::prelude::*;

verus! {

/// The characters of `s`, in order.
pub fn chars_of(s: &str) -> (v: Vec<char>)
    ensures
        v@ == s@,
{
    let mut v: Vec<char> = Vec::new();
    for c in it: s.chars()
        invariant
            v@ == it.seq().take(it.index() as int),
            it.seq() == s@,
    {
        v.push(c);
    }
    v
}

/// Appends a character to a `String` (std's `String::push`).
#[verifier::external_body]
pub(crate) fn push_char(s: &mut String, c: char)
    ensures
        final(s)@ == old(s)@.push(c),
{
    s.push(c);
}

/// Appends the text of `t` to `s` (what `String::push_str` does).
pub fn append_str(s: &mut String, t: &str)
    ensures
        final(s)@ == old(s)@ + t@,
{
    let ghost start = s@;
    for c in it: t.chars()
        invariant
            it.seq() == t@,
            s@ == start + it.seq().take(it.index() as int),
    {
        push_char(s, c);
        assert(it.seq().take(it.index() + 1) =~= it.seq().take(it.index() as int).push(c));
    }
    assert(t@.take(t@.len() as int) =~= t@);
}

/// The decimal digit of `d` (below ten).
pub open spec fn digit_char(d: int) -> char {
    ('0' as u32 + d) as char
}

/// The decimal representation of `n`, without leading zeros.
pub open spec fn decimal(n: nat) -> Seq<char>
    decreases n,
{
    if n < 10 {
        seq![digit_char(n as int)]
    } else {
        decimal(n / 10).push(digit_char((n % 10) as int))
    }
}

/// The decimal representation of `n` (what formatting a `usize` with `{}` gives).
pub fn decimal_string(n: usize) -> (s: String)
    ensures
        s@ == decimal(n as nat),
    decreases n,
{
    if n < 10 {
        let mut s = String::new();
        let c = char_of_digit(n as u8);
        push_char(&mut s, c);
        assert(s@ =~= decimal(n as nat));
        s
    } else {
        let mut s = decimal_string(n / 10);
        let c = char_of_digit((n % 10) as u8);
        push_char(&mut s, c);
        s
    }
}

fn char_of_digit(d: u8) -> (c: char)
    requires
        d < 10,
    ensures
        c == digit_char(d as int),
{
    match d {
        0 => '0',
        1 => '1',
        2 => '2',
        3 => '3',
        4 => '4',
        5 => '5',
        6 => '6',
        7 => '7',
        8 => '8',
        _ => '9',
    }
}

/// A `String` holding the characters of `v`.
pub fn string_of(v: &[char]) -> (s: String)
    ensures
        s@ == v@,
{
    let mut s = String::new();
    let mut i: usize = 0;
    while i < v.len()
        invariant
            i <= v@.len(),
            s@ == v@.take(i as int),
        decreases v@.len() - i,
    {
        push_char(&mut s, v[i]);
        assert(v@.take(i + 1) =~= v@.take(i as int).push(v@[i as int]));
        i += 1;
    }
    assert(v@.take(v@.len() as int) =~= v@);
    s
}

/// Whether `c` has the Unicode `White_Space` property (what `char::is_whitespace` tests).
pub open spec fn is_whitespace(c: char) -> bool {
    let u = c as u32;
    (0x9 <= u <= 0xd) || u == 0x20 || u == 0x85 || u == 0xa0 || u == 0x1680 || (0x2000 <= u
        <= 0x200a) || u == 0x2028 || u == 0x2029 || u == 0x202f || u == 0x205f || u == 0x3000
}

/// Whether `c` is whitespace, as `char::is_whitespace` tests it.
pub fn is_whitespace_char(c: char) -> (b: bool)
    ensures
        b == is_whitespace(c),
{
    let u = c as u32;
    (0x9 <= u && u <= 0xd) || u == 0x20 || u == 0x85 || u == 0xa0 || u == 0x1680 || (0x2000
        <= u && u <= 0x200a) || u == 0x2028 || u == 0x2029 || u == 0x202f || u == 0x205f || u
        == 0x3000
}

/// `s` without its leading whitespace (`str::trim_start`).
pub open spec fn trim_start(s: Seq<char>) -> Seq<char>
    decreases s.len(),
{
    if s.len() > 0 && is_whitespace(s[0]) {
        trim_start(s.drop_first())
    } else {
        s
    }
}

/// `s` without its trailing whitespace (`str::trim_end`).
pub open spec fn trim_end(s: Seq<char>) -> Seq<char>
    decreases s.len(),
{
    if s.len() > 0 && is_whitespace(s.last()) {
        trim_end(s.drop_last())
    } else {
        s
    }
}

/// `s` without leading and trailing whitespace (`str::trim`).
pub open spec fn trim(s: Seq<char>) -> Seq<char> {
    trim_end(trim_start(s))
}

proof fn lemma_trim_start_skip(s: Seq<char>, i: int)
    requires
        0 <= i <= s.len(),
        forall|j: int| 0 <= j < i ==> is_whitespace(#[trigger] s[j]),
    ensures
        trim_start(s) == trim_start(s.skip(i)),
    decreases i,
{
    if i > 0 {
        assert(s.drop_first().skip(i - 1) =~= s.skip(i));
        lemma_trim_start_skip(s.drop_first(), i - 1);
    } else {
        assert(s.skip(0) =~= s);
    }
}

proof fn lemma_trim_end_take(s: Seq<char>, i: int)
    requires
        0 <= i <= s.len(),
        forall|j: int| i <= j < s.len() ==> is_whitespace(#[trigger] s[j]),
    ensures
        trim_end(s) == trim_end(s.take(i)),
    decreases s.len() - i,
{
    if i < s.len() {
        assert(s.drop_last().take(i) =~= s.take(i));
        lemma_trim_end_take(s.drop_last(), i);
    } else {
        assert(s.take(i) =~= s);
    }
}

/// The characters of `s` without leading whitespace.
pub fn trim_start_chars(s: &[char]) -> (r: Vec<char>)
    ensures
        r@ == trim_start(s@),
{
    let mut i: usize = 0;
    while i < s.len() && is_whitespace_char(s[i])
        invariant
            i <= s@.len(),
            forall|j: int| 0 <= j < i ==> is_whitespace(#[trigger] s@[j]),
        decreases s@.len() - i,
    {
        i += 1;
    }
    proof {
        lemma_trim_start_skip(s@, i as int);
    }
    let r = subslice(s, i, s.len());
    assert(r@ =~= s@.skip(i as int));
    r
}

/// The characters of `s` without trailing whitespace.
pub fn trim_end_chars(s: &[char]) -> (r: Vec<char>)
    ensures
        r@ == trim_end(s@),
{
    let mut i: usize = s.len();
    while i > 0 && is_whitespace_char(s[i - 1])
        invariant
            i <= s@.len(),
            forall|j: int| i <= j < s@.len() ==> is_whitespace(#[trigger] s@[j]),
        decreases i,
    {
        i -= 1;
    }
    proof {
        lemma_trim_end_take(s@, i as int);
    }
    let r = subslice(s, 0, i);
    assert(r@ =~= s@.take(i as int));
    r
}

/// The characters of `s` without leading and trailing whitespace.
pub fn trim_chars(s: &[char]) -> (r: Vec<char>)
    ensures
        r@ == trim(s@),
{
    let t = trim_start_chars(s);
    trim_end_chars(t.as_slice())
}

/// A copy of `s[lo..hi]`.
pub fn subslice(s: &[char], lo: usize, hi: usize) -> (r: Vec<char>)
    requires
        lo <= hi <= s@.len(),
    ensures
        r@ == s@.subrange(lo as int, hi as int),
{
    let mut r: Vec<char> = Vec::new();
    let mut i = lo;
    while i < hi
        invariant
            lo <= i <= hi <= s@.len(),
            r@ == s@.subrange(lo as int, i as int),
        decreases hi - i,
    {
        r.push(s[i]);
        assert(s@.subrange(lo as int, i + 1) =~= s@.subrange(lo as int, i as int).push(
            s@[i as int],
        ));
        i += 1;
    }
    r
}

/// Whether `s` starts with `p`.
pub open spec fn starts_with(s: Seq<char>, p: Seq<char>) -> bool {
    p.len() <= s.len() && s.take(p.len() as int) == p
}

/// Whether `s` starts with `p` (`str::starts_with`).
pub fn starts_with_chars(s: &[char], p: &[char]) -> (b: bool)
    ensures
        b == starts_with(s@, p@),
{
    if p.len() > s.len() {
        return false;
    }
    let mut i: usize = 0;
    while i < p.len()
        invariant
            p@.len() <= s@.len(),
            i <= p@.len(),
            forall|j: int| 0 <= j < i ==> s@[j] == p@[j],
        decreases p@.len() - i,
    {
        if s[i] != p[i] {
            assert(s@.take(p@.len() as int)[i as int] != p@[i as int]);
            return false;
        }
        i += 1;
    }
    assert(s@.take(p@.len() as int) =~= p@);
    true
}

/// The index of the first `c` in `s`, or `s.len()` when `s` has none.
pub open spec fn first_index(s: Seq<char>, c: char) -> int
    decreases s.len(),
{
    if s.len() == 0 {
        0
    } else if s[0] == c {
        0
    } else {
        1 + first_index(s.drop_first(), c)
    }
}

/// What characterises [`first_index`]: no `c` before it, and `c` at it unless it is the end.
pub proof fn lemma_first_index(s: Seq<char>, c: char)
    ensures
        0 <= first_index(s, c) <= s.len(),
        first_index(s, c) < s.len() ==> s[first_index(s, c)] == c,
        forall|j: int| 0 <= j < first_index(s, c) ==> s[j] != c,
    decreases s.len(),
{
    if s.len() > 0 && s[0] != c {
        lemma_first_index(s.drop_first(), c);
        assert forall|j: int| 0 <= j < first_index(s, c) implies s[j] != c by {
            if j > 0 {
                assert(s[j] == s.drop_first()[j - 1]);
            }
        }
    }
}

proof fn lemma_first_index_unique(s: Seq<char>, c: char, k: int)
    requires
        0 <= k <= s.len(),
        k < s.len() ==> s[k] == c,
        forall|j: int| 0 <= j < k ==> s[j] != c,
    ensures
        first_index(s, c) == k,
    decreases s.len(),
{
    if s.len() > 0 && k > 0 {
        assert(s[0] != c);
        assert forall|j: int| 0 <= j < k - 1 implies s.drop_first()[j] != c by {
            assert(s.drop_first()[j] == s[j + 1]);
        }
        lemma_first_index_unique(s.drop_first(), c, k - 1);
    }
}

/// The index of the first `c` in `s[from..]`, counted from the start of `s`, or `s.len()`.
pub fn find_char(s: &[char], c: char, from: usize) -> (r: usize)
    requires
        from <= s@.len(),
    ensures
        r == from + first_index(s@.skip(from as int), c),
        from <= r <= s@.len(),
{
    let mut i = from;
    while i < s.len() && s[i] != c
        invariant
            from <= i <= s@.len(),
            forall|j: int| from <= j < i ==> s@[j] != c,
        decreases s@.len() - i,
    {
        i += 1;
    }
    proof {
        let t = s@.skip(from as int);
        assert forall|j: int| 0 <= j < i - from implies t[j] != c by {
            assert(t[j] == s@[j + from]);
        }
        lemma_first_index_unique(t, c, i - from);
    }
    i
}

/// The pieces of `s` between the separators `sep` (`str::split` on a `char`); there is always
/// at least one piece.
pub open spec fn split_on(s: Seq<char>, sep: char) -> Seq<Seq<char>>
    decreases s.len(),
{
    let i = first_index(s, sep);
    if i >= s.len() || i < 0 {
        seq![s]
    } else {
        seq![s.take(i)] + split_on(s.skip(i + 1), sep)
    }
}

/// The pieces of `s` between the separators `sep`.
pub fn split_chars(s: &[char], sep: char) -> (r: Vec<Vec<char>>)
    ensures
        r@.map_values(|v: Vec<char>| v@) == split_on(s@, sep),
{
    let mut r: Vec<Vec<char>> = Vec::new();
    let mut start: usize = 0;
    assert(s@.skip(0) =~= s@);
    assert(r@.map_values(|v: Vec<char>| v@) + split_on(s@, sep) =~= split_on(s@, sep));
    loop
        invariant
            start <= s@.len(),
            r@.map_values(|v: Vec<char>| v@) + split_on(s@.skip(start as int), sep) == split_on(
                s@,
                sep,
            ),
        decreases s@.len() - start,
    {
        let i = find_char(s, sep, start);
        let piece = subslice(s, start, i);
        proof {
            let t = s@.skip(start as int);
            lemma_first_index(t, sep);
            assert(piece@ =~= t.take(i - start));
        }
        if i == s.len() {
            let ghost before = r@.map_values(|v: Vec<char>| v@);
            r.push(piece);
            assert(r@.map_values(|v: Vec<char>| v@) =~= before.push(piece@));
            return r;
        }
        let ghost before = r@.map_values(|v: Vec<char>| v@);
        r.push(piece);
        proof {
            let t = s@.skip(start as int);
            assert(t.skip(i - start + 1) =~= s@.skip(i + 1));
            assert(r@.map_values(|v: Vec<char>| v@) =~= before.push(piece@));
            assert(before + split_on(t, sep) == split_on(s@, sep));
            assert(split_on(t, sep) == seq![piece@] + split_on(s@.skip(i + 1), sep));
            assert(before.push(piece@) + split_on(s@.skip(i + 1), sep) =~= before + (seq![piece@]
                + split_on(s@.skip(i + 1), sep)));
        }
        start = i + 1;
    }
}

/// A line without the carriage return that ended it, if it has one.
pub open spec fn strip_cr(l: Seq<char>) -> Seq<char> {
    if l.len() > 0 && l.last() == '\r' {
        l.drop_last()
    } else {
        l
    }
}

/// The lines of `s` (`str::lines`): split at `\n`, a line ended by `\r\n` loses the `\r`, and
/// an empty last line is not a line.
pub open spec fn lines_of(s: Seq<char>) -> Seq<Seq<char>>
    decreases s.len(),
{
    if s.len() == 0 {
        seq![]
    } else {
        let i = first_index(s, '\n');
        if i >= s.len() || i < 0 {
            seq![s]
        } else {
            seq![strip_cr(s.take(i))] + lines_of(s.skip(i + 1))
        }
    }
}

/// The lines of `s`.
pub fn lines(s: &[char]) -> (r: Vec<Vec<char>>)
    ensures
        r@.map_values(|v: Vec<char>| v@) == lines_of(s@),
{
    let mut r: Vec<Vec<char>> = Vec::new();
    let mut start: usize = 0;
    assert(s@.skip(0) =~= s@);
    assert(r@.map_values(|v: Vec<char>| v@) + lines_of(s@) =~= lines_of(s@));
    while start < s.len()
        invariant
            start <= s@.len(),
            r@.map_values(|v: Vec<char>| v@) + lines_of(s@.skip(start as int)) == lines_of(s@),
        decreases s@.len() - start,
    {
        let i = find_char(s, '\n', start);
        let ghost t = s@.skip(start as int);
        proof {
            lemma_first_index(t, '\n');
        }
        let ghost before = r@.map_values(|v: Vec<char>| v@);
        if i == s.len() {
            let piece = subslice(s, start, i);
            assert(piece@ =~= t);
            r.push(piece);
            assert(r@.map_values(|v: Vec<char>| v@) =~= before.push(piece@));
            assert(s@.skip(s@.len() as int) =~= Seq::<char>::empty());
            assert(before + lines_of(t) == lines_of(s@));
            assert(lines_of(t) == seq![t]);
            assert(before.push(piece@) =~= before + seq![t]);
            return r;
        }
        let end = if i > start && s[i - 1] == '\r' { i - 1 } else { i };
        let piece = subslice(s, start, end);
        proof {
            assert(piece@ =~= strip_cr(t.take(i - start)));
            assert(t.skip(i - start + 1) =~= s@.skip(i + 1));
        }
        r.push(piece);
        proof {
            assert(r@.map_values(|v: Vec<char>| v@) =~= before.push(piece@));
            assert(lines_of(t) == seq![piece@] + lines_of(s@.skip(i + 1)));
            assert(before.push(piece@) + lines_of(s@.skip(i + 1)) =~= before + (seq![piece@]
                + lines_of(s@.skip(i + 1))));
        }
        start = i + 1;
    }
    assert(s@.skip(start as int) =~= Seq::<char>::empty());
    assert(r@.map_values(|v: Vec<char>| v@) + Seq::<Seq<char>>::empty() =~= r@.map_values(
        |v: Vec<char>| v@,
    ));
    r
}

/// The index of the first occurrence of `p` in `s`, or -1 when there is none.
pub open spec fn find_seq(s: Seq<char>, p: Seq<char>) -> int
    decreases s.len(),
{
    if s.len() < p.len() {
        -1
    } else if s.take(p.len() as int) == p {
        0
    } else if s.len() == 0 {
        -1
    } else {
        let r = find_seq(s.drop_first(), p);
        if r < 0 {
            -1
        } else {
            r + 1
        }
    }
}

/// Where `p` occurs in `s`, it ends within `s`.
pub proof fn lemma_find_seq_bound(s: Seq<char>, p: Seq<char>)
    ensures
        find_seq(s, p) >= 0 ==> find_seq(s, p) + p.len() <= s.len(),
        find_seq(s, p) >= -1,
    decreases s.len(),
{
    if s.len() >= p.len() && s.take(p.len() as int) != p && s.len() > 0 {
        lemma_find_seq_bound(s.drop_first(), p);
    }
}

proof fn lemma_find_seq_step(s: Seq<char>, p: Seq<char>, i: int)
    requires
        0 <= i,
        p.len() > 0,
        i + p.len() <= s.len(),
        forall|j: int| 0 <= j < i ==> !starts_with(#[trigger] s.skip(j), p),
    ensures
        find_seq(s, p) == if starts_with(s.skip(i), p) {
            i
        } else {
            let r = find_seq(s.skip(i + 1), p);
            if r < 0 {
                -1
            } else {
                r + i + 1
            }
        },
    decreases i,
{
    if i == 0 {
        assert(s.skip(0) =~= s);
        if !starts_with(s, p) {
            assert(s.skip(1) =~= s.drop_first());
        }
    } else {
        assert(!starts_with(s.skip(0), p));
        assert(s.skip(0) =~= s);
        assert forall|j: int| 0 <= j < i - 1 implies !starts_with(
            #[trigger] s.drop_first().skip(j),
            p,
        ) by {
            assert(s.drop_first().skip(j) =~= s.skip(j + 1));
        }
        lemma_find_seq_step(s.drop_first(), p, i - 1);
        assert(s.drop_first().skip(i - 1) =~= s.skip(i));
        assert(s.drop_first().skip(i) =~= s.skip(i + 1));
    }
}

proof fn lemma_find_seq_absent(s: Seq<char>, p: Seq<char>)
    requires
        s.len() < p.len(),
    ensures
        find_seq(s, p) == -1,
{
}

/// Splits `s` at the first occurrence of the non-empty pattern `p` (`str::split_once`).
pub fn split_once_chars(s: &[char], p: &[char]) -> (r: Option<(Vec<char>, Vec<char>)>)
    requires
        p@.len() > 0,
    ensures
        find_seq(s@, p@) < 0 <==> r is None,
        r matches Some((a, b)) ==> ({
            let i = find_seq(s@, p@);
            &&& a@ == s@.take(i)
            &&& b@ == s@.skip(i + p@.len())
        }),
{
    if p.len() > s.len() {
        return None;
    }
    let mut i: usize = 0;
    while i <= s.len() - p.len()
        invariant
            p@.len() > 0,
            p@.len() <= s@.len(),
            i + p@.len() <= s@.len() + 1,
            forall|j: int| 0 <= j < i ==> !starts_with(#[trigger] s@.skip(j), p@),
            find_seq(s@, p@) == if i + p@.len() <= s@.len() {
                find_seq(s@, p@)
            } else {
                -1
            },
        decreases s@.len() - i,
    {
        let tail = subslice(s, i, s.len());
        assert(tail@ =~= s@.skip(i as int));
        if starts_with_chars(tail.as_slice(), p) {
            proof {
                lemma_find_seq_step(s@, p@, i as int);
            }
            let a = subslice(s, 0, i);
            let b = subslice(s, i + p.len(), s.len());
            assert(a@ =~= s@.take(i as int));
            assert(b@ =~= s@.skip(i + p@.len()));
            return Some((a, b));
        }
        proof {
            lemma_find_seq_step(s@, p@, i as int);
            if i + 1 + p@.len() > s@.len() {
                lemma_find_seq_absent(s@.skip(i + 1), p@);
            }
        }
        i += 1;
    }
    None
}

/// Whether two character sequences are equal.
pub fn chars_eq(a: &[char], b: &[char]) -> (r: bool)
    ensures
        r == (a@ == b@),
{
    if a.len() != b.len() {
        return false;
    }
    let mut i: usize = 0;
    while i < a.len()
        invariant
            a@.len() == b@.len(),
            i <= a@.len(),
            forall|j: int| 0 <= j < i ==> a@[j] == b@[j],
        decreases a@.len() - i,
    {
        if a[i] != b[i] {
            return false;
        }
        i += 1;
    }
    assert(a@ =~= b@);
    true
}

/// Whether two strings hold the same text.
pub fn str_eq(a: &str, b: &str) -> (r: bool)
    ensures
        r == (a@ == b@),
{
    let x = chars_of(a);
    let y = chars_of(b);
    chars_eq(x.as_slice(), y.as_slice())
}

} // verus!
